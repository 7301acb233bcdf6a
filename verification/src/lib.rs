use vstd::prelude::*;

pub mod component;
pub mod parser;
pub mod token;

use crate::token::str_eq;

verus! {

/// The shells the prompt can be rendered for.
#[derive(Clone, Copy, Debug, PartialEq, Eq, Structural)]
pub enum Shell {
    Zsh,
    Bash,
}

impl core::str::FromStr for Shell {
    type Err = &'static str;

    fn from_str(input: &str) -> Result<Shell, &'static str> {
        if str_eq(input, "zsh") {
            Ok(Shell::Zsh)
        } else if str_eq(input, "bash") {
            Ok(Shell::Bash)
        } else {
            Err("valid options are: bash, zsh")
        }
    }
}

/// The arguments of one prompt rendering: the job-count string, the shell to
/// render for, and the template.
#[derive(Debug, PartialEq)]
pub struct Run {
    pub jobs: String,
    pub shell: Shell,
    pub config: String,
}

impl Run {
    /// The job-count string, with the empty string and the placeholder that
    /// stands for "no jobs" both mapped to absence.
    pub fn jobs(&self) -> (r: Option<String>)
        ensures
            (self.jobs@.len() == 0 || self.jobs@ == "__empty__"@) <==> r is None,
            r matches Some(v) ==> v@ == self.jobs@,
    {
        if self.jobs.as_str().unicode_len() == 0 || str_eq(self.jobs.as_str(), "__empty__") {
            None
        } else {
            Some(self.jobs.clone())
        }
    }
}

} // verus!
