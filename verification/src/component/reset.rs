use vstd::prelude::*;

use crate::component::Component;
use crate::Shell;

verus! {

/// The escape code that resets all colors, wrapped in the shell's zero-width
/// markers.
pub open spec fn reset_code(shell: Shell) -> Seq<char> {
    match shell {
        Shell::Zsh => "%{\u{1b}[0m%}"@,
        Shell::Bash => "\\[\u{1b}[0m\\]"@,
    }
}

/// A color-reset marker always renders: the fragment holding the reset code.
pub fn display(shell: &Shell) -> (r: Option<Component>)
    ensures
        r matches Some(f) && (f matches Component::ColorReset(s) && s@ == reset_code(*shell)),
{
    let code: &str = match shell {
        Shell::Zsh => "%{\u{1b}[0m%}",
        Shell::Bash => "\\[\u{1b}[0m\\]",
    };
    Some(Component::ColorReset(code.to_owned()))
}

} // verus!
