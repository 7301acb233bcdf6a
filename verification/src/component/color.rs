use vstd::prelude::*;

use crate::component::Component;
use crate::token::Color;
use crate::Shell;

verus! {

/// The escape code that starts the given color, wrapped in the shell's
/// zero-width markers so the prompt's width stays right.
pub open spec fn color_code(c: Color, shell: Shell) -> Seq<char> {
    match shell {
        Shell::Zsh => match c {
            Color::Black => "%{\u{1b}[30m%}"@,
            Color::Red => "%{\u{1b}[31m%}"@,
            Color::Green => "%{\u{1b}[32m%}"@,
            Color::Yellow => "%{\u{1b}[33m%}"@,
            Color::Blue => "%{\u{1b}[34m%}"@,
            Color::Magenta => "%{\u{1b}[35m%}"@,
            Color::Cyan => "%{\u{1b}[36m%}"@,
            Color::White => "%{\u{1b}[37m%}"@,
        },
        Shell::Bash => match c {
            Color::Black => "\\[\u{1b}[30m\\]"@,
            Color::Red => "\\[\u{1b}[31m\\]"@,
            Color::Green => "\\[\u{1b}[32m\\]"@,
            Color::Yellow => "\\[\u{1b}[33m\\]"@,
            Color::Blue => "\\[\u{1b}[34m\\]"@,
            Color::Magenta => "\\[\u{1b}[35m\\]"@,
            Color::Cyan => "\\[\u{1b}[36m\\]"@,
            Color::White => "\\[\u{1b}[37m\\]"@,
        },
    }
}

/// A color-start marker always renders: the fragment holding the color's
/// escape code.
pub fn display(color: &Color, shell: &Shell) -> (r: Option<Component>)
    ensures
        r matches Some(f) && (f matches Component::Color(s) && s@ == color_code(*color, *shell)),
{
    let code: &str = match shell {
        Shell::Zsh => match color {
            Color::Black => "%{\u{1b}[30m%}",
            Color::Red => "%{\u{1b}[31m%}",
            Color::Green => "%{\u{1b}[32m%}",
            Color::Yellow => "%{\u{1b}[33m%}",
            Color::Blue => "%{\u{1b}[34m%}",
            Color::Magenta => "%{\u{1b}[35m%}",
            Color::Cyan => "%{\u{1b}[36m%}",
            Color::White => "%{\u{1b}[37m%}",
        },
        Shell::Bash => match color {
            Color::Black => "\\[\u{1b}[30m\\]",
            Color::Red => "\\[\u{1b}[31m\\]",
            Color::Green => "\\[\u{1b}[32m\\]",
            Color::Yellow => "\\[\u{1b}[33m\\]",
            Color::Blue => "\\[\u{1b}[34m\\]",
            Color::Magenta => "\\[\u{1b}[35m\\]",
            Color::Cyan => "\\[\u{1b}[36m\\]",
            Color::White => "\\[\u{1b}[37m\\]",
        },
    };
    Some(Component::Color(code.to_owned()))
}

} // verus!
