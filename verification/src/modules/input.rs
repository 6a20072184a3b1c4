//! How the interactive session reads a user's answers.
use vstd::prelude::*;

verus! {

/// The answer that ends the session at any prompt.
pub open spec fn is_exit_text(s: Seq<char>) -> bool {
    s == seq!['e', 'x', 'i', 't']
}

/// What a yes/no answer means: `y` or `Y` is yes, `n` or `N` is no, and
/// anything else is no answer.
pub open spec fn yes_no_of(s: Seq<char>) -> Option<bool> {
    if s == seq!['y'] || s == seq!['Y'] {
        Some(true)
    } else if s == seq!['n'] || s == seq!['N'] {
        Some(false)
    } else {
        None
    }
}

/// The changes a user can make after a result is shown.
#[derive(Debug, Clone, Copy, PartialEq, Eq, Structural)]
pub enum MenuAction {
    ChangeTargetDeltaV,
    ChangeMass,
    ChangeMinimumTwr,
    ChangeMaximumTwr,
}

/// The menu entry an answer picks: `1` to `4`, in the order of the menu.
pub open spec fn menu_action_of(s: Seq<char>) -> Option<MenuAction> {
    if s == seq!['1'] {
        Some(MenuAction::ChangeTargetDeltaV)
    } else if s == seq!['2'] {
        Some(MenuAction::ChangeMass)
    } else if s == seq!['3'] {
        Some(MenuAction::ChangeMinimumTwr)
    } else if s == seq!['4'] {
        Some(MenuAction::ChangeMaximumTwr)
    } else {
        None
    }
}

/// The only character of `s`, if it has exactly one.
fn single_char(s: &str) -> (r: Option<char>)
    ensures
        match r {
            Some(c) => s@ == seq![c],
            None => s@.len() != 1,
        },
{
    if s.unicode_len() == 1 {
        let c = s.get_char(0);
        assert(s@ =~= seq![c]);
        Some(c)
    } else {
        None
    }
}

/// Whether an answer asks to end the session.
pub fn is_exit(answer: &str) -> (r: bool)
    ensures
        r == is_exit_text(answer@),
{
    if answer.unicode_len() != 4 {
        return false;
    }
    let r = answer.get_char(0) == 'e' && answer.get_char(1) == 'x' && answer.get_char(2) == 'i'
        && answer.get_char(3) == 't';
    if r {
        assert(answer@ =~= seq!['e', 'x', 'i', 't']);
    }
    r
}

/// Reads a yes/no answer (see `yes_no_of`).
pub fn yes_no(answer: &str) -> (r: Option<bool>)
    ensures
        r == yes_no_of(answer@),
{
    match single_char(answer) {
        Some(c) => {
            if c == 'y' || c == 'Y' {
                Some(true)
            } else if c == 'n' || c == 'N' {
                Some(false)
            } else {
                assert(answer@[0] == c);
                None
            }
        },
        None => None,
    }
}

/// Reads a menu choice (see `menu_action_of`).
pub fn menu_action(answer: &str) -> (r: Option<MenuAction>)
    ensures
        r == menu_action_of(answer@),
{
    match single_char(answer) {
        Some(c) => {
            assert(answer@[0] == c);
            if c == '1' {
                Some(MenuAction::ChangeTargetDeltaV)
            } else if c == '2' {
                Some(MenuAction::ChangeMass)
            } else if c == '3' {
                Some(MenuAction::ChangeMinimumTwr)
            } else if c == '4' {
                Some(MenuAction::ChangeMaximumTwr)
            } else {
                None
            }
        },
        None => None,
    }
}

} // verus!
