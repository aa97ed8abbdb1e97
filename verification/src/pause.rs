//! The pause menu's rows.
use vstd::prelude::*;
use crate::session::Role;

verus! {

/// One row of the pause menu.
#[derive(Debug, Clone, Copy, PartialEq, Eq, Structural)]
pub enum Choice {
    ShareTicket,
    Resume,
    Quit,
}

/// The rows, in the order they are drawn.
///
/// A peer is offered no ticket: the only ticket that leads into this world is the host's,
/// and offering a peer's would hand somebody a door into an empty room.
pub fn choices(role: Role) -> (r: Vec<Choice>)
    ensures
        r@ == (match role {
            Role::Host => seq![Choice::ShareTicket, Choice::Resume, Choice::Quit],
            Role::Peer { .. } => seq![Choice::Resume, Choice::Quit],
        }),
{
    let r = match role {
        Role::Host => vec![Choice::ShareTicket, Choice::Resume, Choice::Quit],
        Role::Peer { .. } => vec![Choice::Resume, Choice::Quit],
    };
    assert(r@ =~= (match role {
        Role::Host => seq![Choice::ShareTicket, Choice::Resume, Choice::Quit],
        Role::Peer { .. } => seq![Choice::Resume, Choice::Quit],
    }));
    r
}

/// What a row says.
pub fn label(choice: Choice) -> (r: &'static str)
    ensures
        r@ == (match choice {
            Choice::ShareTicket => "Share the join ticket"@,
            Choice::Resume => "Back to the world"@,
            Choice::Quit => "Quit"@,
        }),
{
    match choice {
        Choice::ShareTicket => "Share the join ticket",
        Choice::Resume => "Back to the world",
        Choice::Quit => "Quit",
    }
}

} // verus!
