//! The rule by which the WiFi task keeps the station connected.
use vstd::prelude::*;

verus! {

/// What the WiFi task waits for next.
#[derive(PartialEq, Eq, Structural, Debug, Clone, Copy)]
pub enum LinkAction {
    /// Try to connect.
    Connect,
    /// Stay until the link drops.
    AwaitDisconnect,
}

/// A station that is not connected tries to connect; a connected one waits
/// for the link to drop.
pub fn link_action(connected: bool) -> (a: LinkAction)
    ensures
        a == (if connected { LinkAction::AwaitDisconnect } else { LinkAction::Connect }),
{
    if connected {
        LinkAction::AwaitDisconnect
    } else {
        LinkAction::Connect
    }
}

} // verus!
