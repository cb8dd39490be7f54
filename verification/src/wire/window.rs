//! When each message is valid on a connection.

use vstd::prelude::*;

use super::Message;

verus! {

/// The part of a connection's life in which a message may be sent or received.
#[derive(Debug, Clone, Copy, PartialEq, Eq, Structural)]
pub enum Window {
    /// The `version` and `verack` exchange itself.
    Handshake,
    /// Only between the peer's `version` and its `verack`.
    Negotiation,
    /// From the peer's `version` onwards.
    NegotiationOrEstablished,
    /// Only after the handshake completes.
    Established,
}

impl Window {
    /// Whether a message with this window may arrive before the handshake completes.
    pub fn allowed_during_negotiation(self) -> (r: bool)
        ensures
            r == (self is Negotiation || self is NegotiationOrEstablished),
    {
        match self {
            Window::Negotiation | Window::NegotiationOrEstablished => true,
            _ => false,
        }
    }
}

/// The window a message belongs to.
pub open spec fn spec_window(message: Message) -> Window {
    match message {
        Message::Version | Message::Verack => Window::Handshake,
        Message::WtxidRelay | Message::SendAddrV2 | Message::Feature | Message::SendTxRcnCl => Window::Negotiation,
        Message::SendHeaders | Message::SendCmpct => Window::NegotiationOrEstablished,
        _ => Window::Established,
    }
}

/// The window a message belongs to.
pub fn window(message: &Message) -> (r: Window)
    ensures
        r == spec_window(*message),
{
    match message {
        Message::Version | Message::Verack => Window::Handshake,
        Message::WtxidRelay | Message::SendAddrV2 | Message::Feature | Message::SendTxRcnCl => Window::Negotiation,
        Message::SendHeaders | Message::SendCmpct => Window::NegotiationOrEstablished,
        _ => Window::Established,
    }
}

} // verus!
