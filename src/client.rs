//! The client side of a connection: the lines it sends and what the frames it
//! receives mean to the user.

use crate::command::{Command, Request};
use crate::message::{decode, encode, Frame, Message};
use vstd::prelude::*;

verus! {

/// What a received frame means to the user.
#[derive(Debug)]
pub enum Inbound {
    /// `user` joined.
    Joined(String),
    /// `user` said `text`.
    Said(String, String),
    /// `user` left.
    Left(String),
    /// The chosen name is in use; the session is over.
    NameTaken,
    /// The server did not accept the first frame; the session is over.
    Unauthenticated,
    /// A frame the client has no use for.
    Ignored,
}

impl Inbound {
    /// Whether this event ends the session; it is never worth retrying.
    pub fn is_fatal(&self) -> (r: bool)
        ensures
            r == (self is NameTaken || self is Unauthenticated),
    {
        match self {
            Inbound::NameTaken | Inbound::Unauthenticated => true,
            _ => false,
        }
    }
}

/// What the user is told of a received frame.
pub open spec fn inbound_matches(e: Inbound, f: Frame) -> bool {
    match f {
        Frame::Join(u) => e matches Inbound::Joined(n) && n@ == u,
        Frame::Chat(u, t) => e matches Inbound::Said(n, m) && n@ == u && m@ == t,
        Frame::Leave(u) => e matches Inbound::Left(n) && n@ == u,
        Frame::NameTaken => e is NameTaken,
        Frame::Unauthenticated => e is Unauthenticated,
        _ => e is Ignored,
    }
}

/// Decodes a received line into what it means to the user.
pub fn inbound(line: String) -> (e: Inbound)
    ensures
        inbound_matches(e, decode(line@)),
{
    match Message::from(line) {
        Message::JOIN(u) => Inbound::Joined(u),
        Message::MSG(u, t) => Inbound::Said(u, t),
        Message::LEAVE(u) => Inbound::Left(u),
        Message::ALREADYTAKEN => Inbound::NameTaken,
        Message::UNAUTHENTICATED => Inbound::Unauthenticated,
        _ => Inbound::Ignored,
    }
}

/// The first line a client sends: `AUTH` for its username.
pub fn auth_line(username: &String) -> (r: String)
    ensures
        r@ == encode(Frame::Auth(username@)),
{
    Message::AUTH(username.clone()).to_string()
}

/// The line that a typed request sends on behalf of `username`, if any.
pub fn outgoing_line(username: &String, command: Command) -> (r: Option<String>)
    ensures
        match command@ {
            Request::Send(t) => r matches Some(l) && l@ == encode(Frame::Chat(username@, t)),
            Request::Leave => r matches Some(l) && l@ == encode(Frame::Leave(username@)),
            Request::Invalid => r is None,
        },
{
    match command {
        Command::Send(text) => Some(Message::MSG(username.clone(), text).to_string()),
        Command::Leave => Some(Message::LEAVE(username.clone()).to_string()),
        Command::Invalid => None,
    }
}

} // verus!
