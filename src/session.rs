//! The server side of one connection: authentication, then relaying frames.
//! The caller reads lines from the transport and hands each one in; every
//! registry effect happens here.

use crate::message::{decode, encode, Frame, Message};
use crate::outbox::Delivery;
use crate::room::{after_add, after_remove, deliveries, has_user, recipients, Entry, Room};
use tokio::sync::mpsc::UnboundedSender;
use vstd::prelude::*;

verus! {

/// Where a connection stands.
pub enum ServerSession {
    /// Waiting for the first frame, which must be `AUTH`.
    Authenticating,
    /// Relaying frames for this authenticated user.
    Authenticated(String),
    /// Finished; nothing more is read.
    Closed,
}

/// What a frame received after authentication led to.
#[derive(Debug, PartialEq, Eq, Structural)]
pub enum Flow {
    /// A chat line was relayed; keep reading.
    Relayed,
    /// A frame that is not allowed here; it was dropped and reading goes on.
    Ignored,
    /// The peer left; the session is closed.
    Finished,
}

/// The lines enqueued when `name` leaves a room whose table is `t`: one
/// `LEAVE` notice to each user that remains.
pub open spec fn leave_notices(t: Seq<Entry>, name: Seq<char>) -> Seq<Delivery> {
    let rest = after_remove(t, name);
    deliveries(rest, recipients(rest, name), encode(Frame::Leave(name)))
}

/// The lines enqueued when `name` joins a room whose table is `t`.
pub open spec fn join_notices(t: Seq<Entry>, name: Seq<char>) -> Seq<Delivery> {
    deliveries(t, recipients(t, name), encode(Frame::Join(name)))
}

/// Removes `name` and tells everyone else that it left.
fn announce_leave(room: &mut Room, name: &String)
    requires
        old(room).wf(),
    ensures
        final(room).wf(),
        final(room).entries() == after_remove(old(room).entries(), name@),
        final(room).sent() == old(room).sent() + leave_notices(old(room).entries(), name@),
{
    room.remove_user(name);
    let line = Message::LEAVE(name.clone()).to_string();
    room.broadcast_message(line, name);
}

impl ServerSession {
    /// The authenticated username, once there is one.
    pub open spec fn user(&self) -> Option<Seq<char>> {
        match self {
            ServerSession::Authenticated(n) => Some(n@),
            _ => None,
        }
    }

    pub fn new() -> (r: ServerSession)
        ensures
            r is Authenticating,
    {
        ServerSession::Authenticating
    }

    /// Handles the first line of a connection (`None`: the peer closed first).
    /// An `AUTH` for a free name registers `sender` under it and announces the
    /// join to everyone else; otherwise the peer gets `ALREADYTAKEN` or
    /// `UNAUTHENTICATED` on `sender`, which is returned too, and the session closes.
    pub fn authenticate(
        &mut self,
        room: &mut Room,
        first: Option<String>,
        sender: UnboundedSender<String>,
    ) -> (reply: Option<Message>)
        requires
            *old(self) is Authenticating,
            old(room).wf(),
        ensures
            final(room).wf(),
            ({
                let t = old(room).entries();
                let frame = match first {
                    Some(l) => decode(l@),
                    None => Frame::Invalid,
                };
                match frame {
                    Frame::Auth(name) => if has_user(t, name) {
                        &&& reply matches Some(m) && m@ == Frame::NameTaken
                        &&& *final(self) is Closed
                        &&& final(room).entries() == t
                        &&& final(room).sent() == old(room).sent().push(
                            (sender, encode(Frame::NameTaken)),
                        )
                    } else {
                        &&& reply is None
                        &&& final(self).user() == Some(name)
                        &&& final(room).entries() == after_add(t, name, sender)
                        &&& final(room).sent() == old(room).sent() + join_notices(
                            after_add(t, name, sender),
                            name,
                        )
                    },
                    _ => {
                        &&& reply matches Some(m) && m@ == Frame::Unauthenticated
                        &&& *final(self) is Closed
                        &&& final(room).entries() == t
                        &&& final(room).sent() == old(room).sent().push(
                            (sender, encode(Frame::Unauthenticated)),
                        )
                    },
                }
            }),
    {
        let name = match first {
            Some(line) => match Message::from(line) {
                Message::AUTH(name) => Some(name),
                _ => None,
            },
            None => None,
        };
        match name {
            Some(name) => {
                if room.contains(&name) {
                    room.notify(&sender, Message::ALREADYTAKEN.to_string());
                    *self = ServerSession::Closed;
                    Some(Message::ALREADYTAKEN)
                } else {
                    let _ = room.add_user(name.clone(), sender);
                    let line = Message::JOIN(name.clone()).to_string();
                    room.broadcast_message(line, &name);
                    *self = ServerSession::Authenticated(name);
                    None
                }
            },
            None => {
                room.notify(&sender, Message::UNAUTHENTICATED.to_string());
                *self = ServerSession::Closed;
                Some(Message::UNAUTHENTICATED)
            },
        }
    }

    /// Handles one line read after authentication. `MSG` is relayed to everyone
    /// but the username it carries; `LEAVE` removes the user it names, tells the
    /// others, and closes the session (this session's own user is then removed and
    /// announced too, unless it was the one named). Anything else is ignored.
    /// The username inside `MSG` and `LEAVE` is taken as sent: the protocol does
    /// not bind it to the user who authenticated on this connection.
    pub fn on_line(&mut self, room: &mut Room, line: String) -> (flow: Flow)
        requires
            *old(self) is Authenticated,
            old(room).wf(),
        ensures
            final(room).wf(),
            ({
                let t = old(room).entries();
                let own = old(self).user()->0;
                match decode(line@) {
                    Frame::Chat(u, text) => {
                        &&& flow == Flow::Relayed
                        &&& *final(self) == *old(self)
                        &&& final(room).entries() == t
                        &&& final(room).sent() == old(room).sent() + deliveries(
                            t,
                            recipients(t, u),
                            encode(Frame::Chat(u, text)),
                        )
                    },
                    Frame::Leave(u) => {
                        let t1 = after_remove(t, u);
                        &&& flow == Flow::Finished
                        &&& *final(self) is Closed
                        &&& if u == own {
                            &&& final(room).entries() == t1
                            &&& final(room).sent() == old(room).sent() + leave_notices(t, u)
                        } else {
                            &&& final(room).entries() == after_remove(t1, own)
                            &&& final(room).sent() == old(room).sent() + leave_notices(t, u)
                                + leave_notices(t1, own)
                        }
                    },
                    _ => {
                        &&& flow == Flow::Ignored
                        &&& *final(self) == *old(self)
                        &&& final(room).entries() == t
                        &&& final(room).sent() == old(room).sent()
                    },
                }
            }),
    {
        match Message::from(line) {
            Message::MSG(username, text) => {
                let out = Message::MSG(username.clone(), text).to_string();
                room.broadcast_message(out, &username);
                Flow::Relayed
            },
            Message::LEAVE(username) => {
                announce_leave(room, &username);
                let own = match self {
                    ServerSession::Authenticated(n) => n.clone(),
                    _ => username.clone(),
                };
                if own != username {
                    announce_leave(room, &own);
                }
                *self = ServerSession::Closed;
                Flow::Finished
            },
            _ => Flow::Ignored,
        }
    }

    /// Ends the session once the transport is done. An authenticated user is
    /// removed and its leave announced; otherwise the room is left as it is.
    pub fn close(&mut self, room: &mut Room)
        requires
            old(room).wf(),
        ensures
            final(room).wf(),
            *final(self) is Closed,
            match old(self).user() {
                Some(own) => {
                    &&& final(room).entries() == after_remove(old(room).entries(), own)
                    &&& final(room).sent() == old(room).sent() + leave_notices(old(room).entries(), own)
                },
                None => {
                    &&& final(room).entries() == old(room).entries()
                    &&& final(room).sent() == old(room).sent()
                },
            },
    {
        match self {
            ServerSession::Authenticated(own) => {
                announce_leave(room, own);
            },
            _ => {},
        }
        *self = ServerSession::Closed;
    }
}

} // verus!
