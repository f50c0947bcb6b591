//! The one place where lines are put on a connection's channel, with a record
//! of every line handed over.

use tokio::sync::mpsc::UnboundedSender;
use vstd::prelude::*;

verus! {

#[verifier::external_type_specification]
#[verifier::external_body]
#[verifier::reject_recursive_types(T)]
pub struct ExUnboundedSender<T>(UnboundedSender<T>);

/// One line handed to a channel: the channel and the line.
pub type Delivery = (UnboundedSender<String>, Seq<char>);

/// Sends lines to channels and records each line it hands over.
pub struct Outbox {
    sent: Ghost<Seq<Delivery>>,
}

impl Outbox {
    /// Every line handed to a channel through this outbox, in order.
    pub closed spec fn sent(&self) -> Seq<Delivery> {
        self.sent@
    }

    pub fn new() -> (r: Outbox)
        ensures
            r.sent() == Seq::<Delivery>::empty(),
    {
        Outbox { sent: Ghost(Seq::empty()) }
    }

    /// Relies on tokio's `UnboundedSender::send`: the line is handed to the
    /// channel at once, without waiting (the channel drops it when its
    /// receiving half is gone).
    #[verifier::external_body]
    pub fn enqueue(&mut self, tx: &UnboundedSender<String>, line: String)
        ensures
            final(self).sent() == old(self).sent().push((*tx, line@)),
    {
        let _ = tx.send(line);
    }
}

} // verus!
