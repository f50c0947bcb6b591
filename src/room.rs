//! The registry of connected users: one outbound channel per unique username.

use crate::outbox::{Delivery, Outbox};
use tokio::sync::mpsc::UnboundedSender;
use vstd::prelude::*;

verus! {

/// One registered user: a username and the channel that feeds its connection.
pub type Entry = (Seq<char>, UnboundedSender<String>);

pub open spec fn unique_names(t: Seq<Entry>) -> bool {
    forall|i: int, j: int| 0 <= i < j < t.len() ==> t[i].0 != t[j].0
}

pub open spec fn has_user(t: Seq<Entry>, u: Seq<char>) -> bool {
    exists|i: int| 0 <= i < t.len() && t[i].0 == u
}

/// Where `u` stands in the table (meaningful when it is there).
pub open spec fn slot(t: Seq<Entry>, u: Seq<char>) -> int {
    choose|i: int| 0 <= i < t.len() && t[i].0 == u
}

/// The channel registered under `u`.
pub open spec fn channel_of(t: Seq<Entry>, u: Seq<char>) -> Option<UnboundedSender<String>> {
    if has_user(t, u) {
        Some(t[slot(t, u)].1)
    } else {
        None
    }
}

/// The table after `add_user(u, c)`: unchanged when `u` is taken.
pub open spec fn after_add(t: Seq<Entry>, u: Seq<char>, c: UnboundedSender<String>) -> Seq<Entry> {
    if has_user(t, u) {
        t
    } else {
        t.push((u, c))
    }
}

/// The table after `remove_user(u)`: unchanged when `u` is absent.
pub open spec fn after_remove(t: Seq<Entry>, u: Seq<char>) -> Seq<Entry> {
    if has_user(t, u) {
        t.remove(slot(t, u))
    } else {
        t
    }
}

/// The users that a broadcast excluding `x` reaches, in table order.
pub open spec fn recipients(t: Seq<Entry>, x: Seq<char>) -> Seq<Seq<char>>
    decreases t.len(),
{
    if t.len() == 0 {
        Seq::empty()
    } else {
        let r = recipients(t.drop_last(), x);
        if t.last().0 == x {
            r
        } else {
            r.push(t.last().0)
        }
    }
}

/// One delivery of `line` to the channel that `t` registers for each of
/// `names`, in order.
pub open spec fn deliveries(t: Seq<Entry>, names: Seq<Seq<char>>, line: Seq<char>) -> Seq<
    Delivery,
> {
    names.map_values(|n: Seq<char>| (channel_of(t, n)->0, line))
}

/// Why a user could not be added.
#[derive(Debug, PartialEq, Eq, Structural)]
pub enum RoomError {
    NameTaken,
}

struct Client {
    name: String,
    sender: UnboundedSender<String>,
}

/// The shared table of connected users. Every operation takes `&mut self`, so a
/// server that shares one room behind a lock performs each one as a single
/// critical section.
pub struct Room {
    clients: Vec<Client>,
    outbox: Outbox,
}

impl Room {
    /// The registered users with their channels, in order of registration.
    pub closed spec fn entries(&self) -> Seq<Entry> {
        self.clients@.map_values(|c: Client| (c.name@, c.sender))
    }

    /// Every line this room has handed to a channel, with that channel, in order.
    pub closed spec fn sent(&self) -> Seq<Delivery> {
        self.outbox.sent()
    }

    /// At most one entry per username.
    pub open spec fn wf(&self) -> bool {
        unique_names(self.entries())
    }

    pub fn new() -> (r: Room)
        ensures
            r.wf(),
            r.entries() == Seq::<Entry>::empty(),
            r.sent() == Seq::<Delivery>::empty(),
    {
        let r = Room { clients: Vec::new(), outbox: Outbox::new() };
        assert(r.entries() =~= Seq::<Entry>::empty());
        r
    }

    /// Where `username` stands, if it is registered.
    fn find(&self, username: &String) -> (r: Option<usize>)
        requires
            self.wf(),
        ensures
            r is None <==> !has_user(self.entries(), username@),
            r matches Some(i) ==> i < self.entries().len() && i == slot(self.entries(), username@),
    {
        let mut i: usize = 0;
        while i < self.clients.len()
            invariant
                i <= self.clients@.len(),
                self.wf(),
                forall|j: int| 0 <= j < i ==> self.entries()[j].0 != username@,
            decreases self.clients@.len() - i,
        {
            if self.clients[i].name == *username {
                proof {
                    let t = self.entries();
                    assert(t[i as int].0 == username@);
                    assert(has_user(t, username@));
                    let k = slot(t, username@);
                    assert(t[k].0 == username@);
                    if k > i {
                        assert(t[i as int].0 != t[k].0);
                    }
                }
                return Some(i);
            }
            i = i + 1;
        }
        proof {
            if has_user(self.entries(), username@) {
                let k = choose|k: int|
                    0 <= k < self.entries().len() && self.entries()[k].0 == username@;
            }
        }
        None
    }

    /// Whether `username` is registered.
    pub fn contains(&self, username: &String) -> (r: bool)
        requires
            self.wf(),
        ensures
            r == has_user(self.entries(), username@),
    {
        self.find(username).is_some()
    }

    /// The number of registered users.
    pub fn len(&self) -> (r: usize)
        ensures
            r == self.entries().len(),
    {
        self.clients.len()
    }

    /// Registers `username` with its channel; refuses a name that is taken.
    pub fn add_user(&mut self, username: String, sender: UnboundedSender<String>) -> (r: Result<
        (),
        RoomError,
    >)
        requires
            old(self).wf(),
        ensures
            final(self).wf(),
            final(self).entries() == after_add(old(self).entries(), username@, sender),
            has_user(final(self).entries(), username@),
            r is Err <==> has_user(old(self).entries(), username@),
            r matches Err(e) ==> e == RoomError::NameTaken,
            final(self).sent() == old(self).sent(),
    {
        if self.find(&username).is_some() {
            return Err(RoomError::NameTaken);
        }
        let ghost t = self.entries();
        let ghost u = username@;
        self.clients.push(Client { name: username, sender });
        assert(self.entries() =~= t.push((u, sender)));
        proof {
            lemma_add_keeps_unique(t, u, sender);
        }
        Ok(())
    }

    /// Removes `username`; a name that is not registered leaves the room as it is.
    pub fn remove_user(&mut self, username: &String)
        requires
            old(self).wf(),
        ensures
            final(self).wf(),
            final(self).entries() == after_remove(old(self).entries(), username@),
            !has_user(final(self).entries(), username@),
            final(self).sent() == old(self).sent(),
    {
        match self.find(username) {
            Some(i) => {
                let ghost t = self.entries();
                self.clients.remove(i);
                assert(self.entries() =~= t.remove(i as int));
                proof {
                    lemma_remove_keeps_unique(t, username@);
                }
            },
            None => {},
        }
    }

    /// Enqueues `message` on the channel of `username`; nothing happens when
    /// that user is not registered.
    pub fn send(&mut self, username: &String, message: String)
        requires
            old(self).wf(),
        ensures
            final(self).wf(),
            final(self).entries() == old(self).entries(),
            final(self).sent() == old(self).sent() + if has_user(old(self).entries(), username@) {
                seq![(channel_of(old(self).entries(), username@)->0, message@)]
            } else {
                Seq::<Delivery>::empty()
            },
    {
        match self.find(username) {
            Some(i) => {
                let ghost before = self.sent();
                proof {
                    lemma_channel_at(self.entries(), i as int);
                }
                self.outbox.enqueue(&self.clients[i].sender, message);
                assert(self.sent() =~= before + seq![(self.entries()[i as int].1, message@)]);
            },
            None => {
                assert(self.sent() + Seq::<Delivery>::empty() =~= self.sent());
            },
        }
    }

    /// Hands `line` to the channel `tx` directly, as to a peer that is not
    /// registered.
    pub fn notify(&mut self, tx: &UnboundedSender<String>, line: String)
        requires
            old(self).wf(),
        ensures
            final(self).wf(),
            final(self).entries() == old(self).entries(),
            final(self).sent() == old(self).sent().push((*tx, line@)),
    {
        self.outbox.enqueue(tx, line);
    }

    /// Enqueues `message` on the channel of every registered user but `username`.
    pub fn broadcast_message(&mut self, message: String, username: &String)
        requires
            old(self).wf(),
        ensures
            final(self).wf(),
            final(self).entries() == old(self).entries(),
            final(self).sent() == old(self).sent() + deliveries(
                old(self).entries(),
                recipients(old(self).entries(), username@),
                message@,
            ),
    {
        let ghost t = self.entries();
        let ghost start = self.sent();
        let mut i: usize = 0;
        while i < self.clients.len()
            invariant
                i <= self.clients@.len(),
                self.entries() == t,
                self.wf(),
                self.sent() == start + deliveries(t, recipients(t.take(i as int), username@), message@),
            decreases self.clients@.len() - i,
        {
            proof {
                assert(t.take(i + 1).drop_last() =~= t.take(i as int));
            }
            if self.clients[i].name != *username {
                self.outbox.enqueue(&self.clients[i].sender, message.clone());
                proof {
                    let r = recipients(t.take(i as int), username@);
                    assert(recipients(t.take(i + 1), username@) == r.push(t[i as int].0));
                    lemma_channel_at(t, i as int);
                    assert(deliveries(t, r.push(t[i as int].0), message@) =~= deliveries(
                        t,
                        r,
                        message@,
                    ).push((t[i as int].1, message@)));
                }
            }
            i = i + 1;
        }
        assert(t.take(t.len() as int) =~= t);
    }
}

} // verus!

verus! {

proof fn lemma_add_keeps_unique(t: Seq<Entry>, u: Seq<char>, c: UnboundedSender<String>)
    requires
        unique_names(t),
    ensures
        unique_names(after_add(t, u, c)),
        has_user(after_add(t, u, c), u),
        forall|n: Seq<char>| #[trigger]
            has_user(after_add(t, u, c), n) <==> (has_user(t, n) || n == u),
{
    let s = after_add(t, u, c);
    if !has_user(t, u) {
        assert forall|i: int, j: int| 0 <= i < j < s.len() implies s[i].0 != s[j].0 by {
            if j == t.len() {
                assert(t[i].0 != u);
            } else {
                assert(t[i].0 != t[j].0);
            }
        }
        assert(s[t.len() as int].0 == u);
        assert forall|n: Seq<char>| #[trigger] has_user(s, n) <==> (has_user(t, n) || n == u) by {
            if has_user(t, n) {
                let i = choose|i: int| 0 <= i < t.len() && t[i].0 == n;
                assert(s[i].0 == n);
            }
            if has_user(s, n) && n != u {
                let i = choose|i: int| 0 <= i < s.len() && s[i].0 == n;
                assert(t[i].0 == n);
            }
        }
    }
}

/// In a table with unique names, each entry's name leads to its own channel.
proof fn lemma_channel_at(t: Seq<Entry>, i: int)
    requires
        unique_names(t),
        0 <= i < t.len(),
    ensures
        channel_of(t, t[i].0) == Some(t[i].1),
{
    assert(has_user(t, t[i].0));
    let k = slot(t, t[i].0);
    if k < i {
        assert(t[k].0 != t[i].0);
    } else if k > i {
        assert(t[i].0 != t[k].0);
    }
}

proof fn lemma_remove_keeps_unique(t: Seq<Entry>, u: Seq<char>)
    requires
        unique_names(t),
    ensures
        unique_names(after_remove(t, u)),
        !has_user(after_remove(t, u), u),
{
    if has_user(t, u) {
        let k = slot(t, u);
        let r = t.remove(k);
        assert forall|i: int| 0 <= i < r.len() implies r[i].0 != u by {
            if i < k {
                assert(t[i].0 != t[k].0);
            } else {
                assert(t[k].0 != t[i + 1].0);
            }
        }
        assert forall|a: int, b: int| 0 <= a < b < r.len() implies r[a].0 != r[b].0 by {
            let a2 = if a < k { a } else { a + 1 };
            let b2 = if b < k { b } else { b + 1 };
            assert(t[a2].0 != t[b2].0);
        }
    }
}

/// Adding a name twice in a row: the second add finds the name taken and
/// changes nothing, so the name keeps the channel that the first add gave it.
pub proof fn lemma_second_add_refused(
    t: Seq<Entry>,
    u: Seq<char>,
    c: UnboundedSender<String>,
    c2: UnboundedSender<String>,
)
    requires
        unique_names(t),
    ensures
        has_user(after_add(t, u, c), u),
        after_add(after_add(t, u, c), u, c2) == after_add(t, u, c),
        !has_user(t, u) ==> channel_of(after_add(after_add(t, u, c), u, c2), u) == Some(c),
{
    lemma_add_keeps_unique(t, u, c);
    if !has_user(t, u) {
        let s = t.push((u, c));
        let k = slot(s, u);
        if k < t.len() {
            assert(t[k].0 == u);
        }
    }
}

/// Removing a name that was just added leaves it absent; removing an absent
/// name changes nothing.
pub proof fn lemma_remove_user(t: Seq<Entry>, u: Seq<char>, c: UnboundedSender<String>)
    requires
        unique_names(t),
    ensures
        !has_user(after_remove(after_add(t, u, c), u), u),
        unique_names(after_remove(after_add(t, u, c), u)),
        !has_user(t, u) ==> after_remove(t, u) == t,
{
    lemma_add_keeps_unique(t, u, c);
    let s = after_add(t, u, c);
    let k = slot(s, u);
    let r = s.remove(k);
    assert forall|i: int| 0 <= i < r.len() implies r[i].0 != u by {
        if i < k {
            assert(s[i].0 != s[k].0);
        } else {
            assert(s[k].0 != s[i + 1].0);
        }
    }
    assert forall|a: int, b: int| 0 <= a < b < r.len() implies r[a].0 != r[b].0 by {
        let a2 = if a < k { a } else { a + 1 };
        let b2 = if b < k { b } else { b + 1 };
        assert(s[a2].0 != s[b2].0);
    }
}

/// How many times `n` occurs in `s`.
pub open spec fn occurrences(s: Seq<Seq<char>>, n: Seq<char>) -> nat
    decreases s.len(),
{
    if s.len() == 0 {
        0
    } else {
        occurrences(s.drop_last(), n) + if s.last() == n {
            1nat
        } else {
            0nat
        }
    }
}

/// A broadcast that excludes `x` reaches every other registered user exactly
/// once, and neither `x` nor anyone who is not registered.
pub proof fn lemma_broadcast_exclusion(t: Seq<Entry>, x: Seq<char>, n: Seq<char>)
    requires
        unique_names(t),
    ensures
        occurrences(recipients(t, x), n) == if has_user(t, n) && n != x {
            1nat
        } else {
            0nat
        },
    decreases t.len(),
{
    if t.len() > 0 {
        let p = t.drop_last();
        assert(unique_names(p)) by {
            assert forall|i: int, j: int| 0 <= i < j < p.len() implies p[i].0 != p[j].0 by {
                assert(t[i].0 != t[j].0);
            }
        }
        lemma_broadcast_exclusion(p, x, n);
        let r = recipients(p, x);
        if t.last().0 != x {
            assert(r.push(t.last().0).drop_last() =~= r);
        }
        if has_user(t, n) {
            let i = choose|i: int| 0 <= i < t.len() && t[i].0 == n;
            if i < p.len() {
                assert(p[i].0 == n);
            }
        }
        if has_user(p, n) {
            let i = choose|i: int| 0 <= i < p.len() && p[i].0 == n;
            assert(t[i].0 == n);
            assert(t[i].0 != t[t.len() - 1].0);
        } else if has_user(t, n) {
            let i = choose|i: int| 0 <= i < t.len() && t[i].0 == n;
            if i < p.len() {
                assert(p[i].0 == n);
            }
        }
    }
}

/// The table after a series of `add_user` calls, one after the other.
pub open spec fn after_adds(t: Seq<Entry>, reqs: Seq<Entry>) -> Seq<Entry>
    decreases reqs.len(),
{
    if reqs.len() == 0 {
        t
    } else {
        let p = after_adds(t, reqs.drop_last());
        after_add(p, reqs.last().0, reqs.last().1)
    }
}

/// How many of a series of `add_user` calls succeed.
pub open spec fn accepted(t: Seq<Entry>, reqs: Seq<Entry>) -> nat
    decreases reqs.len(),
{
    if reqs.len() == 0 {
        0
    } else {
        let p = after_adds(t, reqs.drop_last());
        accepted(t, reqs.drop_last()) + if has_user(p, reqs.last().0) {
            0nat
        } else {
            1nat
        }
    }
}

proof fn lemma_adds_names(t: Seq<Entry>, reqs: Seq<Entry>)
    requires
        unique_names(t),
    ensures
        unique_names(after_adds(t, reqs)),
        forall|n: Seq<char>| #[trigger]
            has_user(after_adds(t, reqs), n) <==> (has_user(t, n) || exists|i: int|
                0 <= i < reqs.len() && reqs[i].0 == n),
    decreases reqs.len(),
{
    if reqs.len() > 0 {
        let q = reqs.drop_last();
        lemma_adds_names(t, q);
        let p = after_adds(t, q);
        lemma_add_keeps_unique(p, reqs.last().0, reqs.last().1);
        assert forall|n: Seq<char>| #[trigger]
            has_user(after_adds(t, reqs), n) <==> (has_user(t, n) || exists|i: int|
                0 <= i < reqs.len() && reqs[i].0 == n) by {
            if exists|i: int| 0 <= i < reqs.len() && reqs[i].0 == n {
                let i = choose|i: int| 0 <= i < reqs.len() && reqs[i].0 == n;
                if i < q.len() {
                    assert(q[i].0 == n);
                }
            }
            if exists|i: int| 0 <= i < q.len() && q[i].0 == n {
                let i = choose|i: int| 0 <= i < q.len() && q[i].0 == n;
                assert(reqs[i].0 == n);
            }
        }
    }
}

/// Serialized adds of distinct names, none registered before: every one
/// succeeds and the table grows by one entry for each.
pub proof fn lemma_distinct_adds(t: Seq<Entry>, reqs: Seq<Entry>)
    requires
        unique_names(t),
        unique_names(reqs),
        forall|i: int| 0 <= i < reqs.len() ==> !has_user(t, #[trigger] reqs[i].0),
    ensures
        accepted(t, reqs) == reqs.len(),
        after_adds(t, reqs).len() == t.len() + reqs.len(),
    decreases reqs.len(),
{
    if reqs.len() > 0 {
        let q = reqs.drop_last();
        assert(unique_names(q)) by {
            assert forall|i: int, j: int| 0 <= i < j < q.len() implies q[i].0 != q[j].0 by {
                assert(reqs[i].0 != reqs[j].0);
            }
        }
        assert forall|i: int| 0 <= i < q.len() implies !has_user(t, #[trigger] q[i].0) by {
            assert(q[i] == reqs[i]);
        }
        lemma_distinct_adds(t, q);
        lemma_adds_names(t, q);
        let n = reqs.last().0;
        assert(!has_user(t, n));
        if exists|i: int| 0 <= i < q.len() && q[i].0 == n {
            let i = choose|i: int| 0 <= i < q.len() && q[i].0 == n;
            assert(reqs[i].0 != reqs[reqs.len() - 1].0);
        }
        assert(!has_user(after_adds(t, q), n));
    }
}

/// Serialized adds that all ask for one name not registered before: exactly
/// one succeeds, and the table grows by exactly one entry.
pub proof fn lemma_same_name_adds(t: Seq<Entry>, reqs: Seq<Entry>, u: Seq<char>)
    requires
        unique_names(t),
        !has_user(t, u),
        reqs.len() >= 1,
        forall|i: int| 0 <= i < reqs.len() ==> #[trigger] reqs[i].0 == u,
    ensures
        accepted(t, reqs) == 1,
        after_adds(t, reqs).len() == t.len() + 1,
        has_user(after_adds(t, reqs), u),
    decreases reqs.len(),
{
    let q = reqs.drop_last();
    if q.len() == 0 {
        assert(after_adds(t, q) == t);
        assert(accepted(t, q) == 0);
        lemma_add_keeps_unique(t, u, reqs.last().1);
    } else {
        assert forall|i: int| 0 <= i < q.len() implies #[trigger] q[i].0 == u by {
            assert(q[i] == reqs[i]);
        }
        lemma_same_name_adds(t, q, u);
    }
}

} // verus!
