//! The shared state of the multi-client variant: a broadcast fountain of
//! frames, the count of live subscribers, and the pending status
//! notifications that gate the capture loop. The embedding program wraps
//! a pool in its lock and runs the accept loop and the per-client
//! forwarding tasks; every decision on the shared state stands here.

use vstd::prelude::*;
use std::sync::Arc;
use crate::fountain::{published, subscribed, Fountain};

verus! {

/// Whether any subscriber is connected: the capture loop pauses on
/// `NoClients` and resumes on `ClientsAvailable`.
#[derive(Clone, Copy, Debug, PartialEq, Eq)]
pub enum Status {
    NoClients,
    ClientsAvailable,
}

/// The pool: frame links, the subscriber count (the single piece of
/// cross-task shared state), and the queued status notifications.
pub struct Pool<M> {
    fountain: Fountain<M>,
    clients: u32,
    statuses: Vec<Status>,
}

impl<M> Pool<M> {
    /// The values queued in each subscriber link.
    pub closed spec fn links(self) -> Seq<Seq<M>> {
        self.fountain.links_view()
    }

    /// How many subscribers are connected.
    pub closed spec fn client_count(self) -> u32 {
        self.clients
    }

    /// The status notifications not yet polled, oldest first.
    pub closed spec fn pending(self) -> Seq<Status> {
        self.statuses@
    }

    /// A fresh pool: no links, no subscribers, nothing pending.
    pub fn new() -> (p: Pool<M>)
        ensures
            p.links() == Seq::<Seq<M>>::empty(),
            p.client_count() == 0,
            p.pending() == Seq::<Status>::empty(),
    {
        Pool { fountain: Fountain::new(), clients: 0, statuses: Vec::new() }
    }

    /// Registers a fresh link for a subscriber whose handshake
    /// succeeded; returns its handle.
    pub fn subscribe(&mut self) -> (link: usize)
        ensures
            link == old(self).links().len(),
            final(self).links() == subscribed(old(self).links()),
            final(self).client_count() == old(self).client_count(),
            final(self).pending() == old(self).pending(),
    {
        self.fountain.make_link()
    }

    /// Fans one produced value out to every registered link, in
    /// registration order. Links of subscribers that died are still
    /// served until the caller prunes them; this pool never prunes by
    /// itself.
    pub fn notify(&mut self, data: M)
        ensures
            final(self).links() == published(old(self).links(), data),
            final(self).client_count() == old(self).client_count(),
            final(self).pending() == old(self).pending(),
    {
        self.fountain.send(data);
    }

    /// Takes the oldest frame queued in one subscriber link, if any.
    pub fn recv(&mut self, link: usize) -> (r: Option<Arc<M>>)
        requires
            link < old(self).links().len(),
        ensures
            old(self).links()[link as int].len() == 0 ==> r is None && final(self).links()
                == old(self).links(),
            old(self).links()[link as int].len() > 0 ==> (match r {
                Some(handle) => *handle == old(self).links()[link as int][0],
                None => false,
            }) && final(self).links() == old(self).links().update(
                link as int,
                old(self).links()[link as int].drop_first(),
            ),
            final(self).client_count() == old(self).client_count(),
            final(self).pending() == old(self).pending(),
    {
        self.fountain.recv(link)
    }

    /// How many subscribers are connected, for the runtime to read
    /// before it counts one in or out.
    pub fn live_clients(&self) -> (n: u32)
        ensures
            n == self.client_count(),
    {
        self.clients
    }

    /// One connection arrived: count it; the first subscriber queues
    /// `ClientsAvailable`, which tells the capture loop to resume.
    pub fn client_arrived(&mut self)
        requires
            old(self).client_count() < u32::MAX,
        ensures
            final(self).client_count() == old(self).client_count() + 1,
            old(self).client_count() == 0 ==> final(self).pending() == old(self).pending().push(
                Status::ClientsAvailable,
            ),
            old(self).client_count() > 0 ==> final(self).pending() == old(self).pending(),
            final(self).links() == old(self).links(),
    {
        self.clients = self.clients + 1;
        if self.clients == 1 {
            self.statuses.push(Status::ClientsAvailable);
        }
    }

    /// One forwarding task hit a write failure: its subscriber is gone.
    /// The last subscriber's departure queues `NoClients`, which tells
    /// the capture loop to pause.
    pub fn client_lost(&mut self)
        requires
            old(self).client_count() > 0,
        ensures
            final(self).client_count() == old(self).client_count() - 1,
            final(self).client_count() == 0 ==> final(self).pending() == old(self).pending().push(
                Status::NoClients,
            ),
            final(self).client_count() > 0 ==> final(self).pending() == old(self).pending(),
            final(self).links() == old(self).links(),
    {
        self.clients = self.clients - 1;
        if self.clients == 0 {
            self.statuses.push(Status::NoClients);
        }
    }

    /// The oldest status notification not yet seen, if any: the
    /// non-blocking poll of the capture loop.
    pub fn status(&mut self) -> (s: Option<Status>)
        ensures
            old(self).pending().len() == 0 ==> s is None
                && final(self).pending() == old(self).pending(),
            old(self).pending().len() > 0 ==> s == Some(old(self).pending()[0])
                && final(self).pending() == old(self).pending().drop_first(),
            final(self).links() == old(self).links(),
            final(self).client_count() == old(self).client_count(),
    {
        if self.statuses.len() == 0 {
            return None;
        }
        let s = self.statuses.remove(0);
        proof {
            assert(self.statuses@ =~= old(self).statuses@.drop_first());
        }
        Some(s)
    }
}

fn bytes_eq(a: &[u8], b: &[u8]) -> (r: bool)
    ensures
        r == (a@ == b@),
{
    if a.len() != b.len() {
        return false;
    }
    let mut i: usize = 0;
    while i < a.len()
        invariant
            i <= a@.len(),
            a@.len() == b@.len(),
            forall|k: int| 0 <= k < i ==> a@[k] == b@[k],
        decreases a@.len() - i,
    {
        if a[i] != b[i] {
            return false;
        }
        i = i + 1;
    }
    proof {
        assert(a@ =~= b@);
    }
    true
}

/// The subprotocol decision of the upgrade handshake: the server
/// confirms the wanted protocol token exactly when the client offered
/// it.
pub fn select_protocol(offered: &Vec<Vec<u8>>, wanted: &[u8]) -> (r: bool)
    ensures
        r == (exists|i: int| 0 <= i < offered@.len() && (#[trigger] offered@[i])@ == wanted@),
{
    let mut i: usize = 0;
    while i < offered.len()
        invariant
            i <= offered@.len(),
            forall|k: int| 0 <= k < i ==> (#[trigger] offered@[k])@ != wanted@,
        decreases offered@.len() - i,
    {
        if bytes_eq(offered[i].as_slice(), wanted) {
            return true;
        }
        i = i + 1;
    }
    false
}

} // verus!
