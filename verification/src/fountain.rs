//! The broadcast primitive: fan-out of one produced value to many
//! independent per-consumer links. A published frame is wrapped in a
//! shared immutable handle once and every link receives that handle, so
//! the cost per publish is one handle per subscriber, independent of the
//! frame size. Links are unbounded: a slow consumer accumulates a
//! backlog, a deliberate limitation of the design. The primitive never
//! prunes dead links itself; removal is the caller's responsibility.

use vstd::prelude::*;
use std::sync::Arc;

verus! {

/// The content of every link after one value is published: each receives
/// the same value, appended in registration order.
pub open spec fn published<T>(q: Seq<Seq<T>>, x: T) -> Seq<Seq<T>> {
    q.map_values(|l: Seq<T>| l.push(x))
}

/// The content of every link after a new subscriber registers: the old
/// links unchanged, one empty link at the end.
pub open spec fn subscribed<T>(q: Seq<Seq<T>>) -> Seq<Seq<T>> {
    q.push(Seq::empty())
}

/// LAW. `send` is a broadcast: one publish delivers the same value to
/// every registered link, appended at the end of each, in registration
/// order (link indices are registration order), and to no one else.
pub proof fn lemma_publish_delivers_to_all<T>(q: Seq<Seq<T>>, x: T)
    ensures
        published(q, x).len() == q.len(),
        forall|i: int| 0 <= i < q.len() ==> published(q, x)[i] == q[i].push(x),
        forall|i: int| 0 <= i < q.len() ==> published(q, x)[i].last() == x,
{
}

/// LAW. A link subscribed after a publish starts empty: it never
/// observes the frame published before it.
pub proof fn lemma_late_subscriber<T>(q: Seq<Seq<T>>, x: T)
    ensures
        subscribed(published(q, x)).last() == Seq::<T>::empty(),
        !subscribed(published(q, x)).last().contains(x),
{
    assert(subscribed(published(q, x)).last() =~= Seq::<T>::empty());
}

/// Fan-out of immutable handles to independent per-consumer links. The
/// fountain owns the links; producers publish with `send`, each consumer
/// drains its own link with `recv` under the caller's lock.
pub struct Fountain<T> {
    links: Vec<Vec<Arc<T>>>,
}

impl<T> Fountain<T> {
    /// The values queued in each link, in registration order of the
    /// links and arrival order within one link.
    pub closed spec fn links_view(self) -> Seq<Seq<T>> {
        self.links@.map_values(|q: Vec<Arc<T>>| q@.map_values(|a: Arc<T>| *a))
    }

    /// A fountain with no links.
    pub fn new() -> (f: Fountain<T>)
        ensures
            f.links_view() == Seq::<Seq<T>>::empty(),
    {
        let f = Fountain { links: Vec::new() };
        proof {
            assert(f.links_view() =~= Seq::<Seq<T>>::empty());
        }
        f
    }

    /// Registers a fresh, empty link and returns its handle; the handle
    /// is the link's registration index.
    pub fn make_link(&mut self) -> (link: usize)
        ensures
            link == old(self).links_view().len(),
            final(self).links_view() == subscribed(old(self).links_view()),
    {
        let link = self.links.len();
        let fresh: Vec<Arc<T>> = Vec::new();
        self.links.push(fresh);
        proof {
            assert(fresh@.map_values(|a: Arc<T>| *a) =~= Seq::<T>::empty());
            assert(self.links_view() =~= subscribed(old(self).links_view()));
        }
        link
    }

    /// Publishes one value: wraps it in a shared handle once and appends
    /// a clone of that handle to every link, in registration order.
    pub fn send(&mut self, data: T)
        ensures
            final(self).links_view() == published(old(self).links_view(), data),
            final(self).links_view().len() == old(self).links_view().len(),
            forall|i: int| 0 <= i < old(self).links_view().len()
                ==> final(self).links_view()[i] == old(self).links_view()[i].push(data),
    {
        let ghost gd = data;
        let shared = Arc::new(data);
        let mut i: usize = 0;
        while i < self.links.len()
            invariant
                i <= self.links@.len(),
                self.links@.len() == old(self).links@.len(),
                *shared == gd,
                forall|k: int| 0 <= k < i ==> (#[trigger] self.links@[k])@.map_values(
                    |a: Arc<T>| *a,
                ) == old(self).links_view()[k].push(gd),
                forall|k: int| i <= k < self.links@.len()
                    ==> #[trigger] self.links@[k] == old(self).links@[k],
            decreases self.links@.len() - i,
        {
            let ghost before = self.links@;
            let handle = shared.clone();
            proof {
                assert(*handle == gd);
            }
            self.links[i].push(handle);
            proof {
                assert(self.links@[i as int]@ =~= before[i as int]@.push(handle));
                assert forall|k: int| 0 <= k < i + 1 implies (#[trigger] self.links@[k])@.map_values(
                    |a: Arc<T>| *a,
                ) == old(self).links_view()[k].push(gd) by {
                    if k < i {
                        assert(self.links@[k] == before[k]);
                    } else {
                        assert(before[k] == old(self).links@[k]);
                        assert(old(self).links_view()[k] == old(self).links@[k]@.map_values(
                            |a: Arc<T>| *a,
                        ));
                        assert(self.links@[k]@.map_values(|a: Arc<T>| *a) =~= old(
                            self,
                        ).links_view()[k].push(gd));
                    }
                }
            }
            i = i + 1;
        }
        proof {
            assert(self.links_view() =~= published(old(self).links_view(), gd));
        }
    }

    /// Takes the oldest handle queued in one link, if any. The handle
    /// shares the published value; no consumer owns it exclusively.
    pub fn recv(&mut self, link: usize) -> (r: Option<Arc<T>>)
        requires
            link < old(self).links_view().len(),
        ensures
            old(self).links_view()[link as int].len() == 0 ==> r is None
                && final(self).links_view() == old(self).links_view(),
            old(self).links_view()[link as int].len() > 0 ==> (match r {
                Some(handle) => *handle == old(self).links_view()[link as int][0],
                None => false,
            }) && final(self).links_view() == old(self).links_view().update(
                link as int,
                old(self).links_view()[link as int].drop_first(),
            ),
    {
        if self.links[link].len() == 0 {
            return None;
        }
        let ghost before = self.links@;
        let handle = self.links[link].remove(0);
        proof {
            assert(self.links@[link as int]@ =~= before[link as int]@.drop_first());
            let target = old(self).links_view().update(
                link as int,
                old(self).links_view()[link as int].drop_first(),
            );
            assert forall|k: int| 0 <= k < self.links@.len() implies (
            #[trigger] self.links@[k])@.map_values(|a: Arc<T>| *a) == target[k] by {
                if k == link {
                    assert(before[k] == old(self).links@[k]);
                    assert(self.links@[k]@.map_values(|a: Arc<T>| *a) =~= old(
                        self,
                    ).links_view()[k].drop_first());
                } else {
                    assert(self.links@[k] == before[k]);
                }
            }
            assert(self.links_view() =~= target);
        }
        Some(handle)
    }
}

} // verus!
