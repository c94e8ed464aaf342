//! The subscription registry: an arena of local-store subscriptions with
//! release-exactly-once semantics, wired to the query coalescer.
//!
//! The caller opens a subscription against the local store, registers the
//! store's id here and receives an exclusive handle. Releasing the handle
//! surrenders the id for exactly one `unsubscribe` call against the
//! store: a slot released twice, or released after a teardown, yields
//! nothing the second time.

use vstd::prelude::*;

use crate::coalescer::QueryCoalescer;
use crate::filter::filter_views;
use crate::filter::Filter;
use crate::filter::FilterView;
use crate::filter::PubKey;

verus! {

/// One arena slot: a local-store subscription id and whether its release
/// is still owed.
#[derive(Clone, Copy, PartialEq, Eq, Structural, Debug)]
pub struct SubSlot {
    pub local_sub_id: u64,
    pub active: bool,
}

/// An exclusive, non-copyable handle to one registered subscription.
/// Dropping it without a release leaks the subscription; releasing it
/// consumes it, so no handle releases twice.
pub struct SubscriptionHandle {
    slot: usize,
}

impl SubscriptionHandle {
    /// The arena position this handle owns.
    pub closed spec fn slot(self) -> int {
        self.slot as int
    }

    /// The arena position, for a caller that polls the local store.
    pub fn slot_index(&self) -> (r: usize)
        ensures
            r == self.slot(),
    {
        self.slot
    }
}

/// How the arena changes when the position `s` is released with result
/// `r`: an owed slot surrenders its id exactly once and is owed no more;
/// any other request yields nothing and changes nothing.
pub open spec fn released(pre: Seq<SubSlot>, post: Seq<SubSlot>, s: int, r: Option<u64>) -> bool {
    &&& post.len() == pre.len()
    &&& forall|j: int| 0 <= j < pre.len() && j != s ==> #[trigger] post[j] == pre[j]
    &&& if 0 <= s < pre.len() && pre[s].active {
        &&& r == Some(pre[s].local_sub_id)
        &&& post[s] == (SubSlot { local_sub_id: pre[s].local_sub_id, active: false })
    } else {
        &&& r is None
        &&& post == pre
    }
}

/// The registry: the subscription arena, the coalescer feeding the remote
/// peer pool, and the set of profile keys already asked for.
pub struct SubscriptionRegistry {
    pub slots: Vec<SubSlot>,
    pub coalescer: QueryCoalescer,
    pub profiles_requested: Vec<PubKey>,
}

impl SubscriptionRegistry {
    /// Well-formedness of the embedded coalescer.
    pub open spec fn wf(self) -> bool {
        self.coalescer.wf()
    }

    /// An empty registry.
    pub fn new() -> (r: SubscriptionRegistry)
        ensures
            r.wf(),
            r.slots@.len() == 0,
            r.coalescer.queries@.len() == 0,
            r.coalescer.deferred@.len() == 0,
            r.profiles_requested@.len() == 0,
    {
        SubscriptionRegistry {
            slots: Vec::new(),
            coalescer: QueryCoalescer::new(),
            profiles_requested: Vec::new(),
        }
    }

    /// Records a subscription the local store accepted under
    /// `local_sub_id`, defers its filters to the coalescer under the
    /// logical name `id`, and hands out the one handle to the new slot.
    pub fn register(&mut self, id: &str, filters: Vec<Filter>, local_sub_id: u64) -> (h:
        SubscriptionHandle)
        requires
            old(self).wf(),
        ensures
            final(self).wf(),
            h.slot() == old(self).slots@.len(),
            final(self).slots@ == old(self).slots@.push(
                SubSlot { local_sub_id, active: true },
            ),
            final(self).profiles_requested@ == old(self).profiles_requested@,
            final(self).coalescer.queries@ == old(self).coalescer.queries@,
            final(self).coalescer.deferred@.len() == old(self).coalescer.deferred@.len() + 1,
            final(self).coalescer.deferred@.last().id@ == id@,
            filter_views(final(self).coalescer.deferred@.last().filters@) == filter_views(
                filters@,
            ),
            forall|j: int|
                0 <= j < old(self).coalescer.deferred@.len()
                    ==> #[trigger] final(self).coalescer.deferred@[j] == old(
                    self,
                ).coalescer.deferred@[j],
    {
        let slot = self.slots.len();
        self.slots.push(SubSlot { local_sub_id, active: true });
        self.coalescer.queue_query(id, filters);
        SubscriptionHandle { slot }
    }

    /// The local-store id behind a handle, for polling, while its slot is
    /// still owed a release.
    pub fn local_id(&self, h: &SubscriptionHandle) -> (r: Option<u64>)
        ensures
            r == (if 0 <= h.slot() < self.slots@.len() && self.slots@[h.slot()].active {
                Some(self.slots@[h.slot()].local_sub_id)
            } else {
                None::<u64>
            }),
    {
        let i = h.slot_index();
        if i < self.slots.len() && self.slots[i].active {
            Some(self.slots[i].local_sub_id)
        } else {
            None
        }
    }

    /// Releases a handle: the slot it owns surrenders its local-store id
    /// for exactly one `unsubscribe` call. The handle is consumed; a slot
    /// already released yields nothing.
    pub fn release(&mut self, h: SubscriptionHandle) -> (r: Option<u64>)
        requires
            old(self).wf(),
        ensures
            final(self).wf(),
            final(self).coalescer == old(self).coalescer,
            final(self).profiles_requested@ == old(self).profiles_requested@,
            released(old(self).slots@, final(self).slots@, h.slot(), r),
    {
        let i = h.slot;
        if i >= self.slots.len() {
            proof {
                assert(self.slots@ =~= old(self).slots@);
            }
            return None;
        }
        let current = self.slots[i];
        if current.active {
            self.slots.set(i, SubSlot { local_sub_id: current.local_sub_id, active: false });
            Some(current.local_sub_id)
        } else {
            proof {
                assert(self.slots@ =~= old(self).slots@);
            }
            None
        }
    }

    /// Tears the registry down: every slot still owed a release
    /// surrenders its id at once, for one `unsubscribe` call each, and
    /// nothing stays owed.
    pub fn drain_all(&mut self) -> (r: Vec<u64>)
        requires
            old(self).wf(),
        ensures
            final(self).wf(),
            final(self).coalescer == old(self).coalescer,
            final(self).profiles_requested@ == old(self).profiles_requested@,
            final(self).slots@.len() == old(self).slots@.len(),
            forall|j: int|
                0 <= j < old(self).slots@.len() ==> (#[trigger] final(self).slots@[j]) == (SubSlot {
                    local_sub_id: old(self).slots@[j].local_sub_id,
                    active: false,
                }),
            r@ == old(self).slots@.filter(|s: SubSlot| s.active).map_values(
                |s: SubSlot| s.local_sub_id,
            ),
    {
        let ghost pre = *self;
        let mut out: Vec<u64> = Vec::new();
        let n = self.slots.len();
        for i in 0..n
            invariant
                n == self.slots@.len() == pre.slots@.len(),
                self.coalescer == pre.coalescer,
                self.profiles_requested@ == pre.profiles_requested@,
                self.wf(),
                forall|j: int| i <= j < n ==> #[trigger] self.slots@[j] == pre.slots@[j],
                forall|j: int|
                    0 <= j < i ==> (#[trigger] self.slots@[j]) == (SubSlot {
                        local_sub_id: pre.slots@[j].local_sub_id,
                        active: false,
                    }),
                out@ == pre.slots@.subrange(0, i as int).filter(|s: SubSlot| s.active).map_values(
                    |s: SubSlot| s.local_sub_id,
                ),
        {
            let ghost prefix = pre.slots@.subrange(0, i as int);
            let ghost prefix2 = pre.slots@.subrange(0, i + 1);
            proof {
                assert(prefix2.drop_last() =~= prefix);
                assert(prefix2.last() == pre.slots@[i as int]);
                reveal_with_fuel(Seq::filter, 2);
                assert(prefix2.filter(|s: SubSlot| s.active) == if pre.slots@[i as int].active {
                    prefix.filter(|s: SubSlot| s.active).push(pre.slots@[i as int])
                } else {
                    prefix.filter(|s: SubSlot| s.active)
                });
            }
            let current = self.slots[i];
            if current.active {
                out.push(current.local_sub_id);
                proof {
                    assert(out@ =~= prefix2.filter(|s: SubSlot| s.active).map_values(
                        |s: SubSlot| s.local_sub_id,
                    ));
                }
            }
            self.slots.set(i, SubSlot { local_sub_id: current.local_sub_id, active: false });
        }
        proof {
            assert(pre.slots@.subrange(0, n as int) =~= pre.slots@);
        }
        out
    }

    /// Asks for the profile behind `pubkey` once: the first demand defers
    /// one single-author metadata lookup to the coalescer under the
    /// profile query name; repeated demands are dropped.
    pub fn demand_profile(&mut self, pubkey: &PubKey) -> (queued: bool)
        requires
            old(self).wf(),
        ensures
            final(self).wf(),
            final(self).slots@ == old(self).slots@,
            final(self).coalescer.queries@ == old(self).coalescer.queries@,
            queued == !crate::filter::pk_views(old(self).profiles_requested@).contains(pubkey@),
            !queued ==> *final(self) == *old(self),
            queued ==> {
                &&& final(self).profiles_requested@ == old(self).profiles_requested@.push(*pubkey)
                &&& final(self).coalescer.deferred@.len() == old(self).coalescer.deferred@.len()
                    + 1
                &&& final(self).coalescer.deferred@.last().id@ == "profile"@
                &&& final(self).coalescer.deferred@.last().filters@.len() == 1
                &&& final(self).coalescer.deferred@.last().filters@[0]@ == (FilterView {
                    kinds: Some(seq![0u64]),
                    authors: Some(seq![pubkey@]),
                    tags: None,
                    limit: None,
                })
                &&& forall|j: int|
                    0 <= j < old(self).coalescer.deferred@.len()
                        ==> #[trigger] final(self).coalescer.deferred@[j] == old(
                        self,
                    ).coalescer.deferred@[j]
            },
    {
        if crate::filter::contains_pk(&self.profiles_requested, pubkey) {
            return false;
        }
        self.profiles_requested.push(*pubkey);
        let mut kinds: Vec<u64> = Vec::new();
        kinds.push(0);
        let mut authors: Vec<PubKey> = Vec::new();
        authors.push(*pubkey);
        let f = Filter::new().kinds(kinds).authors(authors);
        proof {
            assert(crate::filter::pk_views(authors@) =~= seq![pubkey@]);
            assert(f@ == (FilterView {
                kinds: Some(seq![0u64]),
                authors: Some(seq![pubkey@]),
                tags: None,
                limit: None,
            }));
        }
        let mut filters: Vec<Filter> = Vec::new();
        filters.push(f);
        proof {
            assert(filter_views(filters@)[0] == filters@[0]@);
        }
        self.coalescer.queue_query("profile", filters);
        proof {
            let last = self.coalescer.deferred@.last();
            assert(filter_views(last.filters@).len() == last.filters@.len());
            assert(filter_views(last.filters@)[0] == last.filters@[0]@);
        }
        true
    }
}

/// Law: one subscription is released at most once. Two successive
/// releases of the same arena position cannot both surrender an id,
/// whatever happens in between to the other positions.
pub proof fn lemma_release_once(
    s0: Seq<SubSlot>,
    s1: Seq<SubSlot>,
    s2: Seq<SubSlot>,
    s: int,
    r1: Option<u64>,
    r2: Option<u64>,
)
    requires
        released(s0, s1, s, r1),
        released(s1, s2, s, r2),
    ensures
        !(r1 is Some && r2 is Some),
{
}

/// Law: after a teardown every slot is inactive, so a release of any
/// surviving handle yields nothing -- no unsubscribe happens twice even
/// when the handle outlives the registry's teardown.
pub proof fn lemma_no_release_after_teardown(
    pre: Seq<SubSlot>,
    down: Seq<SubSlot>,
    post: Seq<SubSlot>,
    s: int,
    r: Option<u64>,
)
    requires
        down.len() == pre.len(),
        forall|j: int|
            0 <= j < pre.len() ==> (#[trigger] down[j]) == (SubSlot {
                local_sub_id: pre[j].local_sub_id,
                active: false,
            }),
        released(down, post, s, r),
    ensures
        r is None,
{
}

} // verus!
