//! Query coalescing: named logical queries that accumulate deduplicated
//! pending filters and drain them into dispatched trace batches.
//!
//! Each named logical query keeps a pending set of filters and a history
//! of traces already handed to the remote peer pool. A filter value never
//! sits twice in the pending set, and never re-enters it while a
//! dispatched trace still covers it. At a flush, a batch made solely of
//! single-author profile lookups collapses into one multi-author lookup.

use vstd::prelude::*;
use vstd::pervasive::VecAdditionalExecFns;

use crate::filter::all_profile;
use crate::filter::all_profile_lookups;
use crate::filter::has_author;
use crate::filter::lemma_count_absent;
use crate::filter::lemma_nodup_count_one;
use crate::filter::contains_filter;
use crate::filter::filter_views;
use crate::filter::nodup;
use crate::filter::union_authors;
use crate::filter::views_contain;
use crate::filter::Filter;
use crate::filter::FilterView;

verus! {

/// One physical batch handed to the remote peer pool.
pub struct QueryTrace {
    /// Subscription id used towards the peer pool.
    pub id: [u8; 16],
    /// The filters of the batch.
    pub filters: Vec<Filter>,
    /// When the batch was created.
    pub queued: u64,
    /// When the batch was successfully handed to the peer pool.
    pub sent: Option<u64>,
    /// When the peer pool signalled the end of stored events.
    pub eose: Option<u64>,
}

/// The mathematical value of a trace.
#[verifier::ext_equal]
pub struct QueryTraceView {
    pub id: Seq<u8>,
    pub filters: Seq<FilterView>,
    pub queued: u64,
    pub sent: Option<u64>,
    pub eose: Option<u64>,
}

impl View for QueryTrace {
    type V = QueryTraceView;

    open spec fn view(&self) -> QueryTraceView {
        QueryTraceView {
            id: self.id@,
            filters: filter_views(self.filters@),
            queued: self.queued,
            sent: self.sent,
            eose: self.eose,
        }
    }
}

/// Byte-wise equality of two trace ids.
fn id16_eq(a: &[u8; 16], b: &[u8; 16]) -> (r: bool)
    ensures
        r == (a@ == b@),
{
    for i in 0..16
        invariant
            forall|j: int| 0 <= j < i ==> a@[j] == b@[j],
    {
        if a[i] != b[i] {
            return false;
        }
    }
    proof {
        assert(a@ =~= b@);
    }
    true
}

/// Whether every filter in the batch is a single-author profile lookup.
fn all_profile_exec(v: &Vec<Filter>) -> (r: bool)
    ensures
        r == all_profile_lookups(v@),
{
    let n = v.len();
    for i in 0..n
        invariant
            n == v@.len(),
            forall|j: int| 0 <= j < i ==> (#[trigger] v@[j]).spec_is_profile_lookup(),
    {
        if !v[i].is_profile_lookup() {
            return false;
        }
    }
    true
}

/// An element-wise copy of a filter list.
fn copy_filters(v: &Vec<Filter>) -> (r: Vec<Filter>)
    ensures
        filter_views(r@) == filter_views(v@),
{
    let mut out: Vec<Filter> = Vec::new();
    let n = v.len();
    for i in 0..n
        invariant
            n == v@.len(),
            out@.len() == i,
            forall|j: int| 0 <= j < i ==> (#[trigger] out@[j])@ == v@[j]@,
    {
        out.push(v[i].duplicate());
    }
    proof {
        assert(filter_views(out@) =~= filter_views(v@));
    }
    out
}

/// The views of a sequence of traces.
pub open spec fn trace_views(s: Seq<QueryTrace>) -> Seq<QueryTraceView> {
    s.map_values(|t: QueryTrace| t@)
}

/// Whether some trace in `traces` still covers the filter value `f`.
pub open spec fn covered_by(f: FilterView, traces: Seq<QueryTraceView>) -> bool {
    exists|i: int| 0 <= i < traces.len() && (#[trigger] traces[i]).filters.contains(f)
}

/// How a query changes when the filter values `fs` are queued into it:
/// the history stands, and a value becomes pending exactly if it was
/// pending already or is among `fs` and not covered by the history.
pub open spec fn added(pre: Query, post: Query, fs: Seq<FilterView>) -> bool {
    &&& post.wf()
    &&& post.id@ == pre.id@
    &&& post.history() == pre.history()
    &&& forall|f: FilterView| #[trigger] post.pending_contains(f) <==> (pre.pending_contains(f) || (
    fs.contains(f) && !covered_by(f, pre.history())))
}

/// How a query changes at a flush that produced `r`: the pending set
/// drains; a non-empty batch becomes one trace, recorded and returned,
/// merged into a single multi-author metadata lookup when every pending
/// filter was a single-author profile lookup.
pub open spec fn flushed(
    pre: Query,
    post: Query,
    now: u64,
    tid: Seq<u8>,
    r: Option<QueryTraceView>,
) -> bool {
    &&& post.wf()
    &&& post.id@ == pre.id@
    &&& post.pending().len() == 0
    &&& pre.pending().len() == 0 ==> r is None && post.history() == pre.history()
    &&& pre.pending().len() > 0 ==> (match r {
        Some(t) => {
            &&& t.id == tid
            &&& t.queued == now
            &&& t.sent is None
            &&& t.eose is None
            &&& post.history() == pre.history().push(t)
            &&& if all_profile(pre.pending()) {
                &&& t.filters.len() == 1
                &&& t.filters[0].kinds matches Some(ks) && ks == seq![0u64]
                &&& t.filters[0].tags is None
                &&& t.filters[0].limit is None
                &&& t.filters[0].authors matches Some(au) && nodup(au) && (forall|a: Seq<u8>|
                    au.contains(a) <==> #[trigger] has_author(pre.pending(), a))
            } else {
                t.filters == pre.pending()
            }
        },
        None => false,
    })
}

/// Whether the query history holds an unsent trace carrying `id`.
pub open spec fn has_unsent(q: Query, id: Seq<u8>) -> bool {
    exists|i: int|
        0 <= i < q.history().len() && (#[trigger] q.history()[i]).id == id && q.history()[
            i
        ].sent is None
}

/// How a query changes when the trace `id` is reported sent at `at`:
/// every matching unsent trace gets that sent time.
pub open spec fn sent_marked(pre: Query, post: Query, id: Seq<u8>, at: u64) -> bool {
    &&& post.wf()
    &&& post.id@ == pre.id@
    &&& post.pending() == pre.pending()
    &&& post.history().len() == pre.history().len()
    &&& forall|i: int|
        0 <= i < pre.history().len() ==> #[trigger] post.history()[i] == (
        if pre.history()[i].id == id && pre.history()[i].sent is None {
            QueryTraceView { sent: Some(at), ..pre.history()[i] }
        } else {
            pre.history()[i]
        })
}

/// How a query changes when the trace `id` is reported failed: every
/// trace carrying that id leaves the history.
pub open spec fn failed_removed(pre: Query, post: Query, id: Seq<u8>) -> bool {
    &&& post.wf()
    &&& post.id@ == pre.id@
    &&& post.pending() == pre.pending()
    &&& post.history() == pre.history().filter(|t: QueryTraceView| t.id != id)
}

/// One named logical query.
pub struct Query {
    /// The logical name, e.g. one per view of the interface.
    pub id: String,
    pub queue: Vec<Filter>,
    pub traces: Vec<QueryTrace>,
}

impl Query {
    /// The pending filter values, in queue order.
    pub open spec fn pending(self) -> Seq<FilterView> {
        filter_views(self.queue@)
    }

    /// Whether the filter value `f` is pending.
    pub open spec fn pending_contains(self, f: FilterView) -> bool {
        views_contain(self.queue@, f)
    }

    /// The history of dispatched traces.
    pub open spec fn history(self) -> Seq<QueryTraceView> {
        trace_views(self.traces@)
    }

    /// Well-formedness: the pending set holds no duplicates and no filter
    /// still covered by a dispatched trace.
    pub open spec fn wf(self) -> bool {
        &&& nodup(self.pending())
        &&& forall|f: FilterView| #[trigger]
            self.pending_contains(f) ==> !covered_by(f, self.history())
    }

    /// A fresh logical query with the given name.
    pub fn new(id: &str) -> (r: Query)
        ensures
            r.wf(),
            r.id@ == id@,
            r.pending() =~= Seq::<FilterView>::empty(),
            r.history() =~= Seq::<QueryTraceView>::empty(),
    {
        let r = Query { id: id.to_owned(), queue: Vec::new(), traces: Vec::new() };
        proof {
            assert(r.pending() =~= Seq::<FilterView>::empty());
            assert(r.history() =~= Seq::<QueryTraceView>::empty());
        }
        r
    }

    /// Merges `filters` into the pending set: a value already pending, or
    /// still covered by a dispatched trace, is not queued again.
    pub fn add(&mut self, filters: Vec<Filter>)
        requires
            old(self).wf(),
        ensures
            final(self).wf(),
            added(*old(self), *final(self), filter_views(filters@)),
    {
        let ghost pre = *self;
        let ghost orig = filters@;
        proof {
            crate::filter::lemma_views_contain(orig);
        }
        let mut rest = filters;
        while rest.len() > 0
            invariant
                self.wf(),
                self.id@ == pre.id@,
                self.traces@ == pre.traces@,
                rest@.len() <= orig.len(),
                rest@ == orig.subrange(0, rest@.len() as int),
                forall|f: FilterView| #[trigger] self.pending_contains(f) <==> (
                pre.pending_contains(f) || (views_contain(
                    orig.subrange(rest@.len() as int, orig.len() as int),
                    f,
                ) && !covered_by(f, pre.history()))),
            decreases rest@.len(),
        {
            let ghost k = rest@.len() as int;
            let ghost head = rest@;
            let f = rest.pop().unwrap();
            proof {
                assert(head[k - 1] == orig.subrange(0, k)[k - 1]);
                assert(orig.subrange(0, k)[k - 1] == orig[k - 1]);
                assert(f == orig[k - 1]);
                assert forall|j: int| 0 <= j < k - 1 implies rest@[j] == orig[j] by {
                    assert(rest@[j] == head[j]);
                    assert(head[j] == orig.subrange(0, k)[j]);
                }
                assert(rest@ =~= orig.subrange(0, k - 1));
            }
            let cov = self.is_covered(&f);
            let already = contains_filter(&self.queue, &f);
            let is_new = !cov && !already;
            let ghost before = self.queue@;
            let ghost done_old = orig.subrange(k, orig.len() as int);
            let ghost done_new = orig.subrange(k - 1, orig.len() as int);
            proof {
                // Restate the head invariant over the saved queue contents.
                assert(self.history() =~= pre.history());
                assert(nodup(filter_views(before)));
                assert forall|x: FilterView| #[trigger]
                    views_contain(before, x) implies !covered_by(x, pre.history()) by {
                    assert(self.pending_contains(x));
                }
                assert forall|x: FilterView| #[trigger]
                    views_contain(before, x) <==> (pre.pending_contains(x) || (views_contain(
                    done_old,
                    x,
                ) && !covered_by(x, pre.history()))) by {
                    assert(self.pending_contains(x) == views_contain(before, x));
                }
            }
            if is_new {
                self.queue.push(f);
                proof {
                    assert forall|x: FilterView| #[trigger]
                        views_contain(self.queue@, x) <==> (views_contain(before, x) || x == orig[k
                        - 1]@) by {
                        assert(self.queue@.len() == before.len() + 1);
                        assert(self.queue@[before.len() as int]@ == orig[k - 1]@);
                        assert(forall|j: int|
                            0 <= j < before.len() ==> self.queue@[j] == before[j]);
                        if views_contain(self.queue@, x) {
                            let w = choose|w: int|
                                0 <= w < self.queue@.len() && self.queue@[w]@ == x;
                            if w < before.len() {
                                assert(views_contain(before, x));
                            }
                        }
                        if views_contain(before, x) {
                            let w = choose|w: int| 0 <= w < before.len() && before[w]@ == x;
                            assert(self.queue@[w]@ == x);
                        }
                    }
                    // No duplicate arises: the pushed value was not pending.
                    assert forall|x: int, y: int|
                        0 <= x < y < self.pending().len() implies self.pending()[x]
                        != self.pending()[y] by {
                        if y == before.len() {
                            assert(self.pending()[x] == filter_views(before)[x]);
                            assert(self.pending()[y] == orig[k - 1]@);
                            assert(!views_contain(before, orig[k - 1]@));
                            assert(views_contain(before, filter_views(before)[x]));
                        } else {
                            assert(self.pending()[x] == filter_views(before)[x]);
                            assert(self.pending()[y] == filter_views(before)[y]);
                        }
                    }
                }
            }
            proof {
                // The suffix of values handled so far grows by one.
                assert forall|x: FilterView| #[trigger]
                    views_contain(done_new, x) <==> (views_contain(done_old, x) || x == orig[k
                    - 1]@) by {
                    assert(done_new[0] == orig[k - 1]);
                    assert(forall|j: int|
                        0 <= j < done_old.len() ==> done_new[j + 1] == done_old[j]);
                    if views_contain(done_new, x) {
                        let w = choose|w: int| 0 <= w < done_new.len() && done_new[w]@ == x;
                        if w > 0 {
                            assert(done_old[w - 1]@ == x);
                            assert(views_contain(done_old, x));
                        }
                    }
                    if views_contain(done_old, x) {
                        let w = choose|w: int| 0 <= w < done_old.len() && done_old[w]@ == x;
                        assert(done_new[w + 1]@ == x);
                    }
                }
                // The pending set after this step matches the contract for
                // the suffix handled so far.
                assert forall|x: FilterView| #[trigger]
                    self.pending_contains(x) <==> (pre.pending_contains(x) || (views_contain(
                    done_new,
                    x,
                ) && !covered_by(x, pre.history()))) by {
                    assert(self.pending_contains(x) == views_contain(self.queue@, x));
                    if is_new {
                        assert(views_contain(self.queue@, x) <==> (views_contain(before, x) || x
                            == orig[k - 1]@));
                        if x == orig[k - 1]@ {
                            assert(!covered_by(x, pre.history()));
                            assert(views_contain(done_new, x));
                        }
                    } else {
                        assert(self.queue@ == before);
                        if x == orig[k - 1]@ && !cov {
                            assert(views_contain(before, x));
                        }
                    }
                }
                // Pending entries stay uncovered by the unchanged history.
                assert forall|x: FilterView| #[trigger]
                    self.pending_contains(x) implies !covered_by(x, self.history()) by {
                    assert(self.pending_contains(x) == views_contain(self.queue@, x));
                    if is_new {
                        assert(views_contain(before, x) || x == orig[k - 1]@);
                    } else {
                        assert(self.queue@ == before);
                    }
                }
                assert(nodup(self.pending()));
            }
        }
        proof {
            assert(orig.subrange(0, orig.len() as int) =~= orig);
        }
    }

    /// Drains the pending set into the next trace batch, if any.
    ///
    /// With a non-empty pending set, a trace is created at time `now`
    /// under the given id and recorded in the history. A batch made
    /// solely of single-author profile lookups collapses into one filter
    /// for the metadata kind whose authors are the union of the batch
    /// authors; any other batch is dispatched unchanged.
    pub fn next(&mut self, now: u64, trace_id: [u8; 16]) -> (r: Option<QueryTrace>)
        requires
            old(self).wf(),
        ensures
            final(self).wf(),
            flushed(
                *old(self),
                *final(self),
                now,
                trace_id@,
                match r {
                    Some(t) => Some(t@),
                    None => None,
                },
            ),
    {
        if self.queue.len() == 0 {
            proof {
                assert(self.pending().len() == 0);
            }
            return None;
        }
        let ghost pre = *self;
        let mut batch: Vec<Filter> = Vec::new();
        core::mem::swap(&mut batch, &mut self.queue);
        proof {
            assert(self.pending() =~= Seq::<FilterView>::empty());
            crate::filter::lemma_batch_views(batch@);
        }
        let merge = all_profile_exec(&batch);
        let filters: Vec<Filter> = if merge {
            let authors = union_authors(&batch);
            let mut ks: Vec<u64> = Vec::new();
            ks.push(0);
            let merged = Filter::new().kinds(ks).authors(authors);
            let mut one: Vec<Filter> = Vec::new();
            one.push(merged);
            proof {
                assert(merged@.kinds matches Some(k) && k =~= seq![0u64]);
            }
            one
        } else {
            batch
        };
        let history_copy = copy_filters(&filters);
        let t = QueryTrace { id: trace_id, filters, queued: now, sent: None, eose: None };
        let h = QueryTrace {
            id: trace_id,
            filters: history_copy,
            queued: now,
            sent: None,
            eose: None,
        };
        proof {
            assert(h@ =~= t@);
        }
        let ghost old_traces = self.traces@;
        self.traces.push(h);
        proof {
            assert forall|j: int| 0 <= j < old_traces.len() implies self.history()[j]
                == pre.history()[j] by {
                assert(self.traces@[j] == old_traces[j]);
            }
            assert(self.history()[old_traces.len() as int] == t@);
            assert(self.history() =~= pre.history().push(t@));
            if merge {
                assert(t@.filters[0] == t.filters@[0]@);
            } else {
                assert(t@.filters =~= pre.pending());
            }
        }
        Some(t)
    }

    /// Marks every matching unsent trace as sent at time `at`.
    ///
    /// A trace matches when it carries the given id and has no sent time
    /// yet. Returns whether any trace matched.
    pub fn record_sent(&mut self, trace_id: &[u8; 16], at: u64) -> (r: bool)
        requires
            old(self).wf(),
        ensures
            final(self).wf(),
            sent_marked(*old(self), *final(self), trace_id@, at),
            r == has_unsent(*old(self), trace_id@),
    {
        let ghost pre = *self;
        let mut found = false;
        let n = self.traces.len();
        for i in 0..n
            invariant
                n == self.traces@.len() == pre.history().len(),
                self.id@ == pre.id@,
                self.queue@ == pre.queue@,
                forall|j: int|
                    i <= j < n ==> #[trigger] self.history()[j] == pre.history()[j],
                forall|j: int|
                    0 <= j < i ==> #[trigger] self.history()[j] == (
                    if pre.history()[j].id == trace_id@ && pre.history()[j].sent is None {
                        QueryTraceView { sent: Some(at), ..pre.history()[j] }
                    } else {
                        pre.history()[j]
                    }),
                found == exists|j: int|
                    0 <= j < i && (#[trigger] pre.history()[j]).id == trace_id@ && pre.history()[
                        j
                    ].sent is None,
        {
            let matches_id = id16_eq(&self.traces[i].id, trace_id);
            let unsent = self.traces[i].sent.is_none();
            if matches_id && unsent {
                let updated = QueryTrace {
                    id: self.traces[i].id,
                    filters: copy_filters(&self.traces[i].filters),
                    queued: self.traces[i].queued,
                    sent: Some(at),
                    eose: self.traces[i].eose,
                };
                proof {
                    assert(updated@ =~= (QueryTraceView {
                        sent: Some(at),
                        ..self.history()[i as int]
                    }));
                }
                let ghost before = *self;
                self.traces.set(i, updated);
                proof {
                    assert forall|j: int| 0 <= j < n && j != i implies #[trigger] self.history()[j]
                        == before.history()[j] by {
                        assert(self.traces@[j] == before.traces@[j]);
                    }
                    assert(self.history()[i as int] == updated@);
                    assert(pre.history()[i as int].id == trace_id@);
                }
                found = true;
            }
        }
        proof {
            self.lemma_same_filters_same_cover(pre);
        }
        found
    }

    /// Drops every trace carrying the given id from the history, so that
    /// its filters may be queued and dispatched again.
    pub fn record_failed(&mut self, trace_id: &[u8; 16])
        requires
            old(self).wf(),
        ensures
            final(self).wf(),
            failed_removed(*old(self), *final(self), trace_id@),
    {
        let ghost pre = *self;
        let mut kept: Vec<QueryTrace> = Vec::new();
        let n = self.traces.len();
        for i in 0..n
            invariant
                n == self.traces@.len(),
                *self == pre,
                trace_views(kept@) == trace_views(pre.traces@.subrange(0, i as int)).filter(
                    |t: QueryTraceView| t.id != trace_id@,
                ),
        {
            let keep = !id16_eq(&self.traces[i].id, trace_id);
            let ghost prefix = trace_views(pre.traces@.subrange(0, i as int));
            let ghost prefix2 = trace_views(pre.traces@.subrange(0, i + 1));
            proof {
                assert(pre.traces@.subrange(0, i + 1).drop_last() =~= pre.traces@.subrange(
                    0,
                    i as int,
                ));
                assert(prefix2.drop_last() =~= prefix);
                assert(prefix2 =~= prefix.push(pre.history()[i as int]));
                reveal_with_fuel(Seq::filter, 2);
                assert(prefix2.filter(|t: QueryTraceView| t.id != trace_id@)
                    == if pre.history()[i as int].id != trace_id@ {
                    prefix.filter(|t: QueryTraceView| t.id != trace_id@).push(
                        pre.history()[i as int],
                    )
                } else {
                    prefix.filter(|t: QueryTraceView| t.id != trace_id@)
                });
            }
            if keep {
                let copy = QueryTrace {
                    id: self.traces[i].id,
                    filters: copy_filters(&self.traces[i].filters),
                    queued: self.traces[i].queued,
                    sent: self.traces[i].sent,
                    eose: self.traces[i].eose,
                };
                proof {
                    assert(copy@ =~= pre.history()[i as int]);
                }
                let ghost kept_before = kept@;
                kept.push(copy);
                proof {
                    assert(trace_views(kept@) =~= trace_views(kept_before).push(copy@));
                }
            }
        }
        proof {
            assert(pre.traces@.subrange(0, n as int) =~= pre.traces@);
        }
        self.traces = kept;
        proof {
            // Removing traces only shrinks the covered set.
            assert forall|f: FilterView| #[trigger]
                self.pending_contains(f) implies !covered_by(f, self.history()) by {
                assert(pre.pending_contains(f));
                if covered_by(f, self.history()) {
                    let w = choose|w: int|
                        0 <= w < self.history().len() && (#[trigger] self.history()[
                            w
                        ]).filters.contains(f);
                    assert(pre.history().filter(|t: QueryTraceView| t.id != trace_id@).contains(
                        self.history()[w],
                    ));
                    crate::filter::seq_filter_member(pre.history(), |t: QueryTraceView| t.id != trace_id@, self.history()[w]);
                    let v = choose|v: int|
                        0 <= v < pre.history().len() && pre.history()[v] == self.history()[w];
                    assert(covered_by(f, pre.history()));
                }
            }
            assert(nodup(self.pending()));
        }
    }

    /// Two queries with element-wise equal trace filters cover the same
    /// filter values; well-formedness carries over unchanged pendings.
    proof fn lemma_same_filters_same_cover(self, pre: Query)
        requires
            pre.wf(),
            self.pending() == pre.pending(),
            self.queue@ == pre.queue@,
            self.history().len() == pre.history().len(),
            forall|i: int|
                0 <= i < pre.history().len() ==> (#[trigger] self.history()[i]).filters
                    == pre.history()[i].filters,
        ensures
            self.wf(),
    {
        assert forall|f: FilterView| #[trigger]
            self.pending_contains(f) implies !covered_by(f, self.history()) by {
            assert(pre.pending_contains(f));
            if covered_by(f, self.history()) {
                let w = choose|w: int|
                    0 <= w < self.history().len() && (#[trigger] self.history()[w]).filters.contains(
                        f,
                    );
                assert(pre.history()[w].filters.contains(f));
                assert(covered_by(f, pre.history()));
            }
        }
    }

    /// The number of times the filter value `f` sits in the pending set.
    pub open spec fn pending_count(self, f: FilterView) -> nat {
        self.pending().filter(crate::filter::eq_to(f)).len()
    }

    /// Whether a dispatched trace still covers the filter value.
    fn is_covered(&self, f: &Filter) -> (r: bool)
        ensures
            r == covered_by(f@, self.history()),
    {
        let n = self.traces.len();
        for i in 0..n
            invariant
                n == self.traces@.len(),
                forall|j: int| 0 <= j < i ==> !(#[trigger] self.history()[j]).filters.contains(f@),
        {
            if contains_filter(&self.traces[i].filters, f) {
                proof {
                    let w = choose|w: int|
                        0 <= w < self.traces@[i as int].filters@.len()
                            && self.traces@[i as int].filters@[w]@ == f@;
                    assert(self.history()[i as int].filters[w] == f@);
                    assert(self.history()[i as int].filters.contains(f@));
                }
                return true;
            }
            proof {
                if self.history()[i as int].filters.contains(f@) {
                    let w = choose|w: int|
                        0 <= w < self.history()[i as int].filters.len() && self.history()[
                            i as int
                        ].filters[w] == f@;
                    assert(self.traces@[i as int].filters@[w]@ == f@);
                    assert(views_contain(self.traces@[i as int].filters@, f@));
                }
            }
        }
        false
    }
}

/// Filters queued under a logical name, awaiting the next flush.
pub struct Deferred {
    pub id: String,
    pub filters: Vec<Filter>,
}

/// The table of named logical queries, with a deferral buffer drained at
/// each flush cycle.
pub struct QueryCoalescer {
    pub queries: Vec<Query>,
    pub deferred: Vec<Deferred>,
}

/// Relies on chrono's Utc::now: the wall clock in seconds since the
/// epoch; nothing is assumed of its value.
#[verifier::external_body]
fn now_ts() -> i64 {
    chrono::Utc::now().timestamp()
}

/// Relies on uuid's Uuid::new_v4: a fresh random id; nothing is assumed
/// of its value.
#[verifier::external_body]
fn new_trace_id() -> [u8; 16] {
    *uuid::Uuid::new_v4().as_bytes()
}

/// The wall clock in seconds since the epoch, clamped to zero for clocks
/// set before it.
pub fn now_unix() -> u64 {
    let t = now_ts();
    if t < 0 {
        0
    } else {
        t as u64
    }
}

/// Whether the table holds a query under the given name.
pub open spec fn has_query(qs: Seq<Query>, id: Seq<char>) -> bool {
    exists|i: int| 0 <= i < qs.len() && (#[trigger] qs[i]).id@ == id
}

/// How the query table changes when the filter values `fs` are queued
/// under the name `id`: the named query absorbs them, or a fresh query is
/// appended holding exactly the new values; every other query stands.
pub open spec fn filters_queued(
    pre: Seq<Query>,
    post: Seq<Query>,
    id: Seq<char>,
    fs: Seq<FilterView>,
) -> bool {
    if has_query(pre, id) {
        &&& post.len() == pre.len()
        &&& forall|j: int|
            0 <= j < pre.len() ==> if (#[trigger] pre[j]).id@ == id {
                added(pre[j], post[j], fs)
            } else {
                post[j] == pre[j]
            }
    } else {
        &&& post.len() == pre.len() + 1
        &&& forall|j: int| 0 <= j < pre.len() ==> #[trigger] post[j] == pre[j]
        &&& post.last().id@ == id
        &&& post.last().wf()
        &&& post.last().history().len() == 0
        &&& forall|f: FilterView| #[trigger]
            post.last().pending_contains(f) <==> fs.contains(f)
    }
}

/// How a query table changes when the deferral list `defs` is drained
/// into it, entry by entry, in order.
pub open spec fn drained(pre: Seq<Query>, defs: Seq<Deferred>, post: Seq<Query>) -> bool
    decreases defs.len(),
{
    if defs.len() == 0 {
        post == pre
    } else {
        exists|mid: Seq<Query>|
            #[trigger] filters_queued(pre, mid, defs[0].id@, filter_views(defs[0].filters@))
                && drained(mid, defs.drop_first(), post)
    }
}

/// Draining one more deferral extends the chain at its end.
proof fn lemma_drained_extend(
    a: Seq<Query>,
    defs: Seq<Deferred>,
    b: Seq<Query>,
    d: Deferred,
    c: Seq<Query>,
)
    requires
        drained(a, defs, b),
        filters_queued(b, c, d.id@, filter_views(d.filters@)),
    ensures
        drained(a, defs.push(d), c),
    decreases defs.len(),
{
    if defs.len() == 0 {
        assert(a == b);
        assert(defs.push(d)[0] == d);
        assert(defs.push(d).drop_first() =~= Seq::<Deferred>::empty());
        assert(filters_queued(a, c, defs.push(d)[0].id@, filter_views(defs.push(d)[0].filters@)));
        assert(drained(c, defs.push(d).drop_first(), c));
    } else {
        let mid = choose|mid: Seq<Query>|
            #[trigger] filters_queued(a, mid, defs[0].id@, filter_views(defs[0].filters@))
                && drained(mid, defs.drop_first(), b);
        lemma_drained_extend(mid, defs.drop_first(), b, d, c);
        assert(defs.push(d)[0] == defs[0]);
        assert(defs.push(d).drop_first() =~= defs.drop_first().push(d));
        assert(filters_queued(a, mid, defs.push(d)[0].id@, filter_views(defs.push(d)[0].filters@)));
        assert(drained(mid, defs.push(d).drop_first(), c));
    }
}

/// The traces a flush plan dispatches: the batches of the queries that
/// had work pending, in table order.
pub open spec fn plan_traces(plan: Seq<Option<QueryTraceView>>) -> Seq<QueryTraceView> {
    plan.filter(|o: Option<QueryTraceView>| o is Some).map_values(
        |o: Option<QueryTraceView>| o->Some_0,
    )
}

/// One flush of a whole table at the shared time `now`: query `i` of the
/// drained table becomes query `i` of the new one, producing the batch
/// `plan[i]` under the trace id `tids[i]`.
pub open spec fn flush_plan(
    mid: Seq<Query>,
    post: Seq<Query>,
    now: u64,
    tids: Seq<Seq<u8>>,
    plan: Seq<Option<QueryTraceView>>,
) -> bool {
    &&& post.len() == mid.len()
    &&& tids.len() == mid.len()
    &&& plan.len() == mid.len()
    &&& forall|i: int| 0 <= i < mid.len() ==> flushed(mid[i], #[trigger] post[i], now, tids[i], plan[i])
}

/// How the coalescer changes over one whole flush whose dispatched
/// batches read `r`: the deferrals drain into the table, then every query
/// flushes once at one shared time, and `r` holds exactly the created
/// traces in table order.
pub open spec fn flush_cycle(
    pre: QueryCoalescer,
    post: QueryCoalescer,
    r: Seq<QueryTraceView>,
) -> bool {
    exists|mid: Seq<Query>, now: u64, tids: Seq<Seq<u8>>, plan: Seq<Option<QueryTraceView>>|
        {
            &&& drained(pre.queries@, pre.deferred@, mid)
            &&& #[trigger] flush_plan(mid, post.queries@, now, tids, plan)
            &&& r == plan_traces(plan)
        }
}

impl QueryCoalescer {
    /// The names of the logical queries, in table order.
    pub open spec fn names(self) -> Seq<Seq<char>> {
        self.queries@.map_values(|q: Query| q.id@)
    }

    /// Well-formedness: names are unique and every query is well-formed.
    pub open spec fn wf(self) -> bool {
        &&& nodup(self.names())
        &&& forall|i: int| 0 <= i < self.queries@.len() ==> (#[trigger] self.queries@[i]).wf()
    }

    /// An empty coalescer.
    pub fn new() -> (r: QueryCoalescer)
        ensures
            r.wf(),
            r.queries@.len() == 0,
            r.deferred@.len() == 0,
    {
        let r = QueryCoalescer { queries: Vec::new(), deferred: Vec::new() };
        proof {
            assert(r.names() =~= Seq::<Seq<char>>::empty());
        }
        r
    }

    /// Defers `filters` for the name `id` until the next flush; never
    /// blocks and touches no query.
    pub fn queue_query(&mut self, id: &str, filters: Vec<Filter>)
        requires
            old(self).wf(),
        ensures
            final(self).wf(),
            final(self).queries@ == old(self).queries@,
            final(self).deferred@.len() == old(self).deferred@.len() + 1,
            forall|j: int|
                0 <= j < old(self).deferred@.len() ==> #[trigger] final(self).deferred@[j] == old(
                    self,
                ).deferred@[j],
            final(self).deferred@.last().id@ == id@,
            filter_views(final(self).deferred@.last().filters@) == filter_views(filters@),
    {
        self.deferred.push(Deferred { id: id.to_owned(), filters });
    }

    /// Queues `filters` under the name `id` at once.
    pub fn query(&mut self, id: &str, filters: Vec<Filter>)
        requires
            old(self).wf(),
        ensures
            final(self).wf(),
            final(self).deferred@ == old(self).deferred@,
            filters_queued(
                old(self).queries@,
                final(self).queries@,
                id@,
                filter_views(filters@),
            ),
    {
        self.push_filters(id, filters);
    }

    /// The position of the query named `id`, if any.
    fn find_query(&self, id: &str) -> (r: Option<usize>)
        ensures
            match r {
                Some(i) => 0 <= i < self.queries@.len() && self.queries@[i as int].id@ == id@,
                None => !has_query(self.queries@, id@),
            },
    {
        let key = id.to_owned();
        let n = self.queries.len();
        for i in 0..n
            invariant
                key@ == id@,
                n == self.queries@.len(),
                forall|j: int| 0 <= j < i ==> (#[trigger] self.queries@[j]).id@ != id@,
        {
            if self.queries[i].id == key {
                return Some(i);
            }
        }
        None
    }

    /// Merges `filters` into the query named `id`, creating it if absent.
    fn push_filters(&mut self, id: &str, filters: Vec<Filter>)
        requires
            old(self).wf(),
        ensures
            final(self).wf(),
            final(self).deferred@ == old(self).deferred@,
            filters_queued(
                old(self).queries@,
                final(self).queries@,
                id@,
                filter_views(filters@),
            ),
    {
        let ghost pre = *self;
        match self.find_query(id) {
            Some(i) => {
                let mut q = self.queries.remove(i);
                q.add(filters);
                self.queries.insert(i, q);
                proof {
                    assert(self.queries@.len() == pre.queries@.len());
                    assert(forall|j: int|
                        0 <= j < pre.queries@.len() && j != i ==> #[trigger] self.queries@[j]
                            == pre.queries@[j]);
                    assert(added(
                        pre.queries@[i as int],
                        self.queries@[i as int],
                        filter_views(filters@),
                    ));
                    // Unique names: only position i carries this name.
                    assert forall|j: int|
                        0 <= j < pre.queries@.len() && (#[trigger] pre.queries@[j]).id@ == id@
                        implies j == i by {
                        assert(pre.names()[j] == pre.queries@[j].id@);
                        assert(pre.names()[i as int] == pre.queries@[i as int].id@);
                    }
                    assert(self.names() =~= pre.names());
                }
            },
            None => {
                let mut q = Query::new(id);
                q.add(filters);
                self.queries.push(q);
                proof {
                    assert(forall|j: int|
                        0 <= j < pre.queries@.len() ==> #[trigger] self.queries@[j]
                            == pre.queries@[j]);
                    assert(self.queries@.last().id@ == id@);
                    assert forall|x: int, y: int|
                        0 <= x < y < self.names().len() implies self.names()[x]
                        != self.names()[y] by {
                        assert(self.names()[x] == self.queries@[x].id@);
                        assert(self.names()[y] == self.queries@[y].id@);
                        if y == pre.queries@.len() {
                            assert(self.queries@[y].id@ == id@);
                            assert(!has_query(pre.queries@, id@));
                        } else {
                            assert(pre.names()[x] == pre.queries@[x].id@);
                            assert(pre.names()[y] == pre.queries@[y].id@);
                        }
                    }
                }
            },
        }
    }

    /// One flush cycle: drains the deferral buffer into the table, then
    /// drains every non-empty pending set into one trace, recorded in its
    /// query's history and returned for dispatch.
    pub fn flush(&mut self) -> (r: Vec<QueryTrace>)
        requires
            old(self).wf(),
        ensures
            final(self).wf(),
            final(self).deferred@.len() == 0,
            forall|i: int|
                0 <= i < final(self).queries@.len() ==> (#[trigger] final(self).queries@[
                    i
                ]).pending().len() == 0,
            flush_cycle(*old(self), *final(self), trace_views(r@)),
    {
        let ghost pre = *self;
        // Step 1: drain external deferrals into the table.
        while self.deferred.len() > 0
            invariant
                self.wf(),
                self.deferred@.len() <= pre.deferred@.len(),
                self.deferred@ == pre.deferred@.skip(
                    pre.deferred@.len() - self.deferred@.len(),
                ),
                drained(
                    pre.queries@,
                    pre.deferred@.subrange(0, pre.deferred@.len() - self.deferred@.len()),
                    self.queries@,
                ),
            decreases self.deferred@.len(),
        {
            let ghost k = pre.deferred@.len() - self.deferred@.len();
            let ghost qs_before = self.queries@;
            let d = self.deferred.remove(0);
            proof {
                assert(d == pre.deferred@.skip(k)[0]);
                assert(pre.deferred@.skip(k)[0] == pre.deferred@[k]);
                assert(self.deferred@ =~= pre.deferred@.skip(k + 1)) by {
                    assert forall|j: int|
                        0 <= j < pre.deferred@.skip(k).remove(0).len() implies pre.deferred@.skip(
                        k,
                    ).remove(0)[j] == pre.deferred@.skip(k + 1)[j] by {
                        assert(pre.deferred@.skip(k).remove(0)[j] == pre.deferred@.skip(k)[j + 1]);
                        assert(pre.deferred@.skip(k)[j + 1] == pre.deferred@[k + j + 1]);
                        assert(pre.deferred@.skip(k + 1)[j] == pre.deferred@[k + 1 + j]);
                    }
                }
            }
            let Deferred { id, filters } = d;
            let ghost def = pre.deferred@[k];
            proof {
                assert(id@ == def.id@);
                assert(filters@ == def.filters@);
            }
            self.push_filters(id.as_str(), filters);
            proof {
                lemma_drained_extend(
                    pre.queries@,
                    pre.deferred@.subrange(0, k),
                    qs_before,
                    def,
                    self.queries@,
                );
                assert(pre.deferred@.subrange(0, k).push(def) =~= pre.deferred@.subrange(
                    0,
                    k + 1,
                ));
            }
        }
        proof {
            assert(pre.deferred@.subrange(0, pre.deferred@.len() as int) =~= pre.deferred@);
        }
        // Step 2: drain every pending set into a trace.
        let now = now_unix();
        let ghost table = self.queries@;
        let ghost mut tids: Seq<Seq<u8>> = Seq::empty();
        let ghost mut plan: Seq<Option<QueryTraceView>> = Seq::empty();
        let mut out: Vec<QueryTrace> = Vec::new();
        let mut done: Vec<Query> = Vec::new();
        while self.queries.len() > 0
            invariant
                self.deferred@.len() == 0,
                drained(pre.queries@, pre.deferred@, table),
                nodup(table.map_values(|q: Query| q.id@)),
                forall|i: int| 0 <= i < table.len() ==> (#[trigger] table[i]).wf(),
                done@.len() + self.queries@.len() == table.len(),
                self.queries@ == table.skip(done@.len() as int),
                tids.len() == done@.len(),
                plan.len() == done@.len(),
                forall|i: int|
                    0 <= i < done@.len() ==> flushed(
                        table[i],
                        #[trigger] done@[i],
                        now,
                        tids[i],
                        plan[i],
                    ),
                forall|i: int|
                    0 <= i < done@.len() ==> (#[trigger] done@[i]).wf() && done@[i].pending().len()
                        == 0 && done@[i].id@ == table[i].id@,
                trace_views(out@) == plan_traces(plan),
            decreases self.queries@.len(),
        {
            let ghost k = done@.len() as int;
            let mut q = self.queries.remove(0);
            proof {
                assert(q == table.skip(k)[0]);
                assert(table.skip(k)[0] == table[k]);
                assert(self.queries@ =~= table.skip(k + 1)) by {
                    assert(self.queries@ == table.skip(k).remove(0));
                    assert forall|j: int| 0 <= j < table.skip(k).remove(0).len() implies table.skip(
                        k,
                    ).remove(0)[j] == table.skip(k + 1)[j] by {
                        assert(table.skip(k).remove(0)[j] == table.skip(k)[j + 1]);
                        assert(table.skip(k)[j + 1] == table[k + j + 1]);
                        assert(table.skip(k + 1)[j] == table[k + 1 + j]);
                    }
                }
            }
            let tid = new_trace_id();
            let ghost plan_before = plan;
            let step = q.next(now, tid);
            proof {
                reveal_with_fuel(Seq::filter, 2);
            }
            match step {
                Some(t) => {
                    proof {
                        plan = plan.push(Some(t@));
                        tids = tids.push(tid@);
                        assert(plan.drop_last() =~= plan_before);
                        assert(plan_traces(plan) =~= plan_traces(plan_before).push(t@));
                    }
                    out.push(t);
                    proof {
                        assert(trace_views(out@) =~= plan_traces(plan));
                    }
                },
                None => {
                    proof {
                        plan = plan.push(None);
                        tids = tids.push(tid@);
                        assert(plan.drop_last() =~= plan_before);
                        assert(plan_traces(plan) =~= plan_traces(plan_before));
                    }
                },
            }
            done.push(q);
        }
        let ghost finished = done@;
        core::mem::swap(&mut self.queries, &mut done);
        proof {
            assert(self.queries@ == finished);
            assert(self.queries@.len() == table.len());
            assert forall|x: int, y: int|
                0 <= x < y < self.names().len() implies self.names()[x] != self.names()[y] by {
                assert(self.names()[x] == self.queries@[x].id@);
                assert(self.queries@[x].id@ == table[x].id@);
                assert(self.names()[y] == self.queries@[y].id@);
                assert(self.queries@[y].id@ == table[y].id@);
                assert(table.map_values(|q: Query| q.id@)[x] == table[x].id@);
                assert(table.map_values(|q: Query| q.id@)[y] == table[y].id@);
            }
            assert(flush_cycle(pre, *self, trace_views(out@))) by {
                assert(drained(pre.queries@, pre.deferred@, table));
                assert(forall|i: int|
                    0 <= i < table.len() ==> flushed(
                        table[i],
                        #[trigger] self.queries@[i],
                        now,
                        tids[i],
                        plan[i],
                    ));
                assert(flush_plan(table, self.queries@, now, tids, plan));
                assert(trace_views(out@) == plan_traces(plan));
            }
        }
        out
    }

    /// Reports the trace `trace_id` as successfully dispatched at `at`:
    /// every query marks its matching unsent traces. Returns whether any
    /// query held one.
    pub fn record_sent(&mut self, trace_id: &[u8; 16], at: u64) -> (r: bool)
        requires
            old(self).wf(),
        ensures
            final(self).wf(),
            final(self).deferred@ == old(self).deferred@,
            final(self).queries@.len() == old(self).queries@.len(),
            forall|i: int|
                0 <= i < old(self).queries@.len() ==> sent_marked(
                    #[trigger] old(self).queries@[i],
                    final(self).queries@[i],
                    trace_id@,
                    at,
                ),
            r == exists|i: int|
                0 <= i < old(self).queries@.len() && has_unsent(
                    #[trigger] old(self).queries@[i],
                    trace_id@,
                ),
    {
        let ghost table = self.queries@;
        let mut done: Vec<Query> = Vec::new();
        let mut found = false;
        while self.queries.len() > 0
            invariant
                self.deferred@ == old(self).deferred@,
                forall|i: int| 0 <= i < table.len() ==> (#[trigger] table[i]).wf(),
                done@.len() + self.queries@.len() == table.len(),
                self.queries@ == table.skip(done@.len() as int),
                forall|i: int|
                    0 <= i < done@.len() ==> sent_marked(
                        #[trigger] table[i],
                        done@[i],
                        trace_id@,
                        at,
                    ),
                found == exists|i: int|
                    0 <= i < done@.len() && has_unsent(#[trigger] table[i], trace_id@),
            decreases self.queries@.len(),
        {
            let ghost k = done@.len() as int;
            let mut q = self.queries.remove(0);
            proof {
                assert(q == table.skip(k)[0]);
                assert(table.skip(k)[0] == table[k]);
                assert(self.queries@ =~= table.skip(k + 1)) by {
                    assert forall|j: int| 0 <= j < table.skip(k).remove(0).len() implies table.skip(
                        k,
                    ).remove(0)[j] == table.skip(k + 1)[j] by {
                        assert(table.skip(k).remove(0)[j] == table.skip(k)[j + 1]);
                        assert(table.skip(k)[j + 1] == table[k + j + 1]);
                        assert(table.skip(k + 1)[j] == table[k + 1 + j]);
                    }
                }
            }
            let hit = q.record_sent(trace_id, at);
            found = found || hit;
            done.push(q);
        }
        let ghost finished = done@;
        core::mem::swap(&mut self.queries, &mut done);
        proof {
            assert(self.queries@ == finished);
            assert forall|i: int| 0 <= i < self.queries@.len() implies (#[trigger] self.queries@[
                i
            ]).wf() by {
                assert(sent_marked(table[i], self.queries@[i], trace_id@, at));
            }
            assert forall|x: int, y: int|
                0 <= x < y < self.names().len() implies self.names()[x] != self.names()[y] by {
                assert(sent_marked(table[x], self.queries@[x], trace_id@, at));
                assert(sent_marked(table[y], self.queries@[y], trace_id@, at));
                assert(self.names()[x] == self.queries@[x].id@);
                assert(self.names()[y] == self.queries@[y].id@);
                assert(table.map_values(|q: Query| q.id@)[x] == table[x].id@);
                assert(table.map_values(|q: Query| q.id@)[y] == table[y].id@);
            }
        }
        found
    }

    /// Reports the trace `trace_id` as failed to dispatch: every query
    /// drops its matching traces, so the filters may be queued again.
    pub fn record_failed(&mut self, trace_id: &[u8; 16])
        requires
            old(self).wf(),
        ensures
            final(self).wf(),
            final(self).deferred@ == old(self).deferred@,
            final(self).queries@.len() == old(self).queries@.len(),
            forall|i: int|
                0 <= i < old(self).queries@.len() ==> failed_removed(
                    #[trigger] old(self).queries@[i],
                    final(self).queries@[i],
                    trace_id@,
                ),
    {
        let ghost table = self.queries@;
        let mut done: Vec<Query> = Vec::new();
        while self.queries.len() > 0
            invariant
                self.deferred@ == old(self).deferred@,
                forall|i: int| 0 <= i < table.len() ==> (#[trigger] table[i]).wf(),
                done@.len() + self.queries@.len() == table.len(),
                self.queries@ == table.skip(done@.len() as int),
                forall|i: int|
                    0 <= i < done@.len() ==> failed_removed(
                        #[trigger] table[i],
                        done@[i],
                        trace_id@,
                    ),
            decreases self.queries@.len(),
        {
            let ghost k = done@.len() as int;
            let mut q = self.queries.remove(0);
            proof {
                assert(q == table.skip(k)[0]);
                assert(table.skip(k)[0] == table[k]);
                assert(self.queries@ =~= table.skip(k + 1)) by {
                    assert forall|j: int| 0 <= j < table.skip(k).remove(0).len() implies table.skip(
                        k,
                    ).remove(0)[j] == table.skip(k + 1)[j] by {
                        assert(table.skip(k).remove(0)[j] == table.skip(k)[j + 1]);
                        assert(table.skip(k)[j + 1] == table[k + j + 1]);
                        assert(table.skip(k + 1)[j] == table[k + 1 + j]);
                    }
                }
            }
            q.record_failed(trace_id);
            done.push(q);
        }
        let ghost finished = done@;
        core::mem::swap(&mut self.queries, &mut done);
        proof {
            assert(self.queries@ == finished);
            assert forall|i: int| 0 <= i < self.queries@.len() implies (#[trigger] self.queries@[
                i
            ]).wf() by {
                assert(failed_removed(table[i], self.queries@[i], trace_id@));
            }
            assert forall|x: int, y: int|
                0 <= x < y < self.names().len() implies self.names()[x] != self.names()[y] by {
                assert(failed_removed(table[x], self.queries@[x], trace_id@));
                assert(failed_removed(table[y], self.queries@[y], trace_id@));
                assert(self.names()[x] == self.queries@[x].id@);
                assert(self.names()[y] == self.queries@[y].id@);
                assert(table.map_values(|q: Query| q.id@)[x] == table[x].id@);
                assert(table.map_values(|q: Query| q.id@)[y] == table[y].id@);
            }
        }
    }
}


/// Law: queuing a filter value twice under the same logical query leaves
/// it pending exactly once -- or not at all, when a dispatched trace
/// still covers it. Dedup holds for any two equal filter sets, since
/// queuing works value by value.
pub proof fn lemma_queue_dedup(q0: Query, q1: Query, q2: Query, f: FilterView)
    requires
        q0.wf(),
        added(q0, q1, seq![f]),
        added(q1, q2, seq![f]),
    ensures
        q2.pending_count(f) == (if covered_by(f, q0.history()) {
            0nat
        } else {
            1nat
        }),
{
    assert(seq![f].contains(f)) by {
        assert(seq![f][0] == f);
    }
    crate::filter::lemma_views_contain(q2.queue@);
    if covered_by(f, q0.history()) {
        assert(!q0.pending_contains(f));
        assert(!q2.pending_contains(f));
        assert(!q2.pending().contains(f));
        lemma_count_absent(q2.pending(), f);
    } else {
        assert(q2.pending_contains(f));
        assert(q2.pending().contains(f)) by {
            let w = choose|w: int| 0 <= w < q2.queue@.len() && q2.queue@[w]@ == f;
            assert(q2.pending()[w] == f);
        }
        lemma_nodup_count_one(q2.pending(), f);
    }
}

/// Law: flushing a query whose pending set holds profile lookups for the
/// authors `a` and `b` yields one trace holding one metadata-kind filter
/// whose author set is exactly {a, b}.
pub proof fn lemma_profile_coalescing(
    pre: Query,
    post: Query,
    now: u64,
    tid: Seq<u8>,
    r: Option<QueryTraceView>,
    fa: FilterView,
    fb: FilterView,
    a: Seq<u8>,
    b: Seq<u8>,
)
    requires
        flushed(pre, post, now, tid, r),
        pre.pending() == seq![fa, fb],
        crate::filter::profile_lookup(fa),
        crate::filter::profile_lookup(fb),
        fa.authors == Some(seq![a]),
        fb.authors == Some(seq![b]),
    ensures
        r matches Some(t) && {
            &&& t.filters.len() == 1
            &&& t.filters[0].kinds matches Some(ks) && ks == seq![0u64]
            &&& t.filters[0].authors matches Some(au) && au.to_set() == set![a, b]
        },
{
    assert(pre.pending().len() == 2);
    assert(all_profile(pre.pending())) by {
        assert(pre.pending()[0] == fa);
        assert(pre.pending()[1] == fb);
    }
    let t = r->Some_0;
    let au = t.filters[0].authors->Some_0;
    assert forall|x: Seq<u8>| has_author(pre.pending(), x) <==> (x == a || x == b) by {
        assert(pre.pending()[0] == fa);
        assert(pre.pending()[1] == fb);
        assert(seq![a][0] == a);
        assert(seq![b][0] == b);
        if has_author(pre.pending(), x) {
            let w = choose|w: int|
                0 <= w < pre.pending().len() && ((#[trigger] pre.pending()[w]).authors matches Some(
                    v,
                ) && v.contains(x));
            if w == 0 {
                let k = choose|k: int| 0 <= k < seq![a].len() && seq![a][k] == x;
                assert(x == a);
            } else {
                let k = choose|k: int| 0 <= k < seq![b].len() && seq![b][k] == x;
                assert(x == b);
            }
        }
        if x == a {
            assert(seq![a].contains(x));
            assert(has_author(pre.pending(), x));
        }
        if x == b {
            assert(seq![b].contains(x));
            assert(has_author(pre.pending(), x));
        }
    }
    assert(has_author(pre.pending(), a));
    assert(has_author(pre.pending(), b));
    assert(au.contains(a) && au.contains(b));
    assert(au.to_set() =~= set![a, b]) by {
        assert(forall|x: Seq<u8>| au.to_set().contains(x) == au.contains(x));
        assert forall|x: Seq<u8>| au.contains(x) implies (x == a || x == b) by {
            assert(au.contains(x) == has_author(pre.pending(), x));
        }
    }
}

} // verus!
