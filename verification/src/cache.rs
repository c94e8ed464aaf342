//! A bounded asset cache: URLs become content-addressed keys, keys become
//! decoded handles.
//!
//! Each key holds one entry that moves from `Pending` to `Ready` or
//! `Failed` exactly once and never back. A key is queued for fetching at
//! most once while unresolved, and the number of `Ready` entries never
//! exceeds the capacity: completing a fetch beyond it evicts the
//! least-recently-accessed `Ready` entry.

use sha2::Digest;
use vstd::pervasive::VecAdditionalExecFns;
use vstd::prelude::*;

use crate::filter::nodup;
use crate::filter::str_views;
use crate::hex::hex_encode;
use crate::hex::hex_of;

verus! {

/// A decoded, reusable asset: an opaque texture id with the pixel
/// dimensions of the decoded image.
#[derive(Clone, Copy, PartialEq, Eq, Structural, Debug)]
pub struct AssetHandle {
    pub texture: u64,
    pub width: u32,
    pub height: u32,
}

/// The lifecycle state of a cache entry.
#[derive(Clone, Copy, PartialEq, Eq, Structural, Debug)]
pub enum EntryState {
    /// Known, with a fetch or decode still outstanding.
    Pending,
    /// Decoded and reusable.
    Ready(AssetHandle),
    /// Fetch or decode failed; shown as a placeholder until reloaded.
    Failed,
}

/// One cached asset.
pub struct CacheEntry {
    pub key: String,
    pub state: EntryState,
    pub last_access: u64,
}

/// The mathematical value of a cache entry.
#[verifier::ext_equal]
pub struct CacheEntryView {
    pub key: Seq<char>,
    pub state: EntryState,
    pub last_access: u64,
}

impl View for CacheEntry {
    type V = CacheEntryView;

    open spec fn view(&self) -> CacheEntryView {
        CacheEntryView { key: self.key@, state: self.state, last_access: self.last_access }
    }
}

/// The views of a sequence of entries.
pub open spec fn entry_views(s: Seq<CacheEntry>) -> Seq<CacheEntryView> {
    s.map_values(|e: CacheEntry| e@)
}

/// The name of what sha2's Sha256 returns: the digest is a function of
/// the input bytes alone.
pub uninterp spec fn sha256_of(data: Seq<u8>) -> Seq<u8>;

/// Relies on sha2's Sha256 digest: 32 bytes, depending on the input
/// bytes alone.
#[verifier::external_body]
fn sha256(data: &[u8]) -> (r: Vec<u8>)
    ensures
        r@ == sha256_of(data@),
        r@.len() == 32,
{
    sha2::Sha256::digest(data).to_vec()
}

/// The cache key of a URL: the lowercase hex form of the digest of its
/// bytes. Equal URLs always map to the same key.
pub open spec fn cache_key_of(url: Seq<char>) -> Seq<char> {
    hex_of(sha256_of(vstd::utf8::encode_utf8(url)))
}

/// Derives the content-addressed cache key of a URL.
pub fn key_for_url(url: &str) -> (r: String)
    ensures
        r@ == cache_key_of(url@),
        r@.len() == 64,
{
    let digest = sha256(url.as_bytes());
    hex_encode(digest.as_slice())
}

/// The number of `Ready` entries in a table.
pub open spec fn count_ready(s: Seq<CacheEntryView>) -> nat
    decreases s.len(),
{
    if s.len() == 0 {
        0
    } else {
        count_ready(s.drop_last()) + if s.last().state is Ready {
            1nat
        } else {
            0nat
        }
    }
}

/// Tables whose entries agree on readiness position by position hold the
/// same number of `Ready` entries.
proof fn lemma_count_ready_congruent(s1: Seq<CacheEntryView>, s2: Seq<CacheEntryView>)
    requires
        s1.len() == s2.len(),
        forall|i: int| 0 <= i < s1.len() ==> ((#[trigger] s1[i]).state is Ready <==> (
        #[trigger] s2[i]).state is Ready),
    ensures
        count_ready(s1) == count_ready(s2),
    decreases s1.len(),
{
    if s1.len() > 0 {
        assert(forall|i: int|
            0 <= i < s1.drop_last().len() ==> (#[trigger] s1.drop_last()[i]) == s1[i]);
        assert(forall|i: int|
            0 <= i < s2.drop_last().len() ==> (#[trigger] s2.drop_last()[i]) == s2[i]);
        lemma_count_ready_congruent(s1.drop_last(), s2.drop_last());
        assert(s1.last() == s1[s1.len() - 1]);
        assert(s2.last() == s2[s2.len() - 1]);
    }
}

/// Removing an entry subtracts its own readiness from the count.
proof fn lemma_count_ready_remove(s: Seq<CacheEntryView>, i: int)
    requires
        0 <= i < s.len(),
    ensures
        count_ready(s) == count_ready(s.remove(i)) + if s[i].state is Ready {
            1nat
        } else {
            0nat
        },
    decreases s.len(),
{
    if i == s.len() - 1 {
        assert(s.remove(i) =~= s.drop_last());
    } else {
        let d = s.drop_last();
        lemma_count_ready_remove(d, i);
        assert(s.remove(i).drop_last() =~= d.remove(i));
        assert(s.remove(i).last() == s.last());
    }
}

/// A table bounded in `Ready` entries with at least one of them.
proof fn lemma_count_ready_member(s: Seq<CacheEntryView>)
    requires
        count_ready(s) > 0,
    ensures
        exists|i: int| 0 <= i < s.len() && (#[trigger] s[i]).state is Ready,
    decreases s.len(),
{
    if s.len() > 0 {
        if s.last().state is Ready {
            assert(s[s.len() - 1].state is Ready);
        } else {
            lemma_count_ready_member(s.drop_last());
            let w = choose|i: int| 0 <= i < s.drop_last().len() && (#[trigger] s.drop_last()[i]).state is Ready;
            assert(s[w].state is Ready);
        }
    }
}

/// The in-memory asset table and fetch queue.
pub struct AssetCache {
    pub capacity: usize,
    pub tick: u64,
    pub entries: Vec<CacheEntry>,
    pub fetch_queue: Vec<String>,
}

/// How the cache changes when `k` is loaded and `r` comes back: a known
/// key is answered from the table with nothing else observable; a fresh
/// key is answered `Pending`, recorded, and queued exactly once.
pub open spec fn loaded(pre: AssetCache, post: AssetCache, k: Seq<char>, r: EntryState) -> bool {
    &&& post.wf()
    &&& post.capacity == pre.capacity
    &&& post.tick == pre.tick + 1
    &&& match pre.state_of(k) {
        Some(st) => {
            &&& r == st
            &&& post.queue() == pre.queue()
            &&& post.table().len() == pre.table().len()
            &&& forall|x: Seq<char>| #[trigger] post.state_of(x) == pre.state_of(x)
        },
        None => {
            &&& r is Pending
            &&& post.state_of(k) == Some(EntryState::Pending)
            &&& forall|x: Seq<char>| x != k ==> #[trigger] post.state_of(x) == pre.state_of(x)
            &&& post.queue() == pre.queue().push(k)
        },
    }
}

/// How the cache changes when the fetch for `k` completes: a pending
/// entry resolves exactly once, to `Ready` on a decoded handle and to
/// `Failed` otherwise, and never back; any other entry is left alone. A
/// resolution to `Ready` beyond the capacity evicts the one
/// least-recently-accessed `Ready` entry.
pub open spec fn completed(
    pre: AssetCache,
    post: AssetCache,
    k: Seq<char>,
    outcome: Option<AssetHandle>,
    evicted: Option<Seq<char>>,
) -> bool {
    &&& post.wf()
    &&& post.capacity == pre.capacity
    &&& post.tick == pre.tick
    &&& if pre.state_of(k) == Some(EntryState::Pending) {
        &&& post.queue() == pre.queue().filter(|x: Seq<char>| x != k)
        &&& post.state_of(k) == Some(
            match outcome {
                Some(h) => EntryState::Ready(h),
                None => EntryState::Failed,
            },
        )
        &&& match evicted {
            Some(ek) => {
                &&& ek != k
                &&& outcome is Some
                &&& pre.ready_count() == pre.capacity
                &&& pre.state_of(ek) matches Some(st) && st is Ready
                &&& post.state_of(ek) is None
                &&& forall|x: Seq<char>|
                    x != k && x != ek ==> #[trigger] post.state_of(x) == pre.state_of(x)
                &&& forall|i: int|
                    0 <= i < pre.table().len() && (#[trigger] pre.table()[i]).state is Ready
                        && pre.table()[i].key != ek ==> pre.table()[i].last_access > pre.table()[
                        pre.index_of(ek)
                    ].last_access
            },
            None => {
                &&& outcome is None || pre.ready_count() < pre.capacity
                &&& post.table().len() == pre.table().len()
                &&& forall|x: Seq<char>|
                    x != k ==> #[trigger] post.state_of(x) == pre.state_of(x)
            },
        }
    } else {
        &&& evicted is None
        &&& post.table() == pre.table()
        &&& post.queue() == pre.queue()
    }
}

/// Filtering keeps a sequence free of duplicates.
proof fn lemma_nodup_filter<A>(s: Seq<A>, p: spec_fn(A) -> bool)
    requires
        nodup(s),
    ensures
        nodup(s.filter(p)),
    decreases s.len(),
{
    reveal(Seq::filter);
    if s.len() > 0 {
        let d = s.drop_last();
        assert(forall|j: int| 0 <= j < d.len() ==> d[j] == s[j]);
        assert(nodup(d));
        lemma_nodup_filter(d, p);
        if p(s.last()) {
            let f = d.filter(p);
            assert(!f.contains(s.last())) by {
                if f.contains(s.last()) {
                    crate::filter::seq_filter_member(d, p, s.last());
                    let w = choose|w: int| 0 <= w < d.len() && d[w] == s.last();
                    assert(s[w] == s[s.len() - 1]);
                }
            }
            assert forall|x: int, y: int|
                0 <= x < y < s.filter(p).len() implies s.filter(p)[x] != s.filter(p)[y] by {
                if y == s.filter(p).len() - 1 {
                    assert(s.filter(p)[y] == s.last());
                    assert(s.filter(p)[x] == f[x]);
                    assert(f.contains(f[x]));
                } else {
                    assert(s.filter(p)[x] == f[x]);
                    assert(s.filter(p)[y] == f[y]);
                }
            }
        }
    }
}

impl AssetCache {
    /// The table of entries, by value.
    pub open spec fn table(self) -> Seq<CacheEntryView> {
        entry_views(self.entries@)
    }

    /// The queued keys, in fetch order.
    pub open spec fn queue(self) -> Seq<Seq<char>> {
        str_views(self.fetch_queue@)
    }

    /// Whether the table holds an entry under `k`.
    pub open spec fn has_key(self, k: Seq<char>) -> bool {
        exists|i: int| 0 <= i < self.table().len() && (#[trigger] self.table()[i]).key == k
    }

    /// The position of the entry under `k`.
    pub open spec fn index_of(self, k: Seq<char>) -> int {
        choose|i: int| 0 <= i < self.table().len() && (#[trigger] self.table()[i]).key == k
    }

    /// The state of the entry under `k`, if any.
    pub open spec fn state_of(self, k: Seq<char>) -> Option<EntryState> {
        if self.has_key(k) {
            Some(self.table()[self.index_of(k)].state)
        } else {
            None
        }
    }

    /// The number of `Ready` entries.
    pub open spec fn ready_count(self) -> nat {
        count_ready(self.table())
    }

    /// Well-formedness: keys and access stamps are unique, stamps run
    /// below the clock, every queued key is a pending entry queued once,
    /// and `Ready` entries never outnumber the capacity.
    pub open spec fn wf(self) -> bool {
        &&& self.capacity >= 1
        &&& forall|i: int, j: int|
            0 <= i < j < self.table().len() ==> (#[trigger] self.table()[i]).key != (
            #[trigger] self.table()[j]).key
        &&& forall|i: int, j: int|
            0 <= i < j < self.table().len() ==> (#[trigger] self.table()[i]).last_access != (
            #[trigger] self.table()[j]).last_access
        &&& forall|i: int|
            0 <= i < self.table().len() ==> (#[trigger] self.table()[i]).last_access < self.tick
        &&& nodup(self.queue())
        &&& forall|j: int|
            0 <= j < self.queue().len() ==> self.state_of(#[trigger] self.queue()[j]) == Some(
                EntryState::Pending,
            )
        &&& self.ready_count() <= self.capacity
    }

    /// An empty cache bounded by `capacity`.
    pub fn new(capacity: usize) -> (r: AssetCache)
        requires
            capacity >= 1,
        ensures
            r.wf(),
            r.capacity == capacity,
            r.tick == 0,
            r.table().len() == 0,
            r.queue().len() == 0,
    {
        let r = AssetCache { capacity, tick: 0, entries: Vec::new(), fetch_queue: Vec::new() };
        proof {
            assert(r.table() =~= Seq::<CacheEntryView>::empty());
            assert(r.queue() =~= Seq::<Seq<char>>::empty());
        }
        r
    }

    /// Unique keys pin the lookup functions to each position.
    proof fn lemma_at(self, i: int)
        requires
            forall|x: int, y: int|
                0 <= x < y < self.table().len() ==> (#[trigger] self.table()[x]).key != (
                #[trigger] self.table()[y]).key,
            0 <= i < self.table().len(),
        ensures
            self.has_key(self.table()[i].key),
            self.index_of(self.table()[i].key) == i,
            self.state_of(self.table()[i].key) == Some(self.table()[i].state),
    {
        assert(self.has_key(self.table()[i].key));
        let j = self.index_of(self.table()[i].key);
        if j != i {
            assert(self.table()[j].key == self.table()[i].key);
        }
    }

    /// Returns the current entry state under `key`, scheduling a fetch as
    /// a side effect if the key is new: an unknown key becomes a
    /// `Pending` entry queued for one background fetch; a known key is
    /// answered from the table alone, marked as freshly accessed, with no
    /// new work scheduled.
    pub fn load(&mut self, key: &String) -> (r: EntryState)
        requires
            old(self).wf(),
            old(self).tick < u64::MAX,
        ensures
            final(self).wf(),
            loaded(*old(self), *final(self), key@, r),
    {
        let ghost pre = *self;
        match self.find(key) {
            Some(i) => {
                let r = self.entries[i].state;
                proof {
                    pre.lemma_at(i as int);
                }
                let updated = CacheEntry {
                    key: self.entries[i].key.clone(),
                    state: r,
                    last_access: self.tick,
                };
                self.entries.set(i, updated);
                self.tick = self.tick + 1;
                proof {
                    assert(self.table().len() == pre.table().len());
                    assert forall|j: int| 0 <= j < pre.table().len() implies (
                    #[trigger] self.table()[j]).key == pre.table()[j].key && self.table()[j].state
                        == pre.table()[j].state by {
                        if j != i {
                            assert(self.entries@[j] == pre.entries@[j]);
                        }
                    }
                    self.lemma_states_match(pre);
                    assert(self.queue() =~= pre.queue());
                    lemma_count_ready_congruent(self.table(), pre.table());
                    // Stamps stay unique: position i now carries the
                    // largest stamp of all.
                    assert forall|x: int, y: int|
                        0 <= x < y < self.table().len() implies (#[trigger] self.table()[
                        x]).last_access != (#[trigger] self.table()[y]).last_access by {
                        if x != i && y != i {
                            assert(self.entries@[x] == pre.entries@[x]);
                            assert(self.entries@[y] == pre.entries@[y]);
                        } else if x == i {
                            assert(self.entries@[y] == pre.entries@[y]);
                            assert(pre.table()[y].last_access < pre.tick);
                        } else {
                            assert(self.entries@[x] == pre.entries@[x]);
                            assert(pre.table()[x].last_access < pre.tick);
                        }
                    }
                    assert(loaded(pre, *self, key@, r));
                }
                r
            },
            None => {
                let entry = CacheEntry {
                    key: key.clone(),
                    state: EntryState::Pending,
                    last_access: self.tick,
                };
                self.entries.push(entry);
                self.tick = self.tick + 1;
                self.fetch_queue.push(key.clone());
                proof {
                    let n = pre.table().len() as int;
                    assert(self.table().len() == n + 1);
                    assert(forall|j: int|
                        0 <= j < n ==> (#[trigger] self.table()[j]) == pre.table()[j]);
                    assert(self.table()[n].key == key@);
                    assert(self.table()[n].state is Pending);
                    // The new key is fresh, so lookups elsewhere stand.
                    assert forall|x: Seq<char>| x != key@ implies self.state_of(x) == pre.state_of(
                        x,
                    ) by {
                        self.lemma_lookup_after_push(pre, key@, x);
                    }
                    assert(self.has_key(key@));
                    let w = self.index_of(key@);
                    if w != n {
                        assert(pre.table()[w].key == key@);
                        assert(pre.has_key(key@));
                    }
                    assert(self.state_of(key@) == Some(EntryState::Pending));
                    assert(self.queue() =~= pre.queue().push(key@));
                    assert(count_ready(self.table()) == count_ready(pre.table())) by {
                        assert(self.table().drop_last() =~= pre.table());
                    }
                    // The fresh key was not queued: queued keys have
                    // entries.
                    assert forall|x: int, y: int|
                        0 <= x < y < self.queue().len() implies self.queue()[x]
                        != self.queue()[y] by {
                        if y == pre.queue().len() {
                            assert(self.queue()[x] == pre.queue()[x]);
                            assert(pre.state_of(pre.queue()[x]) == Some(EntryState::Pending));
                        } else {
                            assert(self.queue()[x] == pre.queue()[x]);
                            assert(self.queue()[y] == pre.queue()[y]);
                        }
                    }
                    assert forall|j: int| 0 <= j < self.queue().len() implies self.state_of(
                        #[trigger] self.queue()[j],
                    ) == Some(EntryState::Pending) by {
                        if j < pre.queue().len() {
                            assert(self.queue()[j] == pre.queue()[j]);
                            assert(pre.state_of(pre.queue()[j]) == Some(EntryState::Pending));
                            if self.queue()[j] != key@ {
                                self.lemma_lookup_after_push(pre, key@, self.queue()[j]);
                            }
                        } else {
                            assert(self.queue()[j] == key@);
                        }
                    }
                    // Key uniqueness: the pushed key was absent.
                    assert forall|x: int, y: int|
                        0 <= x < y < self.table().len() implies (#[trigger] self.table()[x]).key
                        != (#[trigger] self.table()[y]).key by {
                        if y == n {
                            if self.table()[x].key == key@ {
                                assert(pre.table()[x].key == key@);
                                assert(pre.has_key(key@));
                            }
                        }
                    }
                    assert(loaded(pre, *self, key@, EntryState::Pending));
                }
                EntryState::Pending
            },
        }
    }

    /// Keys, states and positions all agree, so lookups agree.
    proof fn lemma_states_match(self, pre: AssetCache)
        requires
            forall|x: int, y: int|
                0 <= x < y < pre.table().len() ==> (#[trigger] pre.table()[x]).key != (
                #[trigger] pre.table()[y]).key,
            self.table().len() == pre.table().len(),
            forall|j: int|
                0 <= j < pre.table().len() ==> (#[trigger] self.table()[j]).key == pre.table()[
                    j
                ].key && self.table()[j].state == pre.table()[j].state,
        ensures
            forall|x: Seq<char>| #[trigger] self.state_of(x) == pre.state_of(x),
    {
        assert forall|x: Seq<char>| #[trigger] self.state_of(x) == pre.state_of(x) by {
            if self.has_key(x) {
                let w = choose|w: int|
                    0 <= w < self.table().len() && (#[trigger] self.table()[w]).key == x;
                assert(pre.table()[w].key == x);
                assert(pre.has_key(x));
                let i = self.index_of(x);
                let j = pre.index_of(x);
                assert(pre.table()[i].key == x);
                if i != j {
                    assert(pre.table()[j].key == x);
                }
            }
            if pre.has_key(x) {
                let w = choose|w: int|
                    0 <= w < pre.table().len() && (#[trigger] pre.table()[w]).key == x;
                assert(self.table()[w].key == x);
                assert(self.has_key(x));
            }
        }
    }

    /// After pushing an entry under a fresh key, every other lookup reads
    /// as before.
    proof fn lemma_lookup_after_push(self, pre: AssetCache, k: Seq<char>, x: Seq<char>)
        requires
            x != k,
            forall|a: int, b: int|
                0 <= a < b < pre.table().len() ==> (#[trigger] pre.table()[a]).key != (
                #[trigger] pre.table()[b]).key,
            self.table().len() == pre.table().len() + 1,
            forall|j: int|
                0 <= j < pre.table().len() ==> (#[trigger] self.table()[j]) == pre.table()[j],
            self.table().last().key == k,
        ensures
            self.state_of(x) == pre.state_of(x),
    {
        let n = pre.table().len() as int;
        if self.has_key(x) {
            let i = self.index_of(x);
            assert(self.table()[i].key == x);
            assert(i < n);
            assert(pre.table()[i].key == x);
            assert(pre.has_key(x));
            let j = pre.index_of(x);
            assert(pre.table()[j].key == x);
            if i != j {
                assert(pre.table()[i].key != pre.table()[j].key);
            }
            assert(self.state_of(x) == pre.state_of(x));
        } else {
            if pre.has_key(x) {
                let w = pre.index_of(x);
                assert(pre.table()[w].key == x);
                assert(self.table()[w].key == x);
                assert(self.has_key(x));
            }
        }
    }

    /// After one entry changes state in place, only its key reads
    /// differently.
    proof fn lemma_lookup_update(self, pre: AssetCache, i: int)
        requires
            forall|a: int, b: int|
                0 <= a < b < pre.table().len() ==> (#[trigger] pre.table()[a]).key != (
                #[trigger] pre.table()[b]).key,
            0 <= i < pre.table().len(),
            self.table().len() == pre.table().len(),
            forall|j: int|
                0 <= j < pre.table().len() ==> (#[trigger] self.table()[j]).key == pre.table()[
                    j
                ].key,
            forall|j: int|
                0 <= j < pre.table().len() && j != i ==> (#[trigger] self.table()[j]).state
                    == pre.table()[j].state,
        ensures
            forall|x: Seq<char>|
                x != pre.table()[i].key ==> #[trigger] self.state_of(x) == pre.state_of(x),
            self.state_of(pre.table()[i].key) == Some(self.table()[i].state),
    {
        assert forall|x: Seq<char>| x != pre.table()[i].key implies #[trigger] self.state_of(x)
            == pre.state_of(x) by {
            if self.has_key(x) {
                let a = self.index_of(x);
                assert(self.table()[a].key == x);
                assert(pre.table()[a].key == x);
                assert(pre.has_key(x));
                let b = pre.index_of(x);
                assert(pre.table()[b].key == x);
                if a != b {
                    assert(pre.table()[a].key != pre.table()[b].key);
                }
                assert(a != i);
            } else {
                if pre.has_key(x) {
                    let b = pre.index_of(x);
                    assert(self.table()[b].key == x);
                }
            }
        }
        assert(self.has_key(pre.table()[i].key));
        let a = self.index_of(pre.table()[i].key);
        if a != i {
            assert(pre.table()[a].key != pre.table()[i].key);
        }
    }

    /// After removing one entry, only its key reads differently: it is
    /// gone.
    proof fn lemma_lookup_remove(self, pre: AssetCache, l: int)
        requires
            forall|a: int, b: int|
                0 <= a < b < pre.table().len() ==> (#[trigger] pre.table()[a]).key != (
                #[trigger] pre.table()[b]).key,
            0 <= l < pre.table().len(),
            self.table() == pre.table().remove(l),
        ensures
            forall|x: Seq<char>|
                x != pre.table()[l].key ==> #[trigger] self.state_of(x) == pre.state_of(x),
            self.state_of(pre.table()[l].key) is None,
            forall|a: int, b: int|
                0 <= a < b < self.table().len() ==> (#[trigger] self.table()[a]).key != (
                #[trigger] self.table()[b]).key,
            forall|j: int| 0 <= j < l ==> #[trigger] self.table()[j] == pre.table()[j],
            forall|j: int|
                l <= j < self.table().len() ==> #[trigger] self.table()[j] == pre.table()[j + 1],
    {
        let n = pre.table().len() as int;
        assert(self.table().len() == n - 1);
        assert forall|a: int, b: int|
            0 <= a < b < self.table().len() implies (#[trigger] self.table()[a]).key != (
            #[trigger] self.table()[b]).key by {
            let ia: int = if a < l {
                a
            } else {
                a + 1
            };
            let ib: int = if b < l {
                b
            } else {
                b + 1
            };
            assert(self.table()[a] == pre.table()[ia]);
            assert(self.table()[b] == pre.table()[ib]);
        }
        assert forall|x: Seq<char>| x != pre.table()[l].key implies #[trigger] self.state_of(x)
            == pre.state_of(x) by {
            if self.has_key(x) {
                let a = self.index_of(x);
                assert(self.table()[a].key == x);
                let ia: int = if a < l {
                    a
                } else {
                    a + 1
                };
                assert(pre.table()[ia].key == x);
                assert(pre.has_key(x));
                let b = pre.index_of(x);
                assert(pre.table()[b].key == x);
                if b != ia {
                    assert(pre.table()[b].key != pre.table()[ia].key);
                }
                assert(self.state_of(x) == Some(self.table()[a].state));
                assert(pre.state_of(x) == Some(pre.table()[ia].state));
            } else {
                if pre.has_key(x) {
                    let b = pre.index_of(x);
                    assert(pre.table()[b].key == x);
                    assert(b != l);
                    let a: int = if b < l {
                        b
                    } else {
                        b - 1
                    };
                    assert(self.table()[a] == pre.table()[b]);
                    assert(self.has_key(x));
                }
            }
        }
        if self.has_key(pre.table()[l].key) {
            let a = self.index_of(pre.table()[l].key);
            assert(self.table()[a].key == pre.table()[l].key);
            let ia: int = if a < l {
                a
            } else {
                a + 1
            };
            assert(pre.table()[ia].key == pre.table()[l].key);
            if ia != l {
                assert(pre.table()[ia].key != pre.table()[l].key);
            }
        }
    }

    /// The number of `Ready` entries, counted.
    fn count_ready_exec(&self) -> (r: usize)
        requires
            self.wf(),
        ensures
            r == self.ready_count(),
    {
        let mut count: usize = 0;
        let n = self.entries.len();
        for i in 0..n
            invariant
                self.wf(),
                n == self.entries@.len(),
                count == count_ready(self.table().subrange(0, i as int)),
                count <= i,
        {
            let is_ready = match self.entries[i].state {
                EntryState::Ready(_) => true,
                _ => false,
            };
            proof {
                assert(self.table().subrange(0, i + 1).drop_last() =~= self.table().subrange(
                    0,
                    i as int,
                ));
                assert(self.table().subrange(0, i + 1).last() == self.table()[i as int]);
                assert(self.table()[i as int].state == self.entries@[i as int].state);
            }
            if is_ready {
                count = count + 1;
            }
        }
        proof {
            assert(self.table().subrange(0, n as int) =~= self.table());
        }
        count
    }

    /// The position of the least-recently-accessed `Ready` entry, if any.
    fn find_lru_ready(&self) -> (r: Option<usize>)
        requires
            self.wf(),
        ensures
            match r {
                Some(i) => {
                    &&& 0 <= i < self.table().len()
                    &&& self.table()[i as int].state is Ready
                    &&& forall|j: int|
                        0 <= j < self.table().len() && (#[trigger] self.table()[j]).state is Ready
                            && j != i ==> self.table()[j].last_access > self.table()[
                            i as int
                        ].last_access
                },
                None => forall|j: int|
                    0 <= j < self.table().len() ==> !((#[trigger] self.table()[j]).state is Ready),
            },
    {
        let mut best: Option<usize> = None;
        let n = self.entries.len();
        for i in 0..n
            invariant
                self.wf(),
                n == self.entries@.len(),
                match best {
                    Some(b) => {
                        &&& 0 <= b < i
                        &&& self.table()[b as int].state is Ready
                        &&& forall|j: int|
                            0 <= j < i && (#[trigger] self.table()[j]).state is Ready && j != b
                                ==> self.table()[j].last_access > self.table()[
                                b as int
                            ].last_access
                    },
                    None => forall|j: int|
                        0 <= j < i ==> !((#[trigger] self.table()[j]).state is Ready),
                },
        {
            let is_ready = match self.entries[i].state {
                EntryState::Ready(_) => true,
                _ => false,
            };
            proof {
                assert(self.table()[i as int].state == self.entries@[i as int].state);
            }
            if is_ready {
                match best {
                    Some(b) => {
                        if self.entries[i].last_access < self.entries[b].last_access {
                            best = Some(i);
                        }
                    },
                    None => {
                        best = Some(i);
                    },
                }
            }
        }
        best
    }

    /// Resolves the pending entry under `key` with the outcome of its
    /// background fetch: a decoded handle, or nothing on a fetch or
    /// decode failure. Returns the key of the entry evicted to stay
    /// within capacity, if one was.
    #[verifier::rlimit(60)]
    pub fn complete(&mut self, key: &String, outcome: Option<AssetHandle>) -> (evicted: Option<
        String,
    >)
        requires
            old(self).wf(),
        ensures
            final(self).wf(),
            completed(
                *old(self),
                *final(self),
                key@,
                outcome,
                match evicted {
                    Some(ek) => Some(ek@),
                    None => None,
                },
            ),
    {
        let ghost pre = *self;
        let idx = match self.find(key) {
            Some(i) => i,
            None => {
                return None;
            },
        };
        proof {
            pre.lemma_at(idx as int);
        }
        let was_pending = match self.entries[idx].state {
            EntryState::Pending => true,
            _ => false,
        };
        if !was_pending {
            return None;
        }
        self.dequeue(key);
        let ghost pre = *self;
        proof {
            assert(pre.state_of(key@) == Some(EntryState::Pending));
        }
        let idx = match self.find(key) {
            Some(i) => i,
            None => {
                proof {
                    assert(false);
                }
                return None;
            },
        };
        proof {
            pre.lemma_at(idx as int);
        }
        match outcome {
            None => {
                let updated = CacheEntry {
                    key: self.entries[idx].key.clone(),
                    state: EntryState::Failed,
                    last_access: self.entries[idx].last_access,
                };
                self.entries.set(idx, updated);
                proof {
                    assert(self.table().len() == pre.table().len());
                    assert(forall|j: int|
                        0 <= j < pre.table().len() && j != idx ==> (#[trigger] self.table()[j])
                            == pre.table()[j]);
                    assert(self.table()[idx as int].key == pre.table()[idx as int].key);
                    self.lemma_lookup_update(pre, idx as int);
                    assert(self.queue() =~= pre.queue());
                    lemma_count_ready_congruent(self.table(), pre.table());
                    self.lemma_queue_still_pending(pre, key@);
                }
                None
            },
            Some(h) => {
                let mut evicted_key: Option<String> = None;
                let full = self.count_ready_exec() == self.capacity;
                if full {
                    match self.find_lru_ready() {
                        Some(lru) => {
                            proof {
                                assert(pre.table()[lru as int].state is Ready);
                                assert(lru != idx);
                                pre.lemma_at(lru as int);
                            }
                            let removed = self.entries.remove(lru);
                            evicted_key = Some(removed.key);
                            proof {
                                assert(self.table() =~= pre.table().remove(lru as int));
                                self.lemma_lookup_remove(pre, lru as int);
                                lemma_count_ready_remove(pre.table(), lru as int);
                                assert(self.queue() =~= pre.queue());
                            }
                        },
                        None => {
                            proof {
                                lemma_count_ready_member(pre.table());
                                let w = choose|i: int|
                                    0 <= i < pre.table().len() && (#[trigger] pre.table()[i]).state
                                        is Ready;
                                assert(false);
                            }
                        },
                    }
                }
                let ghost shrunk = *self;
                let idx2 = match self.find(key) {
                    Some(i) => i,
                    None => {
                        proof {
                            assert(shrunk.state_of(key@) == Some(EntryState::Pending));
                            assert(false);
                        }
                        return None;
                    },
                };
                proof {
                    shrunk.lemma_at(idx2 as int);
                    assert(shrunk.table()[idx2 as int].state is Pending);
                }
                let updated = CacheEntry {
                    key: self.entries[idx2].key.clone(),
                    state: EntryState::Ready(h),
                    last_access: self.entries[idx2].last_access,
                };
                self.entries.set(idx2, updated);
                proof {
                    assert(self.table().len() == shrunk.table().len());
                    assert(forall|j: int|
                        0 <= j < shrunk.table().len() && j != idx2 ==> (#[trigger] self.table()[j])
                            == shrunk.table()[j]);
                    assert(self.table()[idx2 as int].key == shrunk.table()[idx2 as int].key);
                    assert(self.table()[idx2 as int].last_access == shrunk.table()[
                        idx2 as int
                    ].last_access);
                    self.lemma_lookup_update(shrunk, idx2 as int);
                    assert(self.queue() =~= shrunk.queue());
                    // Count: the pending entry became the one new Ready.
                    lemma_count_ready_remove(self.table(), idx2 as int);
                    lemma_count_ready_remove(shrunk.table(), idx2 as int);
                    assert(self.table().remove(idx2 as int) =~= shrunk.table().remove(idx2 as int));
                    assert(self.ready_count() == shrunk.ready_count() + 1);
                    self.lemma_queue_still_pending(shrunk, key@);
                    if full {
                        assert(pre.state_of(evicted_key->Some_0@) matches Some(st) && st is Ready);
                        assert(evicted_key->Some_0@ != key@);
                    }
                }
                evicted_key
            },
        }
    }

    /// Withdraws `key` from the fetch queue, leaving the table alone.
    fn dequeue(&mut self, key: &String)
        requires
            old(self).wf(),
        ensures
            final(self).wf(),
            final(self).entries@ == old(self).entries@,
            final(self).capacity == old(self).capacity,
            final(self).tick == old(self).tick,
            final(self).queue() == old(self).queue().filter(|x: Seq<char>| x != key@),
            !final(self).queue().contains(key@),
    {
        let ghost pre = *self;
        let mut kept: Vec<String> = Vec::new();
        let n = self.fetch_queue.len();
        for i in 0..n
            invariant
                n == self.fetch_queue@.len(),
                *self == pre,
                str_views(kept@) == str_views(pre.fetch_queue@.subrange(0, i as int)).filter(
                    |x: Seq<char>| x != key@,
                ),
        {
            let ghost prefix = str_views(pre.fetch_queue@.subrange(0, i as int));
            let ghost prefix2 = str_views(pre.fetch_queue@.subrange(0, i + 1));
            proof {
                assert(pre.fetch_queue@.subrange(0, i + 1).drop_last() =~= pre.fetch_queue@.subrange(
                    0,
                    i as int,
                ));
                assert(prefix2.drop_last() =~= prefix);
                assert(prefix2 =~= prefix.push(pre.queue()[i as int]));
                reveal_with_fuel(Seq::filter, 2);
                assert(prefix2.filter(|x: Seq<char>| x != key@) == if pre.queue()[i as int]
                    != key@ {
                    prefix.filter(|x: Seq<char>| x != key@).push(pre.queue()[i as int])
                } else {
                    prefix.filter(|x: Seq<char>| x != key@)
                });
            }
            let keep = !(self.fetch_queue[i] == *key);
            proof {
                assert(self.fetch_queue@[i as int]@ == pre.queue()[i as int]);
            }
            if keep {
                let ghost kept_before = kept@;
                kept.push(self.fetch_queue[i].clone());
                proof {
                    assert(str_views(kept@) =~= str_views(kept_before).push(
                        pre.queue()[i as int],
                    ));
                }
            }
        }
        proof {
            assert(pre.fetch_queue@.subrange(0, n as int) =~= pre.fetch_queue@);
        }
        self.fetch_queue = kept;
        proof {
            let p = |x: Seq<char>| x != key@;
            lemma_nodup_filter(pre.queue(), p);
            assert forall|j: int| 0 <= j < self.queue().len() implies self.state_of(
                #[trigger] self.queue()[j],
            ) == Some(EntryState::Pending) by {
                pre.queue().lemma_filter_pred(p, j);
                crate::filter::seq_filter_member(pre.queue(), p, self.queue()[j]);
                assert(pre.state_of(self.queue()[j]) == Some(EntryState::Pending));
                assert(self.table() == pre.table());
            }
            assert(!self.queue().contains(key@)) by {
                if self.queue().contains(key@) {
                    let w = choose|w: int| 0 <= w < self.queue().len() && self.queue()[w] == key@;
                    pre.queue().lemma_filter_pred(p, w);
                }
            }
        }
    }

    /// Queued keys other than `k` keep reading `Pending` when `k`'s entry
    /// resolves and the lookups elsewhere stand.
    proof fn lemma_queue_still_pending(self, pre: AssetCache, k: Seq<char>)
        requires
            pre.wf(),
            self.queue() == pre.queue(),
            pre.state_of(k) == Some(EntryState::Pending),
            !pre.queue().contains(k),
            forall|x: Seq<char>| x != k ==> #[trigger] self.state_of(x) == pre.state_of(x),
        ensures
            forall|j: int|
                0 <= j < self.queue().len() ==> self.state_of(#[trigger] self.queue()[j]) == Some(
                    EntryState::Pending,
                ),
    {
        assert forall|j: int| 0 <= j < self.queue().len() implies self.state_of(
            #[trigger] self.queue()[j],
        ) == Some(EntryState::Pending) by {
            assert(pre.state_of(pre.queue()[j]) == Some(EntryState::Pending));
            assert(pre.queue()[j] != k);
        }
    }

    /// Takes the next key awaiting a background fetch. The key always
    /// reads `Pending` in the table.
    pub fn pop_fetch(&mut self) -> (r: Option<String>)
        requires
            old(self).wf(),
        ensures
            final(self).wf(),
            final(self).capacity == old(self).capacity,
            final(self).tick == old(self).tick,
            final(self).table() == old(self).table(),
            match r {
                Some(k) => {
                    &&& old(self).queue().len() > 0
                    &&& k@ == old(self).queue()[0]
                    &&& final(self).queue() == old(self).queue().subrange(
                        1,
                        old(self).queue().len() as int,
                    )
                    &&& final(self).state_of(k@) == Some(EntryState::Pending)
                },
                None => old(self).queue().len() == 0 && final(self).queue() == old(self).queue(),
            },
    {
        if self.fetch_queue.len() == 0 {
            return None;
        }
        let ghost pre = *self;
        let k = self.fetch_queue.remove(0);
        proof {
            assert(pre.state_of(k@) == Some(EntryState::Pending)) by {
                assert(pre.queue()[0] == k@);
            }
            assert(self.queue() =~= pre.queue().subrange(1, pre.queue().len() as int)) by {
                assert forall|j: int| 0 <= j < self.queue().len() implies self.queue()[j]
                    == pre.queue()[j + 1] by {
                    assert(self.fetch_queue@[j] == pre.fetch_queue@[j + 1]);
                }
            }
            assert forall|x: int, y: int| 0 <= x < y < self.queue().len() implies self.queue()[x]
                != self.queue()[y] by {
                assert(self.queue()[x] == pre.queue()[x + 1]);
                assert(self.queue()[y] == pre.queue()[y + 1]);
            }
            assert forall|j: int| 0 <= j < self.queue().len() implies self.state_of(
                #[trigger] self.queue()[j],
            ) == Some(EntryState::Pending) by {
                assert(self.queue()[j] == pre.queue()[j + 1]);
                assert(pre.state_of(pre.queue()[j + 1]) == Some(EntryState::Pending));
            }
        }
        Some(k)
    }

    /// The position of the entry under `key`, if any.
    fn find(&self, key: &String) -> (r: Option<usize>)
        ensures
            match r {
                Some(i) => 0 <= i < self.table().len() && self.table()[i as int].key == key@,
                None => !self.has_key(key@),
            },
    {
        let n = self.entries.len();
        for i in 0..n
            invariant
                n == self.entries@.len(),
                forall|j: int| 0 <= j < i ==> (#[trigger] self.table()[j]).key != key@,
        {
            if self.entries[i].key == *key {
                proof {
                    assert(self.table()[i as int].key == key@);
                }
                return Some(i);
            }
            proof {
                assert(self.table()[i as int].key == self.entries@[i as int].key@);
            }
        }
        None
    }
}

/// Law: the cache never holds more `Ready` entries than its capacity.
pub proof fn lemma_ready_bounded(c: AssetCache)
    requires
        c.wf(),
    ensures
        c.ready_count() <= c.capacity,
{
}

/// Law: however many loads race on one key before it resolves, at most
/// one fetch is scheduled for it -- and exactly one when the key was
/// unknown and unqueued.
pub proof fn lemma_at_most_one_fetch(
    c0: AssetCache,
    c1: AssetCache,
    c2: AssetCache,
    k: Seq<char>,
    r1: EntryState,
    r2: EntryState,
)
    requires
        c0.wf(),
        loaded(c0, c1, k, r1),
        loaded(c1, c2, k, r2),
    ensures
        c2.queue().filter(crate::filter::eq_to(k)).len() <= 1,
        c0.state_of(k) is None ==> c2.queue().filter(crate::filter::eq_to(k)).len() == 1,
{
    assert(nodup(c2.queue()));
    if c2.queue().contains(k) {
        crate::filter::lemma_nodup_count_one(c2.queue(), k);
        assert(c2.queue().filter(crate::filter::eq_to(k)).len() == 1);
    } else {
        crate::filter::lemma_count_absent(c2.queue(), k);
        assert(c2.queue().filter(crate::filter::eq_to(k)).len() == 0);
    }
    if c0.state_of(k) is None {
        assert(c1.queue() == c0.queue().push(k));
        assert(c1.state_of(k) == Some(EntryState::Pending));
        assert(c2.queue() == c1.queue());
        assert(c2.queue().contains(k)) by {
            assert(c2.queue()[c0.queue().len() as int] == k);
        }
    }
}

/// Law: once a key reads `Ready`, further loads return the same decoded
/// handle and schedule no new work.
pub proof fn lemma_idempotent_read(
    c0: AssetCache,
    c1: AssetCache,
    c2: AssetCache,
    k: Seq<char>,
    h: AssetHandle,
    r1: EntryState,
    r2: EntryState,
)
    requires
        c0.wf(),
        c0.state_of(k) == Some(EntryState::Ready(h)),
        loaded(c0, c1, k, r1),
        loaded(c1, c2, k, r2),
    ensures
        r1 == EntryState::Ready(h),
        r2 == EntryState::Ready(h),
        c2.queue() == c0.queue(),
        c2.state_of(k) == Some(EntryState::Ready(h)),
{
    assert(c1.state_of(k) == c0.state_of(k));
    assert(c2.state_of(k) == c1.state_of(k));
}

/// Law: resolving a key to `Ready` in a cache already holding `capacity`
/// `Ready` entries evicts exactly one entry, and it is the
/// least-recently-accessed `Ready` one; the bound stands afterwards.
pub proof fn lemma_eviction_bound(
    pre: AssetCache,
    post: AssetCache,
    k: Seq<char>,
    h: AssetHandle,
    ek: Seq<char>,
)
    requires
        pre.wf(),
        pre.state_of(k) == Some(EntryState::Pending),
        completed(pre, post, k, Some(h), Some(ek)),
    ensures
        pre.ready_count() == pre.capacity,
        pre.state_of(ek) matches Some(st) && st is Ready,
        post.state_of(ek) is None,
        post.ready_count() <= post.capacity,
        forall|i: int|
            0 <= i < pre.table().len() && (#[trigger] pre.table()[i]).state is Ready
                && pre.table()[i].key != ek ==> pre.table()[i].last_access > pre.table()[
                pre.index_of(ek)
            ].last_access,
{
}

} // verus!
