//! Profile loading bookkeeping: which authors still need their metadata
//! fetched, and what came back for them.

use vstd::prelude::*;

use crate::filter::contains_pk;
use crate::filter::nodup;
use crate::filter::pk_views;
use crate::filter::PubKey;

verus! {

/// A state-changing request from a rendered view to the application.
#[derive(Clone, Copy, Debug)]
pub enum RouteAction {
    /// A view noticed a missing profile and wants it fetched.
    DemandProfile(PubKey),
}

/// Collects the authors whose profiles the views demand, each fetched at
/// most once.
pub struct ProfileLoader {
    queue: Vec<PubKey>,
    fetched: Vec<PubKey>,
}

impl ProfileLoader {
    /// The authors awaiting a fetch.
    pub closed spec fn queued(self) -> Seq<Seq<u8>> {
        pk_views(self.queue@)
    }

    /// The authors already handed out for fetching.
    pub closed spec fn done(self) -> Seq<Seq<u8>> {
        pk_views(self.fetched@)
    }

    /// Well-formedness: no author sits twice in either list.
    pub closed spec fn wf(self) -> bool {
        nodup(self.queued()) && nodup(self.done())
    }

    /// An empty loader.
    pub fn new() -> (r: ProfileLoader)
        ensures
            r.wf(),
            r.queued().len() == 0,
            r.done().len() == 0,
    {
        let r = ProfileLoader { queue: Vec::new(), fetched: Vec::new() };
        proof {
            assert(r.queued() =~= Seq::<Seq<u8>>::empty());
            assert(r.done() =~= Seq::<Seq<u8>>::empty());
        }
        r
    }

    /// Demands the profile behind `pubkey`: queued unless already fetched
    /// or already waiting.
    pub fn demand(&mut self, pubkey: PubKey)
        requires
            old(self).wf(),
        ensures
            final(self).wf(),
            final(self).done() == old(self).done(),
            forall|a: Seq<u8>| #[trigger]
                final(self).queued().contains(a) <==> (old(self).queued().contains(a) || (a
                    == pubkey@ && !old(self).done().contains(pubkey@))),
    {
        let ghost pre = *self;
        if contains_pk(&self.fetched, &pubkey) {
            return ;
        }
        if contains_pk(&self.queue, &pubkey) {
            return ;
        }
        let ghost before = self.queue@;
        self.queue.push(pubkey);
        proof {
            assert forall|a: Seq<u8>| #[trigger]
                self.queued().contains(a) <==> (pk_views(before).contains(a) || a == pubkey@) by {
                assert(self.queued().len() == before.len() + 1);
                assert(forall|j: int|
                    0 <= j < before.len() ==> self.queued()[j] == pk_views(before)[j]);
                assert(self.queued()[before.len() as int] == pubkey@);
                if self.queued().contains(a) {
                    let w = choose|w: int| 0 <= w < self.queued().len() && self.queued()[w] == a;
                    if w < before.len() {
                        assert(pk_views(before)[w] == a);
                    }
                }
                if pk_views(before).contains(a) {
                    let w = choose|w: int| 0 <= w < before.len() && pk_views(before)[w] == a;
                    assert(self.queued()[w] == a);
                }
            }
            assert forall|x: int, y: int|
                0 <= x < y < self.queued().len() implies self.queued()[x] != self.queued()[y] by {
                if y == before.len() {
                    assert(self.queued()[x] == pk_views(before)[x]);
                    assert(pk_views(before).contains(pk_views(before)[x]));
                } else {
                    assert(self.queued()[x] == pk_views(before)[x]);
                    assert(self.queued()[y] == pk_views(before)[y]);
                }
            }
        }
    }

    /// Takes every waiting author out for fetching; each is marked
    /// fetched and never handed out again.
    pub fn next(&mut self) -> (r: Vec<PubKey>)
        requires
            old(self).wf(),
        ensures
            final(self).wf(),
            pk_views(r@) == old(self).queued(),
            final(self).queued().len() == 0,
            forall|a: Seq<u8>| #[trigger]
                final(self).done().contains(a) <==> (old(self).done().contains(a) || old(
                    self,
                ).queued().contains(a)),
    {
        let ghost pre = *self;
        let mut out: Vec<PubKey> = Vec::new();
        core::mem::swap(&mut out, &mut self.queue);
        proof {
            assert(self.queued() =~= Seq::<Seq<u8>>::empty());
        }
        let n = out.len();
        for i in 0..n
            invariant
                n == out@.len(),
                self.queue@.len() == 0,
                out@ == pre.queue@,
                self.wf(),
                forall|a: Seq<u8>| #[trigger]
                    self.done().contains(a) <==> (pre.done().contains(a) || pk_views(
                        pre.queue@,
                    ).subrange(0, i as int).contains(a)),
        {
            let ghost done_before = self.done();
            let ghost prefix = pk_views(pre.queue@).subrange(0, i as int);
            let ghost prefix2 = pk_views(pre.queue@).subrange(0, i + 1);
            proof {
                assert(prefix2.drop_last() =~= prefix);
                assert(prefix2.last() == pk_views(pre.queue@)[i as int]);
                assert(pk_views(pre.queue@)[i as int] == pre.queue@[i as int]@);
            }
            let pk = out[i];
            if !contains_pk(&self.fetched, &pk) {
                let ghost before = self.fetched@;
                self.fetched.push(pk);
                proof {
                    assert forall|a: Seq<u8>| #[trigger]
                        self.done().contains(a) <==> (pk_views(before).contains(a) || a
                            == pk@) by {
                        assert(self.done().len() == before.len() + 1);
                        assert(forall|j: int|
                            0 <= j < before.len() ==> self.done()[j] == pk_views(before)[j]);
                        assert(self.done()[before.len() as int] == pk@);
                        if self.done().contains(a) {
                            let w = choose|w: int|
                                0 <= w < self.done().len() && self.done()[w] == a;
                            if w < before.len() {
                                assert(pk_views(before)[w] == a);
                            }
                        }
                        if pk_views(before).contains(a) {
                            let w = choose|w: int|
                                0 <= w < before.len() && pk_views(before)[w] == a;
                            assert(self.done()[w] == a);
                        }
                    }
                    assert forall|x: int, y: int|
                        0 <= x < y < self.done().len() implies self.done()[x]
                        != self.done()[y] by {
                        if y == before.len() {
                            assert(self.done()[x] == pk_views(before)[x]);
                            assert(pk_views(before).contains(pk_views(before)[x]));
                        } else {
                            assert(self.done()[x] == pk_views(before)[x]);
                            assert(self.done()[y] == pk_views(before)[y]);
                        }
                    }
                }
            }
            proof {
                assert forall|a: Seq<u8>| prefix2.contains(a) <==> (prefix.contains(a) || a
                    == pre.queue@[i as int]@) by {
                    if prefix2.contains(a) {
                        let w = choose|w: int| 0 <= w < prefix2.len() && prefix2[w] == a;
                        if w < prefix.len() {
                            assert(prefix[w] == a);
                        }
                    }
                    if prefix.contains(a) {
                        let w = choose|w: int| 0 <= w < prefix.len() && prefix[w] == a;
                        assert(prefix2[w] == a);
                    }
                    if a == pre.queue@[i as int]@ {
                        assert(prefix2[i as int] == a);
                    }
                }
            }
        }
        proof {
            assert(pk_views(pre.queue@).subrange(0, n as int) =~= pk_views(pre.queue@));
            assert(pk_views(out@) == pre.queued());
        }
        out
    }
}

/// What a fetched profile holds, as the views read it.
pub struct ProfileMeta {
    pub name: Option<String>,
    pub picture: Option<String>,
    pub lud16: Option<String>,
}

/// The mathematical value of a profile.
#[verifier::ext_equal]
pub struct ProfileMetaView {
    pub name: Option<Seq<char>>,
    pub picture: Option<Seq<char>>,
    pub lud16: Option<Seq<char>>,
}

impl View for ProfileMeta {
    type V = ProfileMetaView;

    open spec fn view(&self) -> ProfileMetaView {
        ProfileMetaView {
            name: match self.name {
                Some(ref v) => Some(v@),
                None => None,
            },
            picture: match self.picture {
                Some(ref v) => Some(v@),
                None => None,
            },
            lud16: match self.lud16 {
                Some(ref v) => Some(v@),
                None => None,
            },
        }
    }
}

impl ProfileMeta {
    /// An exact copy of the profile.
    pub fn duplicate(&self) -> (r: ProfileMeta)
        ensures
            r@ == self@,
    {
        let r = ProfileMeta {
            name: match &self.name {
                Some(v) => Some(v.clone()),
                None => None,
            },
            picture: match &self.picture {
                Some(v) => Some(v.clone()),
                None => None,
            },
            lud16: match &self.lud16 {
                Some(v) => Some(v.clone()),
                None => None,
            },
        };
        proof {
            assert(r@ =~= self@);
        }
        r
    }
}

/// One author with a fetched profile.
pub struct ProfileEntry {
    pub key: PubKey,
    pub meta: ProfileMeta,
}

/// The profiles already fetched, and the authors whose fetch is owed: a
/// read of an unknown author asks for its profile once.
pub struct ProfileDirectory {
    entries: Vec<ProfileEntry>,
    requests: ProfileLoader,
}

impl ProfileDirectory {
    /// The authors with fetched profiles, in insertion order.
    pub closed spec fn known(self) -> Seq<Seq<u8>> {
        pk_views(self.entries@.map_values(|e: ProfileEntry| e.key))
    }

    /// The position of the author `k`.
    pub closed spec fn index_of(self, k: Seq<u8>) -> int {
        choose|i: int| 0 <= i < self.known().len() && self.known()[i] == k
    }

    /// The fetched profile of the author `k`, if any.
    pub closed spec fn lookup(self, k: Seq<u8>) -> Option<ProfileMetaView> {
        if self.known().contains(k) {
            Some(self.entries@[self.index_of(k)].meta@)
        } else {
            None
        }
    }

    /// The authors whose profile fetch is owed.
    pub closed spec fn pending_requests(self) -> Seq<Seq<u8>> {
        self.requests.queued()
    }

    /// The authors already asked for, fetched or not.
    pub closed spec fn asked(self) -> Seq<Seq<u8>> {
        self.requests.done()
    }

    /// Well-formedness: one profile per author, and the request queue in
    /// shape.
    pub closed spec fn wf(self) -> bool {
        nodup(self.known()) && self.requests.wf()
    }

    /// An empty directory.
    pub fn new() -> (r: ProfileDirectory)
        ensures
            r.wf(),
            forall|k: Seq<u8>| #[trigger] r.lookup(k) is None,
    {
        let r = ProfileDirectory { entries: Vec::new(), requests: ProfileLoader::new() };
        proof {
            assert(r.known() =~= Seq::<Seq<u8>>::empty());
        }
        r
    }

    /// Reads the profile behind `pubkey`: a known author answers from the
    /// directory; an unknown author is asked for once, through the demand
    /// queue, and answers nothing yet.
    pub fn get_profile(&mut self, pubkey: &PubKey) -> (r: Option<ProfileMeta>)
        requires
            old(self).wf(),
        ensures
            final(self).wf(),
            forall|k: Seq<u8>| #[trigger] final(self).lookup(k) == old(self).lookup(k),
            final(self).asked() == old(self).asked(),
            forall|a: Seq<u8>| #[trigger]
                final(self).pending_requests().contains(a) <==> (old(
                    self,
                ).pending_requests().contains(a) || (r is None && a == pubkey@ && !old(
                    self,
                ).asked().contains(pubkey@))),
            match r {
                Some(meta) => old(self).lookup(pubkey@) == Some(meta@),
                None => old(self).lookup(pubkey@) is None,
            },
    {
        let ghost pre = *self;
        let n = self.entries.len();
        for i in 0..n
            invariant
                *self == pre,
                pre == *old(self),
                pre.wf(),
                n == self.entries@.len(),
                forall|j: int| 0 <= j < i ==> #[trigger] pre.known()[j] != pubkey@,
        {
            proof {
                assert(pre.known()[i as int] == self.entries@[i as int].key@);
            }
            if crate::filter::pk_eq(&self.entries[i].key, pubkey) {
                let meta = self.entries[i].meta.duplicate();
                proof {
                    assert(pre.known().contains(pubkey@));
                    let w = pre.index_of(pubkey@);
                    if w != i {
                        assert(pre.known()[w] == pre.known()[i as int]);
                    }
                }
                return Some(meta);
            }
        }
        proof {
            assert(!pre.known().contains(pubkey@));
        }
        self.requests.demand(*pubkey);
        None
    }

    /// The authors whose profiles still await a fetch, each handed out
    /// once.
    pub fn take_requests(&mut self) -> (r: Vec<PubKey>)
        requires
            old(self).wf(),
        ensures
            final(self).wf(),
            forall|k: Seq<u8>| #[trigger] final(self).lookup(k) == old(self).lookup(k),
            pk_views(r@) == old(self).pending_requests(),
            final(self).pending_requests().len() == 0,
            forall|a: Seq<u8>| #[trigger]
                final(self).asked().contains(a) <==> (old(self).asked().contains(a) || old(
                    self,
                ).pending_requests().contains(a)),
    {
        self.requests.next()
    }

    /// Files the fetched profile of `pubkey`; the first fetch wins, as the
    /// fetch loop asks once per author.
    pub fn insert_profile(&mut self, pubkey: &PubKey, meta: ProfileMeta)
        requires
            old(self).wf(),
        ensures
            final(self).wf(),
            final(self).lookup(pubkey@) is Some,
            old(self).lookup(pubkey@) is None ==> final(self).lookup(pubkey@) == Some(meta@),
            forall|k: Seq<u8>|
                k != pubkey@ ==> #[trigger] final(self).lookup(k) == old(self).lookup(k),
            final(self).pending_requests() == old(self).pending_requests(),
            final(self).asked() == old(self).asked(),
    {
        let ghost pre = *self;
        let n = self.entries.len();
        for i in 0..n
            invariant
                *self == pre,
                pre == *old(self),
                pre.wf(),
                n == self.entries@.len(),
                forall|j: int| 0 <= j < i ==> #[trigger] pre.known()[j] != pubkey@,
        {
            proof {
                assert(pre.known()[i as int] == self.entries@[i as int].key@);
            }
            if crate::filter::pk_eq(&self.entries[i].key, pubkey) {
                proof {
                    assert(pre.known().contains(pubkey@));
                    let w = pre.index_of(pubkey@);
                    if w != i {
                        assert(pre.known()[w] == pre.known()[i as int]);
                    }
                }
                return ;
            }
        }
        proof {
            assert(!pre.known().contains(pubkey@));
        }
        let ghost before = self.entries@;
        self.entries.push(ProfileEntry { key: *pubkey, meta });
        proof {
            let m = before.len() as int;
            assert(forall|j: int|
                0 <= j < m ==> #[trigger] self.known()[j] == pre.known()[j]);
            assert(self.known()[m] == pubkey@);
            assert forall|x: int, y: int|
                0 <= x < y < self.known().len() implies self.known()[x] != self.known()[y] by {
                if y == m {
                    assert(self.known()[x] == pre.known()[x]);
                    assert(pre.known().contains(pre.known()[x]));
                } else {
                    assert(self.known()[x] == pre.known()[x]);
                    assert(self.known()[y] == pre.known()[y]);
                }
            }
            assert(self.known().contains(pubkey@)) by {
                assert(self.known()[m] == pubkey@);
            }
            let w = self.index_of(pubkey@);
            if w != m {
                assert(self.known()[w] == self.known()[m]);
            }
            assert(self.lookup(pubkey@) == Some(meta@));
            assert forall|k: Seq<u8>| k != pubkey@ implies #[trigger] self.lookup(k) == pre.lookup(
                k,
            ) by {
                if self.known().contains(k) {
                    let a = self.index_of(k);
                    assert(self.known()[a] == k);
                    assert(a != m);
                    assert(pre.known()[a] == k);
                    assert(pre.known().contains(k));
                    let b = pre.index_of(k);
                    assert(pre.known()[b] == k);
                    if a != b {
                        assert(pre.known()[a] != pre.known()[b]);
                    }
                    assert(self.entries@[a] == before[a]);
                } else {
                    if pre.known().contains(k) {
                        let b = pre.index_of(k);
                        assert(pre.known()[b] == k);
                        assert(self.known()[b] == k);
                    }
                }
            }
        }
    }
}

} // verus!
