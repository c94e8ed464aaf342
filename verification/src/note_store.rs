//! A table of stored events keyed by what they link as: addressable
//! events replace one another under their coordinate, plain events sit
//! under their id.

use vstd::prelude::*;

use crate::hex::hex_of;
use crate::link::dec_of;
use crate::link::NostrLink;
use crate::note::find_tag;
use crate::note::Note;
use crate::note::NoteView;

verus! {

/// The key an event is stored under: its coordinate rendering for
/// addressable kinds, its id in hex otherwise.
pub open spec fn key_of_note(v: NoteView) -> Seq<char> {
    if 30000 <= v.kind < 40000 {
        dec_of(v.kind as nat) + seq![':'] + hex_of(v.pubkey) + seq![':'] + (match find_tag(
            v.tags,
            "d"@,
        ) {
            Some(s) => s,
            None => Seq::<char>::empty(),
        })
    } else {
        hex_of(v.id)
    }
}

/// One stored event with its precomputed key.
pub struct StoredNote {
    pub key: String,
    pub note: Note,
}

/// Events keyed by their link value; a key holds one event, the latest
/// stored.
pub struct NoteStore {
    pub entries: Vec<StoredNote>,
}

impl NoteStore {
    /// The stored event values, in insertion order.
    pub open spec fn table(self) -> Seq<NoteView> {
        self.entries@.map_values(|e: StoredNote| e.note@)
    }

    /// Whether an event is stored under `k`.
    pub open spec fn has_note(self, k: Seq<char>) -> bool {
        exists|i: int| 0 <= i < self.table().len() && key_of_note(#[trigger] self.table()[i]) == k
    }

    /// The position of the event stored under `k`.
    pub open spec fn index_of(self, k: Seq<char>) -> int {
        choose|i: int| 0 <= i < self.table().len() && key_of_note(#[trigger] self.table()[i]) == k
    }

    /// The event stored under `k`, if any.
    pub open spec fn lookup(self, k: Seq<char>) -> Option<NoteView> {
        if self.has_note(k) {
            Some(self.table()[self.index_of(k)])
        } else {
            None
        }
    }

    /// Well-formedness: one event per key, each stored under its own key.
    pub open spec fn wf(self) -> bool {
        &&& forall|i: int, j: int|
            0 <= i < j < self.table().len() ==> key_of_note(#[trigger] self.table()[i])
                != key_of_note(#[trigger] self.table()[j])
        &&& forall|i: int|
            0 <= i < self.entries@.len() ==> (#[trigger] self.entries@[i]).key@ == key_of_note(
                self.entries@[i].note@,
            )
    }

    /// An empty store.
    pub fn new() -> (r: NoteStore)
        ensures
            r.wf(),
            r.table().len() == 0,
    {
        let r = NoteStore { entries: Vec::new() };
        proof {
            assert(r.table() =~= Seq::<NoteView>::empty());
        }
        r
    }

    /// A store holding the given events, added in order.
    pub fn from_vec(notes: Vec<Note>) -> (r: NoteStore)
        ensures
            r.wf(),
    {
        let mut store = NoteStore::new();
        let mut rest = notes;
        while rest.len() > 0
            invariant
                store.wf(),
            decreases rest@.len(),
        {
            let note = rest.remove(0);
            store.add(note);
        }
        store
    }

    /// The key an event is stored under.
    pub fn key(note: &Note) -> (r: String)
        ensures
            r@ == key_of_note(note@),
    {
        let link = NostrLink::from_note(note);
        let r = link.to_tag_value();
        proof {
            if 30000 <= note@.kind < 40000 {
                assert(r@ =~= key_of_note(note@));
            } else {
                assert(r@ =~= key_of_note(note@));
            }
        }
        r
    }

    /// The position of the entry under `k`, if any.
    fn find(&self, k: &String) -> (r: Option<usize>)
        requires
            self.wf(),
        ensures
            match r {
                Some(i) => 0 <= i < self.entries@.len() && key_of_note(self.table()[i as int])
                    == k@,
                None => !self.has_note(k@),
            },
    {
        let n = self.entries.len();
        for i in 0..n
            invariant
                self.wf(),
                n == self.entries@.len(),
                forall|j: int| 0 <= j < i ==> key_of_note(#[trigger] self.table()[j]) != k@,
        {
            if self.entries[i].key == *k {
                proof {
                    assert(self.entries@[i as int].key@ == key_of_note(self.table()[i as int]));
                }
                return Some(i);
            }
            proof {
                assert(self.entries@[i as int].key@ == key_of_note(self.table()[i as int]));
            }
        }
        None
    }

    /// Unique keys pin the lookup functions to each position.
    proof fn lemma_at(self, i: int)
        requires
            self.wf(),
            0 <= i < self.table().len(),
        ensures
            self.has_note(key_of_note(self.table()[i])),
            self.index_of(key_of_note(self.table()[i])) == i,
            self.lookup(key_of_note(self.table()[i])) == Some(self.table()[i]),
    {
        assert(self.has_note(key_of_note(self.table()[i])));
        let j = self.index_of(key_of_note(self.table()[i]));
        if j != i {
            assert(key_of_note(self.table()[j]) == key_of_note(self.table()[i]));
        }
    }

    /// Stores an event under its key, replacing and returning what that
    /// key held.
    pub fn add(&mut self, note: Note) -> (r: Option<Note>)
        requires
            old(self).wf(),
        ensures
            final(self).wf(),
            final(self).lookup(key_of_note(note@)) == Some(note@),
            forall|x: Seq<char>|
                x != key_of_note(note@) ==> #[trigger] final(self).lookup(x) == old(self).lookup(
                    x,
                ),
            match r {
                Some(prev) => old(self).lookup(key_of_note(note@)) == Some(prev@),
                None => old(self).lookup(key_of_note(note@)) is None,
            },
    {
        let ghost pre = *self;
        let k = NoteStore::key(&note);
        match self.find(&k) {
            Some(i) => {
                proof {
                    pre.lemma_at(i as int);
                }
                let prev = self.entries.remove(i);
                self.entries.insert(i, StoredNote { key: k, note });
                proof {
                    assert(self.entries@ =~= pre.entries@.update(
                        i as int,
                        self.entries@[i as int],
                    ));
                    assert(self.table().len() == pre.table().len());
                    assert(forall|j: int|
                        0 <= j < pre.table().len() && j != i ==> self.entries@[j] == pre.entries@[j]);
                    assert(self.table()[i as int] == note@);
                    assert(key_of_note(self.table()[i as int]) == key_of_note(pre.table()[
                        i as int
                    ]));
                    assert forall|j: int| 0 <= j < pre.table().len() && j != i implies key_of_note(
                        #[trigger] self.table()[j],
                    ) == key_of_note(pre.table()[j]) by {
                        assert(self.entries@[j] == pre.entries@[j]);
                    }
                    self.lemma_at(i as int);
                    assert forall|x: Seq<char>| x != key_of_note(note@) implies #[trigger] self.lookup(
                        x,
                    ) == pre.lookup(x) by {
                        self.lemma_lookup_same_keys(pre, x);
                    }
                }
                Some(prev.note)
            },
            None => {
                let ghost n = self.entries@.len() as int;
                self.entries.push(StoredNote { key: k, note });
                proof {
                    assert(self.table().len() == pre.table().len() + 1);
                    assert(forall|j: int|
                        0 <= j < pre.table().len() ==> self.entries@[j] == pre.entries@[j]);
                    assert(self.table()[n] == note@);
                    assert forall|i: int, j: int|
                        0 <= i < j < self.table().len() implies key_of_note(
                        #[trigger] self.table()[i],
                    ) != key_of_note(#[trigger] self.table()[j]) by {
                        if j == n {
                            assert(self.table()[i] == pre.table()[i]);
                            if key_of_note(pre.table()[i]) == key_of_note(note@) {
                                assert(pre.has_note(key_of_note(note@)));
                            }
                        } else {
                            assert(self.table()[i] == pre.table()[i]);
                            assert(self.table()[j] == pre.table()[j]);
                        }
                    }
                    self.lemma_at(n);
                    assert forall|x: Seq<char>| x != key_of_note(note@) implies #[trigger] self.lookup(
                        x,
                    ) == pre.lookup(x) by {
                        if self.has_note(x) {
                            let w = self.index_of(x);
                            assert(key_of_note(self.table()[w]) == x);
                            assert(w != n);
                            assert(self.table()[w] == pre.table()[w]);
                            assert(pre.has_note(x));
                            let v = pre.index_of(x);
                            assert(key_of_note(pre.table()[v]) == x);
                            if v != w {
                                assert(self.table()[v] == pre.table()[v]);
                                assert(key_of_note(self.table()[v]) != key_of_note(
                                    self.table()[w],
                                ));
                            }
                        } else {
                            if pre.has_note(x) {
                                let v = pre.index_of(x);
                                assert(key_of_note(pre.table()[v]) == x);
                                assert(self.table()[v] == pre.table()[v]);
                                assert(self.has_note(x));
                            }
                        }
                    }
                }
                None
            },
        }
    }

    /// Lookups agree when keys and values agree except at one position
    /// whose key is unchanged.
    proof fn lemma_lookup_same_keys(self, pre: NoteStore, x: Seq<char>)
        requires
            pre.wf(),
            self.wf(),
            self.table().len() == pre.table().len(),
            forall|j: int|
                0 <= j < pre.table().len() ==> key_of_note(#[trigger] self.table()[j])
                    == key_of_note(pre.table()[j]),
            forall|j: int|
                0 <= j < pre.table().len() ==> (key_of_note(#[trigger] pre.table()[j]) == x
                    ==> self.table()[j] == pre.table()[j]),
        ensures
            self.lookup(x) == pre.lookup(x),
    {
        if self.has_note(x) {
            let w = self.index_of(x);
            assert(key_of_note(self.table()[w]) == x);
            assert(key_of_note(pre.table()[w]) == x);
            assert(pre.has_note(x));
            let v = pre.index_of(x);
            assert(key_of_note(pre.table()[v]) == x);
            if v != w {
                assert(key_of_note(pre.table()[v]) != key_of_note(pre.table()[w]));
            }
            assert(self.table()[w] == pre.table()[w]);
        } else {
            if pre.has_note(x) {
                let v = pre.index_of(x);
                assert(key_of_note(self.table()[v]) == x);
            }
        }
    }

    /// Takes the event stored under the same key as `note` out of the
    /// store.
    pub fn remove(&mut self, note: &Note) -> (r: Option<Note>)
        requires
            old(self).wf(),
        ensures
            final(self).wf(),
            final(self).lookup(key_of_note(note@)) is None,
            forall|x: Seq<char>|
                x != key_of_note(note@) ==> #[trigger] final(self).lookup(x) == old(self).lookup(
                    x,
                ),
            match r {
                Some(prev) => old(self).lookup(key_of_note(note@)) == Some(prev@),
                None => old(self).lookup(key_of_note(note@)) is None,
            },
    {
        let ghost pre = *self;
        let k = NoteStore::key(note);
        match self.find(&k) {
            Some(i) => {
                proof {
                    pre.lemma_at(i as int);
                }
                let removed = self.entries.remove(i);
                proof {
                    assert(self.table() =~= pre.table().remove(i as int));
                    assert(forall|j: int|
                        0 <= j < i ==> #[trigger] self.entries@[j] == pre.entries@[j]);
                    assert(forall|j: int|
                        i <= j < self.entries@.len() ==> #[trigger] self.entries@[j]
                            == pre.entries@[j + 1]);
                    assert forall|a: int, b: int|
                        0 <= a < b < self.table().len() implies key_of_note(
                        #[trigger] self.table()[a],
                    ) != key_of_note(#[trigger] self.table()[b]) by {
                        let ia: int = if a < i {
                            a
                        } else {
                            a + 1
                        };
                        let ib: int = if b < i {
                            b
                        } else {
                            b + 1
                        };
                        assert(self.table()[a] == pre.table()[ia]);
                        assert(self.table()[b] == pre.table()[ib]);
                    }
                    assert forall|x: Seq<char>| x != key_of_note(note@) implies #[trigger] self.lookup(
                        x,
                    ) == pre.lookup(x) by {
                        if self.has_note(x) {
                            let w = self.index_of(x);
                            assert(key_of_note(self.table()[w]) == x);
                            let iw: int = if w < i {
                                w
                            } else {
                                w + 1
                            };
                            assert(self.table()[w] == pre.table()[iw]);
                            assert(pre.has_note(x));
                            let v = pre.index_of(x);
                            assert(key_of_note(pre.table()[v]) == x);
                            if v != iw {
                                assert(key_of_note(pre.table()[v]) != key_of_note(
                                    pre.table()[iw],
                                ));
                            }
                        } else {
                            if pre.has_note(x) {
                                let v = pre.index_of(x);
                                assert(key_of_note(pre.table()[v]) == x);
                                assert(v != i);
                                let a: int = if v < i {
                                    v
                                } else {
                                    v - 1
                                };
                                assert(self.table()[a] == pre.table()[v]);
                                assert(self.has_note(x));
                            }
                        }
                    }
                    if self.has_note(key_of_note(note@)) {
                        let w = self.index_of(key_of_note(note@));
                        assert(key_of_note(self.table()[w]) == key_of_note(note@));
                        let iw: int = if w < i {
                            w
                        } else {
                            w + 1
                        };
                        assert(pre.table()[iw] == self.table()[w]);
                        assert(key_of_note(pre.table()[iw]) == key_of_note(pre.table()[i as int]));
                        assert(iw != i);
                    }
                }
                Some(removed.note)
            },
            None => None,
        }
    }

    /// How many events the store holds.
    pub fn len(&self) -> (r: usize)
        ensures
            r == self.table().len(),
    {
        self.entries.len()
    }
}

} // verus!
