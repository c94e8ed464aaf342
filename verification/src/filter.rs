//! Filters: comparable selection predicates over events.
//!
//! A filter selects events by kind, author, one tag query and a result
//! limit. Filters are compared by value so that pending queues can be
//! deduplicated, and single-author metadata lookups are recognized so the
//! coalescer can merge many of them into one multi-author lookup.

use vstd::prelude::*;

verus! {

/// An event author or event id: a 32-byte public key or hash.
pub type PubKey = [u8; 32];

/// One tag query: a single-letter tag name and the values it must match.
pub struct TagQuery {
    pub name: char,
    pub values: Vec<String>,
}

/// A selection predicate over events.
pub struct Filter {
    pub kinds: Option<Vec<u64>>,
    pub authors: Option<Vec<PubKey>>,
    pub tags: Option<TagQuery>,
    pub limit: Option<u32>,
}

/// The mathematical value of a tag query.
#[verifier::ext_equal]
pub struct TagQueryView {
    pub name: char,
    pub values: Seq<Seq<char>>,
}

/// The mathematical value of a filter.
#[verifier::ext_equal]
pub struct FilterView {
    pub kinds: Option<Seq<u64>>,
    pub authors: Option<Seq<Seq<u8>>>,
    pub tags: Option<TagQueryView>,
    pub limit: Option<u32>,
}

/// The views of a sequence of public keys.
pub open spec fn pk_views(s: Seq<PubKey>) -> Seq<Seq<u8>> {
    s.map_values(|p: PubKey| p@)
}

/// The views of a sequence of strings.
pub open spec fn str_views(s: Seq<String>) -> Seq<Seq<char>> {
    s.map_values(|x: String| x@)
}

impl View for TagQuery {
    type V = TagQueryView;

    open spec fn view(&self) -> TagQueryView {
        TagQueryView { name: self.name, values: str_views(self.values@) }
    }
}

impl View for Filter {
    type V = FilterView;

    open spec fn view(&self) -> FilterView {
        FilterView {
            kinds: match self.kinds {
                Some(ks) => Some(ks@),
                None => None,
            },
            authors: match self.authors {
                Some(au) => Some(pk_views(au@)),
                None => None,
            },
            tags: match self.tags {
                Some(t) => Some(t@),
                None => None,
            },
            limit: self.limit,
        }
    }
}

/// The views of a sequence of filters.
pub open spec fn filter_views(s: Seq<Filter>) -> Seq<FilterView> {
    s.map_values(|f: Filter| f@)
}

/// A sequence with no two equal elements.
pub open spec fn nodup<A>(s: Seq<A>) -> bool {
    forall|i: int, j: int| 0 <= i < j < s.len() ==> s[i] != s[j]
}

/// The predicate holding exactly of `x`.
pub open spec fn eq_to<A>(x: A) -> spec_fn(A) -> bool {
    |y: A| y == x
}

impl Filter {
    /// An empty filter: no constraint on kind, author, tag or count.
    pub fn new() -> (r: Filter)
        ensures
            r@ == (FilterView {
                kinds: None,
                authors: None,
                tags: None,
                limit: None,
            }),
    {
        Filter { kinds: None, authors: None, tags: None, limit: None }
    }

    /// Restricts the filter to the given event kinds.
    pub fn kinds(self, kinds: Vec<u64>) -> (r: Filter)
        ensures
            r@ == (FilterView { kinds: Some(kinds@), ..self@ }),
    {
        Filter { kinds: Some(kinds), ..self }
    }

    /// Restricts the filter to the given authors.
    pub fn authors(self, authors: Vec<PubKey>) -> (r: Filter)
        ensures
            r@ == (FilterView { authors: Some(pk_views(authors@)), ..self@ }),
    {
        Filter { authors: Some(authors), ..self }
    }

    /// Restricts the filter to events carrying one of `values` under the
    /// single-letter tag `name`.
    pub fn tags(self, values: Vec<String>, name: char) -> (r: Filter)
        ensures
            r@ == (FilterView {
                tags: Some(TagQueryView { name, values: str_views(values@) }),
                ..self@
            }),
    {
        Filter { tags: Some(TagQuery { name, values }), ..self }
    }

    /// Bounds the number of results asked for.
    pub fn limit(self, limit: u32) -> (r: Filter)
        ensures
            r@ == (FilterView { limit: Some(limit), ..self@ }),
    {
        Filter { limit: Some(limit), ..self }
    }

    /// Value equality of two filters.
    pub fn eq_filter(&self, other: &Filter) -> (r: bool)
        ensures
            r == (self@ == other@),
    {
        let kinds_eq = match (&self.kinds, &other.kinds) {
            (None, None) => true,
            (Some(a), Some(b)) => vec_u64_eq(a, b),
            _ => false,
        };
        if !kinds_eq {
            assert(self@.kinds != other@.kinds);
            return false;
        }
        let authors_eq = match (&self.authors, &other.authors) {
            (None, None) => true,
            (Some(a), Some(b)) => vec_pk_eq(a, b),
            _ => false,
        };
        if !authors_eq {
            assert(self@.authors != other@.authors);
            return false;
        }
        let tags_eq = match (&self.tags, &other.tags) {
            (None, None) => true,
            (Some(a), Some(b)) => a.name == b.name && vec_str_eq(&a.values, &b.values),
            _ => false,
        };
        if !tags_eq {
            assert(self@.tags != other@.tags);
            return false;
        }
        let limit_eq = match (&self.limit, &other.limit) {
            (None, None) => true,
            (Some(a), Some(b)) => *a == *b,
            _ => false,
        };
        if !limit_eq {
            assert(self@.limit != other@.limit);
            return false;
        }
        proof {
            assert(self@ =~= other@);
        }
        true
    }

    /// An exact copy of the filter.
    pub fn duplicate(&self) -> (r: Filter)
        ensures
            r@ == self@,
    {
        let kinds = match &self.kinds {
            Some(ks) => Some(copy_vec_u64(ks)),
            None => None,
        };
        let authors = match &self.authors {
            Some(au) => Some(copy_vec_pk(au)),
            None => None,
        };
        let tags = match &self.tags {
            Some(t) => Some(TagQuery { name: t.name, values: copy_vec_str(&t.values) }),
            None => None,
        };
        let r = Filter { kinds, authors, tags, limit: self.limit };
        proof {
            assert(r@ =~= self@);
        }
        r
    }

    /// Whether this filter is a single-author profile-metadata lookup:
    /// exactly one kind, the metadata kind, and exactly one author.
    pub open spec fn spec_is_profile_lookup(self) -> bool {
        profile_lookup(self@)
    }

    /// Recognizes a single-author profile-metadata lookup.
    pub fn is_profile_lookup(&self) -> (r: bool)
        ensures
            r == self.spec_is_profile_lookup(),
    {
        let kinds_ok = match &self.kinds {
            Some(ks) => ks.len() == 1 && ks[0] == 0,
            None => false,
        };
        let authors_ok = match &self.authors {
            Some(au) => au.len() == 1,
            None => false,
        };
        kinds_ok && authors_ok
    }
}

/// Whether some filter in `s` has the value `f`.
pub open spec fn views_contain(s: Seq<Filter>, f: FilterView) -> bool {
    exists|i: int| 0 <= i < s.len() && s[i]@ == f
}

/// Whether every filter in `s` is a single-author profile-metadata lookup.
pub open spec fn all_profile_lookups(s: Seq<Filter>) -> bool {
    forall|i: int| 0 <= i < s.len() ==> (#[trigger] s[i]).spec_is_profile_lookup()
}

/// Whether some filter in `s` names the author `a`.
pub open spec fn batch_has_author(s: Seq<Filter>, a: Seq<u8>) -> bool {
    exists|i: int|
        0 <= i < s.len() && ((#[trigger] s[i])@.authors matches Some(au) && au.contains(a))
}

/// Whether the filter value is a single-author profile-metadata lookup.
pub open spec fn profile_lookup(f: FilterView) -> bool {
    &&& f.kinds matches Some(ks) && ks.len() == 1 && ks[0] == 0
    &&& f.authors matches Some(au) && au.len() == 1
}

/// Whether every filter value in `s` is a single-author profile lookup.
pub open spec fn all_profile(s: Seq<FilterView>) -> bool {
    forall|i: int| 0 <= i < s.len() ==> profile_lookup(#[trigger] s[i])
}

/// Whether some filter value in `s` names the author `a`.
pub open spec fn has_author(s: Seq<FilterView>, a: Seq<u8>) -> bool {
    exists|i: int| 0 <= i < s.len() && ((#[trigger] s[i]).authors matches Some(au) && au.contains(a))
}

/// The filter-level batch predicates coincide with the view-level ones.
pub proof fn lemma_batch_views(s: Seq<Filter>)
    ensures
        all_profile_lookups(s) == all_profile(filter_views(s)),
        forall|a: Seq<u8>| batch_has_author(s, a) == #[trigger] has_author(filter_views(s), a),
{
    assert(filter_views(s).len() == s.len());
    assert(forall|i: int| 0 <= i < s.len() ==> filter_views(s)[i] == (#[trigger] s[i])@);
    if all_profile_lookups(s) {
        assert forall|i: int| 0 <= i < filter_views(s).len() implies profile_lookup(
            #[trigger] filter_views(s)[i],
        ) by {
            assert(s[i].spec_is_profile_lookup());
        }
    }
    if all_profile(filter_views(s)) {
        assert forall|i: int| 0 <= i < s.len() implies (#[trigger] s[i]).spec_is_profile_lookup() by {
            assert(profile_lookup(filter_views(s)[i]));
        }
    }
    assert forall|a: Seq<u8>| batch_has_author(s, a) == #[trigger] has_author(
        filter_views(s),
        a,
    ) by {
        if batch_has_author(s, a) {
            let w = choose|w: int|
                0 <= w < s.len() && ((#[trigger] s[w])@.authors matches Some(au) && au.contains(a));
            assert(filter_views(s)[w] == s[w]@);
            assert(has_author(filter_views(s), a));
        }
        if has_author(filter_views(s), a) {
            let w = choose|w: int|
                0 <= w < filter_views(s).len() && ((#[trigger] filter_views(s)[w]).authors
                    matches Some(au) && au.contains(a));
            assert(s[w]@ == filter_views(s)[w]);
            assert(batch_has_author(s, a));
        }
    }
}

/// Membership in the view list and in the filter list coincide.
pub proof fn lemma_views_contain(s: Seq<Filter>)
    ensures
        forall|f: FilterView| #[trigger] filter_views(s).contains(f) == views_contain(s, f),
{
    assert forall|f: FilterView| #[trigger] filter_views(s).contains(f) == views_contain(s, f) by {
        if filter_views(s).contains(f) {
            let w = choose|w: int| 0 <= w < filter_views(s).len() && filter_views(s)[w] == f;
            assert(s[w]@ == f);
            assert(views_contain(s, f));
        }
        if views_contain(s, f) {
            let w = choose|w: int| 0 <= w < s.len() && s[w]@ == f;
            assert(filter_views(s)[w] == f);
            assert(filter_views(s).contains(f));
        }
    }
}

/// Membership of a filter value in a filter list.
pub fn contains_filter(v: &Vec<Filter>, f: &Filter) -> (r: bool)
    ensures
        r == views_contain(v@, f@),
{
    let n = v.len();
    for i in 0..n
        invariant
            n == v@.len(),
            forall|j: int| 0 <= j < i ==> v@[j]@ != f@,
    {
        if v[i].eq_filter(f) {
            return true;
        }
    }
    false
}

/// Membership of a public key in a key list.
pub fn contains_pk(v: &Vec<PubKey>, p: &PubKey) -> (r: bool)
    ensures
        r == pk_views(v@).contains(p@),
{
    let n = v.len();
    for i in 0..n
        invariant
            n == v@.len(),
            forall|j: int| 0 <= j < i ==> pk_views(v@)[j] != p@,
    {
        if pk_eq(&v[i], p) {
            assert(pk_views(v@)[i as int] == p@);
            return true;
        }
        assert(pk_views(v@)[i as int] != p@);
    }
    false
}

/// Collects the union of the authors named by a batch of single-author
/// profile lookups, without duplicates.
pub fn union_authors(batch: &Vec<Filter>) -> (r: Vec<PubKey>)
    requires
        all_profile_lookups(batch@),
    ensures
        nodup(pk_views(r@)),
        forall|a: Seq<u8>| #[trigger] pk_views(r@).contains(a) <==> batch_has_author(batch@, a),
{
    let mut out: Vec<PubKey> = Vec::new();
    let n = batch.len();
    for i in 0..n
        invariant
            n == batch@.len(),
            all_profile_lookups(batch@),
            nodup(pk_views(out@)),
            forall|a: Seq<u8>| #[trigger] pk_views(out@).contains(a) <==> batch_has_author(
                batch@.subrange(0, i as int),
                a,
            ),
    {
        assert(batch@[i as int].spec_is_profile_lookup());
        match &batch[i].authors {
            Some(au) => {
                let pk = au[0];
                assert(pk@ == pk_views(au@)[0]);
                let ghost before = out@;
                if !contains_pk(&out, &pk) {
                    out.push(pk);
                    proof {
                        // The pushed key is new, so no duplicate arises.
                        assert forall|x: int, y: int|
                            0 <= x < y < pk_views(out@).len() implies pk_views(out@)[x] != pk_views(
                            out@,
                        )[y] by {
                            if y == before.len() {
                                assert(pk_views(out@)[x] == pk_views(before)[x]);
                                assert(pk_views(out@)[y] == pk@);
                                assert(!pk_views(before).contains(pk@));
                            } else {
                                assert(pk_views(out@)[x] == pk_views(before)[x]);
                                assert(pk_views(out@)[y] == pk_views(before)[y]);
                            }
                        }
                        assert(nodup(pk_views(out@)));
                    }
                }
                proof {
                    // After this step `out` holds exactly the keys seen so far
                    // plus `pk`, whether or not a push happened.
                    assert forall|a: Seq<u8>| #[trigger] pk_views(out@).contains(a) <==> (pk_views(
                        before,
                    ).contains(a) || a == pk@) by {
                        if out@.len() == before.len() + 1 {
                            assert(forall|k: int|
                                0 <= k < before.len() ==> pk_views(out@)[k] == pk_views(before)[k]);
                            assert(pk_views(out@)[before.len() as int] == pk@);
                            if pk_views(out@).contains(a) {
                                let w = choose|w: int|
                                    0 <= w < out@.len() && pk_views(out@)[w] == a;
                                if w < before.len() {
                                    assert(pk_views(before)[w] == a);
                                }
                            }
                            if pk_views(before).contains(a) {
                                let w = choose|w: int|
                                    0 <= w < before.len() && pk_views(before)[w] == a;
                                assert(pk_views(out@)[w] == a);
                            }
                        } else {
                            assert(out@ == before);
                            assert(pk_views(before).contains(pk@));
                        }
                    }
                    // A singleton author list names exactly `pk`.
                    let prior = batch@.subrange(0, i as int);
                    let pre = batch@.subrange(0, i + 1);
                    assert(pre[i as int] == batch@[i as int]);
                    assert(pre[i as int]@.authors matches Some(v) && v =~= pk_views(au@));
                    assert(pk_views(au@).len() == 1);
                    assert forall|a: Seq<u8>| batch_has_author(pre, a) <==> (batch_has_author(
                        prior,
                        a,
                    ) || a == pk@) by {
                        if batch_has_author(pre, a) {
                            let w = choose|w: int|
                                0 <= w < pre.len() && ((#[trigger] pre[w])@.authors matches Some(v)
                                    && v.contains(a));
                            if w < i {
                                assert(prior[w] == pre[w]);
                                assert(batch_has_author(prior, a));
                            } else {
                                assert(pk_views(au@).contains(a));
                                let k = choose|k: int|
                                    0 <= k < pk_views(au@).len() && pk_views(au@)[k] == a;
                                assert(k == 0);
                                assert(a == pk@);
                            }
                        }
                        if batch_has_author(prior, a) {
                            let w = choose|w: int|
                                0 <= w < prior.len() && ((#[trigger] prior[w])@.authors matches Some(
                                    v,
                                ) && v.contains(a));
                            assert(pre[w] == prior[w]);
                            assert(batch_has_author(pre, a));
                        }
                        if a == pk@ {
                            assert(pk_views(au@)[0] == a);
                            assert(pre[i as int]@.authors matches Some(v) && v.contains(a));
                            assert(batch_has_author(pre, a));
                        }
                    }
                }
            },
            None => {
                proof {
                    assert(false);
                }
            },
        }
    }
    proof {
        assert(batch@.subrange(0, n as int) =~= batch@);
    }
    out
}

/// Element-wise equality of two kind lists.
fn vec_u64_eq(a: &Vec<u64>, b: &Vec<u64>) -> (r: bool)
    ensures
        r == (a@ == b@),
{
    if a.len() != b.len() {
        return false;
    }
    let n = a.len();
    for i in 0..n
        invariant
            n == a@.len() == b@.len(),
            forall|j: int| 0 <= j < i ==> a@[j] == b@[j],
    {
        if a[i] != b[i] {
            return false;
        }
    }
    proof {
        assert(a@ =~= b@);
    }
    true
}

/// Byte-wise equality of two public keys.
pub fn pk_eq(a: &PubKey, b: &PubKey) -> (r: bool)
    ensures
        r == (a@ == b@),
{
    for i in 0..32
        invariant
            forall|j: int| 0 <= j < i ==> a@[j] == b@[j],
    {
        if a[i] != b[i] {
            return false;
        }
    }
    proof {
        assert(a@ =~= b@);
    }
    true
}

/// Element-wise equality of two author lists, compared as byte strings.
fn vec_pk_eq(a: &Vec<PubKey>, b: &Vec<PubKey>) -> (r: bool)
    ensures
        r == (pk_views(a@) == pk_views(b@)),
{
    if a.len() != b.len() {
        assert(pk_views(a@).len() != pk_views(b@).len());
        return false;
    }
    let n = a.len();
    for i in 0..n
        invariant
            n == a@.len() == b@.len(),
            forall|j: int| 0 <= j < i ==> pk_views(a@)[j] == pk_views(b@)[j],
    {
        if !pk_eq(&a[i], &b[i]) {
            assert(pk_views(a@)[i as int] != pk_views(b@)[i as int]);
            return false;
        }
        assert(pk_views(a@)[i as int] == pk_views(b@)[i as int]);
    }
    proof {
        assert(pk_views(a@) =~= pk_views(b@));
    }
    true
}

/// Element-wise equality of two string lists.
fn vec_str_eq(a: &Vec<String>, b: &Vec<String>) -> (r: bool)
    ensures
        r == (str_views(a@) == str_views(b@)),
{
    if a.len() != b.len() {
        assert(str_views(a@).len() != str_views(b@).len());
        return false;
    }
    let n = a.len();
    for i in 0..n
        invariant
            n == a@.len() == b@.len(),
            forall|j: int| 0 <= j < i ==> str_views(a@)[j] == str_views(b@)[j],
    {
        if !(a[i] == b[i]) {
            assert(str_views(a@)[i as int] != str_views(b@)[i as int]);
            return false;
        }
        assert(str_views(a@)[i as int] == str_views(b@)[i as int]);
    }
    proof {
        assert(str_views(a@) =~= str_views(b@));
    }
    true
}

/// An exact copy of a kind list.
fn copy_vec_u64(v: &Vec<u64>) -> (r: Vec<u64>)
    ensures
        r@ == v@,
{
    let mut out: Vec<u64> = Vec::new();
    let n = v.len();
    for i in 0..n
        invariant
            n == v@.len(),
            out@ =~= v@.subrange(0, i as int),
    {
        out.push(v[i]);
        assert(out@ =~= v@.subrange(0, i + 1));
    }
    proof {
        assert(v@.subrange(0, n as int) =~= v@);
    }
    out
}

/// An exact copy of an author list.
fn copy_vec_pk(v: &Vec<PubKey>) -> (r: Vec<PubKey>)
    ensures
        r@ == v@,
{
    let mut out: Vec<PubKey> = Vec::new();
    let n = v.len();
    for i in 0..n
        invariant
            n == v@.len(),
            out@ =~= v@.subrange(0, i as int),
    {
        out.push(v[i]);
        assert(out@ =~= v@.subrange(0, i + 1));
    }
    proof {
        assert(v@.subrange(0, n as int) =~= v@);
    }
    out
}

/// An exact copy of a string list.
fn copy_vec_str(v: &Vec<String>) -> (r: Vec<String>)
    ensures
        r@ == v@,
{
    let mut out: Vec<String> = Vec::new();
    let n = v.len();
    for i in 0..n
        invariant
            n == v@.len(),
            out@ =~= v@.subrange(0, i as int),
    {
        out.push(v[i].clone());
        assert(out@ =~= v@.subrange(0, i + 1));
    }
    proof {
        assert(v@.subrange(0, n as int) =~= v@);
    }
    out
}

/// No copy of `x` sits in a sequence that does not contain it.
pub proof fn lemma_count_absent<A>(s: Seq<A>, x: A)
    requires
        !s.contains(x),
    ensures
        s.filter(eq_to(x)).len() == 0,
    decreases s.len(),
{
    reveal(Seq::filter);
    if s.len() > 0 {
        assert(forall|j: int| 0 <= j < s.drop_last().len() ==> s.drop_last()[j] == s[j]);
        assert(!s.drop_last().contains(x)) by {
            if s.drop_last().contains(x) {
                let w = choose|w: int| 0 <= w < s.drop_last().len() && s.drop_last()[w] == x;
                assert(s[w] == x);
            }
        }
        lemma_count_absent(s.drop_last(), x);
        assert(s.last() != x) by {
            assert(s[s.len() - 1] == s.last());
        }
    }
}

/// A sequence without duplicates holds exactly one copy of each of its
/// elements.
pub proof fn lemma_nodup_count_one<A>(s: Seq<A>, x: A)
    requires
        nodup(s),
        s.contains(x),
    ensures
        s.filter(eq_to(x)).len() == 1,
    decreases s.len(),
{
    reveal(Seq::filter);
    assert(s.len() > 0);
    let d = s.drop_last();
    assert(forall|j: int| 0 <= j < d.len() ==> d[j] == s[j]);
    assert(nodup(d));
    if s.last() == x {
        assert(!d.contains(x)) by {
            if d.contains(x) {
                let w = choose|w: int| 0 <= w < d.len() && d[w] == x;
                assert(s[w] == s[s.len() - 1]);
            }
        }
        lemma_count_absent(d, x);
    } else {
        assert(d.contains(x)) by {
            let w = choose|w: int| 0 <= w < s.len() && s[w] == x;
            assert(w < s.len() - 1);
            assert(d[w] == x);
        }
        lemma_nodup_count_one(d, x);
    }
}

/// An element of a filtered sequence is an element of the sequence.
pub proof fn seq_filter_member<A>(s: Seq<A>, pred: spec_fn(A) -> bool, x: A)
    requires
        s.filter(pred).contains(x),
    ensures
        s.contains(x),
    decreases s.len(),
{
    reveal(Seq::filter);
    if s.len() > 0 {
        if pred(s.last()) && x == s.last() {
            assert(s[s.len() - 1] == x);
        } else {
            assert(s.drop_last().filter(pred).contains(x));
            seq_filter_member(s.drop_last(), pred, x);
            let w = choose|w: int| 0 <= w < s.drop_last().len() && s.drop_last()[w] == x;
            assert(s[w] == x);
        }
    }
}

} // verus!
