//! The event model: what the synchronization layer reads out of a stored
//! event -- its identity, kind, timestamps and tags -- and the stream
//! facts parsed from those tags.

use vstd::prelude::*;

use crate::filter::str_views;

verus! {

/// A key of a note owned by the local store.
#[derive(Clone, Copy, PartialEq, Eq, Structural, Debug)]
pub struct OwnedNote(pub u64);

/// A reference to a stored note, ordered newest first.
#[derive(Clone, Copy, PartialEq, Eq, Structural, Debug)]
pub struct NoteRef {
    pub key: u64,
    pub created_at: u64,
}

impl NoteRef {
    /// A reference from its parts.
    pub fn new(key: u64, created_at: u64) -> (r: NoteRef)
        ensures
            r.key == key,
            r.created_at == created_at,
    {
        NoteRef { key, created_at }
    }

    /// Whether this reference sorts before `other`: newer notes first,
    /// ties broken by the smaller store key.
    pub open spec fn spec_before(self, other: NoteRef) -> bool {
        self.created_at > other.created_at || (self.created_at == other.created_at && self.key
            < other.key)
    }

    /// Compares two references in display order: newest first.
    pub fn before(&self, other: &NoteRef) -> (r: bool)
        ensures
            r == self.spec_before(*other),
    {
        self.created_at > other.created_at || (self.created_at == other.created_at && self.key
            < other.key)
    }
}

/// One stored event, as this layer reads it.
pub struct Note {
    pub id: [u8; 32],
    pub pubkey: [u8; 32],
    pub kind: u32,
    pub created_at: u64,
    pub content: String,
    pub tags: Vec<Vec<String>>,
}

/// The mathematical value of a note.
#[verifier::ext_equal]
pub struct NoteView {
    pub id: Seq<u8>,
    pub pubkey: Seq<u8>,
    pub kind: u32,
    pub created_at: u64,
    pub content: Seq<char>,
    pub tags: Seq<Seq<Seq<char>>>,
}

impl View for Note {
    type V = NoteView;

    open spec fn view(&self) -> NoteView {
        NoteView {
            id: self.id@,
            pubkey: self.pubkey@,
            kind: self.kind,
            created_at: self.created_at,
            content: self.content@,
            tags: self.tags@.map_values(|t: Vec<String>| str_views(t@)),
        }
    }
}

/// The value of the first tag named `key`: the entry after the name, or
/// nothing when the first such tag carries no value or no tag matches.
pub open spec fn find_tag(tags: Seq<Seq<Seq<char>>>, key: Seq<char>) -> Option<Seq<char>>
    decreases tags.len(),
{
    if tags.len() == 0 {
        None
    } else if tags[0].len() >= 1 && tags[0][0] == key {
        if tags[0].len() >= 2 {
            Some(tags[0][1])
        } else {
            None
        }
    } else {
        find_tag(tags.drop_first(), key)
    }
}

/// Whether `n` occurs as a contiguous run inside `h`.
pub open spec fn bytes_contain(h: Seq<u8>, n: Seq<u8>) -> bool {
    exists|i: int| 0 <= i <= h.len() - n.len() && #[trigger] h.subrange(i, i + n.len()) == n
}

/// Whether `c` is a decimal digit.
pub open spec fn is_digit(c: char) -> bool {
    48 <= c as int <= 57
}

/// The numeric value of a digit.
pub open spec fn digit_val(c: char) -> nat {
    (c as int - 48) as nat
}

/// Whether the string is one or more decimal digits.
pub open spec fn all_digits(s: Seq<char>) -> bool {
    forall|i: int| 0 <= i < s.len() ==> is_digit(#[trigger] s[i])
}

/// The numeric value of a digit string.
pub open spec fn dec_val(s: Seq<char>) -> nat
    decreases s.len(),
{
    if s.len() == 0 {
        0
    } else {
        dec_val(s.drop_last()) * 10 + digit_val(s.last())
    }
}

/// Parses a decimal number: the value of a non-empty all-digit string
/// that fits the type, and nothing otherwise.
pub fn parse_u64(s: &str) -> (r: Option<u64>)
    ensures
        r == (if s@.len() > 0 && all_digits(s@) && dec_val(s@) <= u64::MAX {
            Some(dec_val(s@) as u64)
        } else {
            None::<u64>
        }),
{
    let n = s.unicode_len();
    if n == 0 {
        return None;
    }
    let mut acc: u64 = 0;
    let mut i: usize = 0;
    while i < n
        invariant
            n == s@.len(),
            0 <= i <= n,
            all_digits(s@.subrange(0, i as int)),
            acc == dec_val(s@.subrange(0, i as int)),
        decreases n - i,
    {
        let c = s.get_char(i);
        let cu = c as u32;
        if cu < 48 || cu > 57 {
            proof {
                assert(s@.subrange(0, n as int) =~= s@);
                assert(s@[i as int] == c);
            }
            return None;
        }
        let d: u32 = cu - 48;
        assert(d <= 9);
        if acc > (u64::MAX - (d as u64)) / 10 {
            proof {
                let w = s@.subrange(0, i + 1);
                assert(w.drop_last() =~= s@.subrange(0, i as int));
                assert(w.last() == s@[i as int]);
                assert(dec_val(w) > u64::MAX);
                lemma_dec_val_prefix_grows(s@, i + 1);
                assert(s@.subrange(0, n as int) =~= s@);
            }
            return None;
        }
        proof {
            let w = s@.subrange(0, i + 1);
            assert(w.drop_last() =~= s@.subrange(0, i as int));
            assert(w.last() == s@[i as int]);
            assert(s@[i as int] == c);
            assert(digit_val(c) == d as nat);
        }
        acc = acc * 10 + (d as u64);
        i = i + 1;
    }
    proof {
        assert(s@.subrange(0, n as int) =~= s@);
    }
    Some(acc)
}

/// A digit string is worth at least any of its prefixes.
proof fn lemma_dec_val_prefix_grows(s: Seq<char>, i: int)
    requires
        0 <= i <= s.len(),
    ensures
        dec_val(s.subrange(0, i)) <= dec_val(s),
    decreases s.len() - i,
{
    if i < s.len() {
        let w = s.subrange(0, i + 1);
        assert(w.drop_last() =~= s.subrange(0, i));
        assert(dec_val(s.subrange(0, i)) <= dec_val(w));
        lemma_dec_val_prefix_grows(s, i + 1);
        assert(s.subrange(0, s.len() as int) =~= s);
    } else {
        assert(s.subrange(0, i) =~= s);
    }
}

/// Searches `h` for the contiguous run `n`.
pub fn contains_bytes(h: &[u8], n: &[u8]) -> (r: bool)
    ensures
        r == bytes_contain(h@, n@),
{
    let hl = h.len();
    let nl = n.len();
    if nl > hl {
        proof {
            if bytes_contain(h@, n@) {
                let w = choose|i: int| 0 <= i <= h@.len() - n@.len() && #[trigger] h@.subrange(i, i + n@.len()) == n@;
            }
        }
        return false;
    }
    let mut i: usize = 0;
    while i <= hl - nl
        invariant
            hl == h@.len(),
            nl == n@.len(),
            nl <= hl,
            0 <= i <= hl - nl + 1,
            forall|k: int| 0 <= k < i ==> #[trigger] h@.subrange(k, k + n@.len()) != n@,
        decreases hl - i,
    {
        let mut same = true;
        for j in 0..nl
            invariant
                hl == h@.len(),
                nl == n@.len(),
                0 <= i <= hl - nl,
                same <==> (forall|k: int| 0 <= k < j ==> h@[i + k] == n@[k]),
        {
            if h[i + j] != n[j] {
                proof {
                    assert(h@[i + j] != n@[j as int]);
                }
                same = false;
            }
            proof {
                if same {
                    assert(forall|k: int| 0 <= k < j + 1 ==> h@[i + k] == n@[k]);
                }
            }
        }
        if same {
            proof {
                assert(h@.subrange(i as int, i + n@.len()) =~= n@);
            }
            return true;
        }
        i = i + 1;
    }
    proof {
        if bytes_contain(h@, n@) {
            let w = choose|k: int| 0 <= k <= h@.len() - n@.len() && #[trigger] h@.subrange(k, k + n@.len()) == n@;
            assert(h@.subrange(w, w + n@.len()) != n@);
        }
    }
    false
}

/// The reported liveness of a stream event.
#[derive(Clone, Copy, PartialEq, Eq, Structural, Debug)]
pub enum StreamStatus {
    Live,
    Ended,
    Planned,
}

impl StreamStatus {
    /// The display name of the status.
    pub fn as_str(&self) -> (r: &'static str)
        ensures
            *self is Live ==> r@ == "Live"@,
            *self is Ended ==> r@ == "Ended"@,
            *self is Planned ==> r@ == "Planned"@,
    {
        match self {
            StreamStatus::Live => "Live",
            StreamStatus::Ended => "Ended",
            StreamStatus::Planned => "Planned",
        }
    }
}

/// The value of the first tag that names the stream host: a `p` tag whose
/// fourth entry marks the role.
pub open spec fn find_host_tag(tags: Seq<Seq<Seq<char>>>) -> Option<Seq<char>>
    decreases tags.len(),
{
    if tags.len() == 0 {
        None
    } else if tags[0].len() >= 4 && tags[0][0] == "p"@ && tags[0][3] == "host"@ {
        Some(tags[0][1])
    } else {
        find_host_tag(tags.drop_first(), )
    }
}

/// The host of a stream event: the key named by its host tag, or the
/// event author where that tag is missing or unreadable.
pub open spec fn host_of(v: NoteView) -> Seq<u8> {
    match find_host_tag(v.tags) {
        Some(h) => if h.len() == 64 && crate::hex::all_hex(h) {
            crate::hex::hex_bytes(h)
        } else {
            v.pubkey
        },
        None => v.pubkey,
    }
}

/// Whether this application can play the stream: its own stream kind
/// always plays; anything else needs a playlist link.
pub open spec fn can_play_of(v: NoteView) -> bool {
    v.kind == 30313 || (find_tag(v.tags, "streaming"@) matches Some(s) && bytes_contain(
        vstd::utf8::encode_utf8(s),
        vstd::utf8::encode_utf8(".m3u8"@),
    ))
}

/// When the stream starts: its `starts` tag where that reads as a
/// number, the event timestamp otherwise.
pub open spec fn starts_of(v: NoteView) -> u64 {
    match find_tag(v.tags, "starts"@) {
        Some(s) => if s.len() > 0 && all_digits(s) && dec_val(s) <= u64::MAX {
            dec_val(s) as u64
        } else {
            v.created_at
        },
        None => v.created_at,
    }
}

/// The reported status: `live` and `planned` read as themselves; any
/// other or missing status reads as ended.
pub open spec fn status_of(v: NoteView) -> StreamStatus {
    match find_tag(v.tags, "status"@) {
        Some(s) => if s == "live"@ {
            StreamStatus::Live
        } else if s == "planned"@ {
            StreamStatus::Planned
        } else {
            StreamStatus::Ended
        },
        None => StreamStatus::Ended,
    }
}

/// The reported viewer count: present when the tag is, unreadable counts
/// reading as zero.
pub open spec fn viewers_of(v: NoteView) -> Option<u32> {
    match find_tag(v.tags, "current_participants"@) {
        Some(s) => Some(
            if s.len() > 0 && all_digits(s) && dec_val(s) <= u32::MAX {
                dec_val(s) as u32
            } else {
                0u32
            },
        ),
        None => None,
    }
}

/// What a stream event tells the interface.
pub trait StreamInfo {
    /// The underlying event value.
    spec fn info(&self) -> NoteView;

    /// The stream title tag.
    fn title(&self) -> (r: Option<String>)
        ensures
            match r {
                Some(v) => find_tag(self.info().tags, "title"@) == Some(v@),
                None => find_tag(self.info().tags, "title"@) is None,
            },
    ;

    /// The stream summary tag.
    fn summary(&self) -> (r: Option<String>)
        ensures
            match r {
                Some(v) => find_tag(self.info().tags, "summary"@) == Some(v@),
                None => find_tag(self.info().tags, "summary"@) is None,
            },
    ;

    /// The key of the stream host.
    fn host(&self) -> (r: [u8; 32])
        ensures
            r@ == host_of(self.info()),
    ;

    /// The live playlist link.
    fn streaming(&self) -> (r: Option<String>)
        ensures
            match r {
                Some(v) => find_tag(self.info().tags, "streaming"@) == Some(v@),
                None => find_tag(self.info().tags, "streaming"@) is None,
            },
    ;

    /// The recording link.
    fn recording(&self) -> (r: Option<String>)
        ensures
            match r {
                Some(v) => find_tag(self.info().tags, "recording"@) == Some(v@),
                None => find_tag(self.info().tags, "recording"@) is None,
            },
    ;

    /// Whether this application can play the stream.
    fn can_play(&self) -> (r: bool)
        ensures
            r == can_play_of(self.info()),
    ;

    /// When the stream starts.
    fn starts(&self) -> (r: u64)
        ensures
            r == starts_of(self.info()),
    ;

    /// The cover image link.
    fn image(&self) -> (r: Option<String>)
        ensures
            match r {
                Some(v) => find_tag(self.info().tags, "image"@) == Some(v@),
                None => find_tag(self.info().tags, "image"@) is None,
            },
    ;

    /// The reported status.
    fn status(&self) -> (r: StreamStatus)
        ensures
            r == status_of(self.info()),
    ;

    /// The reported viewer count.
    fn viewers(&self) -> (r: Option<u32>)
        ensures
            r == viewers_of(self.info()),
    ;
}

impl Note {
    /// The value of the first tag named `key`, cloned out of the note.
    pub fn get_tag_value(&self, key: &str) -> (r: Option<String>)
        ensures
            match r {
                Some(v) => find_tag(self@.tags, key@) == Some(v@),
                None => find_tag(self@.tags, key@) is None,
            },
    {
        let wanted = key.to_owned();
        proof {
            assert(self@.tags.skip(0) =~= self@.tags);
        }
        let n = self.tags.len();
        for i in 0..n
            invariant
                wanted@ == key@,
                n == self.tags@.len(),
                find_tag(self@.tags, key@) == find_tag(self@.tags.skip(i as int), key@),
        {
            let ghost rest = self@.tags.skip(i as int);
            proof {
                assert(rest[0] == self@.tags[i as int]);
                assert(rest.drop_first() =~= self@.tags.skip(i + 1));
                assert(self@.tags[i as int] == crate::filter::str_views(self.tags@[i as int]@));
            }
            let tag = &self.tags[i];
            if tag.len() >= 1 && tag[0] == wanted {
                proof {
                    assert(self@.tags[i as int][0] == self.tags@[i as int]@[0]@);
                }
                if tag.len() >= 2 {
                    proof {
                        assert(self@.tags[i as int][1] == self.tags@[i as int]@[1]@);
                    }
                    return Some(tag[1].clone());
                }
                return None;
            }
            proof {
                if self@.tags[i as int].len() >= 1 {
                    assert(self@.tags[i as int][0] == self.tags@[i as int]@[0]@);
                }
            }
        }
        proof {
            assert(self@.tags.skip(n as int) =~= Seq::<Seq<Seq<char>>>::empty());
        }
        None
    }

    /// The value of the first host tag, cloned out of the note.
    fn get_host_tag(&self) -> (r: Option<String>)
        ensures
            match r {
                Some(v) => find_host_tag(self@.tags) == Some(v@),
                None => find_host_tag(self@.tags) is None,
            },
    {
        let p = String::from_str("p");
        let host = String::from_str("host");
        proof {
            assert(self@.tags.skip(0) =~= self@.tags);
        }
        let n = self.tags.len();
        for i in 0..n
            invariant
                p@ == "p"@,
                host@ == "host"@,
                n == self.tags@.len(),
                find_host_tag(self@.tags) == find_host_tag(self@.tags.skip(i as int)),
        {
            let ghost rest = self@.tags.skip(i as int);
            proof {
                assert(rest[0] == self@.tags[i as int]);
                assert(rest.drop_first() =~= self@.tags.skip(i + 1));
                assert(self@.tags[i as int] == crate::filter::str_views(self.tags@[i as int]@));
            }
            let tag = &self.tags[i];
            if tag.len() >= 4 && tag[0] == p && tag[3] == host {
                proof {
                    assert(self@.tags[i as int][0] == self.tags@[i as int]@[0]@);
                    assert(self@.tags[i as int][3] == self.tags@[i as int]@[3]@);
                    assert(self@.tags[i as int][1] == self.tags@[i as int]@[1]@);
                }
                return Some(tag[1].clone());
            }
            proof {
                if self@.tags[i as int].len() >= 4 {
                    assert(self@.tags[i as int][0] == self.tags@[i as int]@[0]@);
                    assert(self@.tags[i as int][3] == self.tags@[i as int]@[3]@);
                }
            }
        }
        proof {
            assert(self@.tags.skip(n as int) =~= Seq::<Seq<Seq<char>>>::empty());
        }
        None
    }
}

impl StreamInfo for Note {
    open spec fn info(&self) -> NoteView {
        self@
    }

    fn title(&self) -> (r: Option<String>) {
        self.get_tag_value("title")
    }

    fn summary(&self) -> (r: Option<String>) {
        self.get_tag_value("summary")
    }

    fn host(&self) -> (r: [u8; 32]) {
        match self.get_host_tag() {
            Some(v) => {
                match crate::hex::hex_decode(v.as_str()) {
                    Some(b) => {
                        if b.len() == 32 {
                            let mut out: [u8; 32] = [0u8; 32];
                            for i in 0..32
                                invariant
                                    b@.len() == 32,
                                    forall|j: int| 0 <= j < i ==> out@[j] == b@[j],
                            {
                                out[i] = b[i];
                            }
                            proof {
                                assert(out@ =~= b@);
                                assert(v@.len() == 64);
                            }
                            out
                        } else {
                            proof {
                                assert(v@.len() != 64);
                            }
                            self.pubkey
                        }
                    },
                    None => self.pubkey,
                }
            },
            None => self.pubkey,
        }
    }

    fn streaming(&self) -> (r: Option<String>) {
        self.get_tag_value("streaming")
    }

    fn recording(&self) -> (r: Option<String>) {
        self.get_tag_value("recording")
    }

    fn can_play(&self) -> (r: bool) {
        if self.kind == 30313 {
            return true;
        }
        match self.get_tag_value("streaming") {
            Some(v) => contains_bytes(v.as_str().as_bytes(), ".m3u8".as_bytes()),
            None => false,
        }
    }

    fn starts(&self) -> (r: u64) {
        match self.get_tag_value("starts") {
            Some(v) => match parse_u64(v.as_str()) {
                Some(x) => x,
                None => self.created_at,
            },
            None => self.created_at,
        }
    }

    fn image(&self) -> (r: Option<String>) {
        self.get_tag_value("image")
    }

    fn status(&self) -> (r: StreamStatus) {
        let live = String::from_str("live");
        let planned = String::from_str("planned");
        match self.get_tag_value("status") {
            Some(v) => {
                if v == live {
                    StreamStatus::Live
                } else if v == planned {
                    StreamStatus::Planned
                } else {
                    StreamStatus::Ended
                }
            },
            None => StreamStatus::Ended,
        }
    }

    fn viewers(&self) -> (r: Option<u32>) {
        match self.get_tag_value("current_participants") {
            Some(v) => match parse_u64(v.as_str()) {
                Some(x) => {
                    if x <= 0xffff_ffff {
                        Some(x as u32)
                    } else {
                        Some(0)
                    }
                },
                None => Some(0),
            },
            None => None,
        }
    }
}

} // verus!
