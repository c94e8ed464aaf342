//! Links to events and profiles: the typed reference a view navigates by,
//! and its rendering as tag values and filters.

use vstd::prelude::*;

use crate::filter::pk_views;
use crate::filter::str_views;
use crate::filter::Filter;
use crate::filter::FilterView;
use crate::filter::TagQueryView;
use crate::hex::hex_char;
use crate::hex::hex_digit_str;
use crate::hex::hex_encode;
use crate::hex::hex_of;
use crate::note::find_tag;
use crate::note::Note;

verus! {

/// An identifier: a raw 32-byte id, or an identifier string.
pub enum IdOrStr {
    Id([u8; 32]),
    Str(String),
}

impl IdOrStr {
    /// The textual form: raw ids print as lowercase hex.
    pub open spec fn text(self) -> Seq<char> {
        match self {
            IdOrStr::Id(i) => hex_of(i@),
            IdOrStr::Str(s) => s@,
        }
    }

    /// The raw bytes behind the identifier.
    pub fn as_bytes(&self) -> (r: &[u8])
        ensures
            r@ == match self {
                IdOrStr::Id(i) => i@,
                IdOrStr::Str(s) => vstd::utf8::encode_utf8(s@),
            },
    {
        match self {
            IdOrStr::Id(i) => i.as_slice(),
            IdOrStr::Str(s) => s.as_str().as_bytes(),
        }
    }

    /// The textual form, rendered.
    pub fn to_text(&self) -> (r: String)
        ensures
            r@ == self.text(),
    {
        match self {
            IdOrStr::Id(i) => hex_encode(i.as_slice()),
            IdOrStr::Str(s) => s.clone(),
        }
    }
}

/// The kind of entity a link points at.
#[derive(Clone, Copy, PartialEq, Eq, Structural, Debug)]
pub enum NostrLinkType {
    Note,
    PublicKey,
    PrivateKey,
    Event,
    Profile,
    Coordinate,
}

impl NostrLinkType {
    /// The human-readable prefix the link type is written under.
    pub fn prefix(&self) -> (r: &'static str)
        ensures
            *self is Note ==> r@ == "note"@,
            *self is PublicKey ==> r@ == "npub"@,
            *self is PrivateKey ==> r@ == "nsec"@,
            *self is Event ==> r@ == "nevent"@,
            *self is Profile ==> r@ == "nprofile"@,
            *self is Coordinate ==> r@ == "naddr"@,
    {
        match self {
            NostrLinkType::Note => "note",
            NostrLinkType::PublicKey => "npub",
            NostrLinkType::PrivateKey => "nsec",
            NostrLinkType::Event => "nevent",
            NostrLinkType::Profile => "nprofile",
            NostrLinkType::Coordinate => "naddr",
        }
    }
}

/// A typed link to an event, profile or addressable coordinate.
pub struct NostrLink {
    pub hrp: NostrLinkType,
    pub id: IdOrStr,
    pub kind: Option<u32>,
    pub author: Option<[u8; 32]>,
    pub relays: Vec<String>,
}

/// The decimal rendering of a number.
pub open spec fn dec_of(n: nat) -> Seq<char>
    decreases n,
{
    if n < 10 {
        seq![hex_char(n as u8)]
    } else {
        dec_of(n / 10).push(hex_char((n % 10) as u8))
    }
}

/// Renders a number in decimal.
pub fn u32_dec(n: u32) -> (r: String)
    ensures
        r@ == dec_of(n as nat),
    decreases n,
{
    if n < 10 {
        let r = hex_digit_str(n as u8).to_owned();
        proof {
            assert(r@ =~= seq![hex_char(n as u8)]);
        }
        r
    } else {
        let front = u32_dec(n / 10);
        let r = front.concat(hex_digit_str((n % 10) as u8));
        proof {
            assert(r@ =~= dec_of((n / 10) as nat).push(hex_char((n % 10) as u8)));
        }
        r
    }
}

impl NostrLink {
    /// Whether the link carries what its tag rendering needs: an
    /// addressable coordinate names its kind and author.
    pub open spec fn renderable(self) -> bool {
        self.hrp is Coordinate ==> self.kind is Some && self.author is Some
    }

    /// The tag value the link is written as: `kind:author:identifier`
    /// for a coordinate, the identifier alone otherwise.
    pub open spec fn spec_tag_value(self) -> Seq<char> {
        if self.hrp is Coordinate {
            dec_of(self.kind->0 as nat) + seq![':'] + hex_of(self.author->0@) + seq![':']
                + self.id.text()
        } else {
            self.id.text()
        }
    }

    /// A link from its parts.
    pub fn new(
        hrp: NostrLinkType,
        id: IdOrStr,
        kind: Option<u32>,
        author: Option<[u8; 32]>,
        relays: Vec<String>,
    ) -> (r: NostrLink)
        ensures
            r.hrp == hrp,
            r.id == id,
            r.kind == kind,
            r.author == author,
            r.relays == relays,
    {
        NostrLink { hrp, id, kind, author, relays }
    }

    /// The link to the profile behind a public key.
    pub fn profile(pubkey: &[u8; 32]) -> (r: NostrLink)
        ensures
            r.hrp is Profile,
            r.id matches IdOrStr::Id(i) && i@ == pubkey@,
            r.kind is None,
            r.author is None,
            r.relays@.len() == 0,
    {
        NostrLink {
            hrp: NostrLinkType::Profile,
            id: IdOrStr::Id(*pubkey),
            kind: None,
            author: None,
            relays: Vec::new(),
        }
    }

    /// The link to a stored event: addressable kinds link by coordinate,
    /// using their identifier tag, anything else by event id.
    pub fn from_note(note: &Note) -> (r: NostrLink)
        ensures
            r.renderable(),
            r.kind == Some(note@.kind),
            r.author == Some(note.pubkey),
            r.relays@.len() == 0,
            30000 <= note@.kind < 40000 ==> {
                &&& r.hrp is Coordinate
                &&& r.id matches IdOrStr::Str(s) && s@ == match find_tag(note@.tags, "d"@) {
                    Some(v) => v,
                    None => Seq::<char>::empty(),
                }
            },
            !(30000 <= note@.kind < 40000) ==> {
                &&& r.hrp is Event
                &&& r.id matches IdOrStr::Id(i) && i@ == note@.id
            },
    {
        if note.kind >= 30000 && note.kind < 40000 {
            let ident = match note.get_tag_value("d") {
                Some(v) => v,
                None => String::new(),
            };
            NostrLink {
                hrp: NostrLinkType::Coordinate,
                id: IdOrStr::Str(ident),
                kind: Some(note.kind),
                author: Some(note.pubkey),
                relays: Vec::new(),
            }
        } else {
            NostrLink {
                hrp: NostrLinkType::Event,
                id: IdOrStr::Id(note.id),
                kind: Some(note.kind),
                author: Some(note.pubkey),
                relays: Vec::new(),
            }
        }
    }

    /// Renders the link as its tag value.
    pub fn to_tag_value(&self) -> (r: String)
        requires
            self.renderable(),
        ensures
            r@ == self.spec_tag_value(),
    {
        match (&self.hrp, &self.kind, &self.author) {
            (NostrLinkType::Coordinate, Some(k), Some(a)) => {
                let mut out = u32_dec(*k);
                out.append(":");
                let hexa = hex_encode(a.as_slice());
                out.append(hexa.as_str());
                out.append(":");
                let idt = self.id.to_text();
                out.append(idt.as_str());
                proof {
                    reveal_strlit(":");
                    assert(":"@ =~= seq![':']);
                    assert(out@ =~= self.spec_tag_value());
                }
                out
            },
            _ => self.id.to_text(),
        }
    }

    /// Renders the link as a tag: addressable coordinates under the
    /// coordinate tag name, anything else under the event tag name.
    pub fn to_tag(&self) -> (r: Vec<String>)
        requires
            self.renderable(),
        ensures
            r@.len() == 2,
            r@[0]@ == (if self.hrp is Coordinate {
                "a"@
            } else {
                "e"@
            }),
            r@[1]@ == self.spec_tag_value(),
    {
        let mut out: Vec<String> = Vec::new();
        match &self.hrp {
            NostrLinkType::Coordinate => {
                out.push("a".to_owned());
            },
            _ => {
                out.push("e".to_owned());
            },
        }
        out.push(self.to_tag_value());
        out
    }

    /// The local-store filter selecting what the link points at: an
    /// exact coordinate lookup for coordinates, everything for plain
    /// events, nothing for key material.
    pub fn to_filter(&self) -> (r: Option<Filter>)
        requires
            self.renderable(),
        ensures
            self.hrp is Coordinate ==> (r matches Some(f) && f@ == (FilterView {
                kinds: Some(seq![self.kind->0 as u64]),
                authors: Some(seq![self.author->0@]),
                tags: Some(TagQueryView { name: 'd', values: seq![self.id.text()] }),
                limit: None,
            })),
            self.hrp is Event || self.hrp is Note ==> (r matches Some(f) && f@ == (FilterView {
                kinds: None,
                authors: None,
                tags: None,
                limit: None,
            })),
            !(self.hrp is Coordinate || self.hrp is Event || self.hrp is Note) ==> r is None,
    {
        match (&self.hrp, &self.kind, &self.author) {
            (NostrLinkType::Coordinate, Some(k), Some(a)) => {
                let mut kinds: Vec<u64> = Vec::new();
                kinds.push(*k as u64);
                let mut authors: Vec<[u8; 32]> = Vec::new();
                authors.push(*a);
                let mut values: Vec<String> = Vec::new();
                values.push(self.id.to_text());
                let f = Filter::new().kinds(kinds).authors(authors).tags(values, 'd');
                proof {
                    assert(pk_views(authors@) =~= seq![self.author->0@]);
                    assert(str_views(values@) =~= seq![self.id.text()]);
                    assert(kinds@ =~= seq![self.kind->0 as u64]);
                }
                Some(f)
            },
            (NostrLinkType::Event, _, _) => Some(Filter::new()),
            (NostrLinkType::Note, _, _) => Some(Filter::new()),
            _ => None,
        }
    }
}

} // verus!
