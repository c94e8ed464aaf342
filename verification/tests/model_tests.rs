use zap_stream_core::hex::{hex_decode, hex_encode};
use zap_stream_core::link::{IdOrStr, NostrLink, NostrLinkType};
use zap_stream_core::login::{Login, LoginKind};
use zap_stream_core::note::{Note, NoteRef, StreamInfo, StreamStatus};
use zap_stream_core::note_store::NoteStore;
use zap_stream_core::profiles::{ProfileDirectory, ProfileLoader, ProfileMeta};

fn note_with_tags(kind: u32, tags: Vec<Vec<String>>) -> Note {
    Note {
        id: [0xaa; 32],
        pubkey: [0xbb; 32],
        kind,
        created_at: 1_700_000_000,
        content: String::new(),
        tags,
    }
}

fn tag(parts: &[&str]) -> Vec<String> {
    parts.iter().map(|p| p.to_string()).collect()
}

#[test]
fn hex_encodes_lowercase_pairs() {
    assert_eq!(hex_encode(&[0xde, 0xad, 0xbe, 0xef]), "deadbeef");
    assert_eq!(hex_encode(&[]), "");
    assert_eq!(hex_encode(&[0x00, 0x0f]), "000f");
}

#[test]
fn hex_decode_reads_the_encoding_back() {
    let bytes = vec![1u8, 2, 250, 16];
    let text = hex_encode(&bytes);
    assert_eq!(hex_decode(&text), Some(bytes));
    // Uppercase digits decode to the same bytes.
    assert_eq!(hex_decode("DEADBEEF"), Some(vec![0xde, 0xad, 0xbe, 0xef]));
    assert_eq!(hex_decode("abc"), None);
    assert_eq!(hex_decode("zz"), None);
}

#[test]
fn login_roundtrip() {
    let mut login = Login::new();
    assert!(!login.is_logged_in());
    login.login(LoginKind::PublicKey { key: [9u8; 32] });
    assert!(login.is_logged_in());
    let stored = login.save();
    let mut restored = Login::new();
    restored.load(Some(stored));
    assert!(restored.is_logged_in());
    let mut untouched = Login::new();
    untouched.load(None);
    assert!(!untouched.is_logged_in());
}

#[test]
fn profile_loader_hands_each_key_out_once() {
    let mut loader = ProfileLoader::new();
    let a = [1u8; 32];
    let b = [2u8; 32];
    loader.demand(a);
    loader.demand(a);
    loader.demand(b);
    let batch = loader.next();
    assert_eq!(batch.len(), 2);
    assert!(batch.contains(&a));
    assert!(batch.contains(&b));
    // Demanding a fetched key again yields nothing more.
    loader.demand(a);
    assert!(loader.next().is_empty());
}

#[test]
fn profile_links_carry_the_key() {
    let pk = [7u8; 32];
    let link = NostrLink::profile(&pk);
    match &link.id {
        IdOrStr::Id(i) => assert_eq!(*i, pk),
        IdOrStr::Str(_) => panic!("expected a raw id"),
    }
    assert_eq!(link.id.as_bytes(), &pk);
}

#[test]
fn coordinate_links_render_kind_author_identifier() {
    let link = NostrLink::new(
        NostrLinkType::Coordinate,
        IdOrStr::Str("main".to_string()),
        Some(30311),
        Some([0x01; 32]),
        vec![],
    );
    let t = link.to_tag();
    assert_eq!(t.len(), 2);
    assert_eq!(t[0], "a");
    assert_eq!(
        t[1],
        format!("30311:{}:main", "01".repeat(32)),
    );
}

#[test]
fn event_links_render_the_id_alone() {
    let link = NostrLink::new(NostrLinkType::Event, IdOrStr::Id([0xcd; 32]), None, None, vec![]);
    let t = link.to_tag();
    assert_eq!(t[0], "e");
    assert_eq!(t[1], "cd".repeat(32));
}

#[test]
fn links_from_notes_follow_the_kind() {
    let addressable = note_with_tags(30311, vec![tag(&["d", "main"])]);
    let link = NostrLink::from_note(&addressable);
    assert!(matches!(link.hrp, NostrLinkType::Coordinate));
    assert_eq!(link.to_tag_value(), format!("30311:{}:main", "bb".repeat(32)));

    let plain = note_with_tags(1, vec![]);
    let link = NostrLink::from_note(&plain);
    assert!(matches!(link.hrp, NostrLinkType::Event));
    assert_eq!(link.to_tag_value(), "aa".repeat(32));
}

#[test]
fn coordinate_links_become_exact_filters() {
    let link = NostrLink::new(
        NostrLinkType::Coordinate,
        IdOrStr::Str("main".to_string()),
        Some(30311),
        Some([0x01; 32]),
        vec![],
    );
    let f = link.to_filter().expect("filter");
    assert_eq!(f.kinds, Some(vec![30311]));
    assert_eq!(f.authors, Some(vec![[0x01; 32]]));
    let tq = f.tags.expect("tag query");
    assert_eq!(tq.name, 'd');
    assert_eq!(tq.values, vec!["main".to_string()]);

    let none = NostrLink::profile(&[0u8; 32]).to_filter();
    assert!(none.is_none());
}

#[test]
fn stream_info_reads_the_tags() {
    let host_key = [0x42u8; 32];
    let note = note_with_tags(
        30311,
        vec![
            tag(&["title", "a show"]),
            tag(&["status", "live"]),
            tag(&["starts", "1700000123"]),
            tag(&["streaming", "https://x/live.m3u8"]),
            tag(&["current_participants", "37"]),
            tag(&["p", &hex_encode(&host_key), "", "host"]),
        ],
    );
    assert_eq!(note.title(), Some("a show".to_string()));
    assert_eq!(note.status(), StreamStatus::Live);
    assert_eq!(note.starts(), 1_700_000_123);
    assert!(note.can_play());
    assert_eq!(note.viewers(), Some(37));
    assert_eq!(note.host(), host_key);
}

#[test]
fn stream_info_degrades_to_defaults() {
    let note = note_with_tags(
        30311,
        vec![
            tag(&["status", "paused"]),
            tag(&["starts", "soon"]),
            tag(&["streaming", "https://x/live.mp4"]),
            tag(&["current_participants", "many"]),
        ],
    );
    assert_eq!(note.status(), StreamStatus::Ended);
    assert_eq!(note.starts(), note.created_at);
    assert!(!note.can_play());
    assert_eq!(note.viewers(), Some(0));
    assert_eq!(note.title(), None);
    assert_eq!(note.host(), note.pubkey);
}

#[test]
fn own_stream_kind_always_plays() {
    let note = note_with_tags(30313, vec![]);
    assert!(note.can_play());
}

#[test]
fn planned_status_reads_planned() {
    let note = note_with_tags(30311, vec![tag(&["status", "planned"])]);
    assert_eq!(note.status(), StreamStatus::Planned);
    assert_eq!(note.status().as_str(), "Planned");
}

#[test]
fn note_refs_order_newest_first() {
    let newer = NoteRef::new(2, 200);
    let older = NoteRef::new(1, 100);
    assert!(newer.before(&older));
    assert!(!older.before(&newer));
    // Equal timestamps break the tie by the smaller store key.
    let left = NoteRef::new(1, 100);
    let right = NoteRef::new(2, 100);
    assert!(left.before(&right));
}

#[test]
fn link_types_print_their_prefixes() {
    assert_eq!(NostrLinkType::Note.prefix(), "note");
    assert_eq!(NostrLinkType::PublicKey.prefix(), "npub");
    assert_eq!(NostrLinkType::PrivateKey.prefix(), "nsec");
    assert_eq!(NostrLinkType::Event.prefix(), "nevent");
    assert_eq!(NostrLinkType::Profile.prefix(), "nprofile");
    assert_eq!(NostrLinkType::Coordinate.prefix(), "naddr");
}

#[test]
fn note_store_replaces_under_the_same_coordinate() {
    let mut store = NoteStore::new();
    let first = note_with_tags(30311, vec![tag(&["d", "main"]), tag(&["status", "planned"])]);
    let second = note_with_tags(30311, vec![tag(&["d", "main"]), tag(&["status", "live"])]);
    assert!(store.add(first).is_none());
    assert_eq!(store.len(), 1);
    let prev = store.add(second).expect("replaced");
    assert_eq!(prev.get_tag_value("status"), Some("planned".to_string()));
    assert_eq!(store.len(), 1);
}

#[test]
fn note_store_keeps_distinct_coordinates_apart() {
    let mut store = NoteStore::new();
    let a = note_with_tags(30311, vec![tag(&["d", "one"])]);
    let b = note_with_tags(30311, vec![tag(&["d", "two"])]);
    store.add(a);
    store.add(b);
    assert_eq!(store.len(), 2);
    let gone = store.remove(&note_with_tags(30311, vec![tag(&["d", "one"])]));
    assert!(gone.is_some());
    assert_eq!(store.len(), 1);
    assert!(store.remove(&note_with_tags(30311, vec![tag(&["d", "one"])])).is_none());
}

#[test]
fn note_store_keys_follow_the_link() {
    let addressable = note_with_tags(30311, vec![tag(&["d", "main"])]);
    assert_eq!(NoteStore::key(&addressable), format!("30311:{}:main", "bb".repeat(32)));
    let plain = note_with_tags(1, vec![]);
    assert_eq!(NoteStore::key(&plain), "aa".repeat(32));
}

#[test]
fn profile_directory_asks_once_and_answers_from_the_table() {
    let mut dir = ProfileDirectory::new();
    let pk = [4u8; 32];
    assert!(dir.get_profile(&pk).is_none());
    assert!(dir.get_profile(&pk).is_none());
    // Both misses produced a single outstanding request.
    let asked = dir.take_requests();
    assert_eq!(asked, vec![pk]);
    assert!(dir.take_requests().is_empty());
    dir.insert_profile(
        &pk,
        ProfileMeta { name: Some("alice".to_string()), picture: None, lud16: None },
    );
    let meta = dir.get_profile(&pk).expect("cached");
    assert_eq!(meta.name, Some("alice".to_string()));
    // A hit never re-requests.
    assert!(dir.take_requests().is_empty());
}
