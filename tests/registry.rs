use geoquery::collection::Collection;
use geoquery::geometry::{Coord, Geometry};
use geoquery::shared::SharedCollection;
use geoquery::snapshot::decode_snapshot;
use geoquery::storage::Storage;

fn c(x: f64, y: f64) -> Coord {
    Coord { x: x.to_bits(), y: y.to_bits() }
}

fn point(x: f64, y: f64) -> Vec<Geometry> {
    vec![Geometry::Point(c(x, y))]
}

fn sorted<T: Ord>(mut v: Vec<T>) -> Vec<T> {
    v.sort();
    v
}

#[test]
fn unknown_collection_is_absent() {
    let mut s = Storage::new();
    assert!(s.get("missing").is_none());
    s.create("empty".to_string());
    let col = s.get("empty").expect("created");
    let reader = col.reader();
    assert_eq!(reader.collection().nearest(&vec![]), None);
    reader.release();
    assert!(s.get("missing").is_none());
}

#[test]
fn get_or_create_makes_collection_once() {
    let mut s = Storage::new();
    let a = s.get_or_create("places".to_string());
    assert!(a.add("a".to_string(), &point(1.0, 1.0), "A".to_string()));
    let b = s.get_or_create("places".to_string());
    assert!(b.add("b".to_string(), &point(2.0, 2.0), "B".to_string()));
    assert_eq!(s.list(), vec!["places".to_string()]);
    let col = s.get("places").unwrap();
    assert_eq!(col.get("a"), Some("A".to_string()));
    assert_eq!(col.get("b"), Some("B".to_string()));
    let reader = col.reader();
    assert_eq!(reader.collection().len(), 2);
    reader.release();
}

#[test]
fn create_replaces_existing_collection() {
    let mut s = Storage::new();
    s.create("x".to_string()).add("a".to_string(), &point(1.0, 1.0), "A".to_string());
    s.create("x".to_string());
    let col = s.get("x").unwrap();
    assert_eq!(col.get("a"), None);
    assert_eq!(col.objects(), vec![]);
}

#[test]
fn remove_discards_collection() {
    let mut s = Storage::new();
    s.create("one".to_string());
    s.create("two".to_string());
    s.remove("one".to_string());
    assert_eq!(s.list(), vec!["two".to_string()]);
    assert!(s.get("one").is_none());
    s.remove("nothing".to_string());
    assert_eq!(s.list(), vec!["two".to_string()]);
}

#[test]
fn handle_outlives_removal() {
    let mut s = Storage::new();
    let h = s.create("gone".to_string());
    s.remove("gone".to_string());
    assert!(h.add("late".to_string(), &point(3.0, 3.0), "L".to_string()));
    assert_eq!(h.get("late"), Some("L".to_string()));
    assert!(s.get("gone").is_none());
}

#[test]
fn shared_remove_drops_object() {
    let h = SharedCollection::new(Collection::new());
    h.add("p".to_string(), &point(0.0, 0.0), "P".to_string());
    h.remove("p".to_string());
    assert_eq!(h.get("p"), None);
    let reader = h.reader();
    assert_eq!(reader.collection().len(), 0);
    reader.release();
}

#[test]
fn snapshot_round_trip() {
    let mut s = Storage::new();
    let cities = s.create("cities".to_string());
    cities.add("paris".to_string(), &point(2.35, 48.85), "P".to_string());
    cities.add("rome".to_string(), &point(12.5, 41.9), "R".to_string());
    s.create("rivers".to_string()).add("seine".to_string(), &point(0.0, 49.4), "S".to_string());
    s.create("empty".to_string());
    let bytes = s.encode();
    let saved = decode_snapshot(&bytes).expect("decodes");
    let replay: Vec<(String, Vec<(String, String, Vec<Geometry>)>)> = saved
        .into_iter()
        .map(|(name, objs)| {
            let objs = objs.into_iter().map(|(id, text)| (id, text, point(0.0, 0.0))).collect();
            (name, objs)
        })
        .collect();
    let back = Storage::restore(&replay);
    assert_eq!(sorted(back.list()), sorted(s.list()));
    for name in s.list() {
        let a = s.get(&name).unwrap().objects();
        let b = back.get(&name).unwrap().objects();
        assert_eq!(sorted(a), sorted(b));
    }
}

#[test]
fn snapshot_bytes_follow_bincode_layout() {
    let mut s = Storage::new();
    s.create("c".to_string()).add("i".to_string(), &point(0.0, 0.0), "t".to_string());
    let bytes = s.encode();
    let mut want: Vec<u8> = vec![];
    let one = 1u64.to_le_bytes();
    for part in [&one[..], &one, b"c", &one, &one, b"i", &one, b"t"] {
        want.extend_from_slice(part);
    }
    assert_eq!(bytes, want);
}

#[test]
fn corrupt_snapshot_is_rejected() {
    assert!(decode_snapshot(&vec![1, 2, 3]).is_none());
    assert!(decode_snapshot(&vec![]).is_none());
    let empty = Storage::new().encode();
    assert_eq!(decode_snapshot(&empty), Some(vec![]));
}

#[test]
fn restore_keeps_last_entry_of_a_name() {
    let replay = vec![
        ("x".to_string(), vec![("a".to_string(), "A".to_string(), point(0.0, 0.0))]),
        ("x".to_string(), vec![("b".to_string(), "B".to_string(), point(1.0, 1.0))]),
    ];
    let s = Storage::restore(&replay);
    assert_eq!(s.list(), vec!["x".to_string()]);
    let col = s.get("x").unwrap();
    assert_eq!(col.get("a"), None);
    assert_eq!(col.get("b"), Some("B".to_string()));
}

#[test]
fn from_objects_later_entry_wins() {
    let objs = vec![
        ("a".to_string(), "first".to_string(), point(0.0, 0.0)),
        ("a".to_string(), "second".to_string(), point(1.0, 0.0)),
    ];
    let col = Collection::from_objects(&objs);
    assert_eq!(col.get("a"), Some("second".to_string()));
    assert_eq!(col.len(), 1);
}

#[test]
fn truncated_snapshot_is_rejected_and_trailing_bytes_ignored() {
    let mut s = Storage::new();
    s.create("c".to_string()).add("i".to_string(), &point(0.0, 0.0), "text".to_string());
    let bytes = s.encode();
    let whole = decode_snapshot(&bytes).expect("decodes");
    assert_eq!(whole, vec![("c".to_string(), vec![("i".to_string(), "text".to_string())])]);
    for cut in 0..bytes.len() {
        assert!(decode_snapshot(&bytes[..cut].to_vec()).is_none(), "cut at {cut}");
    }
    let mut longer = bytes.clone();
    longer.extend_from_slice(&[9, 9, 9]);
    assert_eq!(decode_snapshot(&longer), Some(whole));
}

#[test]
fn from_objects_indexes_given_documents() {
    let objs = vec![
        ("a".to_string(), "A".to_string(), vec![Geometry::LineString(vec![c(0.0, 0.0), c(1.0, 0.0), c(2.0, 0.0)])]),
        ("b".to_string(), "B".to_string(), point(5.0, 5.0)),
    ];
    let col = Collection::from_objects(&objs);
    assert_eq!(col.count_tagged("a"), 2);
    assert_eq!(col.count_tagged("b"), 1);
    assert_eq!(col.len(), 3);
}
