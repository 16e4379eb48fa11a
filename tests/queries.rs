use geo::EuclideanDistance;
use geoquery::collection::{first_min, Collection, INTERSECT_LIMIT};
use geoquery::geometry::{decompose, Coord, Geometry, Primitive};
use geoquery::index::{same_text, Entry};

fn c(x: f64, y: f64) -> Coord {
    Coord { x: x.to_bits(), y: y.to_bits() }
}

fn pt(k: &Coord) -> geo::Coord<f64> {
    geo::Coord { x: f64::from_bits(k.x), y: f64::from_bits(k.y) }
}

fn ring(r: &[Coord]) -> geo::LineString<f64> {
    geo::LineString::new(r.iter().map(pt).collect())
}

fn distance(e: &Entry, x: f64, y: f64) -> f64 {
    let q = geo::Point::new(x, y);
    match &e.shape {
        Primitive::Point(a) => geo::Point::from(pt(a)).euclidean_distance(&q),
        Primitive::Segment(a, b) => geo::Line::new(pt(a), pt(b)).euclidean_distance(&q),
        Primitive::Polygon(rs) => {
            let holes = rs[1..].iter().map(|r| ring(r)).collect();
            geo::Polygon::new(ring(&rs[0]), holes).euclidean_distance(&q)
        }
    }
}

fn keys(col: &Collection, x: f64, y: f64) -> Vec<u64> {
    col.entries().iter().map(|e| distance(e, x, y).to_bits()).collect()
}

fn square() -> Vec<Geometry> {
    vec![Geometry::Polygon(vec![vec![
        c(0.0, 0.0),
        c(0.0, 1.0),
        c(1.0, 1.0),
        c(1.0, 0.0),
        c(0.0, 0.0),
    ]])]
}

fn line(n: usize) -> Vec<Geometry> {
    vec![Geometry::LineString((0..n).map(|i| c(i as f64, 0.0)).collect())]
}

#[test]
fn test_add() {
    let p = geo::Polygon::new(
        geo::LineString::from(vec![(0., 0.), (0., 1.), (1., 1.), (1., 0.), (0., 0.)]),
        vec![],
    );
    let poi = geo::Point::new(1.1, 0.9);
    let d: f64 = p.euclidean_distance(&poi);
    println!("{}", d);
    assert!((d - 0.1).abs() < 1e-9);
    let mut col = Collection::new();
    col.add("sq".to_string(), &square(), "square".to_string());
    assert_eq!(col.intersect(&keys(&col, 1.1, 0.9)), None);
}

#[test]
fn point_decomposes_to_one_point() {
    let p = decompose(&vec![Geometry::Point(c(1.0, 2.0))]);
    assert_eq!(p.len(), 1);
    assert!(matches!(p[0], Primitive::Point(k) if k == c(1.0, 2.0)));
}

#[test]
fn line_decomposes_to_one_segment() {
    let p = decompose(&vec![Geometry::Line(c(0.0, 0.0), c(3.0, 4.0))]);
    assert_eq!(p.len(), 1);
    assert!(matches!(p[0], Primitive::Segment(a, b) if a == c(0.0, 0.0) && b == c(3.0, 4.0)));
}

#[test]
fn linestring_gives_one_segment_per_pair() {
    let p = decompose(&line(5));
    assert_eq!(p.len(), 4);
    for (i, s) in p.iter().enumerate() {
        assert!(matches!(s, Primitive::Segment(a, b)
            if *a == c(i as f64, 0.0) && *b == c(i as f64 + 1.0, 0.0)));
    }
}

#[test]
fn polygon_decomposes_whole() {
    let p = decompose(&square());
    assert_eq!(p.len(), 1);
    match &p[0] {
        Primitive::Polygon(rs) => {
            assert_eq!(rs.len(), 1);
            assert_eq!(rs[0].len(), 5);
            assert_eq!(rs[0][2], c(1.0, 1.0));
        }
        _ => panic!("expected a polygon"),
    }
}

#[test]
fn multilinestring_concatenates_segments() {
    let doc = vec![Geometry::MultiLineString(vec![
        vec![c(0.0, 0.0), c(1.0, 0.0), c(2.0, 0.0)],
        vec![c(5.0, 5.0), c(6.0, 6.0)],
    ])];
    let p = decompose(&doc);
    assert_eq!(p.len(), 3);
    assert!(matches!(p[2], Primitive::Segment(a, b) if a == c(5.0, 5.0) && b == c(6.0, 6.0)));
}

#[test]
fn multipolygon_gives_one_polygon_each() {
    let doc = vec![Geometry::MultiPolygon(vec![
        vec![vec![c(0.0, 0.0), c(0.0, 1.0), c(1.0, 0.0), c(0.0, 0.0)]],
        vec![vec![c(5.0, 5.0), c(5.0, 6.0), c(6.0, 5.0), c(5.0, 5.0)]],
    ])];
    let p = decompose(&doc);
    assert_eq!(p.len(), 2);
    assert!(p.iter().all(|s| matches!(s, Primitive::Polygon(_))));
}

#[test]
fn collection_members_decompose_in_order() {
    let doc = vec![Geometry::Point(c(9.0, 9.0)), line(3).remove(0)];
    let p = decompose(&doc);
    assert_eq!(p.len(), 3);
    assert!(matches!(p[0], Primitive::Point(_)));
    assert!(matches!(p[1], Primitive::Segment(_, _)));
}

#[test]
fn empty_document_has_no_primitives_but_is_stored() {
    let mut col = Collection::new();
    assert!(col.add("e".to_string(), &vec![], "{}".to_string()));
    assert_eq!(col.len(), 0);
    assert_eq!(col.get("e"), Some("{}".to_string()));
    assert_eq!(col.nearest(&keys(&col, 0.0, 0.0)), None);
}

#[test]
fn add_then_get_returns_text() {
    let mut col = Collection::new();
    let text = "{\"type\":\"Point\",\"coordinates\":[1.0,2.0]}".to_string();
    assert!(col.add("p".to_string(), &vec![Geometry::Point(c(1.0, 2.0))], text.clone()));
    assert_eq!(col.get("p"), Some(text));
    assert_eq!(col.get("q"), None);
}

#[test]
fn linestring_of_n_points_indexes_n_minus_one() {
    let mut col = Collection::new();
    col.add("l".to_string(), &line(7), "l".to_string());
    assert_eq!(col.count_tagged("l"), 6);
    assert_eq!(col.len(), 6);
    col.remove("l".to_string());
    assert_eq!(col.len(), 0);
}

#[test]
fn readd_then_remove_leaves_nothing_tagged() {
    let mut col = Collection::new();
    col.add("keep".to_string(), &square(), "k".to_string());
    col.add("id".to_string(), &line(4), "a".to_string());
    col.add("id".to_string(), &line(3), "b".to_string());
    assert_eq!(col.count_tagged("id"), 2);
    assert_eq!(col.get("id"), Some("b".to_string()));
    col.remove("id".to_string());
    assert_eq!(col.count_tagged("id"), 0);
    assert_eq!(col.len(), 1);
    assert_eq!(col.get("id"), None);
    assert_eq!(col.get("keep"), Some("k".to_string()));
}

#[test]
fn index_matches_objects_after_each_step() {
    let mut col = Collection::new();
    let steps: Vec<(&str, Option<usize>)> = vec![
        ("a", Some(3)),
        ("b", Some(5)),
        ("a", Some(2)),
        ("c", Some(4)),
        ("b", None),
        ("zz", None),
        ("c", Some(6)),
    ];
    let mut expected: Vec<(String, usize)> = vec![];
    for (id, n) in steps {
        expected.retain(|(k, _)| k != id);
        match n {
            Some(n) => {
                col.add(id.to_string(), &line(n), format!("{id}{n}"));
                expected.push((id.to_string(), n - 1));
            }
            None => col.remove(id.to_string()),
        }
        let total: usize = expected.iter().map(|(_, k)| *k).sum();
        assert_eq!(col.len(), total);
        for (k, m) in &expected {
            assert_eq!(col.count_tagged(k), *m);
        }
        for e in col.entries() {
            assert!(expected.iter().any(|(k, _)| *k == e.id));
        }
    }
}

#[test]
fn remove_absent_is_noop() {
    let mut col = Collection::new();
    col.add("x".to_string(), &line(3), "x".to_string());
    col.remove("y".to_string());
    assert_eq!(col.len(), 2);
    assert_eq!(col.get("x"), Some("x".to_string()));
}

#[test]
fn nearest_picks_closer_point() {
    let mut col = Collection::new();
    col.add("origin".to_string(), &vec![Geometry::Point(c(0.0, 0.0))], "o".to_string());
    col.add("ten".to_string(), &vec![Geometry::Point(c(10.0, 0.0))], "t".to_string());
    let r = col.nearest(&keys(&col, 1.0, 0.0));
    assert_eq!(r, Some(("origin".to_string(), "o".to_string())));
    let r = col.nearest(&keys(&col, 9.0, 0.0));
    assert_eq!(r, Some(("ten".to_string(), "t".to_string())));
}

#[test]
fn nearest_on_empty_is_none() {
    let col = Collection::new();
    assert_eq!(col.nearest(&vec![]), None);
    assert_eq!(col.intersect(&vec![]), None);
}

#[test]
fn nearest_uses_segment_distance() {
    let mut col = Collection::new();
    col.add("road".to_string(), &line(3), "r".to_string());
    col.add("poi".to_string(), &vec![Geometry::Point(c(1.0, 3.0))], "p".to_string());
    let r = col.nearest(&keys(&col, 1.5, 1.0));
    assert_eq!(r, Some(("road".to_string(), "r".to_string())));
}

#[test]
fn intersect_inside_polygon_and_far_away() {
    let mut col = Collection::new();
    col.add("sq".to_string(), &square(), "square".to_string());
    assert_eq!(
        col.intersect(&keys(&col, 0.5, 0.5)),
        Some(("sq".to_string(), "square".to_string()))
    );
    assert_eq!(col.intersect(&keys(&col, 5.0, 5.0)), None);
    assert_eq!(
        col.nearest(&keys(&col, 5.0, 5.0)),
        Some(("sq".to_string(), "square".to_string()))
    );
}

#[test]
fn intersect_threshold_is_strict() {
    let mut col = Collection::new();
    col.add("p".to_string(), &vec![Geometry::Point(c(0.0, 0.0))], "p".to_string());
    assert_eq!(col.intersect(&vec![INTERSECT_LIMIT]), None);
    assert_eq!(
        col.intersect(&vec![INTERSECT_LIMIT - 1]),
        Some(("p".to_string(), "p".to_string()))
    );
    assert_eq!(INTERSECT_LIMIT, 1e-7f64.to_bits());
}

#[test]
fn first_min_takes_earliest_smallest() {
    assert_eq!(first_min(&vec![5, 3, 9, 3, 4]), 1);
    assert_eq!(first_min(&vec![7]), 0);
    assert_eq!(first_min(&vec![2, 2]), 0);
}

#[test]
fn same_text_compares_characters() {
    assert!(same_text("abc", "abc"));
    assert!(!same_text("abc", "abd"));
    assert!(!same_text("ab", "abc"));
    assert!(same_text("", ""));
}
