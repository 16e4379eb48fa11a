use vstd::prelude::*;

verus! {

/// A position. Each axis is held as the IEEE-754 binary64 bit pattern of its
/// value: the index only carries and compares coordinates, and keeping the
/// bits keeps every coordinate exactly as the caller gave it.
#[derive(Clone, Copy, PartialEq, Eq, Structural, Debug)]
pub struct Coord {
    pub x: u64,
    pub y: u64,
}

/// What the spatial index stores: a point, a segment, or a polygon given by
/// its rings (the exterior ring first).
#[derive(Debug)]
pub enum Primitive {
    Point(Coord),
    Segment(Coord, Coord),
    Polygon(Vec<Vec<Coord>>),
}

/// One member of a geometry document, after one level of collection
/// nesting has been flattened.
#[derive(Debug)]
pub enum Geometry {
    Point(Coord),
    Line(Coord, Coord),
    LineString(Vec<Coord>),
    Polygon(Vec<Vec<Coord>>),
    MultiLineString(Vec<Vec<Coord>>),
    MultiPolygon(Vec<Vec<Vec<Coord>>>),
}

/// Mathematical value of a `Primitive`.
pub enum Shape {
    Point(Coord),
    Segment(Coord, Coord),
    Polygon(Seq<Seq<Coord>>),
}

/// Mathematical value of a `Geometry`.
pub enum Figure {
    Point(Coord),
    Line(Coord, Coord),
    LineString(Seq<Coord>),
    Polygon(Seq<Seq<Coord>>),
    MultiLineString(Seq<Seq<Coord>>),
    MultiPolygon(Seq<Seq<Seq<Coord>>>),
}

pub open spec fn rings_view(rs: Seq<Vec<Coord>>) -> Seq<Seq<Coord>> {
    rs.map_values(|r: Vec<Coord>| r@)
}

pub open spec fn polygons_view(ps: Seq<Vec<Vec<Coord>>>) -> Seq<Seq<Seq<Coord>>> {
    ps.map_values(|p: Vec<Vec<Coord>>| rings_view(p@))
}

impl View for Primitive {
    type V = Shape;

    open spec fn view(&self) -> Shape {
        match self {
            Primitive::Point(c) => Shape::Point(*c),
            Primitive::Segment(a, b) => Shape::Segment(*a, *b),
            Primitive::Polygon(rs) => Shape::Polygon(rings_view(rs@)),
        }
    }
}

impl View for Geometry {
    type V = Figure;

    open spec fn view(&self) -> Figure {
        match self {
            Geometry::Point(c) => Figure::Point(*c),
            Geometry::Line(a, b) => Figure::Line(*a, *b),
            Geometry::LineString(ps) => Figure::LineString(ps@),
            Geometry::Polygon(rs) => Figure::Polygon(rings_view(rs@)),
            Geometry::MultiLineString(ls) => Figure::MultiLineString(rings_view(ls@)),
            Geometry::MultiPolygon(ps) => Figure::MultiPolygon(polygons_view(ps@)),
        }
    }
}

pub open spec fn shapes_view(s: Seq<Primitive>) -> Seq<Shape> {
    s.map_values(|p: Primitive| p@)
}

pub open spec fn document_view(d: Seq<Geometry>) -> Seq<Figure> {
    d.map_values(|g: Geometry| g@)
}

/// A polyline of n points gives n - 1 segments, one per consecutive pair.
pub open spec fn polyline_segments(pts: Seq<Coord>) -> Seq<Shape> {
    Seq::new(
        if pts.len() >= 1 { (pts.len() - 1) as nat } else { 0 },
        |i: int| Shape::Segment(pts[i], pts[i + 1]),
    )
}

pub open spec fn lines_segments(lines: Seq<Seq<Coord>>) -> Seq<Shape>
    decreases lines.len(),
{
    if lines.len() == 0 {
        Seq::empty()
    } else {
        lines_segments(lines.drop_last()) + polyline_segments(lines.last())
    }
}

pub open spec fn polygon_shapes(ps: Seq<Seq<Seq<Coord>>>) -> Seq<Shape> {
    ps.map_values(|p: Seq<Seq<Coord>>| Shape::Polygon(p))
}

/// The primitives that one member of a document stands for in the index.
pub open spec fn shapes_of(g: Figure) -> Seq<Shape> {
    match g {
        Figure::Point(c) => seq![Shape::Point(c)],
        Figure::Line(a, b) => seq![Shape::Segment(a, b)],
        Figure::LineString(pts) => polyline_segments(pts),
        Figure::Polygon(rs) => seq![Shape::Polygon(rs)],
        Figure::MultiLineString(ls) => lines_segments(ls),
        Figure::MultiPolygon(ps) => polygon_shapes(ps),
    }
}

/// The primitives of a whole document: those of each member, in order.
pub open spec fn decomposition(doc: Seq<Figure>) -> Seq<Shape>
    decreases doc.len(),
{
    if doc.len() == 0 {
        Seq::empty()
    } else {
        decomposition(doc.drop_last()) + shapes_of(doc.last())
    }
}

pub fn copy_coords(v: &Vec<Coord>) -> (r: Vec<Coord>)
    ensures
        r@ == v@,
{
    let mut r: Vec<Coord> = Vec::new();
    let mut i: usize = 0;
    while i < v.len()
        invariant
            i <= v.len(),
            r@ == v@.subrange(0, i as int),
        decreases v.len() - i,
    {
        r.push(v[i]);
        i += 1;
        assert(r@ =~= v@.subrange(0, i as int));
    }
    assert(r@ =~= v@);
    r
}

pub fn copy_rings(v: &Vec<Vec<Coord>>) -> (r: Vec<Vec<Coord>>)
    ensures
        rings_view(r@) == rings_view(v@),
{
    let mut r: Vec<Vec<Coord>> = Vec::new();
    let mut i: usize = 0;
    while i < v.len()
        invariant
            i <= v.len(),
            rings_view(r@) == rings_view(v@.subrange(0, i as int)),
        decreases v.len() - i,
    {
        let ghost before = r@;
        let ring = copy_coords(&v[i]);
        r.push(ring);
        i += 1;
        assert(rings_view(r@) =~= rings_view(before).push(v@[i - 1]@));
        assert(rings_view(v@.subrange(0, i as int)) =~= rings_view(v@.subrange(0, i - 1)).push(
            v@[i - 1]@,
        ));
    }
    assert(rings_view(r@) =~= rings_view(v@));
    r
}

/// Appends the segments of a polyline to `out`.
fn push_polyline(out: &mut Vec<Primitive>, pts: &Vec<Coord>)
    ensures
        shapes_view(final(out)@) == shapes_view(old(out)@) + polyline_segments(pts@),
{
    let ghost start = shapes_view(out@);
    if pts.len() >= 2 {
        let mut i: usize = 1;
        while i < pts.len()
            invariant
                1 <= i <= pts.len(),
                shapes_view(out@) == start + polyline_segments(pts@.subrange(0, i as int)),
            decreases pts.len() - i,
        {
            let ghost before = out@;
            out.push(Primitive::Segment(pts[i - 1], pts[i]));
            i += 1;
            assert(shapes_view(out@) =~= shapes_view(before).push(
                Shape::Segment(pts@[i - 2], pts@[i - 1]),
            ));
            assert(polyline_segments(pts@.subrange(0, i as int)) =~= polyline_segments(
                pts@.subrange(0, i - 1),
            ).push(Shape::Segment(pts@[i - 2], pts@[i - 1])));
            assert(shapes_view(out@) =~= start + polyline_segments(pts@.subrange(0, i as int)));
        }
        assert(pts@.subrange(0, pts.len() as int) =~= pts@);
    } else {
        assert(polyline_segments(pts@) =~= Seq::<Shape>::empty());
        assert(shapes_view(out@) =~= start + polyline_segments(pts@));
    }
}

/// Appends the primitives of one document member to `out`.
fn push_shapes(out: &mut Vec<Primitive>, g: &Geometry)
    ensures
        shapes_view(final(out)@) == shapes_view(old(out)@) + shapes_of(g@),
{
    let ghost start = shapes_view(out@);
    match g {
        Geometry::Point(c) => {
            out.push(Primitive::Point(*c));
            assert(shapes_view(out@) =~= start + shapes_of(g@));
        },
        Geometry::Line(a, b) => {
            out.push(Primitive::Segment(*a, *b));
            assert(shapes_view(out@) =~= start + shapes_of(g@));
        },
        Geometry::LineString(pts) => {
            push_polyline(out, pts);
        },
        Geometry::Polygon(rs) => {
            out.push(Primitive::Polygon(copy_rings(rs)));
            assert(shapes_view(out@) =~= start + shapes_of(g@));
        },
        Geometry::MultiLineString(ls) => {
            let mut i: usize = 0;
            while i < ls.len()
                invariant
                    i <= ls.len(),
                    shapes_view(out@) == start + lines_segments(rings_view(ls@).subrange(0, i as int)),
                decreases ls.len() - i,
            {
                let ghost before = shapes_view(out@);
                push_polyline(out, &ls[i]);
                i += 1;
                assert(rings_view(ls@).subrange(0, i as int).drop_last()
                    =~= rings_view(ls@).subrange(0, i - 1));
                assert(shapes_view(out@) =~= start + lines_segments(rings_view(ls@).subrange(0, i as int)));
            }
            assert(rings_view(ls@).subrange(0, ls.len() as int) =~= rings_view(ls@));
        },
        Geometry::MultiPolygon(ps) => {
            let mut i: usize = 0;
            while i < ps.len()
                invariant
                    i <= ps.len(),
                    shapes_view(out@) == start + polygon_shapes(polygons_view(ps@).subrange(0, i as int)),
                decreases ps.len() - i,
            {
                let ghost before = out@;
                out.push(Primitive::Polygon(copy_rings(&ps[i])));
                i += 1;
                assert(shapes_view(out@) =~= shapes_view(before).push(
                    Shape::Polygon(rings_view(ps@[i - 1]@)),
                ));
                assert(polygon_shapes(polygons_view(ps@).subrange(0, i as int)) =~= polygon_shapes(
                    polygons_view(ps@).subrange(0, i - 1),
                ).push(Shape::Polygon(rings_view(ps@[i - 1]@))));
                assert(shapes_view(out@) =~= start + polygon_shapes(polygons_view(ps@).subrange(0, i as int)));
            }
            assert(polygons_view(ps@).subrange(0, ps.len() as int) =~= polygons_view(ps@));
        },
    }
}

/// Decomposes a document (its members, collections already flattened) into
/// the primitives that the spatial index stores.
pub fn decompose(doc: &Vec<Geometry>) -> (r: Vec<Primitive>)
    ensures
        shapes_view(r@) == decomposition(document_view(doc@)),
{
    let mut r: Vec<Primitive> = Vec::new();
    let mut i: usize = 0;
    while i < doc.len()
        invariant
            i <= doc.len(),
            shapes_view(r@) == decomposition(document_view(doc@).subrange(0, i as int)),
        decreases doc.len() - i,
    {
        push_shapes(&mut r, &doc[i]);
        i += 1;
        assert(document_view(doc@).subrange(0, i as int).drop_last()
            =~= document_view(doc@).subrange(0, i - 1));
    }
    assert(document_view(doc@).subrange(0, doc.len() as int) =~= document_view(doc@));
    r
}

} // verus!
