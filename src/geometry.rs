//! Points, path primitives, shapes and their bounding boxes.

use vstd::prelude::*;

verus! {

/// Everything that makes the pipeline give up.
#[derive(Clone, Copy, Debug, PartialEq, Eq, Structural)]
pub enum PipelineError {
    /// The outline source had no outline for a glyph.
    ShapingFailure,
    /// A drawing command needed a point that was not set yet.
    GeometryError,
    /// There was no geometry to measure.
    EmptyInputError,
    /// A scale factor or a coordinate could not be represented.
    NumericError,
}

/// A point in fixed-point coordinates.
#[derive(Clone, Copy, Debug, PartialEq, Eq, Structural)]
pub struct Point {
    pub x: i32,
    pub y: i32,
}

/// An axis-aligned box, given by its lower-left and upper-right corners.
#[derive(Clone, Copy, Debug, PartialEq, Eq, Structural)]
pub struct BoundingBox {
    pub min: Point,
    pub max: Point,
}

pub open spec fn min_int(a: int, b: int) -> int {
    if a <= b { a } else { b }
}

pub open spec fn max_int(a: int, b: int) -> int {
    if a >= b { a } else { b }
}

/// Clamps a value into the range of `i32`.
pub open spec fn clamp_i32(v: int) -> int {
    if v < i32::MIN { i32::MIN as int } else if v > i32::MAX { i32::MAX as int } else { v }
}

/// Division of `a` by a positive `b`, rounded toward zero.
pub open spec fn trunc_div(a: int, b: int) -> int
    recommends b > 0,
{
    if a >= 0 { a / b } else { -((-a) / b) }
}

/// One coordinate rescaled: its offset from `lo`, divided by `height`, in
/// thousandths rounded toward zero (saturating at the `i32` range).
pub open spec fn scale_coord(v: int, lo: int, height: int) -> int {
    clamp_i32(trunc_div((v - lo) * 1000, height))
}

impl Point {
    pub open spec fn min_spec(self, o: Point) -> Point {
        Point { x: min_int(self.x as int, o.x as int) as i32, y: min_int(self.y as int, o.y as int) as i32 }
    }

    pub open spec fn max_spec(self, o: Point) -> Point {
        Point { x: max_int(self.x as int, o.x as int) as i32, y: max_int(self.y as int, o.y as int) as i32 }
    }

    /// The point rescaled against the box `(lo, hi)`: both axes are divided by
    /// the box's vertical extent.
    pub open spec fn scaled(self, lo: Point, hi: Point) -> Point {
        Point {
            x: scale_coord(self.x as int, lo.x as int, hi.y - lo.y) as i32,
            y: scale_coord(self.y as int, lo.y as int, hi.y - lo.y) as i32,
        }
    }

    pub fn new(x: i32, y: i32) -> (r: Point)
        ensures
            r == (Point { x, y }),
    {
        Point { x, y }
    }

    /// The component-wise minimum of two points.
    pub fn min(&self, other: &Point) -> (r: Point)
        ensures
            r == self.min_spec(*other),
    {
        Point {
            x: if self.x <= other.x { self.x } else { other.x },
            y: if self.y <= other.y { self.y } else { other.y },
        }
    }

    /// The component-wise maximum of two points.
    pub fn max(&self, other: &Point) -> (r: Point)
        ensures
            r == self.max_spec(*other),
    {
        Point {
            x: if self.x >= other.x { self.x } else { other.x },
            y: if self.y >= other.y { self.y } else { other.y },
        }
    }

    /// Rescales the point against the box `(min_point, max_point)`, which must
    /// have a positive height.
    pub fn map_scale(self, min_point: &Point, max_point: &Point) -> (r: Point)
        requires
            min_point.y < max_point.y,
        ensures
            r == self.scaled(*min_point, *max_point),
    {
        let height: i64 = max_point.y as i64 - min_point.y as i64;
        let x = scale_i64(self.x as i64 - min_point.x as i64, height);
        let y = scale_i64(self.y as i64 - min_point.y as i64, height);
        Point { x, y }
    }
}

/// `offset * 1000 / height`, rounded toward zero and saturated to `i32`.
fn scale_i64(offset: i64, height: i64) -> (r: i32)
    requires
        0 < height <= 0x1_0000_0000,
        -0x1_0000_0000 <= offset <= 0x1_0000_0000,
    ensures
        r == clamp_i32(trunc_div(offset * 1000, height as int)),
{
    let num: i64 = offset * 1000;
    let q: i64 = if num >= 0 {
        num / height
    } else {
        -((-num) / height)
    };
    assert(q == trunc_div(num as int, height as int));
    if q < i32::MIN as i64 {
        i32::MIN
    } else if q > i32::MAX as i64 {
        i32::MAX
    } else {
        q as i32
    }
}


/// One path segment: a straight line, a quadratic curve or a cubic curve.
#[derive(Clone, Copy, Debug, PartialEq, Eq, Structural)]
pub enum Primitive {
    Quadratic(Point, Point, Point),
    Bezier(Point, Point, Point, Point),
    Line(Point, Point),
}

/// The outline of one glyph.
#[derive(Debug)]
pub struct Shape {
    pub primitives: Vec<Primitive>,
}

impl View for Shape {
    type V = Seq<Primitive>;

    open spec fn view(&self) -> Seq<Primitive> {
        self.primitives@
    }
}

/// The points a primitive refers to, in order: start, controls, end.
pub open spec fn primitive_points(p: Primitive) -> Seq<Point> {
    match p {
        Primitive::Quadratic(a, b, c) => seq![a, b, c],
        Primitive::Bezier(a, b, c, d) => seq![a, b, c, d],
        Primitive::Line(a, b) => seq![a, b],
    }
}

pub open spec fn start_point(p: Primitive) -> Point {
    primitive_points(p).first()
}

pub open spec fn end_point(p: Primitive) -> Point {
    primitive_points(p).last()
}

/// Every point of every primitive, in order, duplicates kept.
pub open spec fn shape_points(prims: Seq<Primitive>) -> Seq<Point>
    decreases prims.len(),
{
    if prims.len() == 0 {
        seq![]
    } else {
        shape_points(prims.drop_last()) + primitive_points(prims.last())
    }
}

/// `bb` is the smallest box that holds every point of `pts`: it holds them,
/// and each of its four sides is reached by one of them.
pub open spec fn is_bbox(pts: Seq<Point>, bb: BoundingBox) -> bool {
    &&& forall|i: int| 0 <= i < pts.len() ==> box_holds(bb, #[trigger] pts[i])
    &&& exists|i: int| 0 <= i < pts.len() && #[trigger] pts[i].x == bb.min.x
    &&& exists|i: int| 0 <= i < pts.len() && #[trigger] pts[i].y == bb.min.y
    &&& exists|i: int| 0 <= i < pts.len() && #[trigger] pts[i].x == bb.max.x
    &&& exists|i: int| 0 <= i < pts.len() && #[trigger] pts[i].y == bb.max.y
}

/// The point lies in the box, sides included.
pub open spec fn box_holds(bb: BoundingBox, p: Point) -> bool {
    bb.min.x <= p.x <= bb.max.x && bb.min.y <= p.y <= bb.max.y
}

pub open spec fn point_box(p: Point) -> BoundingBox {
    BoundingBox { min: p, max: p }
}

/// The box grown to hold one more point.
pub open spec fn extend_box(bb: BoundingBox, p: Point) -> BoundingBox {
    BoundingBox { min: bb.min.min_spec(p), max: bb.max.max_spec(p) }
}

/// The smallest box that holds two boxes.
pub open spec fn merge_boxes(a: BoundingBox, b: BoundingBox) -> BoundingBox {
    BoundingBox { min: a.min.min_spec(b.min), max: a.max.max_spec(b.max) }
}

/// The primitive with every point rescaled against `(lo, hi)`.
pub open spec fn scaled_primitive(p: Primitive, lo: Point, hi: Point) -> Primitive {
    match p {
        Primitive::Quadratic(a, b, c) => Primitive::Quadratic(
            a.scaled(lo, hi),
            b.scaled(lo, hi),
            c.scaled(lo, hi),
        ),
        Primitive::Bezier(a, b, c, d) => Primitive::Bezier(
            a.scaled(lo, hi),
            b.scaled(lo, hi),
            c.scaled(lo, hi),
            d.scaled(lo, hi),
        ),
        Primitive::Line(a, b) => Primitive::Line(a.scaled(lo, hi), b.scaled(lo, hi)),
    }
}

pub open spec fn scaled_primitives(prims: Seq<Primitive>, lo: Point, hi: Point) -> Seq<Primitive> {
    prims.map_values(|p: Primitive| scaled_primitive(p, lo, hi))
}

/// A box of a single point is the bounding box of that point.
pub proof fn lemma_point_box(p: Point)
    ensures
        is_bbox(seq![p], point_box(p)),
{
    let s = seq![p];
    let b = point_box(p);
    assert(s[0].x == b.min.x && s[0].y == b.min.y && s[0].x == b.max.x && s[0].y == b.max.y);
}

/// Growing the bounding box of `pts` by `p` gives the bounding box of `pts`
/// followed by `p`.
pub proof fn lemma_extend_box(pts: Seq<Point>, bb: BoundingBox, p: Point)
    requires
        is_bbox(pts, bb),
    ensures
        is_bbox(pts.push(p), extend_box(bb, p)),
{
    let q = pts.push(p);
    let nb = extend_box(bb, p);
    let n = pts.len() as int;
    assert(q[n] == p);
    assert forall|i: int| 0 <= i < q.len() implies box_holds(nb, #[trigger] q[i]) by {
        if i < n {
            assert(q[i] == pts[i]);
        }
    }
    let i1 = choose|i: int| 0 <= i < pts.len() && #[trigger] pts[i].x == bb.min.x;
    let i2 = choose|i: int| 0 <= i < pts.len() && #[trigger] pts[i].y == bb.min.y;
    let i3 = choose|i: int| 0 <= i < pts.len() && #[trigger] pts[i].x == bb.max.x;
    let i4 = choose|i: int| 0 <= i < pts.len() && #[trigger] pts[i].y == bb.max.y;
    assert(q[i1] == pts[i1] && q[i2] == pts[i2] && q[i3] == pts[i3] && q[i4] == pts[i4]);
}

/// Merging the bounding boxes of two point sequences gives the bounding box
/// of their concatenation.
pub proof fn lemma_merge_boxes(a: Seq<Point>, ba: BoundingBox, b: Seq<Point>, bb: BoundingBox)
    requires
        is_bbox(a, ba),
        is_bbox(b, bb),
    ensures
        is_bbox(a + b, merge_boxes(ba, bb)),
{
    let q = a + b;
    let m = merge_boxes(ba, bb);
    let n = a.len() as int;
    assert forall|i: int| 0 <= i < q.len() implies box_holds(m, #[trigger] q[i]) by {
        if i < n {
            assert(q[i] == a[i]);
        } else {
            assert(q[i] == b[i - n]);
        }
    }
    let a1 = choose|i: int| 0 <= i < a.len() && #[trigger] a[i].x == ba.min.x;
    let a2 = choose|i: int| 0 <= i < a.len() && #[trigger] a[i].y == ba.min.y;
    let a3 = choose|i: int| 0 <= i < a.len() && #[trigger] a[i].x == ba.max.x;
    let a4 = choose|i: int| 0 <= i < a.len() && #[trigger] a[i].y == ba.max.y;
    let b1 = choose|i: int| 0 <= i < b.len() && #[trigger] b[i].x == bb.min.x;
    let b2 = choose|i: int| 0 <= i < b.len() && #[trigger] b[i].y == bb.min.y;
    let b3 = choose|i: int| 0 <= i < b.len() && #[trigger] b[i].x == bb.max.x;
    let b4 = choose|i: int| 0 <= i < b.len() && #[trigger] b[i].y == bb.max.y;
    assert(q[a1] == a[a1] && q[a2] == a[a2] && q[a3] == a[a3] && q[a4] == a[a4]);
    assert(q[n + b1] == b[b1] && q[n + b2] == b[b2] && q[n + b3] == b[b3] && q[n + b4] == b[b4]);
}

/// The bounding box of a non-empty sequence of points is never inverted.
pub proof fn lemma_bbox_ordered(pts: Seq<Point>, bb: BoundingBox)
    requires
        is_bbox(pts, bb),
        pts.len() > 0,
    ensures
        bb.min.x <= bb.max.x,
        bb.min.y <= bb.max.y,
{
    assert(box_holds(bb, pts[0]));
}

/// The points of a primitive, as a vector.
fn points_of(p: &Primitive) -> (r: Vec<Point>)
    ensures
        r@ == primitive_points(*p),
{
    let r = match p {
        Primitive::Quadratic(a, b, c) => vec![*a, *b, *c],
        Primitive::Bezier(a, b, c, d) => vec![*a, *b, *c, *d],
        Primitive::Line(a, b) => vec![*a, *b],
    };
    assert(r@ =~= primitive_points(*p));
    r
}

fn scale_primitive(p: &Primitive, lo: &Point, hi: &Point) -> (r: Primitive)
    requires
        lo.y < hi.y,
    ensures
        r == scaled_primitive(*p, *lo, *hi),
{
    match p {
        Primitive::Quadratic(a, b, c) => Primitive::Quadratic(
            a.map_scale(lo, hi),
            b.map_scale(lo, hi),
            c.map_scale(lo, hi),
        ),
        Primitive::Bezier(a, b, c, d) => Primitive::Bezier(
            a.map_scale(lo, hi),
            b.map_scale(lo, hi),
            c.map_scale(lo, hi),
            d.map_scale(lo, hi),
        ),
        Primitive::Line(a, b) => Primitive::Line(a.map_scale(lo, hi), b.map_scale(lo, hi)),
    }
}

impl Shape {
    /// Every point of every primitive, in order.
    pub fn points(&self) -> (r: Vec<Point>)
        ensures
            r@ == shape_points(self@),
    {
        let mut r: Vec<Point> = Vec::new();
        let n = self.primitives.len();
        let mut i: usize = 0;
        while i < n
            invariant
                n == self@.len(),
                0 <= i <= n,
                r@ == shape_points(self@.take(i as int)),
            decreases n - i,
        {
            let ps = points_of(&self.primitives[i]);
            let m = ps.len();
            let ghost before = r@;
            let mut j: usize = 0;
            while j < m
                invariant
                    m == ps@.len(),
                    0 <= j <= m,
                    r@ == before + ps@.take(j as int),
                decreases m - j,
            {
                r.push(ps[j]);
                assert(ps@.take(j + 1) =~= ps@.take(j as int).push(ps@[j as int]));
                assert(r@ =~= before + ps@.take(j + 1));
                j += 1;
            }
            assert(self@.take(i + 1).drop_last() =~= self@.take(i as int));
            assert(ps@.take(m as int) =~= ps@);
            i += 1;
        }
        assert(self@.take(n as int) =~= self@);
        r
    }

    /// The bounding box of every point of the shape; an error when the shape
    /// has no primitives.
    pub fn get_bb(&self) -> (r: Result<BoundingBox, PipelineError>)
        ensures
            self@.len() == 0 <==> r is Err,
            r matches Err(e) ==> e == PipelineError::EmptyInputError,
            r matches Ok(bb) ==> is_bbox(shape_points(self@), bb),
    {
        let pts = self.points();
        if pts.len() == 0 {
            proof {
                if self@.len() > 0 {
                    let prims = self@;
                    assert(shape_points(prims) == shape_points(prims.drop_last()) + primitive_points(
                        prims.last(),
                    ));
                }
            }
            return Err(PipelineError::EmptyInputError);
        }
        let mut bb = BoundingBox { min: pts[0], max: pts[0] };
        proof {
            lemma_point_box(pts@[0]);
            assert(pts@.take(1) =~= seq![pts@[0]]);
        }
        let n = pts.len();
        let mut i: usize = 1;
        while i < n
            invariant
                n == pts@.len(),
                1 <= i <= n,
                is_bbox(pts@.take(i as int), bb),
            decreases n - i,
        {
            let p = pts[i];
            proof {
                lemma_extend_box(pts@.take(i as int), bb, p);
                assert(pts@.take(i + 1) =~= pts@.take(i as int).push(p));
            }
            bb = BoundingBox { min: bb.min.min(&p), max: bb.max.max(&p) };
            i += 1;
        }
        assert(pts@.take(n as int) =~= pts@);
        Ok(bb)
    }

    /// The shape with every point rescaled against `(min_point, max_point)`.
    pub fn remap_shape(self, min_point: &Point, max_point: &Point) -> (r: Shape)
        requires
            min_point.y < max_point.y,
        ensures
            r@ == scaled_primitives(self@, *min_point, *max_point),
    {
        let mut primitives: Vec<Primitive> = Vec::new();
        let n = self.primitives.len();
        let mut i: usize = 0;
        while i < n
            invariant
                n == self@.len(),
                0 <= i <= n,
                min_point.y < max_point.y,
                primitives@ == scaled_primitives(self@.take(i as int), *min_point, *max_point),
            decreases n - i,
        {
            let q = scale_primitive(&self.primitives[i], min_point, max_point);
            primitives.push(q);
            assert(scaled_primitives(self@.take(i + 1), *min_point, *max_point) =~= primitives@);
            i += 1;
        }
        assert(self@.take(n as int) =~= self@);
        Shape { primitives }
    }
}

} // verus!
