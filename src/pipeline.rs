//! Collecting the shapes of all glyphs, measuring them, and normalizing them.

use vstd::prelude::*;
use crate::convert::{Command, converted, convert_commands};
use crate::geometry::{
    BoundingBox, PipelineError, Point, Primitive, Shape, box_holds, is_bbox, lemma_bbox_ordered,
    lemma_extend_box, lemma_merge_boxes, lemma_point_box, primitive_points, scaled_primitive, scaled_primitives, shape_points,
};

verus! {

/// The shapes of a text, one per glyph that has geometry, in layout order.
#[derive(Debug)]
pub struct ShapeCollection {
    pub shapes: Vec<Shape>,
}

impl View for ShapeCollection {
    type V = Seq<Seq<Primitive>>;

    open spec fn view(&self) -> Seq<Seq<Primitive>> {
        self.shapes@.map_values(|s: Shape| s@)
    }
}

/// The shapes that the first `n` glyph outlines give: a glyph without an
/// outline fails the whole run, one with no commands is skipped.
pub open spec fn collected(glyphs: Seq<Option<Vec<Command>>>, n: nat) -> Result<
    Seq<Seq<Primitive>>,
    PipelineError,
>
    decreases n,
{
    if n == 0 {
        Ok(Seq::empty())
    } else {
        match collected(glyphs, (n - 1) as nat) {
            Err(e) => Err(e),
            Ok(acc) => match glyphs[n - 1] {
                None => Err(PipelineError::ShapingFailure),
                Some(cmds) => if cmds@.len() == 0 {
                    Ok(acc)
                } else {
                    match converted(cmds@) {
                        Some(prims) => Ok(acc.push(prims)),
                        None => Err(PipelineError::GeometryError),
                    }
                },
            },
        }
    }
}

/// Every point of every shape, in order.
pub open spec fn collection_points(c: Seq<Seq<Primitive>>) -> Seq<Point>
    decreases c.len(),
{
    if c.len() == 0 {
        Seq::empty()
    } else {
        collection_points(c.drop_last()) + shape_points(c.last())
    }
}

/// There is nothing to measure: no shape, or a shape without primitives.
pub open spec fn lacks_geometry(c: Seq<Seq<Primitive>>) -> bool {
    c.len() == 0 || exists|i: int| 0 <= i < c.len() && (#[trigger] c[i]).len() == 0
}

/// The bounding box of a sequence of points (there is at most one).
pub open spec fn bbox_of(pts: Seq<Point>) -> BoundingBox {
    choose|bb: BoundingBox| is_bbox(pts, bb)
}

/// The bounding box of everything in the collection.
pub open spec fn global_box(c: Seq<Seq<Primitive>>) -> BoundingBox {
    bbox_of(collection_points(c))
}

/// The collection rescaled against its global bounding box, or the error
/// that stops it.
pub open spec fn normalized(c: Seq<Seq<Primitive>>) -> Result<Seq<Seq<Primitive>>, PipelineError> {
    if lacks_geometry(c) {
        Err(PipelineError::EmptyInputError)
    } else if global_box(c).min.y == global_box(c).max.y {
        Err(PipelineError::NumericError)
    } else {
        Ok(
            c.map_values(
                |s: Seq<Primitive>| scaled_primitives(s, global_box(c).min, global_box(c).max),
            ),
        )
    }
}

/// The whole pipeline on a sequence of glyph outlines.
pub open spec fn pipeline(glyphs: Seq<Option<Vec<Command>>>) -> Result<
    Seq<Seq<Primitive>>,
    PipelineError,
> {
    match collected(glyphs, glyphs.len()) {
        Err(e) => Err(e),
        Ok(c) => normalized(c),
    }
}

/// A sequence of points has at most one bounding box.
pub proof fn lemma_bbox_unique(pts: Seq<Point>, a: BoundingBox, b: BoundingBox)
    requires
        is_bbox(pts, a),
        is_bbox(pts, b),
    ensures
        a == b,
{
    let i1 = choose|i: int| 0 <= i < pts.len() && #[trigger] pts[i].x == a.min.x;
    let i2 = choose|i: int| 0 <= i < pts.len() && #[trigger] pts[i].y == a.min.y;
    let i3 = choose|i: int| 0 <= i < pts.len() && #[trigger] pts[i].x == a.max.x;
    let i4 = choose|i: int| 0 <= i < pts.len() && #[trigger] pts[i].y == a.max.y;
    let j1 = choose|i: int| 0 <= i < pts.len() && #[trigger] pts[i].x == b.min.x;
    let j2 = choose|i: int| 0 <= i < pts.len() && #[trigger] pts[i].y == b.min.y;
    let j3 = choose|i: int| 0 <= i < pts.len() && #[trigger] pts[i].x == b.max.x;
    let j4 = choose|i: int| 0 <= i < pts.len() && #[trigger] pts[i].y == b.max.y;
    assert(pts[i1].x == a.min.x && pts[j1].x == b.min.x);
    assert(pts[i2].y == a.min.y && pts[j2].y == b.min.y);
    assert(pts[i3].x == a.max.x && pts[j3].x == b.max.x);
    assert(pts[i4].y == a.max.y && pts[j4].y == b.max.y);
    assert(box_holds(a, pts[j1]) && box_holds(a, pts[j2]) && box_holds(a, pts[j3]) && box_holds(a, pts[j4]));
    assert(box_holds(b, pts[i1]) && box_holds(b, pts[i2]) && box_holds(b, pts[i3]) && box_holds(b, pts[i4]));
    assert(a.min.x == b.min.x && a.min.y == b.min.y);
    assert(a.max.x == b.max.x && a.max.y == b.max.y);
    assert(a.min == b.min && a.max == b.max);
}

/// Once a glyph has failed, the run keeps that error.
proof fn lemma_collected_stays_failed(glyphs: Seq<Option<Vec<Command>>>, i: nat, j: nat)
    requires
        i <= j,
        collected(glyphs, i) is Err,
    ensures
        collected(glyphs, j) == collected(glyphs, i),
    decreases j - i,
{
    if i < j {
        lemma_collected_stays_failed(glyphs, i, (j - 1) as nat);
    }
}

/// Runs the converter over every glyph outline in order, skipping those with
/// no commands.
pub fn build_collection(glyphs: &Vec<Option<Vec<Command>>>) -> (r: Result<
    ShapeCollection,
    PipelineError,
>)
    ensures
        match r {
            Ok(c) => collected(glyphs@, glyphs@.len()) == Ok::<Seq<Seq<Primitive>>, PipelineError>(c@),
            Err(e) => collected(glyphs@, glyphs@.len()) == Err::<Seq<Seq<Primitive>>, PipelineError>(e),
        },
{
    let mut shapes: Vec<Shape> = Vec::new();
    let n = glyphs.len();
    let mut i: usize = 0;
    assert(shapes@.map_values(|s: Shape| s@) =~= Seq::<Seq<Primitive>>::empty());
    while i < n
        invariant
            n == glyphs@.len(),
            0 <= i <= n,
            collected(glyphs@, i as nat) == Ok::<Seq<Seq<Primitive>>, PipelineError>(
                shapes@.map_values(|s: Shape| s@),
            ),
        decreases n - i,
    {
        let ghost before = shapes@.map_values(|s: Shape| s@);
        match &glyphs[i] {
            None => {
                proof {
                    lemma_collected_stays_failed(glyphs@, (i + 1) as nat, n as nat);
                }
                return Err(PipelineError::ShapingFailure);
            },
            Some(cmds) => {
                if cmds.len() > 0 {
                    match convert_commands(cmds) {
                        Ok(s) => {
                            shapes.push(s);
                            assert(shapes@.map_values(|s: Shape| s@) =~= before.push(s@));
                        },
                        Err(e) => {
                            proof {
                                lemma_collected_stays_failed(glyphs@, (i + 1) as nat, n as nat);
                            }
                            return Err(e);
                        },
                    }
                }
            },
        }
        i += 1;
    }
    Ok(ShapeCollection { shapes })
}

/// The bounding box of every point of every shape. Fails where there is no
/// shape, or a shape has no primitives.
pub fn global_bounding_box(c: &ShapeCollection) -> (r: Result<BoundingBox, PipelineError>)
    ensures
        r is Err <==> lacks_geometry(c@),
        r matches Err(e) ==> e == PipelineError::EmptyInputError,
        r matches Ok(bb) ==> is_bbox(collection_points(c@), bb) && bb == global_box(c@),
        r matches Ok(bb) ==> bb.min.x <= bb.max.x && bb.min.y <= bb.max.y,
{
    let n = c.shapes.len();
    if n == 0 {
        return Err(PipelineError::EmptyInputError);
    }
    assert(c@[0] == c.shapes@[0]@);
    let mut bb = match c.shapes[0].get_bb() {
        Ok(b) => b,
        Err(e) => return Err(e),
    };
    proof {
        let c1 = c@.take(1);
        assert(c1.drop_last() =~= Seq::<Seq<Primitive>>::empty());
        assert(collection_points(c1.drop_last()) =~= Seq::<Point>::empty());
        assert(collection_points(c1) =~= shape_points(c@[0]));
    }
    let mut i: usize = 1;
    while i < n
        invariant
            n == c@.len(),
            1 <= i <= n,
            is_bbox(collection_points(c@.take(i as int)), bb),
            forall|k: int| 0 <= k < i ==> (#[trigger] c@[k]).len() > 0,
        decreases n - i,
    {
        assert(c@[i as int] == c.shapes@[i as int]@);
        let b = match c.shapes[i].get_bb() {
            Ok(b) => b,
            Err(e) => return Err(e),
        };
        proof {
            lemma_merge_boxes(collection_points(c@.take(i as int)), bb, shape_points(c@[i as int]), b);
            assert(c@.take(i + 1).drop_last() =~= c@.take(i as int));
        }
        bb = BoundingBox { min: bb.min.min(&b.min), max: bb.max.max(&b.max) };
        i += 1;
    }
    proof {
        assert(c@.take(n as int) =~= c@);
        let pts = collection_points(c@);
        lemma_bbox_unique(pts, bb, bbox_of(pts));
        lemma_collection_has_points(c@);
        lemma_bbox_ordered(pts, bb);
    }
    Ok(bb)
}

/// A collection whose shapes all have primitives has points.
proof fn lemma_collection_has_points(c: Seq<Seq<Primitive>>)
    requires
        c.len() > 0,
        c.last().len() > 0,
    ensures
        collection_points(c).len() > 0,
{
    let s = c.last();
    assert(shape_points(s) == shape_points(s.drop_last()) + primitive_points(s.last()));
}

/// Rescales every shape against the collection's global bounding box; both
/// axes are divided by the box's height.
pub fn normalize(c: ShapeCollection) -> (r: Result<ShapeCollection, PipelineError>)
    ensures
        match r {
            Ok(o) => normalized(c@) == Ok::<Seq<Seq<Primitive>>, PipelineError>(o@),
            Err(e) => normalized(c@) == Err::<Seq<Seq<Primitive>>, PipelineError>(e),
        },
{
    let bb = match global_bounding_box(&c) {
        Ok(bb) => bb,
        Err(e) => return Err(e),
    };
    if bb.min.y == bb.max.y {
        return Err(PipelineError::NumericError);
    }
    let ghost input = c@;
    let ShapeCollection { shapes } = c;
    let mut out: Vec<Shape> = Vec::new();
    let mut rest = shapes;
    let ghost all = rest@;
    let n = rest.len();
    let mut i: usize = 0;
    while i < n
        invariant
            n == all.len(),
            0 <= i <= n,
            input == all.map_values(|s: Shape| s@),
            rest@.len() == n - i,
            rest@ == all.skip(i as int),
            bb.min.y < bb.max.y,
            out@.len() == i,
            forall|k: int|
                0 <= k < i ==> (#[trigger] out@[k])@ == scaled_primitives(all[k]@, bb.min, bb.max),
        decreases n - i,
    {
        assert(rest@[0] == all[i as int]);
        let s = rest.remove(0);
        assert(rest@ =~= all.skip(i + 1));
        assert(s == all[i as int]);
        let t = s.remap_shape(&bb.min, &bb.max);
        out.push(t);
        i += 1;
    }
    let r = ShapeCollection { shapes: out };
    assert(r@ =~= input.map_values(
        |s: Seq<Primitive>| scaled_primitives(s, global_box(input).min, global_box(input).max),
    ));
    Ok(r)
}

/// Builds the shapes of all glyph outlines and normalizes them.
pub fn run_pipeline(glyphs: &Vec<Option<Vec<Command>>>) -> (r: Result<
    ShapeCollection,
    PipelineError,
>)
    ensures
        match r {
            Ok(o) => pipeline(glyphs@) == Ok::<Seq<Seq<Primitive>>, PipelineError>(o@),
            Err(e) => pipeline(glyphs@) == Err::<Seq<Seq<Primitive>>, PipelineError>(e),
        },
{
    let c = match build_collection(glyphs) {
        Ok(c) => c,
        Err(e) => return Err(e),
    };
    normalize(c)
}

/// A non-empty sequence of points has a bounding box.
pub proof fn lemma_bbox_exists(pts: Seq<Point>)
    requires
        pts.len() > 0,
    ensures
        is_bbox(pts, bbox_of(pts)),
    decreases pts.len(),
{
    if pts.len() == 1 {
        lemma_point_box(pts[0]);
        assert(pts =~= seq![pts[0]]);
    } else {
        let init = pts.drop_last();
        lemma_bbox_exists(init);
        lemma_extend_box(init, bbox_of(init), pts.last());
        assert(init.push(pts.last()) =~= pts);
    }
}

/// The global bounding box of a collection whose shapes all have primitives
/// holds every point of it and is never inverted: `min.x <= max.x` and
/// `min.y <= max.y`.
pub proof fn lemma_global_box_ordered(c: Seq<Seq<Primitive>>)
    requires
        !lacks_geometry(c),
    ensures
        is_bbox(collection_points(c), global_box(c)),
        global_box(c).min.x <= global_box(c).max.x,
        global_box(c).min.y <= global_box(c).max.y,
{
    assert(c.last() == c[c.len() - 1]);
    lemma_collection_has_points(c);
    lemma_bbox_exists(collection_points(c));
    lemma_bbox_ordered(collection_points(c), global_box(c));
}

/// Rescaling a primitive rescales each of its points in place.
proof fn lemma_scaled_points(p: Primitive, lo: Point, hi: Point, k: int)
    requires
        0 <= k < primitive_points(p).len(),
    ensures
        primitive_points(scaled_primitive(p, lo, hi)).len() == primitive_points(p).len(),
        primitive_points(scaled_primitive(p, lo, hi))[k] == primitive_points(p)[k].scaled(lo, hi),
{
}

/// After normalization, a point at the bottom of the global bounding box has
/// height 0, and one at its top has height 1 (1000 thousandths).
pub proof fn lemma_normalized_extremes(c: Seq<Seq<Primitive>>, i: int, j: int, k: int)
    requires
        normalized(c) is Ok,
        0 <= i < c.len(),
        0 <= j < c[i].len(),
        0 <= k < primitive_points(c[i][j]).len(),
    ensures
        ({
            let p = primitive_points(c[i][j])[k];
            let q = primitive_points(normalized(c)->Ok_0[i][j])[k];
            &&& p.y == global_box(c).min.y ==> q.y == 0
            &&& p.y == global_box(c).max.y ==> q.y == 1000
        }),
{
    let lo = global_box(c).min;
    let hi = global_box(c).max;
    lemma_global_box_ordered(c);
    let h = hi.y - lo.y;
    assert(h > 0);
    assert(normalized(c)->Ok_0[i] == scaled_primitives(c[i], lo, hi));
    assert(normalized(c)->Ok_0[i][j] == scaled_primitive(c[i][j], lo, hi));
    lemma_scaled_points(c[i][j], lo, hi, k);
    assert((h * 1000) / h == 1000) by (nonlinear_arith)
        requires
            h > 0,
    ;
    assert(0int / h == 0);
}

} // verus!
