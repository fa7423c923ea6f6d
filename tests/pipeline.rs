use glyph_shapes::convert::{convert_commands, Command};
use glyph_shapes::geometry::{BoundingBox, PipelineError, Point, Primitive, Shape};
use glyph_shapes::pipeline::{
    build_collection, global_bounding_box, normalize, run_pipeline, ShapeCollection,
};

fn pt(x: i32, y: i32) -> Point {
    Point::new(x, y)
}

fn triangle() -> Vec<Command> {
    vec![
        Command::Move(pt(0, 0)),
        Command::LineTo(pt(10, 0)),
        Command::LineTo(pt(5, 10)),
        Command::Close,
    ]
}

#[test]
fn triangle_gives_three_lines_and_one_shape() {
    let shape = convert_commands(&triangle()).unwrap();
    assert_eq!(
        shape.primitives,
        vec![
            Primitive::Line(pt(0, 0), pt(10, 0)),
            Primitive::Line(pt(10, 0), pt(5, 10)),
            Primitive::Line(pt(5, 10), pt(0, 0)),
        ]
    );
    let c = build_collection(&vec![Some(triangle())]).unwrap();
    assert_eq!(c.shapes.len(), 1);
    let bb = global_bounding_box(&c).unwrap();
    assert_eq!(bb, BoundingBox { min: pt(0, 0), max: pt(10, 10) });
}

#[test]
fn triangle_normalizes_to_unit_height() {
    let out = run_pipeline(&vec![Some(triangle())]).unwrap();
    assert_eq!(out.shapes.len(), 1);
    assert_eq!(
        out.shapes[0].primitives,
        vec![
            Primitive::Line(pt(0, 0), pt(1000, 0)),
            Primitive::Line(pt(1000, 0), pt(500, 1000)),
            Primitive::Line(pt(500, 1000), pt(0, 0)),
        ]
    );
}

#[test]
fn empty_text_is_empty_input() {
    assert_eq!(run_pipeline(&vec![]).unwrap_err(), PipelineError::EmptyInputError);
}

#[test]
fn glyph_without_commands_alone_is_empty_input() {
    assert_eq!(run_pipeline(&vec![Some(vec![])]).unwrap_err(), PipelineError::EmptyInputError);
}

#[test]
fn glyph_without_commands_is_skipped() {
    let c = build_collection(&vec![Some(vec![]), Some(triangle()), Some(vec![])]).unwrap();
    assert_eq!(c.shapes.len(), 1);
    assert_eq!(c.shapes[0].primitives.len(), 3);
}

#[test]
fn line_before_move_is_geometry_error() {
    let cmds = vec![Command::LineTo(pt(1, 1)), Command::Move(pt(0, 0))];
    assert_eq!(convert_commands(&cmds).unwrap_err(), PipelineError::GeometryError);
    let glyphs = vec![Some(triangle()), Some(cmds)];
    assert_eq!(run_pipeline(&glyphs).unwrap_err(), PipelineError::GeometryError);
}

#[test]
fn curve_and_close_without_point_are_geometry_errors() {
    let quad = vec![Command::QuadTo(pt(1, 1), pt(2, 0))];
    let cubic = vec![Command::CurveTo(pt(1, 1), pt(2, 1), pt(3, 0))];
    let close = vec![Command::Close];
    assert_eq!(convert_commands(&quad).unwrap_err(), PipelineError::GeometryError);
    assert_eq!(convert_commands(&cubic).unwrap_err(), PipelineError::GeometryError);
    assert_eq!(convert_commands(&close).unwrap_err(), PipelineError::GeometryError);
}

#[test]
fn second_close_has_no_anchor() {
    let cmds = vec![
        Command::Move(pt(0, 0)),
        Command::LineTo(pt(4, 0)),
        Command::Close,
        Command::Close,
    ];
    assert_eq!(convert_commands(&cmds).unwrap_err(), PipelineError::GeometryError);
}

#[test]
fn missing_outline_is_shaping_failure() {
    let glyphs = vec![Some(triangle()), None];
    assert_eq!(run_pipeline(&glyphs).unwrap_err(), PipelineError::ShapingFailure);
}

#[test]
fn flat_collection_is_numeric_error() {
    let cmds = vec![Command::Move(pt(0, 3)), Command::LineTo(pt(9, 3))];
    assert_eq!(run_pipeline(&vec![Some(cmds)]).unwrap_err(), PipelineError::NumericError);
}

#[test]
fn moves_only_shape_is_empty_input() {
    let c = build_collection(&vec![Some(triangle()), Some(vec![Command::Move(pt(1, 1))])]).unwrap();
    assert_eq!(c.shapes.len(), 2);
    assert_eq!(global_bounding_box(&c).unwrap_err(), PipelineError::EmptyInputError);
    assert_eq!(normalize(c).unwrap_err(), PipelineError::EmptyInputError);
}

#[test]
fn only_first_move_sets_the_anchor() {
    let cmds = vec![
        Command::Move(pt(0, 0)),
        Command::LineTo(pt(10, 0)),
        Command::Move(pt(3, 3)),
        Command::LineTo(pt(6, 3)),
        Command::Close,
    ];
    let shape = convert_commands(&cmds).unwrap();
    assert_eq!(
        shape.primitives,
        vec![
            Primitive::Line(pt(0, 0), pt(10, 0)),
            Primitive::Line(pt(3, 3), pt(6, 3)),
            Primitive::Line(pt(6, 3), pt(0, 0)),
        ]
    );
}

#[test]
fn curves_start_at_the_current_point() {
    let cmds = vec![
        Command::Move(pt(0, 0)),
        Command::QuadTo(pt(5, 8), pt(10, 0)),
        Command::CurveTo(pt(12, -4), pt(14, 4), pt(16, 0)),
        Command::LineTo(pt(20, 2)),
    ];
    let shape = convert_commands(&cmds).unwrap();
    assert_eq!(
        shape.primitives,
        vec![
            Primitive::Quadratic(pt(0, 0), pt(5, 8), pt(10, 0)),
            Primitive::Bezier(pt(10, 0), pt(12, -4), pt(14, 4), pt(16, 0)),
            Primitive::Line(pt(16, 0), pt(20, 2)),
        ]
    );
    // each primitive starts where the previous one ended
    for w in shape.primitives.windows(2) {
        let end = match w[0] {
            Primitive::Quadratic(_, _, e) => e,
            Primitive::Bezier(_, _, _, e) => e,
            Primitive::Line(_, e) => e,
        };
        let start = match w[1] {
            Primitive::Quadratic(s, _, _) => s,
            Primitive::Bezier(s, _, _, _) => s,
            Primitive::Line(s, _) => s,
        };
        assert_eq!(start, end);
    }
}

#[test]
fn shape_bounding_box_counts_control_points() {
    let shape = Shape {
        primitives: vec![Primitive::Bezier(pt(0, 0), pt(-3, 7), pt(12, -5), pt(4, 2))],
    };
    assert_eq!(shape.get_bb().unwrap(), BoundingBox { min: pt(-3, -5), max: pt(12, 7) });
    let empty = Shape { primitives: vec![] };
    assert_eq!(empty.get_bb().unwrap_err(), PipelineError::EmptyInputError);
}

#[test]
fn global_box_folds_every_shape() {
    let a = Shape { primitives: vec![Primitive::Line(pt(2, 5), pt(4, 9))] };
    let b = Shape { primitives: vec![Primitive::Quadratic(pt(-1, 6), pt(0, 20), pt(3, 7))] };
    let c = ShapeCollection { shapes: vec![a, b] };
    let bb = global_bounding_box(&c).unwrap();
    assert_eq!(bb, BoundingBox { min: pt(-1, 5), max: pt(4, 20) });
    assert!(bb.min.x <= bb.max.x && bb.min.y <= bb.max.y);
    let none = ShapeCollection { shapes: vec![] };
    assert_eq!(global_bounding_box(&none).unwrap_err(), PipelineError::EmptyInputError);
}

#[test]
fn extremes_of_height_map_to_zero_and_one() {
    let a = Shape { primitives: vec![Primitive::Line(pt(7, -30), pt(9, 5))] };
    let b = Shape { primitives: vec![Primitive::Line(pt(1, 12), pt(3, 90))] };
    let out = normalize(ShapeCollection { shapes: vec![a, b] }).unwrap();
    match (out.shapes[0].primitives[0], out.shapes[1].primitives[0]) {
        (Primitive::Line(p, _), Primitive::Line(_, q)) => {
            assert_eq!(p.y, 0);
            assert_eq!(q.y, 1000);
        }
        _ => panic!("unexpected primitive"),
    }
}

#[test]
fn wide_collection_scales_x_by_height() {
    let cmds = vec![Command::Move(pt(0, 0)), Command::LineTo(pt(30, 10))];
    let out = run_pipeline(&vec![Some(cmds)]).unwrap();
    assert_eq!(out.shapes[0].primitives, vec![Primitive::Line(pt(0, 0), pt(3000, 1000))]);
}

#[test]
fn quantization_truncates_to_thousandths() {
    let lo = pt(0, 0);
    let hi = pt(0, 3);
    assert_eq!(pt(1, 2).map_scale(&lo, &hi), pt(333, 666));
    assert_eq!(pt(-1, -2).map_scale(&lo, &hi), pt(-333, -666));
}

#[test]
fn scaling_saturates_at_i32_range() {
    let lo = pt(i32::MIN, 0);
    let hi = pt(0, 1);
    assert_eq!(pt(i32::MAX, 1).map_scale(&lo, &hi), pt(i32::MAX, 1000));
}

#[test]
fn point_min_and_max_are_componentwise() {
    let a = pt(1, 8);
    let b = pt(4, -2);
    assert_eq!(a.min(&b), pt(1, -2));
    assert_eq!(a.max(&b), pt(4, 8));
}

#[test]
fn remap_keeps_structure() {
    let shape = Shape {
        primitives: vec![
            Primitive::Quadratic(pt(0, 0), pt(2, 4), pt(4, 0)),
            Primitive::Bezier(pt(4, 0), pt(5, 1), pt(6, 2), pt(8, 4)),
        ],
    };
    let out = shape.remap_shape(&pt(0, 0), &pt(8, 4));
    assert_eq!(
        out.primitives,
        vec![
            Primitive::Quadratic(pt(0, 0), pt(500, 1000), pt(1000, 0)),
            Primitive::Bezier(pt(1000, 0), pt(1250, 250), pt(1500, 500), pt(2000, 1000)),
        ]
    );
}
