use wezterm_glyph_protocol::fraction::ONE;
use wezterm_glyph_protocol::glyf::{Outline, Point};
use wezterm_glyph_protocol::place::{
    anchor, authored_extents, effective_padding, Anchor, HEdge, VEdge,
};
use wezterm_glyph_protocol::raster::{
    mask_plan, outline_path, render_span, walk_contour, AlphaBitmap, Segment,
};
use wezterm_glyph_protocol::sizing::{HAlign, Padding, VAlign};
use wezterm_glyph_protocol::SizingParams;

fn on(x: i16, y: i16) -> Point {
    Point {
        x,
        y,
        on_curve: true,
    }
}

fn off(x: i16, y: i16) -> Point {
    Point {
        x,
        y,
        on_curve: false,
    }
}

fn outline(contours: Vec<Vec<Point>>) -> Outline {
    Outline {
        contours,
        x_min: 0,
        y_min: 0,
        x_max: 1000,
        y_max: 1000,
    }
}

fn triangle() -> Outline {
    outline(vec![vec![on(0, 0), on(1000, 0), on(0, 1000)]])
}

fn sizing() -> SizingParams {
    SizingParams::defaults_for_upm(1000)
}

fn path(contour: &[Point]) -> Vec<Segment> {
    let mut out = Vec::new();
    walk_contour(contour, &mut out);
    out
}

fn move_to(x: i32, y: i32) -> Segment {
    Segment::MoveTo { x, y }
}

fn line_to(x: i32, y: i32) -> Segment {
    Segment::LineTo { x, y }
}

fn quad_to(cx: i32, cy: i32, x: i32, y: i32) -> Segment {
    Segment::QuadTo { cx, cy, x, y }
}

fn bits(v: f32) -> u32 {
    v.to_bits()
}

#[test]
fn empty_outline_is_none() {
    assert!(mask_plan(&outline(vec![]), &sizing(), 24, 48).is_none());
}

#[test]
fn zero_cell_is_none() {
    assert!(mask_plan(&triangle(), &sizing(), 0, 48).is_none());
    assert!(mask_plan(&triangle(), &sizing(), 24, 0).is_none());
}

#[test]
fn width_two_doubles_the_span() {
    let mut wide = sizing();
    wide.width = 2;
    let plan = mask_plan(&triangle(), &wide, 24, 48).expect("rasterizes");
    // The render span is width × cell_w wide; height is one cell.
    assert_eq!(plan.span_w, 48, "width=2 spans two cells");
    let bmp = AlphaBitmap::from_rgba(&vec![0; 4 * 48 * 48], plan.span_w, 48);
    assert_eq!(bmp.width, 48);
    assert_eq!(bmp.height, 48);
    assert_eq!(bmp.data.len(), 48 * 48);
}

#[test]
fn spans_are_at_least_one_cell() {
    let mut s = sizing();
    assert_eq!(render_span(&s, 24, 48), Some(24));
    s.width = 0;
    assert_eq!(render_span(&s, 24, 48), Some(24));
    s.width = 3;
    assert_eq!(render_span(&s, 24, 48), Some(72));
    assert_eq!(render_span(&s, 0, 48), None);
    assert_eq!(render_span(&s, 24, 0), None);
}

#[test]
fn points_on_the_curve_are_joined_by_lines() {
    assert_eq!(
        path(&triangle().contours[0]),
        vec![
            move_to(0, 0),
            line_to(2000, 0),
            line_to(0, 2000),
            line_to(0, 0),
            Segment::Close
        ]
    );
}

#[test]
fn a_point_off_the_curve_is_a_control_point() {
    assert_eq!(
        path(&[on(0, 0), off(5, 7), on(10, 0)]),
        vec![
            move_to(0, 0),
            quad_to(10, 14, 20, 0),
            line_to(0, 0),
            Segment::Close
        ]
    );
    // also between the last point and the first
    assert_eq!(
        path(&[on(0, 0), on(10, 0), off(5, -7)]),
        vec![
            move_to(0, 0),
            line_to(20, 0),
            quad_to(10, -14, 0, 0),
            Segment::Close
        ]
    );
}

#[test]
fn two_points_off_the_curve_imply_one_between_them() {
    assert_eq!(
        path(&[on(0, 0), off(1, 2), off(4, 8), on(9, 9)]),
        vec![
            move_to(0, 0),
            quad_to(2, 4, 5, 10),
            quad_to(8, 16, 18, 18),
            line_to(0, 0),
            Segment::Close
        ]
    );
}

#[test]
fn a_contour_begins_at_its_first_point_on_the_curve() {
    assert_eq!(
        path(&[off(1, 1), on(2, 2), on(3, 3)]),
        vec![
            move_to(4, 4),
            line_to(6, 6),
            quad_to(2, 2, 4, 4),
            Segment::Close
        ]
    );
}

#[test]
fn a_contour_all_off_the_curve_begins_between_last_and_first() {
    assert_eq!(
        path(&[off(0, 0), off(10, 1), off(10, 11)]),
        vec![
            move_to(10, 11),
            quad_to(0, 0, 10, 1),
            quad_to(20, 2, 20, 12),
            quad_to(20, 22, 10, 11),
            Segment::Close
        ]
    );
    let far = i16::MIN;
    assert_eq!(
        path(&[off(far, i16::MAX)]),
        vec![
            move_to(-65536, 65534),
            quad_to(-65536, 65534, -65536, 65534),
            Segment::Close
        ]
    );
}

#[test]
fn contours_follow_one_another() {
    assert_eq!(path(&[]), vec![]);
    let two = outline(vec![vec![on(1, 1)], vec![], vec![on(2, 2)]]);
    assert_eq!(
        outline_path(&two),
        vec![
            move_to(2, 2),
            line_to(2, 2),
            Segment::Close,
            move_to(4, 4),
            line_to(4, 4),
            Segment::Close
        ]
    );
    assert_eq!(
        mask_plan(&two, &sizing(), 1, 1).unwrap().path,
        outline_path(&two)
    );
}

#[test]
fn masks_are_the_alpha_channel() {
    let pixels = [1, 2, 3, 4, 5, 6, 7, 8, 9, 10, 11, 12, 13];
    let bmp = AlphaBitmap::from_rgba(&pixels, 3, 1);
    assert_eq!(bmp.data, vec![4, 8, 12]);
    assert_eq!((bmp.width, bmp.height), (3, 1));
}

#[test]
fn anchors_go_by_alignment() {
    let mut s = sizing();
    s.aw = 600;
    assert_eq!(
        anchor(-100, 701, &s),
        Anchor {
            x: 600,
            h_edge: HEdge::Middle,
            y: 601,
            v_edge: VEdge::Middle
        }
    );
    s.align_h = HAlign::Start;
    s.align_v = VAlign::Start;
    assert_eq!(
        anchor(-100, 701, &s),
        Anchor {
            x: 0,
            h_edge: HEdge::Left,
            y: -200,
            v_edge: VEdge::Bottom
        }
    );
    s.align_h = HAlign::End;
    s.align_v = VAlign::End;
    assert_eq!(
        anchor(-100, 701, &s),
        Anchor {
            x: 1200,
            h_edge: HEdge::Right,
            y: 1402,
            v_edge: VEdge::Top
        }
    );
    s.align_v = VAlign::Baseline;
    s.aw = 0;
    assert_eq!(
        anchor(-100, 701, &s),
        Anchor {
            x: 2,
            h_edge: HEdge::Right,
            y: 0,
            v_edge: VEdge::Baseline
        }
    );
}

#[test]
fn extents_are_at_least_one_unit() {
    let mut s = sizing();
    s.aw = 600;
    assert_eq!(authored_extents(&s), (600, 1000));
    s.aw = 0;
    s.lh = 0;
    assert_eq!(authored_extents(&s), (1, 1));
}

#[test]
fn degenerate_insets_are_dropped() {
    let none = Padding::default();
    let pad = |top: f32, right: f32, bottom: f32, left: f32| Padding {
        top: bits(top),
        right: bits(right),
        bottom: bits(bottom),
        left: bits(left),
    };
    // l+r ≥ 1, and t+b ≥ 1
    assert_eq!(effective_padding(pad(0.0, 0.6, 0.0, 0.6)), none);
    assert_eq!(effective_padding(pad(0.5, 0.0, 0.5, 0.1)), none);
    assert_eq!(effective_padding(pad(1.0, 0.0, 0.0, 0.0)), none);
    // something is left
    let some = pad(0.25, 0.1, 0.25, 0.2);
    assert_eq!(effective_padding(some), some);
    let last = Padding {
        top: ONE - 1,
        right: ONE - 1,
        bottom: 0,
        left: 0,
    };
    assert_eq!(effective_padding(last), last);
}
