//! From a decoded [`Outline`] to an 8-bit alpha coverage bitmap sized to a
//! terminal cell: the path to fill, and the mask that comes out. Monochrome
//! `glyf` glyphs are rendered as a coverage mask; the GUI tints the mask with
//! the cell foreground color, exactly like the built-in block glyphs.

use crate::glyf::{Outline, Point};
use crate::sizing::SizingParams;
use vstd::prelude::*;

verus! {

/// An 8-bit alpha coverage bitmap, row-major, `width * height` bytes.
#[derive(Debug, Clone, PartialEq, Eq)]
pub struct AlphaBitmap {
    pub data: Vec<u8>,
    pub width: usize,
    pub height: usize,
}

/// A step of a path, in half units of the authoring space: every coordinate is
/// twice the authored one, so that implied midpoints are whole.
#[derive(Debug, Clone, Copy, PartialEq, Eq, Structural)]
pub enum Segment {
    /// Begin a contour.
    MoveTo { x: i32, y: i32 },
    /// A straight line.
    LineTo { x: i32, y: i32 },
    /// A quadratic curve with control point `(cx, cy)`.
    QuadTo { cx: i32, cy: i32, x: i32, y: i32 },
    /// Close the contour.
    Close,
}

/// A point of a path, in half units.
#[derive(Debug, Clone, Copy, PartialEq, Eq, Structural)]
pub struct PathPoint {
    pub x: i32,
    pub y: i32,
}

/// An authored point as a path point.
pub open spec fn path_point(p: Point) -> PathPoint {
    PathPoint { x: (2 * p.x) as i32, y: (2 * p.y) as i32 }
}

/// The point on the curve halfway between two authored points.
pub open spec fn midpoint(a: Point, b: Point) -> PathPoint {
    PathPoint { x: (a.x + b.x) as i32, y: (a.y + b.y) as i32 }
}

/// The index of the first point of `contour` that is on the curve, or its
/// length where none is.
pub open spec fn first_on_curve(contour: Seq<Point>) -> int
    decreases contour.len(),
{
    if contour.len() == 0 || contour[0].on_curve {
        0
    } else {
        1 + first_on_curve(contour.drop_first())
    }
}

/// Where the path of a contour begins: at its first point on the curve, or,
/// without one, halfway between its first and last points.
pub open spec fn start_point(contour: Seq<Point>) -> PathPoint {
    let i = first_on_curve(contour);
    if i < contour.len() {
        path_point(contour[i])
    } else {
        midpoint(contour[0], contour.last())
    }
}

/// The points that follow the start, in order and once around.
pub open spec fn following(contour: Seq<Point>) -> Seq<Point> {
    let i = first_on_curve(contour);
    if i < contour.len() {
        contour.skip(i + 1) + contour.take(i)
    } else {
        contour
    }
}

/// The steps from a point on the curve, or from the control point `ctrl` just
/// passed, through `points` and on to `end`: two points on the curve in a row
/// are joined by a line, a point off the curve between two on it is a quadratic
/// control point, and two points off the curve in a row imply one on it halfway
/// between them.
pub open spec fn walk(ctrl: Option<Point>, points: Seq<Point>, end: PathPoint) -> Seq<Segment>
    decreases points.len(),
{
    if points.len() == 0 {
        seq![step(ctrl, end)]
    } else {
        let p = points[0];
        let rest = points.drop_first();
        if p.on_curve {
            seq![step(ctrl, path_point(p))] + walk(None, rest, end)
        } else {
            match ctrl {
                Some(c) => seq![step(ctrl, midpoint(c, p))] + walk(Some(p), rest, end),
                None => walk(Some(p), rest, end),
            }
        }
    }
}

/// The step to `to`, around the control point `ctrl` if there is one.
pub open spec fn step(ctrl: Option<Point>, to: PathPoint) -> Segment {
    match ctrl {
        Some(c) => Segment::QuadTo {
            cx: (2 * c.x) as i32,
            cy: (2 * c.y) as i32,
            x: to.x,
            y: to.y,
        },
        None => Segment::LineTo { x: to.x, y: to.y },
    }
}

/// The path of one contour, closed. A contour without points has none.
pub open spec fn contour_path(contour: Seq<Point>) -> Seq<Segment> {
    if contour.len() == 0 {
        Seq::empty()
    } else {
        let start = start_point(contour);
        seq![Segment::MoveTo { x: start.x, y: start.y }] + walk(
            None,
            following(contour),
            start,
        ) + seq![Segment::Close]
    }
}

/// The path of contours in a row.
pub open spec fn contours_path(contours: Seq<Seq<Point>>) -> Seq<Segment>
    decreases contours.len(),
{
    if contours.len() == 0 {
        Seq::empty()
    } else {
        contours_path(contours.drop_last()) + contour_path(contours.last())
    }
}

/// `first_on_curve` is in bounds and finds the first point on the curve.
pub proof fn lemma_first_on_curve(contour: Seq<Point>, i: int)
    requires
        0 <= i <= contour.len(),
        i < contour.len() ==> contour[i].on_curve,
        forall|j: int| 0 <= j < i ==> !(#[trigger] contour[j]).on_curve,
    ensures
        first_on_curve(contour) == i,
    decreases contour.len(),
{
    if contour.len() > 0 && !contour[0].on_curve {
        let t = contour.drop_first();
        assert(i > 0);
        assert forall|j: int| 0 <= j < i - 1 implies !(#[trigger] t[j]).on_curve by {
            assert(t[j] == contour[j + 1]);
        }
        lemma_first_on_curve(t, i - 1);
    } else if contour.len() > 0 && i > 0 {
        assert(!contour[0].on_curve);
    }
}

/// The step to `(x, y)`, around `ctrl` if there is one.
fn make_step(ctrl: Option<Point>, x: i32, y: i32) -> (r: Segment)
    ensures
        r == step(ctrl, (PathPoint { x, y })),
{
    match ctrl {
        Some(c) => Segment::QuadTo { cx: 2 * c.x as i32, cy: 2 * c.y as i32, x, y },
        None => Segment::LineTo { x, y },
    }
}

/// Walk one contour, following standard TrueType quadratic-Bézier rules, and
/// append its path to `out`.
pub fn walk_contour(contour: &[Point], out: &mut Vec<Segment>)
    ensures
        final(out)@ == old(out)@ + contour_path(contour@),
{
    let n: usize = contour.len();
    if n == 0 {
        assert(out@ + contour_path(contour@) =~= out@);
        return;
    }
    let mut first: usize = 0;
    while first < n && !contour[first].on_curve
        invariant
            first <= n,
            n == contour@.len(),
            forall|j: int| 0 <= j < first ==> !(#[trigger] contour@[j]).on_curve,
        decreases n - first,
    {
        first += 1;
    }
    proof {
        lemma_first_on_curve(contour@, first as int);
    }
    // the start, and how many points follow it, from which index on
    let (x, y, count, from) = if first < n {
        (
            2 * contour[first].x as i32,
            2 * contour[first].y as i32,
            n - 1,
            first + 1,
        )
    } else {
        (
            contour[0].x as i32 + contour[n - 1].x as i32,
            contour[0].y as i32 + contour[n - 1].y as i32,
            n,
            0,
        )
    };
    let ghost start = start_point(contour@);
    let ghost points = following(contour@);
    assert(start.x == x && start.y == y && points.len() == count);
    let ghost before = out@;
    let ghost moved = before.push(Segment::MoveTo { x, y });
    out.push(Segment::MoveTo { x, y });
    let mut ctrl: Option<Point> = None;
    let mut k: usize = 0;
    assert(points.skip(0) =~= points);
    while k < count
        invariant
            k <= count,
            n == contour@.len(),
            n > 0,
            first <= n,
            first < n ==> count == n - 1 && from == first + 1,
            first == n ==> count == n && from == 0,
            points == following(contour@),
            points.len() == count,
            first == first_on_curve(contour@),
            out@ + walk(ctrl, points.skip(k as int), start) == moved + walk(None, points, start),
        decreases count - k,
    {
        let at: usize = if k < n - from {
            from + k
        } else {
            k - (n - from)
        };
        let p: Point = contour[at];
        assert(p == points[k as int]);
        let ghost rest = points.skip(k as int);
        let ghost so_far = out@;
        let ghost passed = ctrl;
        assert(rest.drop_first() =~= points.skip(k + 1));
        assert(rest[0] == p);
        if p.on_curve {
            let s: Segment = make_step(ctrl, 2 * p.x as i32, 2 * p.y as i32);
            assert(s == step(ctrl, path_point(p)));
            out.push(s);
            ctrl = None;
            assert(so_far + (seq![s] + walk(None, points.skip(k + 1), start)) =~= out@ + walk(
                None,
                points.skip(k + 1),
                start,
            ));
        } else {
            if let Some(c) = ctrl {
                let s: Segment = make_step(
                    ctrl,
                    c.x as i32 + p.x as i32,
                    c.y as i32 + p.y as i32,
                );
                assert(s == step(ctrl, midpoint(c, p)));
                out.push(s);
                assert(so_far + (seq![s] + walk(Some(p), points.skip(k + 1), start)) =~= out@
                    + walk(Some(p), points.skip(k + 1), start));
            }
            ctrl = Some(p);
        }
        k += 1;
    }
    assert(points.skip(k as int).len() == 0);
    let last: Segment = make_step(ctrl, x, y);
    assert(last == step(ctrl, start));
    out.push(last);
    out.push(Segment::Close);
    assert(out@ =~= moved + walk(None, points, start) + seq![Segment::Close]);
    assert(out@ =~= before + contour_path(contour@));
}

/// The path of an outline: its contours in a row, each closed.
pub fn outline_path(outline: &Outline) -> (r: Vec<Segment>)
    ensures
        r@ == contours_path(outline@.contours),
{
    let mut out: Vec<Segment> = Vec::new();
    let mut i: usize = 0;
    let ghost all = outline@.contours;
    assert(contours_path(all.take(0)) =~= Seq::empty());
    while i < outline.contours.len()
        invariant
            i <= outline.contours@.len(),
            all == outline@.contours,
            out@ == contours_path(all.take(i as int)),
        decreases outline.contours@.len() - i,
    {
        assert(all.take(i + 1).drop_last() =~= all.take(i as int));
        assert(all.take(i + 1).last() == outline.contours@[i as int]@);
        walk_contour(&outline.contours[i], &mut out);
        i += 1;
    }
    assert(all.take(i as int) =~= all);
    out
}

/// Every contour's path begins at its start point, ends there, and is closed.
pub proof fn lemma_contour_path_closed(contour: Seq<Point>)
    requires
        contour.len() > 0,
    ensures
        ({
            let path = contour_path(contour);
            let start = start_point(contour);
            &&& path.len() >= 3
            &&& path[0] == Segment::MoveTo { x: start.x, y: start.y }
            &&& path.last() == Segment::Close
            &&& match path[path.len() - 2] {
                Segment::LineTo { x, y } => x == start.x && y == start.y,
                Segment::QuadTo { cx, cy, x, y } => x == start.x && y == start.y,
                _ => false,
            }
        }),
{
    lemma_walk_ends(None, following(contour), start_point(contour));
}

/// Every walk ends with a step to its end.
pub proof fn lemma_walk_ends(ctrl: Option<Point>, points: Seq<Point>, end: PathPoint)
    ensures
        walk(ctrl, points, end).len() >= 1,
        exists|c: Option<Point>| walk(ctrl, points, end).last() == #[trigger] step(c, end),
    decreases points.len(),
{
    if points.len() > 0 {
        let p = points[0];
        let next = if p.on_curve {
            None
        } else {
            Some(p)
        };
        lemma_walk_ends(next, points.drop_first(), end);
        let tail = walk(next, points.drop_first(), end);
        assert(walk(ctrl, points, end).last() == tail.last());
    } else {
        assert(walk(ctrl, points, end).last() == step(ctrl, end));
    }
}

/// The control points of the curves of `path`, in order.
pub open spec fn control_points(path: Seq<Segment>) -> Seq<PathPoint>
    decreases path.len(),
{
    if path.len() == 0 {
        Seq::empty()
    } else {
        let rest = control_points(path.drop_first());
        match path[0] {
            Segment::QuadTo { cx, cy, .. } => seq![PathPoint { x: cx, y: cy }] + rest,
            _ => rest,
        }
    }
}

/// The points of `points` that are off the curve, in order.
pub open spec fn off_curve_points(points: Seq<Point>) -> Seq<PathPoint>
    decreases points.len(),
{
    if points.len() == 0 {
        Seq::empty()
    } else {
        let rest = off_curve_points(points.drop_first());
        if points[0].on_curve {
            rest
        } else {
            seq![path_point(points[0])] + rest
        }
    }
}

proof fn lemma_control_points_concat(a: Seq<Segment>, b: Seq<Segment>)
    ensures
        control_points(a + b) == control_points(a) + control_points(b),
    decreases a.len(),
{
    if a.len() == 0 {
        assert(a + b =~= b);
        assert(control_points(a) + control_points(b) =~= control_points(b));
    } else {
        assert((a + b).drop_first() =~= a.drop_first() + b);
        lemma_control_points_concat(a.drop_first(), b);
        assert(control_points(a + b) =~= control_points(a) + control_points(b));
    }
}

proof fn lemma_single_control_point(s: Segment)
    ensures
        control_points(seq![s]) == match s {
            Segment::QuadTo { cx, cy, .. } => seq![PathPoint { x: cx, y: cy }],
            _ => Seq::empty(),
        },
{
    assert(seq![s].drop_first() =~= Seq::empty());
    assert(control_points(Seq::<Segment>::empty()) =~= Seq::empty());
    assert(control_points(seq![s]) =~= match s {
        Segment::QuadTo { cx, cy, .. } => seq![PathPoint { x: cx, y: cy }],
        _ => Seq::empty(),
    });
}

proof fn lemma_walk_controls(ctrl: Option<Point>, points: Seq<Point>, end: PathPoint)
    ensures
        control_points(walk(ctrl, points, end)) == match ctrl {
            Some(c) => seq![path_point(c)],
            None => Seq::empty(),
        } + off_curve_points(points),
    decreases points.len(),
{
    if points.len() == 0 {
        lemma_single_control_point(step(ctrl, end));
    } else {
        let p = points[0];
        let rest = points.drop_first();
        if p.on_curve {
            let s = step(ctrl, path_point(p));
            lemma_walk_controls(None, rest, end);
            lemma_single_control_point(s);
            lemma_control_points_concat(seq![s], walk(None, rest, end));
        } else {
            lemma_walk_controls(Some(p), rest, end);
            if let Some(c) = ctrl {
                let s = step(ctrl, midpoint(c, p));
                lemma_single_control_point(s);
                lemma_control_points_concat(seq![s], walk(Some(p), rest, end));
            }
        }
    }
    assert(control_points(walk(ctrl, points, end)) =~= match ctrl {
        Some(c) => seq![path_point(c)],
        None => Seq::empty(),
    } + off_curve_points(points));
}

/// Every point of a contour that is off the curve, and no other, is the control
/// point of one curve of its path, in order from the start once around.
pub proof fn lemma_off_curve_points_control(contour: Seq<Point>)
    requires
        contour.len() > 0,
    ensures
        control_points(contour_path(contour)) == off_curve_points(following(contour)),
{
    let start = start_point(contour);
    let head = seq![Segment::MoveTo { x: start.x, y: start.y }];
    let middle = walk(None, following(contour), start);
    let tail = seq![Segment::Close];
    lemma_walk_controls(None, following(contour), start);
    lemma_single_control_point(head[0]);
    lemma_single_control_point(tail[0]);
    lemma_control_points_concat(head, middle);
    lemma_control_points_concat(head + middle, tail);
    assert(control_points(contour_path(contour)) =~= off_curve_points(following(contour)));
}

// ---- span and mask -------------------------------------------------------

/// The width of the render span, in pixels: `width` cells, at least one.
pub open spec fn span_width(sizing: SizingParams, cell_w: int) -> int {
    if sizing.width == 0 {
        cell_w
    } else {
        cell_w * sizing.width
    }
}

/// The width of the render span, `width × cell_w`; `None` where the span or the
/// cell has no extent.
pub fn render_span(sizing: &SizingParams, cell_w: usize, cell_h: usize) -> (r: Option<usize>)
    requires
        span_width(*sizing, cell_w as int) <= usize::MAX,
    ensures
        match r {
            Some(w) => w == span_width(*sizing, cell_w as int) && w > 0 && cell_h > 0,
            None => span_width(*sizing, cell_w as int) == 0 || cell_h == 0,
        },
{
    let span_w: usize = if sizing.width == 0 {
        cell_w
    } else {
        assert(cell_w * sizing.width >= 0) by (nonlinear_arith);
        cell_w * sizing.width as usize
    };
    if span_w == 0 || cell_h == 0 {
        None
    } else {
        Some(span_w)
    }
}

/// What to fill for a monochrome glyph: the path, and the width of the render
/// span that its mask covers.
#[derive(Debug, Clone, PartialEq, Eq)]
pub struct MaskPlan {
    pub path: Vec<Segment>,
    pub span_w: usize,
}

/// Plan the mask of `outline`. `None` for an outline without contours, and
/// where the render span or the cell has no extent.
pub fn mask_plan(
    outline: &Outline,
    sizing: &SizingParams,
    cell_w: usize,
    cell_h: usize,
) -> (r: Option<MaskPlan>)
    requires
        span_width(*sizing, cell_w as int) <= usize::MAX,
    ensures
        match r {
            Some(plan) => {
                &&& outline@.contours.len() > 0
                &&& span_width(*sizing, cell_w as int) > 0
                &&& cell_h > 0
                &&& plan.path@ == contours_path(outline@.contours)
                &&& plan.span_w == span_width(*sizing, cell_w as int)
            },
            None => outline@.contours.len() == 0 || span_width(*sizing, cell_w as int) == 0
                || cell_h == 0,
        },
{
    if outline.contours.len() == 0 {
        return None;
    }
    match render_span(sizing, cell_w, cell_h) {
        Some(span_w) => Some(MaskPlan { path: outline_path(outline), span_w }),
        None => None,
    }
}

/// The alpha channel of RGBA pixels, four bytes each.
pub open spec fn alpha_channel(pixels: Seq<u8>) -> Seq<u8> {
    Seq::new((pixels.len() / 4) as nat, |i: int| pixels[4 * i + 3])
}

impl AlphaBitmap {
    /// Make a mask of opaque white painted over transparent RGBA pixels,
    /// row-major, four bytes each: a pixel's alpha is its coverage.
    pub fn from_rgba(pixels: &[u8], width: usize, height: usize) -> (r: Self)
        ensures
            r.data@ == alpha_channel(pixels@),
            r.width == width,
            r.height == height,
    {
        let n: usize = pixels.len() / 4;
        let mut data: Vec<u8> = Vec::with_capacity(n);
        let mut i: usize = 0;
        while i < n
            invariant
                i <= n,
                n == pixels@.len() / 4,
                n <= usize::MAX / 4,
                data@ == alpha_channel(pixels@).take(i as int),
            decreases n - i,
        {
            data.push(pixels[4 * i + 3]);
            assert(data@ =~= alpha_channel(pixels@).take(i + 1));
            i += 1;
        }
        assert(data@ =~= alpha_channel(pixels@));
        AlphaBitmap { data, width, height }
    }
}

} // verus!
