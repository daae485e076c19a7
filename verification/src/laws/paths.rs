//! Laws of the path that an outline is filled by, and of where it goes.

use crate::fraction;
use crate::glyf::Point;
use crate::place;
use crate::place::{HEdge, VEdge};
use crate::raster;
use crate::raster::{PathPoint, Segment};
use crate::sizing::{HAlign, Padding, SizingParams, VAlign};
use vstd::prelude::*;

verus! {

// ---- outlines ------------------------------------------------------------

/// Contours are drawn one after the other, none left out: contours in a row are
/// drawn in a row, and a single one by its own path.
pub proof fn lemma_contours_in_a_row(a: Seq<Seq<Point>>, b: Seq<Seq<Point>>, c: Seq<Point>)
    ensures
        raster::contours_path(Seq::empty()) == Seq::<Segment>::empty(),
        raster::contours_path(seq![c]) == raster::contour_path(c),
        raster::contours_path(a + b) == raster::contours_path(a) + raster::contours_path(b),
    decreases b.len(),
{
    assert(seq![c].drop_last() =~= Seq::empty());
    assert(raster::contours_path(Seq::<Seq<Point>>::empty()) =~= Seq::empty());
    assert(raster::contours_path(seq![c]) =~= raster::contour_path(c));
    if b.len() == 0 {
        assert(a + b =~= a);
    } else {
        assert((a + b).drop_last() =~= a + b.drop_last());
        assert((a + b).last() == b.last());
        lemma_contours_in_a_row(a, b.drop_last(), c);
    }
    assert(raster::contours_path(a + b) =~= raster::contours_path(a) + raster::contours_path(b));
}

/// How many sub-paths `path` begins.
pub open spec fn begun(path: Seq<Segment>) -> nat
    decreases path.len(),
{
    if path.len() == 0 {
        0
    } else {
        begun(path.drop_last()) + if path.last() is MoveTo {
            1nat
        } else {
            0nat
        }
    }
}

/// How many of `contours` have points.
pub open spec fn with_points(contours: Seq<Seq<Point>>) -> nat
    decreases contours.len(),
{
    if contours.len() == 0 {
        0
    } else {
        with_points(contours.drop_last()) + if contours.last().len() > 0 {
            1nat
        } else {
            0nat
        }
    }
}

proof fn lemma_begun_concat(a: Seq<Segment>, b: Seq<Segment>)
    ensures
        begun(a + b) == begun(a) + begun(b),
    decreases b.len(),
{
    if b.len() == 0 {
        assert(a + b =~= a);
    } else {
        assert((a + b).drop_last() =~= a + b.drop_last());
        lemma_begun_concat(a, b.drop_last());
    }
}

proof fn lemma_begun_none(path: Seq<Segment>)
    requires
        forall|k: int| 0 <= k < path.len() ==> !((#[trigger] path[k]) is MoveTo),
    ensures
        begun(path) == 0,
    decreases path.len(),
{
    if path.len() > 0 {
        assert forall|k: int| 0 <= k < path.drop_last().len() implies !((
        #[trigger] path.drop_last()[k]) is MoveTo) by {
            assert(path.drop_last()[k] == path[k]);
        }
        lemma_begun_none(path.drop_last());
    }
}

/// The path of an outline has one sub-path for every contour that has points.
pub proof fn lemma_one_sub_path_each(contours: Seq<Seq<Point>>)
    ensures
        begun(raster::contours_path(contours)) == with_points(contours),
    decreases contours.len(),
{
    if contours.len() > 0 {
        let front = contours.drop_last();
        let c = contours.last();
        assert(contours =~= front + seq![c]);
        lemma_contours_in_a_row(front, seq![c], c);
        lemma_one_sub_path_each(front);
        let path = raster::contour_path(c);
        lemma_begun_concat(raster::contours_path(front), path);
        lemma_sub_path(c);
        if c.len() > 0 {
            assert(path =~= seq![path[0]] + path.drop_first());
            lemma_begun_concat(seq![path[0]], path.drop_first());
            lemma_begun_none(path.drop_first());
            assert(seq![path[0]].drop_last() =~= Seq::empty());
            assert(begun(Seq::<Segment>::empty()) == 0);
            assert(begun(seq![path[0]]) == 1);
        }
    } else {
        lemma_contours_in_a_row(contours, contours, Seq::empty());
        assert(contours =~= Seq::empty());
    }
}

/// A contour is one closed sub-path: it is begun once, first, and closed once,
/// last. A contour without points is not drawn.
pub proof fn lemma_sub_path(contour: Seq<Point>)
    ensures
        contour.len() == 0 ==> raster::contour_path(contour).len() == 0,
        contour.len() > 0 ==> ({
            let path = raster::contour_path(contour);
            &&& path.len() >= 3
            &&& forall|k: int|
                0 <= k < path.len() ==> ((#[trigger] path[k]) is MoveTo <==> k == 0)
            &&& forall|k: int|
                0 <= k < path.len() ==> ((#[trigger] path[k]) is Close <==> k == path.len() - 1)
        }),
{
    if contour.len() > 0 {
        let start = raster::start_point(contour);
        let walk = raster::walk(None, raster::following(contour), start);
        raster::lemma_contour_path_closed(contour);
        lemma_walk_draws(None, raster::following(contour), start);
        let path = raster::contour_path(contour);
        assert forall|k: int| 0 < k < path.len() - 1 implies !((#[trigger] path[k]) is MoveTo)
            && !(path[k] is Close) by {
            assert(path[k] == walk[k - 1]);
        }
    }
}

proof fn lemma_walk_draws(ctrl: Option<Point>, points: Seq<Point>, end: PathPoint)
    ensures
        forall|k: int|
            0 <= k < raster::walk(ctrl, points, end).len() ==> !((#[trigger] raster::walk(
                ctrl,
                points,
                end,
            )[k]) is MoveTo) && !(raster::walk(ctrl, points, end)[k] is Close),
    decreases points.len(),
{
    if points.len() > 0 {
        let next = if points[0].on_curve {
            None
        } else {
            Some(points[0])
        };
        lemma_walk_draws(next, points.drop_first(), end);
        let tail = raster::walk(next, points.drop_first(), end);
        let all = raster::walk(ctrl, points, end);
        assert forall|k: int| 0 <= k < all.len() implies !((#[trigger] all[k]) is MoveTo)
            && !(all[k] is Close) by {
            if all.len() > tail.len() && k > 0 {
                assert(all[k] == tail[k - 1]);
            } else if all.len() == tail.len() {
                assert(all[k] == tail[k]);
            }
        }
    }
}

// ---- contours ------------------------------------------------------------

/// A contour with a point on the curve begins at the first such point, and then
/// goes once around: the points after that one, and then those before it. Path
/// coordinates are twice the authored ones.
pub proof fn lemma_begins_on_the_curve(contour: Seq<Point>, i: int)
    requires
        0 <= i < contour.len(),
        contour[i].on_curve,
        forall|j: int| 0 <= j < i ==> !(#[trigger] contour[j]).on_curve,
    ensures
        raster::start_point(contour).x == 2 * contour[i].x,
        raster::start_point(contour).y == 2 * contour[i].y,
        raster::contour_path(contour)[0] == (Segment::MoveTo {
            x: (2 * contour[i].x) as i32,
            y: (2 * contour[i].y) as i32,
        }),
        raster::following(contour).len() == contour.len() - 1,
        forall|k: int|
            0 <= k < contour.len() - 1 - i ==> (#[trigger] raster::following(contour)[k])
                == contour[i + 1 + k],
        forall|k: int|
            contour.len() - 1 - i <= k < contour.len() - 1 ==> (#[trigger] raster::following(
                contour,
            )[k]) == contour[k - (contour.len() - 1 - i)],
{
    raster::lemma_first_on_curve(contour, i);
    raster::lemma_contour_path_closed(contour);
}

/// A contour without a point on the curve begins halfway between its first and
/// last points, and then goes through all of its points.
pub proof fn lemma_begins_off_the_curve(contour: Seq<Point>)
    requires
        contour.len() > 0,
        forall|j: int| 0 <= j < contour.len() ==> !(#[trigger] contour[j]).on_curve,
    ensures
        raster::start_point(contour).x == contour[0].x + contour[contour.len() - 1].x,
        raster::start_point(contour).y == contour[0].y + contour[contour.len() - 1].y,
        raster::contour_path(contour)[0] == (Segment::MoveTo {
            x: (contour[0].x + contour[contour.len() - 1].x) as i32,
            y: (contour[0].y + contour[contour.len() - 1].y) as i32,
        }),
        raster::following(contour) == contour,
{
    raster::lemma_first_on_curve(contour, contour.len() as int);
    raster::lemma_contour_path_closed(contour);
}

/// Between its first and its last step, the path of a contour is the walk from
/// the start around and back to it.
pub proof fn lemma_path_walks_around(contour: Seq<Point>)
    requires
        contour.len() > 0,
    ensures
        ({
            let path = raster::contour_path(contour);
            path.subrange(1, path.len() - 1) == raster::walk(
                None,
                raster::following(contour),
                raster::start_point(contour),
            )
        }),
{
    let path = raster::contour_path(contour);
    assert(path.subrange(1, path.len() - 1) =~= raster::walk(
        None,
        raster::following(contour),
        raster::start_point(contour),
    ));
}

/// A walk passes through every point on the curve: it goes there, and on from
/// there as from anywhere on the curve.
pub proof fn lemma_walk_through(
    ctrl: Option<Point>,
    a: Seq<Point>,
    p: Point,
    at: PathPoint,
    b: Seq<Point>,
    end: PathPoint,
)
    requires
        p.on_curve,
        at.x == 2 * p.x,
        at.y == 2 * p.y,
    ensures
        raster::walk(ctrl, a + seq![p] + b, end) == raster::walk(ctrl, a, at) + raster::walk(
            None,
            b,
            end,
        ),
    decreases a.len(),
{
    let all = a + seq![p] + b;
    if a.len() == 0 {
        assert(all[0] == p);
        assert(all.drop_first() =~= b);
        assert(raster::path_point(p) == at);
        assert(raster::walk(ctrl, a, at) =~= seq![raster::step(ctrl, at)]);
    } else {
        assert(all[0] == a[0]);
        assert(all.drop_first() =~= a.drop_first() + seq![p] + b);
        let next = if a[0].on_curve {
            None
        } else {
            Some(a[0])
        };
        lemma_walk_through(next, a.drop_first(), p, at, b, end);
    }
    assert(raster::walk(ctrl, all, end) =~= raster::walk(ctrl, a, at) + raster::walk(None, b, end));
}

/// From one point on the curve to the next: a line where nothing lies between
/// them; else one curve for every point off the curve, which is its control
/// point, each but the last ending halfway to the next such point.
pub proof fn lemma_walk_between(offs: Seq<Point>, end: PathPoint)
    requires
        forall|j: int| 0 <= j < offs.len() ==> !(#[trigger] offs[j]).on_curve,
    ensures
        offs.len() == 0 ==> raster::walk(None, offs, end) == seq![
            Segment::LineTo { x: end.x, y: end.y },
        ],
        offs.len() > 0 ==> raster::walk(None, offs, end) == Seq::new(
            offs.len(),
            |k: int|
                Segment::QuadTo {
                    cx: (2 * offs[k].x) as i32,
                    cy: (2 * offs[k].y) as i32,
                    x: if k == offs.len() - 1 {
                        end.x
                    } else {
                        (offs[k].x + offs[k + 1].x) as i32
                    },
                    y: if k == offs.len() - 1 {
                        end.y
                    } else {
                        (offs[k].y + offs[k + 1].y) as i32
                    },
                },
        ),
{
    if offs.len() > 0 {
        lemma_run(offs[0], offs.drop_first(), end);
        assert(seq![offs[0]] + offs.drop_first() =~= offs);
    } else {
        assert(raster::walk(None, offs, end) =~= seq![Segment::LineTo { x: end.x, y: end.y }]);
    }
}

/// The curves from the control point `ctrl` on, through more points off the
/// curve, to `end`.
spec fn curves(offs: Seq<Point>, end: PathPoint) -> Seq<Segment> {
    Seq::new(
        offs.len(),
        |k: int|
            Segment::QuadTo {
                cx: (2 * offs[k].x) as i32,
                cy: (2 * offs[k].y) as i32,
                x: if k == offs.len() - 1 {
                    end.x
                } else {
                    (offs[k].x + offs[k + 1].x) as i32
                },
                y: if k == offs.len() - 1 {
                    end.y
                } else {
                    (offs[k].y + offs[k + 1].y) as i32
                },
            },
    )
}

proof fn lemma_run(ctrl: Point, offs: Seq<Point>, end: PathPoint)
    requires
        forall|j: int| 0 <= j < offs.len() ==> !(#[trigger] offs[j]).on_curve,
    ensures
        raster::walk(Some(ctrl), offs, end) == curves(seq![ctrl] + offs, end),
    decreases offs.len(),
{
    let all = seq![ctrl] + offs;
    if offs.len() > 0 {
        let rest = offs.drop_first();
        lemma_run(offs[0], rest, end);
        assert(seq![offs[0]] + rest =~= offs);
        assert(all.drop_first() =~= offs);
        assert forall|k: int| 1 <= k < all.len() implies curves(all, end)[k] == curves(
            offs,
            end,
        )[k - 1] by {
            assert(all[k] == offs[k - 1]);
            if k + 1 < all.len() {
                assert(all[k + 1] == offs[k]);
            }
        }
        assert(curves(all, end) =~= seq![curves(all, end)[0]] + curves(offs, end));
    } else {
        assert(raster::walk(Some(ctrl), offs, end) =~= curves(all, end));
    }
}

/// Where a segment ends, if it ends anywhere.
pub open spec fn ends_at(s: Segment, x: int, y: int) -> bool {
    match s {
        Segment::MoveTo { x: sx, y: sy } => sx == x && sy == y,
        Segment::LineTo { x: sx, y: sy } => sx == x && sy == y,
        Segment::QuadTo { x: sx, y: sy, .. } => sx == x && sy == y,
        Segment::Close => false,
    }
}

/// Every point of a contour that is on the curve is where its path begins, or
/// where a step of it ends.
pub proof fn lemma_on_curve_points_are_visited(contour: Seq<Point>, p: int)
    requires
        0 <= p < contour.len(),
        contour[p].on_curve,
    ensures
        exists|k: int|
            0 <= k < raster::contour_path(contour).len() && #[trigger] ends_at(
                raster::contour_path(contour)[k],
                2 * contour[p].x,
                2 * contour[p].y,
            ),
{
    let path = raster::contour_path(contour);
    let i = raster::first_on_curve(contour);
    lemma_first_is_first(contour, p);
    lemma_begins_on_the_curve(contour, i);
    if p == i {
        assert(ends_at(path[0], 2 * contour[p].x, 2 * contour[p].y));
    } else {
        let points = raster::following(contour);
        let end = raster::start_point(contour);
        let j = if p > i {
            p - i - 1
        } else {
            p + (contour.len() - 1 - i)
        };
        let q = points[j];
        assert(q == contour[p]);
        let at = PathPoint { x: (2 * q.x) as i32, y: (2 * q.y) as i32 };
        let before = raster::walk(None, points.take(j), at);
        assert(points =~= points.take(j) + seq![q] + points.skip(j + 1));
        lemma_walk_through(None, points.take(j), q, at, points.skip(j + 1), end);
        raster::lemma_walk_ends(None, points.take(j), at);
        let k = before.len() - 1;
        lemma_path_walks_around(contour);
        assert(path[k + 1] == path.subrange(1, path.len() - 1)[k]);
        assert(path[k + 1] == before[k]);
        assert(ends_at(path[k + 1], 2 * contour[p].x, 2 * contour[p].y));
    }
}

proof fn lemma_first_is_first(contour: Seq<Point>, p: int)
    requires
        0 <= p < contour.len(),
        contour[p].on_curve,
    ensures
        0 <= raster::first_on_curve(contour) <= p,
        contour[raster::first_on_curve(contour)].on_curve,
        forall|j: int|
            0 <= j < raster::first_on_curve(contour) ==> !(#[trigger] contour[j]).on_curve,
    decreases contour.len(),
{
    if !contour[0].on_curve {
        let t = contour.drop_first();
        assert(t[p - 1] == contour[p]);
        lemma_first_is_first(t, p - 1);
        assert forall|j: int| 0 <= j < raster::first_on_curve(contour) implies !(
        #[trigger] contour[j]).on_curve by {
            if j > 0 {
                assert(contour[j] == t[j - 1]);
            }
        }
    }
}

// ---- spans and anchors ---------------------------------------------------

/// The render span grows with the cell, and over one pixel of cell width it is
/// as many pixels as the glyph has cells, at least one.
pub proof fn lemma_span_is_cells(sizing: SizingParams, a: int, b: int)
    ensures
        raster::span_width(sizing, a + b) == raster::span_width(sizing, a) + raster::span_width(
            sizing,
            b,
        ),
        sizing.width >= 1 ==> raster::span_width(sizing, 1) == sizing.width,
        sizing.width == 0 ==> raster::span_width(sizing, 1) == 1,
{
    let w = sizing.width as int;
    assert((a + b) * w == a * w + b * w) by (nonlinear_arith);
}

/// The horizontal anchors are the edges and the middle of `[0, aw]`, in half
/// units, and each goes to the line of the span that it is named for.
pub proof fn lemma_h_anchors(aw: u16)
    ensures
        place::h_anchor(aw, HAlign::Start).0 == 0,
        place::h_anchor(aw, HAlign::End).0 == aw + aw,
        2 * place::h_anchor(aw, HAlign::Center).0 == place::h_anchor(aw, HAlign::Start).0
            + place::h_anchor(aw, HAlign::End).0,
        place::h_anchor(aw, HAlign::Start).1 == HEdge::Left,
        place::h_anchor(aw, HAlign::Center).1 == HEdge::Middle,
        place::h_anchor(aw, HAlign::End).1 == HEdge::Right,
{
}

/// The vertical anchors are the edges and the middle of `[y_min, y_max]`, in
/// half units, or the baseline, and each goes to the line of the span that it is
/// named for: `start` to the bottom, `end` to the top.
pub proof fn lemma_v_anchors(y_min: i16, y_max: i16)
    ensures
        place::v_anchor(y_min, y_max, VAlign::Start).0 == y_min + y_min,
        place::v_anchor(y_min, y_max, VAlign::End).0 == y_max + y_max,
        2 * place::v_anchor(y_min, y_max, VAlign::Center).0 == place::v_anchor(
            y_min,
            y_max,
            VAlign::Start,
        ).0 + place::v_anchor(y_min, y_max, VAlign::End).0,
        place::v_anchor(y_min, y_max, VAlign::Baseline).0 == 0,
        place::v_anchor(y_min, y_max, VAlign::Start).1 == VEdge::Bottom,
        place::v_anchor(y_min, y_max, VAlign::Center).1 == VEdge::Middle,
        place::v_anchor(y_min, y_max, VAlign::End).1 == VEdge::Top,
        place::v_anchor(y_min, y_max, VAlign::Baseline).1 == VEdge::Baseline,
{
}

/// An authored extent is what was authored, but never zero.
pub proof fn lemma_extents(extent: u16)
    ensures
        place::at_least_one(extent) >= 1,
        extent >= 1 ==> place::at_least_one(extent) == extent,
        place::at_least_one(0) == 1,
{
}

/// Insets are in force as they are where both rounded sums stay below one, and
/// else none is.
pub proof fn lemma_insets_in_force(pad: Padding, across: int, along: int)
    requires
        0 <= across,
        0 <= along,
        fraction::rounds_to(
            fraction::single_units(pad.left as int) + fraction::single_units(pad.right as int),
            crate::decimal::two_to(149) as int,
            across,
        ),
        fraction::rounds_to(
            fraction::single_units(pad.top as int) + fraction::single_units(pad.bottom as int),
            crate::decimal::two_to(149) as int,
            along,
        ),
    ensures
        ({
            let r = place::insets_in_force(pad);
            if across < 0x3f80_0000 && along < 0x3f80_0000 {
                r == pad
            } else {
                r.top == 0 && r.right == 0 && r.bottom == 0 && r.left == 0
            }
        }),
{
    fraction::lemma_sum_is_rounded(pad.left, pad.right, across);
    fraction::lemma_sum_is_rounded(pad.top, pad.bottom, along);
}

} // verus!
