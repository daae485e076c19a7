//! Where an outline goes in its render span: the insets that `pad` leaves in
//! force, the authored extent that scales it, and the point of it that `align`
//! pins down.
//!
//! Authored extents: horizontal is the parameter rectangle `[0, aw]`; vertical
//! positioning uses the outline's own bounding box `[y_min, y_max]` with the
//! baseline at `y=0`, while the `lh` parameter drives the vertical *scale*: the
//! glyph's ink is what is positioned, `lh` is what it is scaled by.

use crate::fraction;
use crate::sizing;
use crate::sizing::{HAlign, Padding, SizingParams, VAlign};
use vstd::prelude::*;

verus! {

/// A vertical line of the render span.
#[derive(Debug, Clone, Copy, PartialEq, Eq, Structural)]
pub enum HEdge {
    Left,
    Middle,
    Right,
}

/// A horizontal line of the render span, or the text baseline.
#[derive(Debug, Clone, Copy, PartialEq, Eq, Structural)]
pub enum VEdge {
    Top,
    Middle,
    Bottom,
    Baseline,
}

/// A point of the authored space, in half units, and where in the render span
/// it goes.
#[derive(Debug, Clone, Copy, PartialEq, Eq, Structural)]
pub struct Anchor {
    pub x: i32,
    pub h_edge: HEdge,
    pub y: i32,
    pub v_edge: VEdge,
}

/// Whether insets leave nothing of the span: `left + right` or `top + bottom`
/// is one or more.
pub open spec fn is_degenerate(pad: Padding) -> bool {
    fraction::sum_is_whole(pad.left, pad.right) || fraction::sum_is_whole(pad.top, pad.bottom)
}

/// The insets in force: none where they would leave nothing of the span.
pub open spec fn insets_in_force(pad: Padding) -> Padding {
    if is_degenerate(pad) {
        sizing::no_padding()
    } else {
        pad
    }
}

/// The insets in force: a degenerate span (`l+r≥1` or `t+b≥1`) is treated as no
/// padding.
pub fn effective_padding(pad: Padding) -> (r: Padding)
    requires
        sizing::in_range(pad),
    ensures
        r == insets_in_force(pad),
{
    if fraction::sum_reaches_one(pad.left, pad.right) || fraction::sum_reaches_one(
        pad.top,
        pad.bottom,
    ) {
        Padding::default()
    } else {
        pad
    }
}

/// The insets in force always leave something of the span.
pub proof fn lemma_span_is_left(pad: Padding)
    ensures
        !is_degenerate(insets_in_force(pad)),
{
    fraction::lemma_units_monotone(0, fraction::ONE - 1);
    fraction::lemma_units_monotone(0, fraction::ONE as int);
}

/// An authored extent, at least one unit.
pub open spec fn at_least_one(extent: u16) -> u16 {
    if extent == 0 {
        1
    } else {
        extent
    }
}

/// The advance width and the line height that the outline is scaled by; an
/// extent of zero counts as one.
pub fn authored_extents(sizing: &SizingParams) -> (r: (u16, u16))
    ensures
        r == (at_least_one(sizing.aw), at_least_one(sizing.lh)),
{
    let aw: u16 = if sizing.aw == 0 { 1 } else { sizing.aw };
    let lh: u16 = if sizing.lh == 0 { 1 } else { sizing.lh };
    (aw, lh)
}

/// The authored x-coordinate that `align` pins down, in half units, and the
/// line of the span that it goes to: left edge to left edge, middle to middle,
/// or right edge to right edge of `[0, aw]`.
pub open spec fn h_anchor(aw: u16, align: HAlign) -> (int, HEdge) {
    match align {
        HAlign::Start => (0, HEdge::Left),
        HAlign::Center => (aw as int, HEdge::Middle),
        HAlign::End => (2 * aw, HEdge::Right),
    }
}

/// The authored y-coordinate (upwards) that `align` pins down, in half units,
/// and the line of the span that it goes to: bottom to bottom, middle to middle
/// or top to top of `[y_min, y_max]`, or zero to the baseline.
pub open spec fn v_anchor(y_min: i16, y_max: i16, align: VAlign) -> (int, VEdge) {
    match align {
        VAlign::Start => (2 * y_min, VEdge::Bottom),
        VAlign::Center => (y_min + y_max, VEdge::Middle),
        VAlign::End => (2 * y_max, VEdge::Top),
        VAlign::Baseline => (0, VEdge::Baseline),
    }
}

/// Choose the anchor of an outline whose authored vertical bounds are
/// `[y_min, y_max]`, under `sizing`.
pub fn anchor(y_min: i16, y_max: i16, sizing: &SizingParams) -> (r: Anchor)
    ensures
        (r.x as int, r.h_edge) == h_anchor(at_least_one(sizing.aw), sizing.align_h),
        (r.y as int, r.v_edge) == v_anchor(y_min, y_max, sizing.align_v),
{
    let (aw, _) = authored_extents(sizing);
    let (x, h_edge) = match sizing.align_h {
        HAlign::Start => (0, HEdge::Left),
        HAlign::Center => (aw as i32, HEdge::Middle),
        HAlign::End => (2 * aw as i32, HEdge::Right),
    };
    let (y, v_edge) = match sizing.align_v {
        VAlign::Start => (2 * y_min as i32, VEdge::Bottom),
        VAlign::Center => (y_min as i32 + y_max as i32, VEdge::Middle),
        VAlign::End => (2 * y_max as i32, VEdge::Top),
        VAlign::Baseline => (0, VEdge::Baseline),
    };
    Anchor { x, h_edge, y, v_edge }
}

} // verus!
