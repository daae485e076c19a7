//! Laws of the decoders and of what is painted.

use crate::colr;
use crate::colr::{ContainerView, PaintPlan};
use crate::glyf;
use crate::glyf::{DecodeError, GlyphHeaderView, OutlineView};
use crate::raster;
use vstd::prelude::*;

verus! {

// ---- simple glyphs -------------------------------------------------------

/// Every decoded point keeps the reader's coordinates and flag: the contours in
/// a row are the reader's points in a row.
pub proof fn lemma_points_keep_coordinates(
    header: GlyphHeaderView,
    points: Seq<(i16, i16, bool)>,
)
    requires
        header.end_pts.len() > 0,
        glyf::assembled(header, points) is Ok,
    ensures
        ({
            let flat = glyf::assembled(header, points)->Ok_0.contours.flatten_alt();
            &&& flat.len() == points.len()
            &&& forall|k: int|
                0 <= k < points.len() ==> (#[trigger] flat[k]).x == points[k].0 && flat[k].y
                    == points[k].1 && flat[k].on_curve == points[k].2
        }),
{
    glyf::lemma_contours_share_out_points(header, points);
}

/// Contour `i` runs from just after the end of the contour before it to its own
/// end, both counted in the reader's points, and keeps their coordinates and
/// flags. The bounding box is the header's.
pub proof fn lemma_contours_run_between_ends(
    header: GlyphHeaderView,
    points: Seq<(i16, i16, bool)>,
)
    requires
        glyf::assembled(header, points) is Ok,
    ensures
        ({
            let outline = glyf::assembled(header, points)->Ok_0;
            let ends = header.end_pts;
            &&& outline.contours.len() == ends.len()
            &&& forall|i: int|
                #![trigger outline.contours[i]]
                0 <= i < ends.len() ==> {
                    let start = if i == 0 {
                        0
                    } else {
                        ends[i - 1] + 1
                    };
                    &&& outline.contours[i].len() == ends[i] + 1 - start
                    &&& outline.contours[i].len() > 0
                    &&& forall|k: int|
                        0 <= k < outline.contours[i].len() ==> {
                            &&& (#[trigger] outline.contours[i][k]).x == points[start + k].0
                            &&& outline.contours[i][k].y == points[start + k].1
                            &&& outline.contours[i][k].on_curve == points[start + k].2
                        }
                }
            &&& outline.x_min == header.x_min
            &&& outline.y_min == header.y_min
            &&& outline.x_max == header.x_max
            &&& outline.y_max == header.y_max
        }),
{
    let ends = header.end_pts;
    let outline = glyf::assembled(header, points)->Ok_0;
    assert forall|i: int| #![trigger outline.contours[i]] 0 <= i < ends.len() implies {
        let start = if i == 0 {
            0
        } else {
            ends[i - 1] + 1
        };
        &&& outline.contours[i].len() == ends[i] + 1 - start
        &&& outline.contours[i].len() > 0
        &&& forall|k: int|
            0 <= k < outline.contours[i].len() ==> {
                &&& (#[trigger] outline.contours[i][k]).x == points[start + k].0
                &&& outline.contours[i][k].y == points[start + k].1
                &&& outline.contours[i][k].on_curve == points[start + k].2
            }
    } by {
        if i > 0 {
            assert(ends[i - 1] < ends[i]);
        }
        if i < ends.len() - 1 {
            assert(ends[i] < ends[ends.len() - 1]);
        }
        assert(outline.contours[i] == glyf::contour(ends, points, i));
    }
}

/// The numbers of a record that decodes are the big-endian numbers in its
/// bytes: the bounding box in two's complement, and as many contours as it
/// announces, where their ends are all there.
pub proof fn lemma_decoded_record(data: Seq<u8>)
    requires
        glyf::decoded(data) is Ok,
    ensures
        ({
            let outline = glyf::decoded(data)->Ok_0;
            let count = data[0] * 256 + data[1];
            &&& data.len() >= 12
            &&& data[0] < 0x80
            &&& (outline.x_min + 65536) % 65536 == data[2] * 256 + data[3]
            &&& (outline.y_min + 65536) % 65536 == data[4] * 256 + data[5]
            &&& (outline.x_max + 65536) % 65536 == data[6] * 256 + data[7]
            &&& (outline.y_max + 65536) % 65536 == data[8] * 256 + data[9]
            &&& 10 + 2 * count <= data.len() ==> outline.contours.len() == count
            &&& 12 + 2 * count <= data.len() ==> data[10 + 2 * count] == 0 && data[11 + 2 * count]
                == 0
        }),
{
    let count = data[0] * 256 + data[1];
    assert(glyf::contour_count(data) == count);
}

/// Where the end of contour `i` is written in the record `data`, as a number.
pub open spec fn written_end(data: Seq<u8>, i: int) -> int {
    data[10 + 2 * i] * 256 + data[11 + 2 * i]
}

/// The contours of a record that decodes are those that its ends mark off in the
/// reader's points, which they use up: contour `i` runs from just after the end
/// before it to its own end, and keeps the coordinates and flags. Where the ends
/// are not all there, there are no contours.
pub proof fn lemma_decoded_contours(data: Seq<u8>)
    requires
        glyf::decoded(data) is Ok,
    ensures
        ({
            let contours = glyf::decoded(data)->Ok_0.contours;
            let points = glyf::curve_points(data);
            let count = data[0] * 256 + data[1];
            &&& 10 + 2 * count > data.len() ==> contours.len() == 0
            &&& 10 + 2 * count <= data.len() ==> {
                &&& contours.len() == count
                &&& count > 0 ==> points.len() == written_end(data, count - 1) + 1
                &&& forall|i: int|
                    #![trigger contours[i]]
                    0 <= i < count ==> {
                        let start = if i == 0 {
                            0
                        } else {
                            written_end(data, i - 1) + 1
                        };
                        &&& contours[i].len() == written_end(data, i) + 1 - start
                        &&& contours[i].len() > 0
                        &&& forall|k: int|
                            0 <= k < contours[i].len() ==> {
                                &&& (#[trigger] contours[i][k]).x == points[start + k].0
                                &&& contours[i][k].y == points[start + k].1
                                &&& contours[i][k].on_curve == points[start + k].2
                            }
                    }
            }
        }),
{
    let header = glyf::header_of(data);
    let count = data[0] * 256 + data[1];
    assert(glyf::contour_count(data) == count);
    lemma_contours_run_between_ends(header, glyf::curve_points(data));
    if 10 + 2 * count <= data.len() {
        assert forall|i: int| 0 <= i < count implies #[trigger] header.end_pts[i] == written_end(
            data,
            i,
        ) by {}
    }
}

/// A record decodes exactly where it is long enough, is neither composite nor
/// hinted, and its ends, if there are any, increase and use up the reader's
/// points.
pub proof fn lemma_what_decodes(data: Seq<u8>)
    ensures
        ({
            let count = data[0] * 256 + data[1];
            let at = 10 + 2 * count;
            glyf::decoded(data) is Ok <==> {
                &&& data.len() >= 12
                &&& data[0] < 0x80
                &&& at + 2 <= data.len() ==> data[at] == 0 && data[at + 1] == 0
                &&& at <= data.len() && count > 0 ==> {
                    &&& glyf::curve_points(data).len() == written_end(data, count - 1) + 1
                    &&& forall|i: int|
                        0 < i < count ==> written_end(data, i - 1) < #[trigger] written_end(data, i)
                }
            }
        }),
{
    let header = glyf::header_of(data);
    let points = glyf::curve_points(data);
    let count = data[0] * 256 + data[1];
    if data.len() >= 12 && data[0] < 0x80 {
        assert(glyf::contour_count(data) == count);
        assert(glyf::decoded(data) == glyf::assembled(header, points));
        lemma_what_assembles(header, points);
        assert(header.instruction_length == 0 <==> (10 + 2 * count + 2 <= data.len() ==> data[10
            + 2 * count] == 0 && data[10 + 2 * count + 1] == 0));
        if 10 + 2 * count <= data.len() {
            let ends = header.end_pts;
            assert(ends.len() == count);
            assert forall|i: int| 0 <= i < count implies #[trigger] ends[i] == written_end(
                data,
                i,
            ) by {}
            lemma_ends_agree(data, ends);
        }
    }
}

proof fn lemma_ends_agree(data: Seq<u8>, ends: Seq<u16>)
    requires
        forall|i: int| 0 <= i < ends.len() ==> #[trigger] ends[i] == written_end(data, i),
    ensures
        (forall|i: int| 0 < i < ends.len() ==> ends[i - 1] < #[trigger] ends[i]) <==> (forall|i: int|
            0 < i < ends.len() ==> written_end(data, i - 1) < #[trigger] written_end(data, i)),
{
    if forall|i: int| 0 < i < ends.len() ==> ends[i - 1] < #[trigger] ends[i] {
        assert forall|i: int| 0 < i < ends.len() implies written_end(data, i - 1)
            < #[trigger] written_end(data, i) by {
            assert(ends[i - 1] < ends[i]);
        }
    }
    if forall|i: int|
        0 < i < ends.len() ==> written_end(data, i - 1) < #[trigger] written_end(data, i) {
        assert forall|i: int| 0 < i < ends.len() implies ends[i - 1] < #[trigger] ends[i] by {
            assert(written_end(data, i - 1) < written_end(data, i));
            assert(ends[i - 1] == written_end(data, i - 1));
        }
    }
}

/// Composite records are refused as that, and no others: those that begin with a
/// negative number and are long enough to begin with one and a bounding box.
pub proof fn lemma_composite_records(data: Seq<u8>)
    ensures
        glyf::decoded(data) == Err::<OutlineView, DecodeError>(DecodeError::Composite)
            <==> data.len() >= 10 && data[0] >= 0x80,
{
}

/// Hinted records are refused as that, and no others: simple records whose
/// instruction length is there and not zero.
pub proof fn lemma_hinted_records(data: Seq<u8>)
    ensures
        ({
            let at = 10 + 2 * (data[0] * 256 + data[1]);
            glyf::decoded(data) == Err::<OutlineView, DecodeError>(DecodeError::Hinted)
                <==> data.len() >= 12 && data[0] < 0x80 && at + 2 <= data.len() && (data[at] != 0
                || data[at + 1] != 0)
        }),
{
    assert(data[0] < 0x80 ==> glyf::contour_count(data) == data[0] * 256 + data[1]);
}

/// A header and points go together exactly where there are no hints, the ends
/// increase, and the last end is that of the last point.
pub proof fn lemma_what_assembles(header: GlyphHeaderView, points: Seq<(i16, i16, bool)>)
    ensures
        ({
            let ends = header.end_pts;
            glyf::assembled(header, points) is Ok <==> header.instruction_length == 0 && (
            ends.len() == 0 || points.len() == ends[ends.len() - 1] + 1) && (forall|i: int|
                0 < i < ends.len() ==> ends[i - 1] < #[trigger] ends[i])
        }),
{
    let ends = header.end_pts;
    if forall|i: int| 0 < i < ends.len() ==> ends[i - 1] < #[trigger] ends[i] {
        assert forall|i: int, j: int| 0 <= i < j < ends.len() implies ends[i] < ends[j] by {
            lemma_steps_increase(ends, i, j);
        }
    }
}

proof fn lemma_steps_increase(ends: Seq<u16>, i: int, j: int)
    requires
        0 <= i < j < ends.len(),
        forall|k: int| 0 < k < ends.len() ==> ends[k - 1] < #[trigger] ends[k],
    ensures
        ends[i] < ends[j],
    decreases j - i,
{
    assert(ends[j - 1] < ends[j]);
    if i < j - 1 {
        lemma_steps_increase(ends, i, j - 1);
    }
}

// ---- layers --------------------------------------------------------------

/// The shared bounds are those of the union: no layer reaches beyond them, and
/// some layer reaches each of them.
pub proof fn lemma_bounds_are_attained(layers: Seq<(OutlineView, Seq<u8>)>)
    requires
        layers.len() > 0,
    ensures
        forall|i: int|
            0 <= i < layers.len() ==> colr::lowest(layers) <= (#[trigger] layers[i]).0.y_min
                && layers[i].0.y_max <= colr::highest(layers),
        exists|i: int|
            0 <= i < layers.len() && (#[trigger] layers[i]).0.y_min == colr::lowest(layers),
        exists|i: int|
            0 <= i < layers.len() && (#[trigger] layers[i]).0.y_max == colr::highest(layers),
    decreases layers.len(),
{
    colr::lemma_bounds_hold_layers(layers);
    let n = layers.len() - 1;
    if n == 0 {
        assert(layers[0].0.y_min == colr::lowest(layers));
        assert(layers[0].0.y_max == colr::highest(layers));
    } else {
        let before = layers.drop_last();
        lemma_bounds_are_attained(before);
        let a = choose|i: int|
            0 <= i < before.len() && (#[trigger] before[i]).0.y_min == colr::lowest(before);
        let b = choose|i: int|
            0 <= i < before.len() && (#[trigger] before[i]).0.y_max == colr::highest(before);
        assert(layers[a] == before[a] && layers[b] == before[b]);
        assert(layers[n] == layers.last());
        assert(layers[a].0.y_min == colr::lowest(layers) || layers[n].0.y_min == colr::lowest(
            layers,
        ));
        assert(layers[b].0.y_max == colr::highest(layers) || layers[n].0.y_max == colr::highest(
            layers,
        ));
    }
}

/// A plan lists what is painted, outline by outline, each in its color. Its
/// bounds are those of the layers that it lists: none reaches beyond them, and
/// some layer reaches each. It lists one layer at least, and has a height.
pub proof fn lemma_plan_bounds(plan: PaintPlan, c: ContainerView, fg: Seq<u8>)
    requires
        colr::plans(Some(plan), c, fg),
    ensures
        plan.layers@.len() > 0,
        plan.layers@.len() == colr::painted_layers(c, fg).len(),
        forall|i: int|
            0 <= i < plan.layers@.len() ==> (#[trigger] plan.layers@[i]).outline@
                == colr::painted_layers(c, fg)[i].0 && plan.layers@[i].color@
                == colr::painted_layers(c, fg)[i].1,
        plan.y_min < plan.y_max,
        forall|i: int|
            0 <= i < plan.layers@.len() ==> plan.y_min <= (
            #[trigger] plan.layers@[i]).outline.y_min && plan.layers@[i].outline.y_max
                <= plan.y_max,
        exists|i: int|
            0 <= i < plan.layers@.len() && (#[trigger] plan.layers@[i]).outline.y_min
                == plan.y_min,
        exists|i: int|
            0 <= i < plan.layers@.len() && (#[trigger] plan.layers@[i]).outline.y_max
                == plan.y_max,
{
    let painted = colr::painted_layers(c, fg);
    assert(plan.layer_views() == painted);
    assert(painted.len() == plan.layers@.len());
    assert(forall|i: int|
        0 <= i < painted.len() ==> #[trigger] painted[i] == plan.layers@[i]@);
    lemma_bounds_are_attained(painted);
    let a = choose|i: int|
        0 <= i < painted.len() && (#[trigger] painted[i]).0.y_min == colr::lowest(painted);
    let b = choose|i: int|
        0 <= i < painted.len() && (#[trigger] painted[i]).0.y_max == colr::highest(painted);
    assert forall|i: int| 0 <= i < plan.layers@.len() implies (
    #[trigger] plan.layers@[i]).outline@ == painted[i].0 && plan.layers@[i].color@
        == painted[i].1 by {
        assert(painted[i] == plan.layers@[i]@);
    }
    assert(plan.layers@[a].outline.y_min == plan.y_min);
    assert(plan.layers@[b].outline.y_max == plan.y_max);
    assert forall|i: int| 0 <= i < plan.layers@.len() implies plan.y_min <= (
    #[trigger] plan.layers@[i]).outline.y_min && plan.layers@[i].outline.y_max <= plan.y_max by {
        assert(painted[i] == plan.layers@[i]@);
    }
}

/// Where there is no plan, nothing is painted, or no painted layer reaches above
/// the bottom of any.
pub proof fn lemma_no_plan(c: ContainerView, fg: Seq<u8>, i: int, j: int)
    requires
        colr::plans(None, c, fg),
        0 <= i < colr::painted_layers(c, fg).len(),
        0 <= j < colr::painted_layers(c, fg).len(),
    ensures
        colr::painted_layers(c, fg)[i].0.y_max <= colr::painted_layers(c, fg)[j].0.y_min,
{
    colr::lemma_bounds_hold_layers(colr::painted_layers(c, fg));
}

/// What one layer contributes: the outline of its glyph in its color, or
/// nothing.
pub open spec fn contribution(c: ContainerView, layer: (u16, u16), fg: Seq<u8>) -> Seq<
    (OutlineView, Seq<u8>),
> {
    if layer.0 >= c.glyphs.len() {
        Seq::empty()
    } else {
        match glyf::decoded(c.glyphs[layer.0 as int]) {
            Ok(outline) => seq![
                (
                    outline,
                    if layer.1 == 0xffff {
                        fg
                    } else {
                        match colr::palette_entry(c.cpal, layer.1) {
                            Some(color) => color,
                            None => fg,
                        }
                    },
                ),
            ],
            Err(_) => Seq::empty(),
        }
    }
}

/// Layers are painted in the order in which they are listed, each on its own:
/// lists in a row are painted in a row, and a single layer contributes its
/// glyph's outline in its own color, if the glyph is there and decodes.
pub proof fn lemma_layers_are_painted_in_order(
    c: ContainerView,
    a: Seq<(u16, u16)>,
    b: Seq<(u16, u16)>,
    layer: (u16, u16),
    fg: Seq<u8>,
)
    ensures
        colr::listed_layers(c, a + b, fg) == colr::listed_layers(c, a, fg) + colr::listed_layers(
            c,
            b,
            fg,
        ),
        colr::listed_layers(c, seq![layer], fg) == contribution(c, layer, fg),
    decreases b.len(),
{
    assert(seq![layer].drop_last() =~= Seq::empty());
    assert(colr::listed_layers(c, Seq::<(u16, u16)>::empty(), fg) =~= Seq::empty());
    assert(colr::listed_layers(c, seq![layer], fg) =~= contribution(c, layer, fg));
    if b.len() == 0 {
        assert(a + b =~= a);
    } else {
        assert((a + b).drop_last() =~= a + b.drop_last());
        assert((a + b).last() == b.last());
        lemma_layers_are_painted_in_order(c, a, b.drop_last(), layer, fg);
        assert(colr::listed_layers(c, a + b, fg) =~= colr::listed_layers(c, a, fg)
            + colr::listed_layers(c, b, fg));
    }
    assert(colr::listed_layers(c, a + b, fg) =~= colr::listed_layers(c, a, fg)
        + colr::listed_layers(c, b, fg));
}

/// A container is painted by its layer list where it has one that is not empty,
/// and else by its first glyph's outline alone, in the foreground.
pub proof fn lemma_what_is_painted(c: ContainerView, fg: Seq<u8>)
    ensures
        match colr::layer_list(c.colr, 0) {
            Some(layers) => layers.len() > 0 ==> colr::painted_layers(c, fg)
                == colr::listed_layers(c, layers, fg),
            None => true,
        },
        (colr::layer_list(c.colr, 0) is None || colr::layer_list(c.colr, 0).unwrap().len() == 0)
            ==> colr::painted_layers(c, fg) == if c.glyphs.len() == 0 {
            Seq::empty()
        } else {
            match glyf::decoded(c.glyphs[0]) {
                Ok(outline) => seq![(outline, fg)],
                Err(_) => Seq::empty(),
            }
        },
{
}

/// A painted layer that takes the foreground shows it: two foregrounds paint
/// differently.
pub proof fn lemma_foreground_shows(
    c: ContainerView,
    layers: Seq<(u16, u16)>,
    i: int,
    fg: Seq<u8>,
    other: Seq<u8>,
)
    requires
        0 <= i < layers.len(),
        layers[i].0 < c.glyphs.len(),
        glyf::decoded(c.glyphs[layers[i].0 as int]) is Ok,
        layers[i].1 == 0xffff || colr::palette_entry(c.cpal, layers[i].1) is None,
        fg != other,
    ensures
        colr::listed_layers(c, layers, fg) != colr::listed_layers(c, layers, other),
    decreases layers.len(),
{
    let before = layers.drop_last();
    lemma_same_length(c, before, fg, other);
    let a = colr::listed_layers(c, layers, fg);
    let b = colr::listed_layers(c, layers, other);
    if i < layers.len() - 1 {
        assert(before[i] == layers[i]);
        lemma_foreground_shows(c, before, i, fg, other);
        let n = colr::listed_layers(c, before, fg).len() as int;
        if a == b {
            assert(a.take(n) =~= colr::listed_layers(c, before, fg));
            assert(b.take(n) =~= colr::listed_layers(c, before, other));
        }
    } else {
        assert(a.last().1 == fg && b.last().1 == other);
    }
}

proof fn lemma_same_length(c: ContainerView, layers: Seq<(u16, u16)>, fg: Seq<u8>, other: Seq<u8>)
    ensures
        colr::listed_layers(c, layers, fg).len() == colr::listed_layers(c, layers, other).len(),
    decreases layers.len(),
{
    if layers.len() > 0 {
        lemma_same_length(c, layers.drop_last(), fg, other);
    }
}

/// A container does not use the foreground where it has layers, none of them is
/// given the sentinel, and the palette has an entry for each that is painted.
pub proof fn lemma_no_foreground(c: ContainerView, layers: Seq<(u16, u16)>)
    requires
        colr::layer_list(c.colr, 0) == Some(layers),
        layers.len() > 0,
        forall|i: int|
            0 <= i < layers.len() ==> (#[trigger] layers[i]).1 != 0xffff && (layers[i].0
                < c.glyphs.len() && glyf::decoded(c.glyphs[layers[i].0 as int]) is Ok
                ==> colr::palette_entry(c.cpal, layers[i].1) is Some),
    ensures
        !colr::references_foreground(c),
{
}

/// A container uses the foreground exactly where it has no layers, a layer is
/// given the sentinel, or a layer that is painted has no entry in the palette.
/// So does a payload that holds no container.
pub proof fn lemma_uses_foreground(raw: Seq<u8>)
    ensures
        colr::payload_references_foreground(raw) <==> match colr::container(raw) {
            None => true,
            Some(c) => match colr::layer_list(c.colr, 0) {
                None => true,
                Some(layers) => layers.len() == 0 || exists|i: int|
                    0 <= i < layers.len() && ((#[trigger] layers[i]).1 == 0xffff || (layers[i].0
                        < c.glyphs.len() && glyf::decoded(c.glyphs[layers[i].0 as int]) is Ok
                        && colr::palette_entry(c.cpal, layers[i].1) is None)),
            },
        },
{
    if let Some(c) = colr::container(raw) {
        if let Some(layers) = colr::layer_list(c.colr, 0) {
            if layers.len() > 0 && colr::references_foreground(c) {
                let i = choose|i: int|
                    0 <= i < layers.len() && colr::takes_foreground(c, #[trigger] layers[i]);
                assert(layers[i].1 == 0xffff || colr::palette_entry(c.cpal, layers[i].1) is None);
            }
            if exists|i: int|
                0 <= i < layers.len() && ((#[trigger] layers[i]).1 == 0xffff || (layers[i].0
                    < c.glyphs.len() && glyf::decoded(c.glyphs[layers[i].0 as int]) is Ok
                    && colr::palette_entry(c.cpal, layers[i].1) is None)) {
                let i = choose|i: int|
                    0 <= i < layers.len() && ((#[trigger] layers[i]).1 == 0xffff || (layers[i].0
                        < c.glyphs.len() && glyf::decoded(c.glyphs[layers[i].0 as int]) is Ok
                        && colr::palette_entry(c.cpal, layers[i].1) is None));
                assert(colr::takes_foreground(c, layers[i]));
            }
        }
    }
}

/// A container as it is written: how many glyphs, then the glyphs, the layer
/// table and the palette, each after its length.
pub open spec fn written_container(glyphs: Seq<Seq<u8>>, layers: Seq<u8>, palette: Seq<u8>) -> Seq<
    u8,
> {
    two_bytes(glyphs.len() as int) + written_glyphs(glyphs) + two_bytes(layers.len() as int)
        + layers + two_bytes(palette.len() as int) + palette
}

/// Glyphs in a row, each after its length.
pub open spec fn written_glyphs(glyphs: Seq<Seq<u8>>) -> Seq<u8>
    decreases glyphs.len(),
{
    if glyphs.len() == 0 {
        Seq::empty()
    } else {
        two_bytes(glyphs[0].len() as int) + glyphs[0] + written_glyphs(glyphs.drop_first())
    }
}

proof fn lemma_written_glyphs(glyphs: Seq<Seq<u8>>)
    ensures
        colr::blocks_bytes(glyphs) == written_glyphs(glyphs),
    decreases glyphs.len(),
{
    if glyphs.len() == 1 {
        assert(glyphs.drop_last() =~= Seq::empty());
        assert(glyphs.drop_first() =~= Seq::empty());
        assert(colr::blocks_bytes(glyphs.drop_last()) =~= Seq::empty());
        assert(written_glyphs(glyphs.drop_first()) =~= Seq::empty());
        assert(colr::blocks_bytes(glyphs) =~= written_glyphs(glyphs));
    } else if glyphs.len() > 1 {
        let first = glyphs[0];
        let last = glyphs.last();
        let middle = glyphs.drop_last().drop_first();
        lemma_written_glyphs(glyphs.drop_last());
        lemma_written_glyphs(glyphs.drop_first());
        lemma_written_glyphs(middle);
        assert(glyphs.drop_first().drop_last() =~= middle);
        assert(glyphs.drop_first().last() == last);
        assert(colr::blocks_bytes(glyphs.drop_first()) =~= colr::blocks_bytes(middle)
            + colr::block_bytes(last));
        assert(colr::blocks_bytes(glyphs) =~= written_glyphs(glyphs));
    }
}

/// What was written as a container is read as that container, whatever its
/// glyphs, its layer table and its palette hold, where there are glyphs, not too
/// many, and a layer table.
pub proof fn lemma_written_container_is_read(c: ContainerView)
    requires
        0 < c.glyphs.len() <= 1024,
        forall|i: int| 0 <= i < c.glyphs.len() ==> (#[trigger] c.glyphs[i]).len() <= 0xffff,
        0 < c.colr.len() <= 0xffff,
        c.cpal.len() <= 0xffff,
    ensures
        colr::container(written_container(c.glyphs, c.colr, c.cpal)) == Some(c),
{
    lemma_written_glyphs(c.glyphs);
    colr::lemma_written_container_parses(c);
    assert(colr::container_bytes(c) =~= written_container(c.glyphs, c.colr, c.cpal));
}

/// A container holds at most as many glyphs as the limit, and one at least, and
/// a layer table that is not empty.
pub proof fn lemma_container_limits(data: Seq<u8>)
    requires
        colr::container(data) is Some,
    ensures
        0 < colr::container(data).unwrap().glyphs.len() <= 1024,
        colr::container(data).unwrap().colr.len() > 0,
{
    colr::lemma_parsed_container_is_its_bytes(data);
}

// ---- layer tables --------------------------------------------------------

/// `n` as a big-endian number of two bytes.
pub open spec fn two_bytes(n: int) -> Seq<u8> {
    seq![(n / 256) as u8, (n % 256) as u8]
}

/// A COLR v0 table as it is written: its header, then the base glyph records
/// (glyph, first layer, number of layers), then the layer records (glyph,
/// palette index).
pub open spec fn layer_table(bases: Seq<(u16, u16, u16)>, layers: Seq<(u16, u16)>) -> Seq<u8> {
    two_bytes(0) + two_bytes(bases.len() as int) + seq![0u8, 0, 0, 14] + two_bytes(
        (14 + 6 * bases.len()) as int / 65536,
    ) + two_bytes((14 + 6 * bases.len()) as int % 65536) + two_bytes(layers.len() as int) + base_bytes(
        bases,
    ) + layer_bytes(layers)
}

/// Base glyph records in a row.
pub open spec fn base_bytes(bases: Seq<(u16, u16, u16)>) -> Seq<u8> {
    Seq::new(
        6 * bases.len(),
        |k: int|
            {
                let b = bases[k / 6];
                let n = if k % 6 < 2 {
                    b.0
                } else if k % 6 < 4 {
                    b.1
                } else {
                    b.2
                };
                two_bytes(n as int)[k % 2]
            },
    )
}

/// Layer records in a row.
pub open spec fn layer_bytes(layers: Seq<(u16, u16)>) -> Seq<u8> {
    Seq::new(
        4 * layers.len(),
        |k: int|
            {
                let l = layers[k / 4];
                let n = if k % 4 < 2 {
                    l.0
                } else {
                    l.1
                };
                two_bytes(n as int)[k % 2]
            },
    )
}

#[verifier::spinoff_prover]
#[verifier::rlimit(40)]
proof fn lemma_table_numbers(bases: Seq<(u16, u16, u16)>, layers: Seq<(u16, u16)>)
    requires
        bases.len() <= 0xffff,
        layers.len() <= 0xffff,
    ensures
        ({
            let t = layer_table(bases, layers);
            &&& t.len() == 14 + 6 * bases.len() + 4 * layers.len()
            &&& crate::bytes::be16(t, 0) == 0
            &&& crate::bytes::be16(t, 2) == bases.len()
            &&& crate::bytes::be32(t, 4) == 14
            &&& crate::bytes::be32(t, 8) == 14 + 6 * bases.len()
            &&& crate::bytes::be16(t, 12) == layers.len()
            &&& forall|i: int|
                #![trigger bases[i]]
                0 <= i < bases.len() ==> {
                    &&& crate::bytes::be16(t, 14 + 6 * i) == bases[i].0
                    &&& crate::bytes::be16(t, 14 + 6 * i + 2) == bases[i].1
                    &&& crate::bytes::be16(t, 14 + 6 * i + 4) == bases[i].2
                }
            &&& forall|j: int|
                #![trigger layers[j]]
                0 <= j < layers.len() ==> {
                    &&& crate::bytes::be16(t, 14 + 6 * bases.len() + 4 * j) == layers[j].0
                    &&& crate::bytes::be16(t, 14 + 6 * bases.len() + 4 * j + 2) == layers[j].1
                }
        }),
{
    let t = layer_table(bases, layers);
    let bb = base_bytes(bases);
    let lb = layer_bytes(layers);
    let nb = bases.len() as int;
    assert(forall|k: int| 0 <= k < 6 * nb ==> t[14 + k] == #[trigger] bb[k]);
    assert(forall|k: int| 0 <= k < 4 * layers.len() ==> t[14 + 6 * nb + k] == #[trigger] lb[k]);
    assert forall|i: int| #![trigger bases[i]] 0 <= i < bases.len() implies {
        &&& crate::bytes::be16(t, 14 + 6 * i) == bases[i].0
        &&& crate::bytes::be16(t, 14 + 6 * i + 2) == bases[i].1
        &&& crate::bytes::be16(t, 14 + 6 * i + 4) == bases[i].2
    } by {
        assert(t[14 + 6 * i] == bb[6 * i] && t[14 + (6 * i + 1)] == bb[6 * i + 1]);
        assert(t[14 + (6 * i + 2)] == bb[6 * i + 2] && t[14 + (6 * i + 3)] == bb[6 * i + 3]);
        assert(t[14 + (6 * i + 4)] == bb[6 * i + 4] && t[14 + (6 * i + 5)] == bb[6 * i + 5]);
    }
    assert forall|j: int| #![trigger layers[j]] 0 <= j < layers.len() implies {
        &&& crate::bytes::be16(t, 14 + 6 * bases.len() + 4 * j) == layers[j].0
        &&& crate::bytes::be16(t, 14 + 6 * bases.len() + 4 * j + 2) == layers[j].1
    } by {
        let o = 14 + 6 * nb;
        assert(t[o + 4 * j] == lb[4 * j] && t[o + (4 * j + 1)] == lb[4 * j + 1]);
        assert(t[o + (4 * j + 2)] == lb[4 * j + 2] && t[o + (4 * j + 3)] == lb[4 * j + 3]);
    }
}

/// Whether the table `t` has the base glyph records `bases`, right after its
/// header.
spec fn has_bases(t: Seq<u8>, bases: Seq<(u16, u16, u16)>) -> bool {
    &&& t.len() >= 14 + 6 * bases.len()
    &&& crate::bytes::be16(t, 2) == bases.len()
    &&& crate::bytes::be32(t, 4) == 14
    &&& forall|i: int|
        0 <= i < bases.len() ==> crate::bytes::be16(t, 14 + 6 * i) == (#[trigger] bases[i]).0
}

proof fn lemma_base_found(t: Seq<u8>, bases: Seq<(u16, u16, u16)>, at: int, i: int)
    requires
        has_bases(t, bases),
        0 <= i <= at < bases.len(),
        forall|k: int| 0 <= k < at ==> (#[trigger] bases[k]).0 != bases[at].0,
    ensures
        colr::base_record(t, bases[at].0, i) == Some(14 + 6 * at),
    decreases at - i,
{
    assert(crate::bytes::be16(t, 14 + 6 * i) == bases[i].0);
    if i < at {
        lemma_base_found(t, bases, at, i + 1);
    }
}

proof fn lemma_base_missing(t: Seq<u8>, bases: Seq<(u16, u16, u16)>, base: u16, i: int)
    requires
        has_bases(t, bases),
        0 <= i <= bases.len(),
        forall|k: int| 0 <= k < bases.len() ==> (#[trigger] bases[k]).0 != base,
    ensures
        colr::base_record(t, base, i) is None,
    decreases bases.len() - i,
{
    if i < bases.len() {
        assert(bases[i].0 != base);
        lemma_base_missing(t, bases, base, i + 1);
    }
}

/// A layer table that was written gives back, for a glyph, the layers that the
/// first record of that glyph names, in order; nothing where that record names
/// layers that are not there, or the glyph has no record.
pub proof fn lemma_written_layers_are_read(
    bases: Seq<(u16, u16, u16)>,
    layers: Seq<(u16, u16)>,
    at: int,
    base: u16,
)
    requires
        bases.len() <= 0xffff,
        layers.len() <= 0xffff,
        0 <= at <= bases.len(),
        at < bases.len() ==> bases[at].0 == base,
        forall|k: int| 0 <= k < at ==> (#[trigger] bases[k]).0 != base,
    ensures
        colr::layer_list(layer_table(bases, layers), base) == if at == bases.len() {
            None
        } else if bases[at].2 > 0 && bases[at].1 + bases[at].2 > layers.len() {
            None
        } else {
            Some(
                if bases[at].2 == 0 {
                    Seq::empty()
                } else {
                    layers.subrange(bases[at].1 as int, bases[at].1 + bases[at].2)
                },
            )
        },
{
    let t = layer_table(bases, layers);
    lemma_table_numbers(bases, layers);
    if at == bases.len() {
        lemma_base_missing(t, bases, base, 0);
    } else {
        lemma_base_found(t, bases, at, 0);
        let first = bases[at].1 as int;
        let n = bases[at].2 as int;
        assert(crate::bytes::be16(t, 14 + 6 * at + 2) == first);
        assert(crate::bytes::be16(t, 14 + 6 * at + 4) == n);
        if n > 0 && first + n > layers.len() {
            assert(!colr::layer_present(t, first + (n - 1)));
        } else {
            assert forall|j: int| 0 <= j < n implies #[trigger] colr::layer_present(
                t,
                first + j,
            ) by {}
            let list = Seq::new(n as nat, |j: int| colr::layer_record(t, first + j));
            if n > 0 {
                assert forall|j: int| 0 <= j < n implies list[j] == layers[first + j] by {
                    assert(layers[first + j].0 == crate::bytes::be16(
                        t,
                        14 + 6 * bases.len() + 4 * (first + j),
                    ));
                }
                assert(list =~= layers.subrange(first, first + n));
            } else {
                assert(list =~= Seq::empty());
            }
        }
    }
}

/// The big-endian number that the two bytes of `t` at `at` write.
pub open spec fn pair(t: Seq<u8>, at: int) -> int {
    t[at] * 256 + t[at + 1]
}

/// Whether the bytes of `t` say that there are the base glyph records `bases` at
/// `bases_at` and the layer records `layers` at `layers_at`, as far as `t` goes.
pub open spec fn says_layers(
    t: Seq<u8>,
    bases: Seq<(u16, u16, u16)>,
    bases_at: int,
    layers: Seq<(u16, u16)>,
    layers_at: int,
) -> bool {
    &&& t.len() >= 14
    &&& pair(t, 0) == 0
    &&& pair(t, 2) == bases.len()
    &&& pair(t, 4) * 65536 + pair(t, 6) == bases_at
    &&& pair(t, 8) * 65536 + pair(t, 10) == layers_at
    &&& pair(t, 12) == layers.len()
    &&& forall|i: int|
        #![trigger bases[i]]
        0 <= i < bases.len() && bases_at + 6 * (i + 1) <= t.len() ==> {
            &&& pair(t, bases_at + 6 * i) == bases[i].0
            &&& pair(t, bases_at + 6 * i + 2) == bases[i].1
            &&& pair(t, bases_at + 6 * i + 4) == bases[i].2
        }
    &&& forall|j: int|
        #![trigger layers[j]]
        0 <= j < layers.len() && layers_at + 4 * (j + 1) <= t.len() ==> {
            &&& pair(t, layers_at + 4 * j) == layers[j].0
            &&& pair(t, layers_at + 4 * j + 2) == layers[j].1
        }
}

proof fn lemma_record_found(
    t: Seq<u8>,
    bases: Seq<(u16, u16, u16)>,
    bases_at: int,
    layers: Seq<(u16, u16)>,
    layers_at: int,
    at: int,
    base: u16,
    i: int,
)
    requires
        says_layers(t, bases, bases_at, layers, layers_at),
        0 <= i <= at <= bases.len(),
        at < bases.len() ==> bases[at].0 == base,
        forall|k: int| 0 <= k < at ==> (#[trigger] bases[k]).0 != base,
    ensures
        colr::base_record(t, base, i) == if at < bases.len() && bases_at + 6 * (at + 1)
            <= t.len() {
            Some(bases_at + 6 * at)
        } else {
            None
        },
    decreases at - i,
{
    assert(crate::bytes::be16(t, 2) == bases.len());
    assert(crate::bytes::be32(t, 4) == bases_at);
    if i < bases.len() && bases_at + 6 * (i + 1) <= t.len() {
        assert(bases[i].0 == pair(t, bases_at + 6 * i));
        assert(crate::bytes::be16(t, bases_at + 6 * i) == bases[i].0);
        if i < at {
            lemma_record_found(t, bases, bases_at, layers, layers_at, at, base, i + 1);
        }
    }
}

/// Wherever a table says its records are, it gives back, for a glyph, the layers
/// that the first record of that glyph names, in order. It gives back nothing
/// where the glyph has no record, where that record is cut off, or where it
/// names layers that are not there or are cut off.
pub proof fn lemma_layers_are_read(
    t: Seq<u8>,
    bases: Seq<(u16, u16, u16)>,
    bases_at: int,
    layers: Seq<(u16, u16)>,
    layers_at: int,
    at: int,
    base: u16,
)
    requires
        says_layers(t, bases, bases_at, layers, layers_at),
        0 <= at <= bases.len(),
        at < bases.len() ==> bases[at].0 == base,
        forall|k: int| 0 <= k < at ==> (#[trigger] bases[k]).0 != base,
    ensures
        colr::layer_list(t, base) == if at == bases.len() || bases_at + 6 * (at + 1) > t.len() {
            None
        } else if bases[at].2 == 0 {
            Some(Seq::empty())
        } else if bases[at].1 + bases[at].2 > layers.len() || layers_at + 4 * (bases[at].1
            + bases[at].2) > t.len() {
            None
        } else {
            Some(layers.subrange(bases[at].1 as int, bases[at].1 + bases[at].2))
        },
{
    lemma_record_found(t, bases, bases_at, layers, layers_at, at, base, 0);
    assert(crate::bytes::be16(t, 0) == 0);
    assert(crate::bytes::be32(t, 8) == layers_at);
    assert(crate::bytes::be16(t, 12) == layers.len());
    if at < bases.len() && bases_at + 6 * (at + 1) <= t.len() {
        let first = bases[at].1 as int;
        let n = bases[at].2 as int;
        assert(crate::bytes::be16(t, bases_at + 6 * at + 2) == first);
        assert(crate::bytes::be16(t, bases_at + 6 * at + 4) == n);
        if n > 0 && (first + n > layers.len() || layers_at + 4 * (first + n) > t.len()) {
            assert(!colr::layer_present(t, first + (n - 1)));
        } else {
            assert forall|j: int| 0 <= j < n implies #[trigger] colr::layer_present(
                t,
                first + j,
            ) by {}
            let list = Seq::new(n as nat, |j: int| colr::layer_record(t, first + j));
            if n > 0 {
                assert forall|j: int| 0 <= j < n implies list[j] == layers[first + j] by {
                    let layer = layers[first + j];
                    assert(layers_at + 4 * (first + j + 1) <= t.len());
                    assert(pair(t, layers_at + 4 * (first + j)) == layer.0);
                    assert(pair(t, layers_at + 4 * (first + j) + 2) == layer.1);
                    assert(colr::layer_at(t, first + j) == layers_at + 4 * (first + j));
                }
                assert(list =~= layers.subrange(first, first + n));
            } else {
                assert(list =~= Seq::empty());
            }
        }
    }
}

/// There are no layers in a table that is too short for its header, or is of
/// another version.
pub proof fn lemma_no_layer_table(t: Seq<u8>, base: u16)
    requires
        t.len() < 14 || t[0] != 0 || t[1] != 0,
    ensures
        colr::layer_list(t, base) is None,
{
}

// ---- palettes ------------------------------------------------------------

/// Numbers in a row, as big-endian numbers of two bytes.
pub open spec fn numbers(list: Seq<u16>) -> Seq<u8> {
    Seq::new(2 * list.len(), |k: int| two_bytes(list[k / 2] as int)[k % 2])
}

/// Colors (red, green, blue, alpha) in a row, as palettes hold them: blue first,
/// then green, red and alpha.
pub open spec fn colors_reversed(colors: Seq<(u8, u8, u8, u8)>) -> Seq<u8> {
    Seq::new(
        4 * colors.len(),
        |k: int|
            {
                let c = colors[k / 4];
                if k % 4 == 0 {
                    c.2
                } else if k % 4 == 1 {
                    c.1
                } else if k % 4 == 2 {
                    c.0
                } else {
                    c.3
                }
            },
    )
}

/// A CPAL table as it is written: its version, the number of entries in a
/// palette, of palettes and of colors, where the colors are, where in them each
/// palette starts, then anything, then the colors.
pub open spec fn palette_table(
    version: u16,
    entries: u16,
    starts: Seq<u16>,
    gap: Seq<u8>,
    colors: Seq<(u8, u8, u8, u8)>,
) -> Seq<u8> {
    let at = 12 + 2 * starts.len() + gap.len();
    two_bytes(version as int) + two_bytes(entries as int) + two_bytes(starts.len() as int)
        + two_bytes(colors.len() as int) + two_bytes(at as int / 65536) + two_bytes(
        at as int % 65536,
    ) + numbers(starts) + gap + colors_reversed(colors)
}

#[verifier::spinoff_prover]
#[verifier::rlimit(40)]
proof fn lemma_palette_numbers(
    version: u16,
    entries: u16,
    starts: Seq<u16>,
    gap: Seq<u8>,
    colors: Seq<(u8, u8, u8, u8)>,
    more: Seq<u8>,
)
    requires
        0 < starts.len() <= 0xffff,
        colors.len() <= 0xffff,
        12 + 2 * starts.len() + gap.len() < 0x1_0000_0000,
    ensures
        ({
            let t = palette_table(version, entries, starts, gap, colors) + more;
            let at = 12 + 2 * starts.len() + gap.len();
            &&& t.len() == at + 4 * colors.len() + more.len()
            &&& crate::bytes::be16(t, 0) == version
            &&& crate::bytes::be16(t, 4) == starts.len()
            &&& crate::bytes::be16(t, 6) == colors.len()
            &&& crate::bytes::be32(t, 8) == at
            &&& crate::bytes::be16(t, 12) == starts[0]
            &&& forall|i: int|
                #![trigger colors[i]]
                0 <= i < colors.len() ==> t[at + 4 * i] == colors[i].2 && t[at + 4 * i + 1]
                    == colors[i].1 && t[at + 4 * i + 2] == colors[i].0 && t[at + 4 * i + 3]
                    == colors[i].3
        }),
{
    let t = palette_table(version, entries, starts, gap, colors) + more;
    let at = 12 + 2 * starts.len() + gap.len();
    let body = colors_reversed(colors);
    assert(numbers(starts)[0] == two_bytes(starts[0] as int)[0]);
    assert(numbers(starts)[1] == two_bytes(starts[0] as int)[1]);
    assert(t[12] == numbers(starts)[0] && t[13] == numbers(starts)[1]);
    assert forall|i: int| #![trigger colors[i]] 0 <= i < colors.len() implies t[at + 4 * i]
        == colors[i].2 && t[at + 4 * i + 1] == colors[i].1 && t[at + 4 * i + 2] == colors[i].0
        && t[at + 4 * i + 3] == colors[i].3 by {
        assert(t[at + 4 * i] == body[4 * i]);
        assert(t[at + 4 * i + 1] == body[4 * i + 1]);
        assert(t[at + 4 * i + 2] == body[4 * i + 2]);
        assert(t[at + 4 * i + 3] == body[4 * i + 3]);
    }
}

/// A palette that was written gives back its colors: entry `index` of the first
/// palette is the color that many behind the one it starts with, red first. There
/// is no entry behind the last color, nor in a table of a later version.
pub proof fn lemma_written_palette_is_read(
    version: u16,
    entries: u16,
    starts: Seq<u16>,
    gap: Seq<u8>,
    colors: Seq<(u8, u8, u8, u8)>,
    more: Seq<u8>,
    index: u16,
)
    requires
        0 < starts.len() <= 0xffff,
        colors.len() <= 0xffff,
        12 + 2 * starts.len() + gap.len() < 0x1_0000_0000,
    ensures
        ({
            let t = palette_table(version, entries, starts, gap, colors) + more;
            colr::palette_entry(t, index) == if version <= 1 && starts[0] + index < colors.len() {
                let c = colors[starts[0] + index];
                Some(seq![c.0, c.1, c.2, c.3])
            } else {
                None
            }
        }),
{
    lemma_palette_numbers(version, entries, starts, gap, colors, more);
    if starts[0] + index < colors.len() {
        let c = colors[starts[0] + index];
        assert(colr::palette_entry(
            palette_table(version, entries, starts, gap, colors) + more,
            index,
        ) matches Some(found) ==> found =~= seq![c.0, c.1, c.2, c.3]);
    }
}

/// A palette that is cut off has no entries, and neither has one of a table
/// without palettes.
pub proof fn lemma_no_palette(t: Seq<u8>, index: u16)
    requires
        t.len() < 14 || pair(t, 4) == 0 || t.len() < 12 + 2 * pair(t, 4) || t.len() < pair(t, 8)
            * 65536 + pair(t, 10) + 4 * pair(t, 6),
    ensures
        colr::palette_entry(t, index) is None,
{
}

// ---- bitmaps -------------------------------------------------------------

/// Pixels are laid out in a row: four bytes each, red, green, blue, alpha, and
/// nothing else.
pub proof fn lemma_pixels_in_a_row(pixels: Seq<(u8, u8, u8, u8)>, p: (u8, u8, u8, u8))
    ensures
        colr::rgba_bytes(Seq::empty()) == Seq::<u8>::empty(),
        colr::rgba_bytes(pixels.push(p)) == colr::rgba_bytes(pixels) + seq![p.0, p.1, p.2, p.3],
{
    assert(colr::rgba_bytes(Seq::empty()) =~= Seq::<u8>::empty());
    let q = pixels.push(p);
    let n = 4 * pixels.len();
    assert forall|k: int| 0 <= k < colr::rgba_bytes(q).len() implies colr::rgba_bytes(q)[k] == (
    colr::rgba_bytes(pixels) + seq![p.0, p.1, p.2, p.3])[k] by {
        if k < n {
            assert(q[k / 4] == pixels[k / 4]);
        }
    }
    assert(colr::rgba_bytes(q) =~= colr::rgba_bytes(pixels) + seq![p.0, p.1, p.2, p.3]);
}

/// Every pixel is made straight on its own, from its own four bytes.
pub proof fn lemma_straight_by_pixel(data: Seq<u8>, r: u8, g: u8, b: u8, a: u8)
    requires
        data.len() % 4 == 0,
    ensures
        colr::straight(Seq::empty()) == Seq::<(u8, u8, u8, u8)>::empty(),
        colr::straight(data + seq![r, g, b, a]) == colr::straight(data).push(
            colr::demultiplied(r, g, b, a),
        ),
{
    assert(colr::straight(Seq::empty()) =~= Seq::<(u8, u8, u8, u8)>::empty());
    let more = data + seq![r, g, b, a];
    let n = (data.len() / 4) as int;
    assert(more.len() / 4 == n + 1);
    assert forall|i: int| 0 <= i < n + 1 implies colr::straight(more)[i] == colr::straight(
        data,
    ).push(colr::demultiplied(r, g, b, a))[i] by {
        if i < n {
            assert(more[4 * i] == data[4 * i] && more[4 * i + 1] == data[4 * i + 1] && more[4 * i
                + 2] == data[4 * i + 2] && more[4 * i + 3] == data[4 * i + 3]);
        } else {
            assert(more[4 * n] == r && more[4 * n + 1] == g && more[4 * n + 2] == b && more[4 * n
                + 3] == a);
        }
    }
    assert(colr::straight(more) =~= colr::straight(data).push(colr::demultiplied(r, g, b, a)));
}

/// A mask has one byte for each pixel, its alpha, in order.
pub proof fn lemma_mask_by_pixel(data: Seq<u8>, r: u8, g: u8, b: u8, a: u8)
    requires
        data.len() % 4 == 0,
    ensures
        raster::alpha_channel(Seq::empty()) == Seq::<u8>::empty(),
        raster::alpha_channel(data + seq![r, g, b, a]) == raster::alpha_channel(data).push(a),
{
    assert(raster::alpha_channel(Seq::empty()) =~= Seq::<u8>::empty());
    let more = data + seq![r, g, b, a];
    let n = (data.len() / 4) as int;
    assert(more.len() / 4 == n + 1);
    assert forall|i: int| 0 <= i < n + 1 implies raster::alpha_channel(more)[i]
        == raster::alpha_channel(data).push(a)[i] by {
        if i < n {
            assert(more[4 * i + 3] == data[4 * i + 3]);
        } else {
            assert(more[4 * n + 3] == a);
        }
    }
    assert(raster::alpha_channel(more) =~= raster::alpha_channel(data).push(a));
}

} // verus!
