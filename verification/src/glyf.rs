//! Decoder for a bare OpenType `glyf` simple-glyph record, the wire payload of
//! a `fmt=glyf` registration.
//!
//! The protocol ships a standalone simple-glyph record (not a whole font), so
//! it is read with `read-fonts`' low-level table reader. Composite glyphs and
//! hinted glyphs are rejected.

use crate::bytes;
use read_fonts::tables::glyf::SimpleGlyph;
use read_fonts::{FontData, FontRead};
use vstd::prelude::*;

verus! {

/// A single contour point in the glyph's authoring coordinate space (Y-up,
/// `upm` units per em).
#[derive(Debug, Clone, Copy, PartialEq, Eq, Structural)]
pub struct Point {
    pub x: i16,
    pub y: i16,
    pub on_curve: bool,
}

/// A decoded simple glyph: closed contours plus the authored bounding box.
#[derive(Debug, Clone, PartialEq, Eq)]
pub struct Outline {
    pub contours: Vec<Vec<Point>>,
    pub x_min: i16,
    pub y_min: i16,
    pub x_max: i16,
    pub y_max: i16,
}

/// The mathematical content of an [`Outline`].
#[verifier::ext_equal]
pub struct OutlineView {
    pub contours: Seq<Seq<Point>>,
    pub x_min: i16,
    pub y_min: i16,
    pub x_max: i16,
    pub y_max: i16,
}

impl View for Outline {
    type V = OutlineView;

    open spec fn view(&self) -> OutlineView {
        OutlineView {
            contours: self.contours@.map_values(|c: Vec<Point>| c@),
            x_min: self.x_min,
            y_min: self.y_min,
            x_max: self.x_max,
            y_max: self.y_max,
        }
    }
}

/// Why a `glyf` payload was rejected.
#[derive(Debug, Clone, Copy, PartialEq, Eq, Structural)]
pub enum DecodeError {
    /// Payload failed to parse as a simple-glyph record.
    Malformed,
    /// `numberOfContours < 0`: a composite glyph (unsupported).
    Composite,
    /// `instructionLength != 0`: hinting bytecode (unsupported).
    Hinted,
}

/// The part of a simple-glyph record that precedes its points.
#[derive(Debug, Clone, PartialEq, Eq)]
pub struct GlyphHeader {
    pub x_min: i16,
    pub y_min: i16,
    pub x_max: i16,
    pub y_max: i16,
    pub instruction_length: u16,
    /// Index of the last point of each contour.
    pub end_pts: Vec<u16>,
}

/// The mathematical content of a [`GlyphHeader`].
#[verifier::ext_equal]
pub struct GlyphHeaderView {
    pub x_min: i16,
    pub y_min: i16,
    pub x_max: i16,
    pub y_max: i16,
    pub instruction_length: u16,
    pub end_pts: Seq<u16>,
}

impl View for GlyphHeader {
    type V = GlyphHeaderView;

    open spec fn view(&self) -> GlyphHeaderView {
        GlyphHeaderView {
            x_min: self.x_min,
            y_min: self.y_min,
            x_max: self.x_max,
            y_max: self.y_max,
            instruction_length: self.instruction_length,
            end_pts: self.end_pts@,
        }
    }
}

/// The number of contours that a record announces.
pub open spec fn contour_count(data: Seq<u8>) -> int {
    let n = bytes::be_i16(data, 0);
    if n < 0 {
        0
    } else {
        n
    }
}

/// The header of the record `data`, by its layout: `numberOfContours`, the
/// bounding box, the contour ends, the instruction length. Contour ends that
/// do not fit are read as none, an instruction length that does not fit as
/// zero.
pub open spec fn header_of(data: Seq<u8>) -> GlyphHeaderView {
    let n = contour_count(data);
    GlyphHeaderView {
        x_min: bytes::be_i16(data, 2) as i16,
        y_min: bytes::be_i16(data, 4) as i16,
        x_max: bytes::be_i16(data, 6) as i16,
        y_max: bytes::be_i16(data, 8) as i16,
        instruction_length: if 10 + 2 * n + 2 <= data.len() {
            bytes::be16(data, 10 + 2 * n) as u16
        } else {
            0
        },
        end_pts: if 10 + 2 * n <= data.len() {
            Seq::new(n as nat, |i: int| bytes::be16(data, 10 + 2 * i) as u16)
        } else {
            Seq::empty()
        },
    }
}

/// Failure of `read-fonts`' reader.
#[verifier::external_type_specification]
#[verifier::external_body]
pub struct ExReadError(read_fonts::ReadError);

/// `SimpleGlyph::read` and the accessors of what precedes the points (`x_min`,
/// `y_min`, `x_max`, `y_max`, `instruction_length`, `end_pts_of_contours`):
/// twelve bytes are enough to be read, and the fields are the big-endian
/// numbers at their places in the record.
#[verifier::external_body]
fn read_header(data: &[u8]) -> (r: Result<GlyphHeader, read_fonts::ReadError>)
    ensures
        match r {
            Ok(h) => data@.len() >= 12 && h@ == header_of(data@),
            Err(_) => data@.len() < 12,
        },
{
    let glyph = SimpleGlyph::read(FontData::new(data))?;
    Ok(GlyphHeader {
        x_min: glyph.x_min(),
        y_min: glyph.y_min(),
        x_max: glyph.x_max(),
        y_max: glyph.y_max(),
        instruction_length: glyph.instruction_length(),
        end_pts: glyph.end_pts_of_contours().iter().map(|v| v.get()).collect(),
    })
}

/// The points (`x`, `y`, on the curve or not) that `SimpleGlyph::points` hands
/// out for the record `data`.
pub uninterp spec fn curve_points(data: Seq<u8>) -> Seq<(i16, i16, bool)>;

/// `SimpleGlyph::points`: the points of the record, from its flags and
/// coordinate deltas. What they are depends on the record's bytes alone and is
/// named, not stated.
#[verifier::external_body]
fn read_points(data: &[u8]) -> (r: Result<Vec<(i16, i16, bool)>, read_fonts::ReadError>)
    ensures
        match r {
            Ok(points) => data@.len() >= 12 && points@ == curve_points(data@),
            Err(_) => data@.len() < 12,
        },
{
    let glyph = SimpleGlyph::read(FontData::new(data))?;
    Ok(glyph.points().map(|p| (p.x, p.y, p.on_curve)).collect())
}

/// The point that one of `SimpleGlyph::points` stands for.
pub open spec fn point_of(p: (i16, i16, bool)) -> Point {
    Point { x: p.0, y: p.1, on_curve: p.2 }
}

/// Whether contour ends are strictly increasing.
pub open spec fn strictly_increasing(ends: Seq<u16>) -> bool {
    forall|i: int, j: int| 0 <= i < j < ends.len() ==> ends[i] < ends[j]
}

/// The index of the first point of contour `i`.
pub open spec fn contour_start(ends: Seq<u16>, i: int) -> int {
    if i == 0 {
        0
    } else {
        ends[i - 1] + 1
    }
}

/// Contour `i`: the points from just after the end of the one before it to its
/// own end.
pub open spec fn contour(ends: Seq<u16>, points: Seq<(i16, i16, bool)>, i: int) -> Seq<Point> {
    points.subrange(contour_start(ends, i), ends[i] + 1).map_values(
        |p: (i16, i16, bool)| point_of(p),
    )
}

/// What a header and points decode to.
pub open spec fn assembled(
    header: GlyphHeaderView,
    points: Seq<(i16, i16, bool)>,
) -> Result<OutlineView, DecodeError> {
    let ends = header.end_pts;
    if header.instruction_length != 0 {
        Err(DecodeError::Hinted)
    } else if ends.len() > 0 && !(strictly_increasing(ends) && points.len() == ends.last() + 1) {
        Err(DecodeError::Malformed)
    } else {
        Ok(
            OutlineView {
                contours: Seq::new(ends.len(), |i: int| contour(ends, points, i)),
                x_min: header.x_min,
                y_min: header.y_min,
                x_max: header.x_max,
                y_max: header.y_max,
            },
        )
    }
}

/// What the record `data` decodes to.
pub open spec fn decoded(data: Seq<u8>) -> Result<OutlineView, DecodeError> {
    if data.len() < 10 {
        Err(DecodeError::Malformed)
    } else if bytes::be_i16(data, 0) < 0 {
        Err(DecodeError::Composite)
    } else if data.len() < 12 {
        Err(DecodeError::Malformed)
    } else {
        assembled(header_of(data), curve_points(data))
    }
}

/// Whether the outcome `r` is `expected`, by content.
pub open spec fn outcome_is(
    r: Result<Outline, DecodeError>,
    expected: Result<OutlineView, DecodeError>,
) -> bool {
    match r {
        Ok(outline) => expected == Ok::<OutlineView, DecodeError>(outline@),
        Err(e) => expected == Err::<OutlineView, DecodeError>(e),
    }
}

fn ends_increase(ends: &[u16]) -> (r: bool)
    ensures
        r == strictly_increasing(ends@),
{
    let mut i: usize = 1;
    while i < ends.len()
        invariant
            1 <= i,
            i <= ends@.len() || i == 1,
            forall|a: int, b: int| 0 <= a < b < i && b < ends@.len() ==> ends@[a] < ends@[b],
        decreases ends@.len() - i,
    {
        if ends[i] <= ends[i - 1] {
            return false;
        }
        i += 1;
    }
    true
}

fn copy_contour(points: &[(i16, i16, bool)], start: usize, end: usize) -> (r: Vec<Point>)
    requires
        start <= end <= points@.len(),
    ensures
        r@ == points@.subrange(start as int, end as int).map_values(
            |p: (i16, i16, bool)| point_of(p),
        ),
{
    let mut out: Vec<Point> = Vec::with_capacity(end - start);
    let mut k: usize = start;
    while k < end
        invariant
            start <= k <= end <= points@.len(),
            out@ == points@.subrange(start as int, k as int).map_values(
                |p: (i16, i16, bool)| point_of(p),
            ),
        decreases end - k,
    {
        let p = points[k];
        out.push(Point { x: p.0, y: p.1, on_curve: p.2 });
        k += 1;
        assert(out@ =~= points@.subrange(start as int, k as int).map_values(
            |p: (i16, i16, bool)| point_of(p),
        ));
    }
    out
}

/// Put a header and points together into an outline. Hinting bytecode, contour
/// ends that do not increase, and a number of points that the last end does
/// not announce are rejected.
pub fn assemble(header: &GlyphHeader, points: &[(i16, i16, bool)]) -> (r: Result<
    Outline,
    DecodeError,
>)
    ensures
        outcome_is(r, assembled(header@, points@)),
{
    if header.instruction_length != 0 {
        return Err(DecodeError::Hinted);
    }
    let ends: &Vec<u16> = &header.end_pts;
    let n: usize = ends.len();
    let mut contours: Vec<Vec<Point>> = Vec::with_capacity(n);
    if n > 0 {
        if !ends_increase(ends) {
            return Err(DecodeError::Malformed);
        }
        if points.len() != ends[n - 1] as usize + 1 {
            return Err(DecodeError::Malformed);
        }
        let mut start: usize = 0;
        let mut i: usize = 0;
        while i < n
            invariant
                i <= n,
                n == ends@.len(),
                n > 0,
                ends@ == header@.end_pts,
                strictly_increasing(ends@),
                points@.len() == ends@.last() + 1,
                start == contour_start(ends@, i as int),
                contours@.len() == i,
                forall|k: int| 0 <= k < i ==> (#[trigger] contours@[k])@ == contour(
                    ends@,
                    points@,
                    k,
                ),
            decreases n - i,
        {
            let end: usize = ends[i] as usize + 1;
            assert(ends@[i as int] <= ends@.last());
            assert(i > 0 ==> ends@[i - 1] < ends@[i as int]);
            contours.push(copy_contour(points, start, end));
            start = end;
            i += 1;
        }
    }
    let outline = Outline {
        contours,
        x_min: header.x_min,
        y_min: header.y_min,
        x_max: header.x_max,
        y_max: header.y_max,
    };
    assert(outline@.contours =~= Seq::new(
        header@.end_pts.len(),
        |i: int| contour(header@.end_pts, points@, i),
    ));
    Ok(outline)
}

/// Decode a bare simple-glyph record.
pub fn decode(data: &[u8]) -> (r: Result<Outline, DecodeError>)
    ensures
        outcome_is(r, decoded(data@)),
{
    // A record begins with a signed 16-bit numberOfContours; a negative value
    // marks a composite glyph, which the reader would misparse. The minimum
    // header is 10 bytes (numberOfContours and the bounding box).
    if data.len() < 10 {
        return Err(DecodeError::Malformed);
    }
    if data[0] >= 0x80 {
        return Err(DecodeError::Composite);
    }
    let header = match read_header(data) {
        Ok(header) => header,
        Err(_) => {
            return Err(DecodeError::Malformed);
        },
    };
    let points = match read_points(data) {
        Ok(points) => points,
        Err(_) => {
            return Err(DecodeError::Malformed);
        },
    };
    assemble(&header, &points)
}

proof fn lemma_first_contours(ends: Seq<u16>, points: Seq<(i16, i16, bool)>, n: int)
    requires
        0 <= n <= ends.len(),
        strictly_increasing(ends),
        n > 0 ==> ends[n - 1] < points.len(),
    ensures
        Seq::new(n as nat, |i: int| contour(ends, points, i)).flatten_alt() == points.take(
            contour_start(ends, n),
        ).map_values(|p: (i16, i16, bool)| point_of(p)),
    decreases n,
{
    let contours = Seq::new(n as nat, |i: int| contour(ends, points, i));
    let to = |p: (i16, i16, bool)| point_of(p);
    if n > 0 {
        let start = contour_start(ends, n - 1);
        if n > 1 {
            assert(ends[n - 2] < ends[n - 1]);
        }
        lemma_first_contours(ends, points, n - 1);
        assert(contours.drop_last() =~= Seq::new(
            (n - 1) as nat,
            |i: int| contour(ends, points, i),
        ));
        assert(points.take(contour_start(ends, n)).map_values(to) =~= points.take(start).map_values(
            to,
        ) + contour(ends, points, n - 1));
    } else {
        assert(points.take(0).map_values(to) =~= Seq::empty());
    }
}

/// The contours of an outline share out all of its points, in order, and none
/// of them is empty.
pub proof fn lemma_contours_share_out_points(
    header: GlyphHeaderView,
    points: Seq<(i16, i16, bool)>,
)
    requires
        header.end_pts.len() > 0,
        assembled(header, points) is Ok,
    ensures
        ({
            let contours = assembled(header, points)->Ok_0.contours;
            &&& contours.flatten_alt() == points.map_values(|p: (i16, i16, bool)| point_of(p))
            &&& forall|i: int| 0 <= i < contours.len() ==> (#[trigger] contours[i]).len() > 0
        }),
{
    let ends = header.end_pts;
    lemma_first_contours(ends, points, ends.len() as int);
    assert(points.take(points.len() as int) =~= points);
    assert forall|i: int| 0 <= i < ends.len() implies (#[trigger] contour(ends, points, i)).len()
        > 0 by {
        if i > 0 {
            assert(ends[i - 1] < ends[i]);
        }
        if i < ends.len() - 1 {
            assert(ends[i] < ends[ends.len() - 1]);
        }
    }
}

} // verus!
