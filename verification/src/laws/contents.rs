//! Laws of contents: what a value's mathematical content says is all that the
//! value holds, and an outcome by content is the outcome.

use crate::colr::{ColrContainer, PaintedLayer};
use crate::dispatch;
use crate::glossary::{GlyphView, RegisteredGlyph, VersionedGlyph};
use crate::glyf;
use crate::glyf::{DecodeError, GlyphHeader, Outline, OutlineView};
use crate::parse;
use crate::parse::{CommandView, GlyphCommand, ParseError};
use vstd::prelude::*;

verus! {

/// The content of a registered glyph is its payload, byte for byte, with its
/// units-per-em, its sizing and whether it uses the foreground.
pub proof fn lemma_glyph_content(glyph: RegisteredGlyph)
    ensures
        match glyph {
            RegisteredGlyph::Glyf { glyf, upm, sizing } => {
                &&& glyph@ matches GlyphView::Glyf { glyf: bytes, upm: u, sizing: s }
                &&& bytes == glyf@
                &&& u == upm
                &&& s == sizing
            },
            RegisteredGlyph::Color { container, upm, sizing, uses_fg } => {
                &&& glyph@ matches GlyphView::Color { container: bytes, upm: u, sizing: s, uses_fg: f }
                &&& bytes == container@
                &&& u == upm
                &&& s == sizing
                &&& f == uses_fg
            },
        },
{
}

/// The content of a versioned glyph is the glyph's, with the version.
pub proof fn lemma_entry_content(entry: VersionedGlyph)
    ensures
        entry@.version == entry.version,
        entry@.glyph == entry.glyph@,
{
}

/// The content of a command is which command it is, with all that it is given.
pub proof fn lemma_command_content(command: GlyphCommand)
    ensures
        match command {
            GlyphCommand::Support => command@ is Support,
            GlyphCommand::Query { cp } => command@ matches CommandView::Query { cp: at } && at == cp,
            GlyphCommand::Register { cp, glyph, reply } => {
                &&& command@ matches CommandView::Register { cp: at, glyph: g, reply: level }
                &&& at == cp
                &&& g == glyph@
                &&& level == reply
            },
            GlyphCommand::Clear { cp } => command@ matches CommandView::Clear { cp: at } && at == cp,
        },
{
}

/// The content of an outline is its contours, point for point, and its bounding
/// box.
pub proof fn lemma_outline_content(outline: Outline)
    ensures
        outline@.contours.len() == outline.contours@.len(),
        forall|i: int|
            0 <= i < outline.contours@.len() ==> #[trigger] outline@.contours[i]
                == outline.contours@[i]@,
        outline@.x_min == outline.x_min,
        outline@.y_min == outline.y_min,
        outline@.x_max == outline.x_max,
        outline@.y_max == outline.y_max,
{
}

/// The content of a record's header is its bounding box, its instruction length
/// and its ends.
pub proof fn lemma_header_content(header: GlyphHeader)
    ensures
        header@.x_min == header.x_min,
        header@.y_min == header.y_min,
        header@.x_max == header.x_max,
        header@.y_max == header.y_max,
        header@.instruction_length == header.instruction_length,
        header@.end_pts == header.end_pts@,
{
}

/// The content of a container is its glyphs, its layer table and its palette,
/// byte for byte.
pub proof fn lemma_container_content(c: ColrContainer)
    ensures
        c@.glyphs.len() == c.glyphs@.len(),
        forall|i: int|
            0 <= i < c.glyphs@.len() ==> #[trigger] c@.glyphs[i] == c.glyphs@[i]@,
        c@.colr == c.colr@,
        c@.cpal == c.cpal@,
{
}

/// The content of a painted layer is its outline and its color.
pub proof fn lemma_layer_content(layer: PaintedLayer)
    ensures
        layer@.0 == layer.outline@,
        layer@.1 == layer.color@,
{
}

/// A reply that is the expected one is there exactly where one is expected, and
/// holds its text.
pub proof fn lemma_reply_is_expected(r: Option<String>, expected: Option<Seq<char>>)
    ensures
        dispatch::reply_is(r, expected) <==> match expected {
            Some(text) => r is Some && r.unwrap()@ == text,
            None => r is None,
        },
{
}

/// A command that is the expected outcome has the content that is expected, and
/// an error is the error that is expected.
pub proof fn lemma_command_is_expected(
    r: Result<GlyphCommand, ParseError>,
    expected: Result<CommandView, ParseError>,
)
    ensures
        parse::outcome_is(r, expected) <==> match expected {
            Ok(content) => r is Ok && r->Ok_0@ == content,
            Err(error) => r is Err && r->Err_0 == error,
        },
{
}

/// An outline that is the expected outcome has the content that is expected, and
/// an error is the error that is expected.
pub proof fn lemma_outline_is_expected(
    r: Result<Outline, DecodeError>,
    expected: Result<OutlineView, DecodeError>,
)
    ensures
        glyf::outcome_is(r, expected) <==> match expected {
            Ok(content) => r is Ok && r->Ok_0@ == content,
            Err(error) => r is Err && r->Err_0 == error,
        },
{
}

} // verus!
