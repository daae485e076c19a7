//! Laws of a session: what it holds and answers, by what was sent to it before.

use crate::colr;
use crate::dispatch;
use crate::glossary;
use crate::glossary::{GlossaryView, GlyphView};
use crate::glyf;
use crate::glyf::DecodeError;
use crate::laws::requests;
use crate::parse;
use crate::parse::{CommandView, ParseError, QueryStatus, RegisterError, ReplyMode};
use vstd::prelude::*;
use vstd::string::*;
use vstd::utf8::*;

verus! {

/// Whether `data` asks about `cp`.
pub open spec fn asks_about(data: Seq<u8>, cp: u32) -> bool {
    parse::parsed(data) == Ok::<CommandView, ParseError>(CommandView::Query { cp })
}

/// Whether `data` clears `cp`, or everything where `cp` is `None`.
pub open spec fn clears(data: Seq<u8>, cp: Option<u32>) -> bool {
    parse::parsed(data) == Ok::<CommandView, ParseError>(CommandView::Clear { cp })
}

/// Whether `data` registers something at `cp`.
pub open spec fn registers_at(data: Seq<u8>, cp: u32) -> bool {
    parse::parsed(data) matches Ok(CommandView::Register { cp: at, .. }) && at == cp
}

/// Whether a session that holds `g` answers `question`, which is about `cp`, with
/// the empty status, and changes nothing.
pub open spec fn answered_as_free(g: GlossaryView, question: Seq<u8>, cp: u32) -> bool {
    &&& dispatch::dispatched(true, g, question).0 == g
    &&& dispatch::dispatched(true, g, question).1 matches Some(text)
    &&& requests::reply_says(text, 0x71, Some(cp), Seq::empty(), None)
}

proof fn lemma_asked_about_is_a_codepoint(question: Seq<u8>, cp: u32)
    requires
        asks_about(question, cp),
    ensures
        parse::is_scalar(cp as int),
{
}

/// A query of a codepoint without a live registration is answered with the empty
/// status, private-use codepoints included. With one it is answered with the
/// glossary. Either way nothing changes.
pub proof fn lemma_free_unless_registered(g: GlossaryView, question: Seq<u8>, cp: u32)
    requires
        asks_about(question, cp),
    ensures
        !g.entries.dom().contains(cp) ==> answered_as_free(g, question, cp),
        !g.entries.dom().contains(cp) ==> dispatch::dispatched(true, g, question) == (
            g,
            Some(parse::query_reply(cp, QueryStatus::Free)),
        ),
        g.entries.dom().contains(cp) ==> dispatch::dispatched(true, g, question) == (
            g,
            Some(parse::query_reply(cp, QueryStatus::Glossary)),
        ),
{
    lemma_asked_about_is_a_codepoint(question, cp);
    requests::lemma_replies_say(cp, QueryStatus::Free, RegisterError::OutOfNamespace);
    assert(encode_utf8(parse::status_text(QueryStatus::Free)) =~= Seq::empty()) by {
        reveal_strlit("");
        parse::lemma_ascii_bytes(""@);
    }
}

/// A session begins with no registrations, and with the first version.
pub proof fn lemma_fresh_session_is_empty(cp: u32)
    ensures
        !dispatch::session(Seq::empty()).entries.dom().contains(cp),
        dispatch::session(Seq::empty()).order.len() == 0,
        dispatch::session(Seq::empty()).next_version == 0,
{
}

/// A support request changes nothing, and is answered with the formats that can
/// be registered.
pub proof fn lemma_support_is_answered(g: GlossaryView, data: Seq<u8>)
    requires
        parse::parsed(data) == Ok::<CommandView, ParseError>(CommandView::Support),
    ensures
        dispatch::dispatched(true, g, data) == (
            g,
            Some(parse::support_reply(seq!["glyf", "colrv0"])),
        ),
{
    assert(parse::SUPPORTED_FORMATS@ =~= seq!["glyf", "colrv0"]);
}

/// In a session in which nothing was sent yet, every codepoint is free.
pub proof fn lemma_fresh_session_is_free(question: Seq<u8>, cp: u32)
    requires
        asks_about(question, cp),
    ensures
        answered_as_free(dispatch::session(Seq::empty()), question, cp),
{
    lemma_free_unless_registered(glossary::empty_glossary(), question, cp);
}

/// Once a codepoint, or everything, was cleared, it is free.
pub proof fn lemma_cleared_is_free(
    g: GlossaryView,
    clearing: Seq<u8>,
    question: Seq<u8>,
    cp: u32,
)
    requires
        clears(clearing, Some(cp)) || clears(clearing, None),
        asks_about(question, cp),
    ensures
        answered_as_free(dispatch::dispatched(true, g, clearing).0, question, cp),
{
    lemma_free_unless_registered(dispatch::dispatched(true, g, clearing).0, question, cp);
}

/// Whatever else was sent, a codepoint at which nothing was ever registered is
/// free.
pub proof fn lemma_never_registered_is_free(
    bodies: Seq<(bool, Seq<u8>)>,
    question: Seq<u8>,
    cp: u32,
)
    requires
        asks_about(question, cp),
        forall|i: int| 0 <= i < bodies.len() ==> !registers_at((#[trigger] bodies[i]).1, cp),
    ensures
        answered_as_free(dispatch::session(bodies), question, cp),
{
    lemma_nothing_registered(bodies, cp);
    lemma_free_unless_registered(dispatch::session(bodies), question, cp);
}

proof fn lemma_nothing_registered(bodies: Seq<(bool, Seq<u8>)>, cp: u32)
    requires
        forall|i: int| 0 <= i < bodies.len() ==> !registers_at((#[trigger] bodies[i]).1, cp),
    ensures
        !dispatch::session(bodies).entries.dom().contains(cp),
    decreases bodies.len(),
{
    if bodies.len() > 0 {
        let before = bodies.drop_last();
        assert forall|i: int| 0 <= i < before.len() implies !registers_at(
            (#[trigger] before[i]).1,
            cp,
        ) by {
            assert(before[i] == bodies[i]);
        }
        lemma_nothing_registered(before, cp);
        assert(bodies.last() == bodies[bodies.len() - 1]);
    }
}

/// Nothing but an accepted registration or a clear changes what a session holds.
pub proof fn lemma_what_changes_a_session(enabled: bool, g: GlossaryView, data: Seq<u8>)
    requires
        dispatch::dispatched(enabled, g, data).0 != g,
    ensures
        enabled,
        match parse::parsed(data) {
            Ok(CommandView::Register { glyph, .. }) => glossary::validation(glyph) is Ok,
            Ok(CommandView::Clear { .. }) => true,
            _ => false,
        },
{
}

/// A live registration stays as it is, until it is overwritten or cleared, or is
/// the oldest of a full glossary when a new codepoint is registered.
pub proof fn lemma_registration_stays(enabled: bool, g: GlossaryView, data: Seq<u8>, cp: u32)
    requires
        glossary::well_formed(g),
        g.entries.dom().contains(cp),
        !registers_at(data, cp),
        !clears(data, Some(cp)),
        !clears(data, None),
        g.order.len() < 1024 || g.order[0] != cp || (parse::parsed(data) matches Ok(
            CommandView::Register { cp: other, .. },
        ) && g.entries.dom().contains(other)),
    ensures
        dispatch::dispatched(enabled, g, data).0.entries.dom().contains(cp),
        dispatch::dispatched(enabled, g, data).0.entries[cp] == g.entries[cp],
{
    if let Ok(CommandView::Register { cp: other, glyph, .. }) = parse::parsed(data) {
        glossary::lemma_registered_is_found(g, other, glyph, cp);
    }
}

/// A registration whose payload validates is stored under its codepoint with the
/// version whose turn it is, and a reply goes out unless less is asked for.
pub proof fn lemma_registration_is_stored(
    g: GlossaryView,
    data: Seq<u8>,
    cp: u32,
    glyph: GlyphView,
    reply: ReplyMode,
)
    requires
        parse::parsed(data) == Ok::<CommandView, ParseError>(
            CommandView::Register { cp, glyph, reply },
        ),
        glossary::validation(glyph) is Ok,
    ensures
        ({
            let after = dispatch::dispatched(true, g, data).0;
            &&& after.entries.dom().contains(cp)
            &&& after.entries[cp].glyph == glyph
            &&& after.entries[cp].version == g.next_version
            &&& g.next_version < u32::MAX ==> after.next_version == g.next_version + 1
            &&& g.next_version == u32::MAX ==> after.next_version == 0
            &&& dispatch::dispatched(true, g, data).1 == if reply == ReplyMode::All {
                Some(parse::register_ok_reply(cp))
            } else {
                None
            }
        }),
{
}

/// Clearing one codepoint takes away its registration and no other, and is
/// answered with that codepoint. Clearing everything takes away everything.
/// Versions go on from where they were.
pub proof fn lemma_clear_takes_away(g: GlossaryView, data: Seq<u8>, cp: Option<u32>, other: u32)
    requires
        glossary::well_formed(g),
        clears(data, cp),
    ensures
        ({
            let after = dispatch::dispatched(true, g, data).0;
            &&& after.next_version == g.next_version
            &&& dispatch::dispatched(true, g, data).1 == Some(parse::clear_ok_reply(cp))
            &&& after.entries.dom().contains(other) <==> g.entries.dom().contains(other)
                && cp is Some && cp != Some(other)
            &&& after.entries.dom().contains(other) ==> after.entries[other] == g.entries[other]
            &&& cp is None ==> after.order.len() == 0
        }),
{
    if let Some(c) = cp {
        if c != other {
            glossary::lemma_cleared_is_gone(g, c, other);
        }
    }
}

/// A body of another protocol, and one that is malformed, is met with silence. A
/// clear outside the private-use areas is answered as that. Neither changes
/// anything.
pub proof fn lemma_what_is_ignored(g: GlossaryView, data: Seq<u8>)
    ensures
        match parse::parsed(data) {
            Err(ParseError::NotGlyphProtocol) => dispatch::dispatched(true, g, data) == (
                g,
                None::<Seq<char>>,
            ),
            Err(ParseError::Malformed(_)) => dispatch::dispatched(true, g, data) == (
                g,
                None::<Seq<char>>,
            ),
            Err(ParseError::ClearOutOfNamespace) => dispatch::dispatched(true, g, data) == (
                g,
                Some(parse::clear_error_reply()),
            ),
            _ => true,
        },
{
}

/// A payload validates exactly where it can be decoded, and what is wrong with
/// another is told: a composite record, a hinted one, or else a malformed one.
pub proof fn lemma_what_validates(glyph: GlyphView)
    ensures
        match glyph {
            GlyphView::Glyf { glyf, .. } => {
                &&& glossary::validation(glyph) is Ok <==> glyf::decoded(glyf) is Ok
                &&& glossary::validation(glyph) == Err::<(), RegisterError>(
                    RegisterError::CompositeUnsupported,
                ) <==> glyf::decoded(glyf) == Err::<glyf::OutlineView, DecodeError>(
                    DecodeError::Composite,
                )
                &&& glossary::validation(glyph) == Err::<(), RegisterError>(
                    RegisterError::HintingUnsupported,
                ) <==> glyf::decoded(glyf) == Err::<glyf::OutlineView, DecodeError>(
                    DecodeError::Hinted,
                )
                &&& glossary::validation(glyph) == Err::<(), RegisterError>(
                    RegisterError::MalformedPayload,
                ) <==> glyf::decoded(glyf) == Err::<glyf::OutlineView, DecodeError>(
                    DecodeError::Malformed,
                )
            },
            GlyphView::Color { container, .. } => {
                &&& glossary::validation(glyph) is Ok <==> colr::container(container) is Some
                &&& glossary::validation(glyph) is Err ==> glossary::validation(glyph) == Err::<
                    (),
                    RegisterError,
                >(RegisterError::MalformedPayload)
            },
        },
{
}

/// A new codepoint is the last to be evicted. While there is room, none is
/// evicted for it.
pub proof fn lemma_new_goes_last(g: GlossaryView, cp: u32, glyph: GlyphView, i: int)
    requires
        glossary::well_formed(g),
        !g.entries.dom().contains(cp),
        0 <= i < g.order.len(),
    ensures
        ({
            let after = glossary::inserted(g, cp, glyph).order;
            &&& after.last() == cp
            &&& g.order.len() < 1024 ==> after.len() == g.order.len() + 1 && after[i] == g.order[i]
            &&& g.order.len() == 1024 ==> after.len() == 1024 && (i > 0 ==> after[i - 1]
                == g.order[i])
        }),
{
}

/// Clearing a codepoint leaves the order of the others as it was.
pub proof fn lemma_clear_keeps_order(g: GlossaryView, before: Seq<u32>, cp: u32, behind: Seq<u32>)
    requires
        glossary::well_formed(g),
        g.order == before + seq![cp] + behind,
    ensures
        glossary::cleared_one(g, cp).order == before + behind,
{
    let k = before.len() as int;
    assert(g.order[k] == cp);
    g.order.index_of_first_ensures(cp);
    let first = g.order.index_of_first(cp).unwrap();
    assert(g.order[first] == g.order[k]);
    assert(first == k);
    assert(glossary::cleared_one(g, cp).order =~= before + behind);
}

} // verus!
