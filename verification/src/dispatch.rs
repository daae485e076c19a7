//! What a session does with a glyph-protocol APC: the body is parsed and
//! applied to the session's [`Glossary`], and the reply, if there is one, is
//! handed out to be written back.

use crate::bytes;
use crate::colr;
use crate::glossary;
use crate::glossary::{Glossary, GlossaryView, GlyphView};
use crate::parse;
use crate::parse::{
    CommandView, GlyphCommand, ParseError, QueryStatus, RegisterError, ReplyMode,
    SUPPORTED_FORMATS,
};
use crate::payload;
use vstd::prelude::*;
use vstd::string::*;

verus! {

/// The reply to a registration that failed for `reason`, if the reply level
/// asks for one.
pub open spec fn failure_reply(cp: u32, reason: RegisterError, reply: ReplyMode) -> Option<
    Seq<char>,
> {
    if reply == ReplyMode::Silent {
        None
    } else {
        Some(parse::register_error_reply(cp, reason))
    }
}

/// What registering `glyph` at `cp` makes of `g`, and the reply: a payload that
/// does not validate changes nothing.
pub open spec fn registering(g: GlossaryView, cp: u32, glyph: GlyphView, reply: ReplyMode) -> (
    GlossaryView,
    Option<Seq<char>>,
) {
    match glossary::validation(glyph) {
        Ok(_) => (
            glossary::inserted(g, cp, glyph),
            if reply == ReplyMode::All {
                Some(parse::register_ok_reply(cp))
            } else {
                None
            },
        ),
        Err(reason) => (g, failure_reply(cp, reason, reply)),
    }
}

/// What `command` makes of `g`, and the reply.
pub open spec fn executed(g: GlossaryView, command: CommandView) -> (
    GlossaryView,
    Option<Seq<char>>,
) {
    match command {
        CommandView::Support => (g, Some(parse::support_reply(SUPPORTED_FORMATS@))),
        CommandView::Query { cp } => (
            g,
            Some(
                parse::query_reply(
                    cp,
                    if g.entries.dom().contains(cp) {
                        QueryStatus::Glossary
                    } else {
                        QueryStatus::Free
                    },
                ),
            ),
        ),
        CommandView::Register { cp, glyph, reply } => registering(g, cp, glyph, reply),
        CommandView::Clear { cp } => (
            match cp {
                Some(cp) => glossary::cleared_one(g, cp),
                None => glossary::cleared_all(g),
            },
            Some(parse::clear_ok_reply(cp)),
        ),
    }
}

/// The reply to a body that was not accepted for `error`. Another protocol and
/// unparseable framing are ignored, by the APC convention that terminals drop
/// commands they do not understand.
pub open spec fn refusal(error: ParseError) -> Option<Seq<char>> {
    match error {
        ParseError::RegisterFailed { cp, reason, reply } => failure_reply(cp, reason, reply),
        ParseError::ClearOutOfNamespace => Some(parse::clear_error_reply()),
        ParseError::NotGlyphProtocol => None,
        ParseError::Malformed(_) => None,
    }
}

/// What the APC body `data` makes of `g`, and the reply. While the protocol is
/// not enabled, every body is ignored.
pub open spec fn dispatched(enabled: bool, g: GlossaryView, data: Seq<u8>) -> (
    GlossaryView,
    Option<Seq<char>>,
) {
    if !enabled {
        (g, None)
    } else {
        match parse::parsed(data) {
            Ok(command) => executed(g, command),
            Err(error) => (g, refusal(error)),
        }
    }
}

/// Whether the reply `r` is `expected`, by content.
pub open spec fn reply_is(r: Option<String>, expected: Option<Seq<char>>) -> bool {
    match r {
        Some(text) => expected == Some(text@),
        None => expected is None,
    }
}

fn register_failure(cp: u32, reason: RegisterError, reply: ReplyMode) -> (r: Option<String>)
    ensures
        reply_is(r, failure_reply(cp, reason, reply)),
{
    if reply.emit_error() {
        Some(parse::format_register_error(cp, reason))
    } else {
        None
    }
}

/// Apply `command` to `glossary`, and hand out the reply.
pub fn execute(glossary: &mut Glossary, command: GlyphCommand) -> (r: Option<String>)
    ensures
        final(glossary)@ == executed(old(glossary)@, command@).0,
        reply_is(r, executed(old(glossary)@, command@).1),
{
    match command {
        GlyphCommand::Support => Some(parse::format_support_response(&SUPPORTED_FORMATS)),
        GlyphCommand::Query { cp } => {
            // The terminal model owns the glossary but cannot see the GUI's
            // font fallback chain, so it reports glossary coverage only;
            // accurate `system` coverage would need the font stack.
            let status: QueryStatus = if glossary.contains(cp) {
                QueryStatus::Glossary
            } else {
                QueryStatus::Free
            };
            Some(parse::format_query_response(cp, status))
        },
        GlyphCommand::Register { cp, glyph, reply } => match glyph.validate() {
            Ok(()) => {
                glossary.insert(cp, glyph);
                if reply.emit_success() {
                    Some(parse::format_register_ok(cp))
                } else {
                    None
                }
            },
            Err(reason) => register_failure(cp, reason, reply),
        },
        GlyphCommand::Clear { cp } => {
            match cp {
                Some(cp) => glossary.clear_one(cp),
                None => glossary.clear_all(),
            }
            Some(parse::format_clear_ok(cp))
        },
    }
}

/// Handle the APC body `data` in a session whose registrations are `glossary`,
/// and hand out the reply.
///
/// The entire protocol is gated behind `enabled`. When off, every
/// glyph-protocol APC is ignored: no `s` reply, no register or clear, and
/// (since nothing is ever registered) the renderer has nothing to consult.
/// Clients detect "unsupported" via the absent `s` reply.
pub fn glyph_protocol(enabled: bool, glossary: &mut Glossary, data: &[u8]) -> (r: Option<String>)
    ensures
        final(glossary)@ == dispatched(enabled, old(glossary)@, data@).0,
        reply_is(r, dispatched(enabled, old(glossary)@, data@).1),
{
    if !enabled {
        return None;
    }
    match parse::parse(data) {
        Ok(command) => execute(glossary, command),
        // Register rejected at parse time (e.g. out-of-namespace, malformed or
        // oversized payload): the reply honours the reply level.
        Err(ParseError::RegisterFailed { cp, reason, reply }) => register_failure(
            cp,
            reason,
            reply,
        ),
        Err(ParseError::ClearOutOfNamespace) => Some(parse::format_clear_error_out_of_namespace()),
        Err(ParseError::NotGlyphProtocol) => None,
        Err(ParseError::Malformed(_)) => None,
    }
}

/// While the protocol is not enabled nothing is replied and nothing changes.
pub proof fn lemma_disabled_does_nothing(g: GlossaryView, data: Seq<u8>)
    ensures
        dispatched(false, g, data) == (g, None::<Seq<char>>),
{
}

/// The glossary after all of `bodies`, one after the other.
pub open spec fn session(bodies: Seq<(bool, Seq<u8>)>) -> GlossaryView
    decreases bodies.len(),
{
    if bodies.len() == 0 {
        glossary::empty_glossary()
    } else {
        let (enabled, data) = bodies.last();
        dispatched(enabled, session(bodies.drop_last()), data).0
    }
}

/// Whatever a client sends, a session's glossary stays well-formed, and holds
/// private-use codepoints only, each with a glyph that validates, can be
/// rendered, and says of itself whether it uses the foreground.
pub proof fn lemma_session_is_safe(bodies: Seq<(bool, Seq<u8>)>)
    ensures
        glossary::well_formed(session(bodies)),
        forall|cp: u32| #[trigger]
            session(bodies).entries.dom().contains(cp) ==> {
                let glyph = session(bodies).entries[cp].glyph;
                &&& parse::private_use(cp)
                &&& glossary::validation(glyph) is Ok
                &&& parse::is_renderable(glyph)
                &&& glyph matches GlyphView::Color { container, uses_fg, .. } ==> uses_fg
                    == colr::payload_references_foreground(container)
            },
    decreases bodies.len(),
{
    if bodies.len() > 0 {
        let (enabled, data) = bodies.last();
        let g = session(bodies.drop_last());
        lemma_session_is_safe(bodies.drop_last());
        parse::lemma_only_private_use(data);
        parse::lemma_registered_is_renderable(data);
        if enabled {
            match parse::parsed(data) {
                Ok(CommandView::Register { cp, glyph, .. }) => {
                    glossary::lemma_insert_keeps_form(g, cp, glyph);
                },
                Ok(CommandView::Clear { cp: Some(cp) }) => {
                    glossary::lemma_clear_keeps_form(g, cp);
                },
                _ => {},
            }
        }
    }
}

/// A color glyph in a session's glossary that is said not to use the foreground
/// is painted alike whatever the foreground is, so its sprite is cached once.
pub proof fn lemma_color_glyph_caches_once(
    bodies: Seq<(bool, Seq<u8>)>,
    cp: u32,
    fg: Seq<u8>,
    other: Seq<u8>,
)
    requires
        session(bodies).entries.dom().contains(cp),
        session(bodies).entries[cp].glyph matches GlyphView::Color { uses_fg, .. } && !uses_fg,
    ensures
        session(bodies).entries[cp].glyph matches GlyphView::Color { container, .. }
            && colr::container(container) matches Some(c) && colr::painted_layers(c, fg)
            == colr::painted_layers(c, other),
{
    lemma_session_is_safe(bodies);
    if let GlyphView::Color { container, .. } = session(bodies).entries[cp].glyph {
        colr::lemma_foreground_independent(colr::container(container).unwrap(), fg, other);
    }
}

/// A registration whose payload validates is found under its codepoint
/// afterwards, and a query of that codepoint says so.
pub proof fn lemma_registration_takes_effect(
    g: GlossaryView,
    data: Seq<u8>,
    question: Seq<u8>,
    cp: u32,
    glyph: GlyphView,
    reply: ReplyMode,
)
    requires
        parse::parsed(data) == Ok::<CommandView, ParseError>(
            CommandView::Register { cp, glyph, reply },
        ),
        glossary::validation(glyph) is Ok,
        parse::parsed(question) == Ok::<CommandView, ParseError>(CommandView::Query { cp }),
    ensures
        ({
            let after = dispatched(true, g, data).0;
            &&& after.entries.dom().contains(cp)
            &&& after.entries[cp].glyph == glyph
            &&& after.entries[cp].version == g.next_version
            &&& dispatched(true, after, question) == (
                after,
                Some(parse::query_reply(cp, QueryStatus::Glossary)),
            )
        }),
{
}

/// What a client registers is what is stored: a payload that validates, sent in
/// base64 with parameters that name a private-use codepoint, an advertised
/// format and units-per-em, is found under that codepoint, byte for byte.
pub proof fn lemma_sent_payload_is_stored(
    g: GlossaryView,
    list: Seq<u8>,
    data: Seq<u8>,
    cp: u32,
    upm: u16,
)
    requires
        parse::param(list, "cp".spec_bytes()) matches Some(raw) && parse::single_codepoint(
            raw,
            "register cp invalid",
        ) == Ok::<u32, ParseError>(cp),
        parse::private_use(cp),
        parse::requested_format(list) == "glyf".spec_bytes() || parse::requested_format(list)
            == "colrv0".spec_bytes(),
        parse::requested_upm(list) == Some(upm),
        upm > 0,
        0 < data.len() <= parse::MAX_PAYLOAD_BYTES,
        glossary::validation(
            parse::registered_glyph(
                parse::requested_format(list),
                data,
                upm,
                parse::requested_sizing(list, upm),
            ),
        ) is Ok,
    ensures
        ({
            let rest = list + seq![bytes::SEMICOLON] + payload::base64_encoding(data);
            let after = dispatched(true, g, parse::request(parse::REGISTER, rest)).0;
            &&& after.entries.dom().contains(cp)
            &&& after.entries[cp].glyph == parse::registered_glyph(
                parse::requested_format(list),
                data,
                upm,
                parse::requested_sizing(list, upm),
            )
        }),
{
    let rest = list + seq![bytes::SEMICOLON] + payload::base64_encoding(data);
    parse::lemma_format_names_differ();
    parse::lemma_request_parses(rest);
    parse::lemma_payload_round_trip(list, data);
}

/// A body that is refused, and a payload that does not validate, leave the
/// glossary as it was.
pub proof fn lemma_refused_changes_nothing(enabled: bool, g: GlossaryView, data: Seq<u8>)
    requires
        match parse::parsed(data) {
            Ok(CommandView::Register { glyph, .. }) => glossary::validation(glyph) is Err,
            Ok(_) => false,
            Err(_) => true,
        },
    ensures
        dispatched(enabled, g, data).0 == g,
{
}

/// The reply level of a registration is honoured: at level `0` there is never a
/// reply, at level `2` only failures are replied to, at level `1` everything.
pub proof fn lemma_reply_level_is_honoured(g: GlossaryView, data: Seq<u8>)
    ensures
        ({
            let answer = dispatched(true, g, data).1;
            match parse::parsed(data) {
                Ok(CommandView::Register { cp, glyph, reply }) => answer == match reply {
                    ReplyMode::Silent => None,
                    ReplyMode::All => Some(
                        match glossary::validation(glyph) {
                            Ok(_) => parse::register_ok_reply(cp),
                            Err(reason) => parse::register_error_reply(cp, reason),
                        },
                    ),
                    ReplyMode::ErrorsOnly => match glossary::validation(glyph) {
                        Ok(_) => None,
                        Err(reason) => Some(parse::register_error_reply(cp, reason)),
                    },
                },
                Err(ParseError::RegisterFailed { cp, reason, reply }) => answer == match reply {
                    ReplyMode::Silent => None,
                    _ => Some(parse::register_error_reply(cp, reason)),
                },
                _ => true,
            }
        }),
{
}

/// Every reply is framed as an APC sequence of the protocol.
pub proof fn lemma_replies_are_framed(enabled: bool, g: GlossaryView, data: Seq<u8>)
    ensures
        dispatched(enabled, g, data).1 matches Some(text) ==> exists|
            verb: Seq<char>,
            fields: Seq<char>,
        | text == #[trigger] parse::framed(verb, fields),
{
}

} // verus!
