//! The glyphs that a session has registered: one per codepoint, a bounded
//! number of them, oldest out first, each with a version.

use crate::colr;
use crate::colr::{ColrContainer, PaintPlan};
use crate::glyf;
use crate::glyf::{DecodeError, Outline};
use crate::parse::RegisterError;
use crate::sizing::SizingParams;
use std::collections::{HashMap, VecDeque};
use vstd::prelude::*;

verus! {

/// A glyph registered by a client for a single codepoint.
///
/// `Glyf` carries a bare OpenType simple-glyph record; `Color` carries a
/// `colrv0` container. Both carry the [`SizingParams`] parsed from the `r`
/// request, which the renderer applies at draw time.
#[derive(Debug, Clone, PartialEq, Eq)]
pub enum RegisteredGlyph {
    /// Monochrome OpenType simple-glyph outline, rendered in the cell's
    /// foreground color. `upm` is the units-per-em the outline is authored in.
    Glyf { glyf: Vec<u8>, upm: u16, sizing: SizingParams },
    /// Layered flat-color glyph (`colrv0` container).
    Color {
        container: Vec<u8>,
        upm: u16,
        sizing: SizingParams,
        /// Whether any layer takes the foreground color (CPAL `0xFFFF`, or an
        /// index without an entry), so the sprite must re-rasterize on
        /// foreground change.
        uses_fg: bool,
    },
}

/// The mathematical content of a [`RegisteredGlyph`].
#[verifier::ext_equal]
pub enum GlyphView {
    Glyf { glyf: Seq<u8>, upm: u16, sizing: SizingParams },
    Color { container: Seq<u8>, upm: u16, sizing: SizingParams, uses_fg: bool },
}

impl View for RegisteredGlyph {
    type V = GlyphView;

    open spec fn view(&self) -> GlyphView {
        match *self {
            RegisteredGlyph::Glyf { glyf, upm, sizing } => GlyphView::Glyf {
                glyf: glyf@,
                upm,
                sizing,
            },
            RegisteredGlyph::Color { container, upm, sizing, uses_fg } => GlyphView::Color {
                container: container@,
                upm,
                sizing,
                uses_fg,
            },
        }
    }
}

/// Whether a payload can be registered, and if not, why: a `glyf` record has to
/// decode, a `colrv0` container has to parse.
pub open spec fn validation(glyph: GlyphView) -> Result<(), RegisterError> {
    match glyph {
        GlyphView::Glyf { glyf, .. } => match glyf::decoded(glyf) {
            Ok(_) => Ok(()),
            Err(DecodeError::Composite) => Err(RegisterError::CompositeUnsupported),
            Err(DecodeError::Hinted) => Err(RegisterError::HintingUnsupported),
            Err(DecodeError::Malformed) => Err(RegisterError::MalformedPayload),
        },
        GlyphView::Color { container, .. } => match colr::container(container) {
            Some(_) => Ok(()),
            None => Err(RegisterError::MalformedPayload),
        },
    }
}

impl RegisteredGlyph {
    /// The units-per-em the outline(s) are authored in.
    pub fn upm(&self) -> (r: u16)
        ensures
            r == (match self@ {
                GlyphView::Glyf { upm, .. } => upm,
                GlyphView::Color { upm, .. } => upm,
            }),
    {
        match self {
            RegisteredGlyph::Glyf { upm, .. } => *upm,
            RegisteredGlyph::Color { upm, .. } => *upm,
        }
    }

    /// The sizing and placement parameters for this registration.
    pub fn sizing(&self) -> (r: &SizingParams)
        ensures
            *r == (match self@ {
                GlyphView::Glyf { sizing, .. } => sizing,
                GlyphView::Color { sizing, .. } => sizing,
            }),
    {
        match self {
            RegisteredGlyph::Glyf { sizing, .. } => sizing,
            RegisteredGlyph::Color { sizing, .. } => sizing,
        }
    }

    /// Whether this glyph's rasterization depends on the cell foreground color.
    /// Mono `glyf` glyphs are tinted at draw time (their sprite is a mask
    /// independent of the foreground), so this is `false` for them. Color
    /// glyphs depend on the foreground only when a layer takes it.
    pub fn uses_foreground(&self) -> (r: bool)
        ensures
            r == (match self@ {
                GlyphView::Glyf { .. } => false,
                GlyphView::Color { uses_fg, .. } => uses_fg,
            }),
    {
        match self {
            RegisteredGlyph::Glyf { .. } => false,
            RegisteredGlyph::Color { uses_fg, .. } => *uses_fg,
        }
    }

    /// The outline that a monochrome glyph's mask is filled from. `None` for
    /// color glyphs, or if the payload fails to decode.
    pub fn mono_outline(&self) -> (r: Option<Outline>)
        ensures
            match self@ {
                GlyphView::Glyf { glyf, .. } => match r {
                    Some(outline) => glyf::decoded(glyf) == Ok::<
                        glyf::OutlineView,
                        DecodeError,
                    >(outline@),
                    None => glyf::decoded(glyf) is Err,
                },
                GlyphView::Color { .. } => r is None,
            },
    {
        match self {
            RegisteredGlyph::Glyf { glyf, .. } => match glyf::decode(glyf) {
                Ok(outline) => Some(outline),
                Err(_) => None,
            },
            RegisteredGlyph::Color { .. } => None,
        }
    }

    /// What to paint for a color glyph where the foreground is `fg`. `None` for
    /// mono glyphs, if the container fails to parse, or if it paints nothing.
    pub fn color_plan(&self, fg: [u8; 4]) -> (r: Option<PaintPlan>)
        ensures
            match self@ {
                GlyphView::Glyf { .. } => r is None,
                GlyphView::Color { container, .. } => match colr::container(container) {
                    Some(c) => colr::plans(r, c, fg@),
                    None => r is None,
                },
            },
    {
        match self {
            RegisteredGlyph::Color { container, .. } => match ColrContainer::parse(container) {
                Some(c) => {
                    proof {
                        colr::lemma_parsed_container_is_its_bytes(container@);
                    }
                    colr::paint_plan(&c, fg)
                },
                None => None,
            },
            RegisteredGlyph::Glyf { .. } => None,
        }
    }

    /// Validate a payload at registration time, mapping decode failures to the
    /// register error codes. Catches composite and hinted `glyf` records, which
    /// are rejected.
    pub fn validate(&self) -> (r: Result<(), RegisterError>)
        ensures
            r == validation(self@),
    {
        match self {
            RegisteredGlyph::Glyf { glyf, .. } => match glyf::decode(glyf) {
                Ok(_) => Ok(()),
                Err(DecodeError::Composite) => Err(RegisterError::CompositeUnsupported),
                Err(DecodeError::Hinted) => Err(RegisterError::HintingUnsupported),
                Err(DecodeError::Malformed) => Err(RegisterError::MalformedPayload),
            },
            RegisteredGlyph::Color { container, .. } => match ColrContainer::parse(container) {
                Some(_) => Ok(()),
                None => Err(RegisterError::MalformedPayload),
            },
        }
    }
}

/// A registered glyph paired with its monotonically-increasing version.
///
/// The version is bumped every time a codepoint is (re)registered, so the GUI
/// atlas can key cached sprites by `(cp, version, size)` and discard stale
/// sprites when a codepoint is overwritten, evicted, or cleared and later
/// registered again.
#[derive(Debug, Clone, PartialEq, Eq)]
pub struct VersionedGlyph {
    pub version: u32,
    pub glyph: RegisteredGlyph,
}

/// The mathematical content of a [`VersionedGlyph`].
#[verifier::ext_equal]
pub struct EntryView {
    pub version: u32,
    pub glyph: GlyphView,
}

impl View for VersionedGlyph {
    type V = EntryView;

    open spec fn view(&self) -> EntryView {
        EntryView { version: self.version, glyph: self.glyph@ }
    }
}

/// Maximum number of live registrations per session. Reaching this and
/// registering a new codepoint evicts the oldest registration.
pub const GLOSSARY_CAPACITY: usize = 1024;

/// Per-session store of registered glyphs, keyed by codepoint.
///
/// Enforces the cap on slots with FIFO eviction (by first insertion order), and
/// assigns every registration a fresh version for atlas cache invalidation.
#[derive(Debug)]
pub struct Glossary {
    entries: HashMap<u32, VersionedGlyph>,
    /// Codepoints in first-insertion order; drives FIFO eviction. A codepoint
    /// appears at most once: overwriting an existing entry replaces it in place
    /// and does not change its eviction position.
    order: VecDeque<u32>,
    /// Source of monotonically-increasing version numbers. Using one global
    /// counter (rather than one per codepoint) means a codepoint registered
    /// again after eviction always gets a strictly newer version, so a stale
    /// atlas sprite can never be mistaken for the fresh one.
    next_version: u32,
}

/// The mathematical content of a [`Glossary`]: the live registrations, their
/// codepoints from the oldest to the newest, and the version that the next one
/// gets.
#[verifier::ext_equal]
pub struct GlossaryView {
    pub entries: Map<u32, EntryView>,
    pub order: Seq<u32>,
    pub next_version: u32,
}

impl View for Glossary {
    type V = GlossaryView;

    closed spec fn view(&self) -> GlossaryView {
        GlossaryView {
            entries: self.entries@.map_values(|v: VersionedGlyph| v@),
            order: self.order@,
            next_version: self.next_version,
        }
    }
}

/// Whether a glossary holds together: its order lists every live codepoint
/// once, and no others, and there are no more than its capacity.
pub open spec fn well_formed(g: GlossaryView) -> bool {
    &&& g.order.no_duplicates()
    &&& forall|cp: u32| g.entries.dom().contains(cp) <==> #[trigger] g.order.contains(cp)
    &&& g.order.len() <= GLOSSARY_CAPACITY
}

/// The glossary without registrations, before the first one.
pub open spec fn empty_glossary() -> GlossaryView {
    GlossaryView { entries: Map::empty(), order: Seq::empty(), next_version: 0 }
}

/// The version after `version`; after the last one they start over.
pub open spec fn version_after(version: u32) -> u32 {
    if version == u32::MAX {
        0
    } else {
        (version + 1) as u32
    }
}

/// `g` after `glyph` was registered at `cp`. A live codepoint is overwritten in
/// place; a new one goes last, and where `g` is full the oldest goes out first.
pub open spec fn inserted(g: GlossaryView, cp: u32, glyph: GlyphView) -> GlossaryView {
    let entry = EntryView { version: g.next_version, glyph };
    let next_version = version_after(g.next_version);
    if g.entries.dom().contains(cp) {
        GlossaryView { entries: g.entries.insert(cp, entry), order: g.order, next_version }
    } else if g.order.len() < GLOSSARY_CAPACITY {
        GlossaryView { entries: g.entries.insert(cp, entry), order: g.order.push(cp), next_version }
    } else {
        GlossaryView {
            entries: g.entries.remove(g.order[0]).insert(cp, entry),
            order: g.order.drop_first().push(cp),
            next_version,
        }
    }
}

/// `g` after the registration of `cp` was removed, if there is one.
pub open spec fn cleared_one(g: GlossaryView, cp: u32) -> GlossaryView {
    GlossaryView { entries: g.entries.remove(cp), order: g.order.remove_value(cp), ..g }
}

/// `g` after every registration was removed.
pub open spec fn cleared_all(g: GlossaryView) -> GlossaryView {
    GlossaryView { entries: Map::empty(), order: Seq::empty(), ..g }
}

/// An immutable, shareable snapshot of a glossary's registrations, keyed by
/// codepoint, each carrying its version. Handed to the GUI renderer per frame.
pub type GlossarySnapshot = std::sync::Arc<HashMap<u32, VersionedGlyph>>;

/// The first position of `cp` in `order`, if any.
fn position(order: &VecDeque<u32>, cp: u32) -> (r: Option<usize>)
    ensures
        match r {
            Some(i) => order@.index_of_first(cp) == Some(i as int),
            None => !order@.contains(cp),
        },
{
    proof {
        order@.index_of_first_ensures(cp);
    }
    let mut i: usize = 0;
    while i < order.len()
        invariant
            i <= order@.len(),
            forall|j: int| 0 <= j < i ==> order@[j] != cp,
            order@.index_of_first(cp) matches Some(k) ==> 0 <= k < order@.len() && order@[k] == cp
                && forall|j: int| 0 <= j < k ==> order@[j] != cp,
            order@.index_of_first(cp) is None ==> !order@.contains(cp),
        decreases order@.len() - i,
    {
        if order[i] == cp {
            assert(order@[i as int] == cp);
            return Some(i);
        }
        i += 1;
    }
    None
}

impl Default for Glossary {
    fn default() -> (r: Self)
        ensures
            r@ == empty_glossary(),
            well_formed(r@),
    {
        Self::new()
    }
}

impl Glossary {
    /// Create an empty glossary.
    pub fn new() -> (r: Self)
        ensures
            r@ == empty_glossary(),
            well_formed(r@),
    {
        let g = Glossary { entries: HashMap::new(), order: VecDeque::new(), next_version: 0 };
        assert(g@.entries =~= Map::empty());
        g
    }

    /// Every glossary is well-formed.
    #[verifier::type_invariant]
    spec fn inv(self) -> bool {
        well_formed(self@)
    }

    /// What this glossary is made of, leaving an empty one behind.
    fn take_apart(&mut self) -> (r: (HashMap<u32, VersionedGlyph>, VecDeque<u32>, u32))
        ensures
            well_formed(old(self)@),
            old(self)@ == (GlossaryView {
                entries: r.0@.map_values(|v: VersionedGlyph| v@),
                order: r.1@,
                next_version: r.2,
            }),
    {
        proof {
            use_type_invariant(&*self);
        }
        let mut whole = Glossary::new();
        std::mem::swap(self, &mut whole);
        (whole.entries, whole.order, whole.next_version)
    }

    /// Register (or overwrite) the glyph for `cp`, returning its new version.
    /// Overwriting an existing codepoint replaces it in place and bumps its
    /// version, keeping its FIFO position. Registering a new codepoint while at
    /// capacity evicts the oldest registration first.
    pub fn insert(&mut self, cp: u32, glyph: RegisteredGlyph) -> (r: u32)
        ensures
            final(self)@ == inserted(old(self)@, cp, glyph@),
            well_formed(final(self)@),
            r == old(self)@.next_version,
    {
        let ghost before = self@;
        let (mut entries, mut order, version) = self.take_apart();
        let entry = VersionedGlyph { version, glyph };
        if !entries.contains_key(&cp) {
            if order.len() >= GLOSSARY_CAPACITY {
                // Evict the oldest registration.
                if let Some(oldest) = order.pop_front() {
                    entries.remove(&oldest);
                }
            }
            order.push_back(cp);
        }
        entries.insert(cp, entry);
        proof {
            let after = inserted(before, cp, glyph@);
            assert(entries@.map_values(|v: VersionedGlyph| v@) =~= after.entries);
            assert(order@ =~= after.order);
            lemma_insert_keeps_form(before, cp, glyph@);
        }
        *self = Glossary { entries, order, next_version: version.wrapping_add(1) };
        version
    }

    /// Remove the registration for `cp`. Clearing an empty slot is a no-op.
    pub fn clear_one(&mut self, cp: u32)
        ensures
            final(self)@ == cleared_one(old(self)@, cp),
            well_formed(final(self)@),
    {
        let ghost before = self@;
        let (mut entries, mut order, next_version) = self.take_apart();
        if entries.remove(&cp).is_some() {
            if let Some(i) = position(&order, cp) {
                order.remove(i);
            }
        }
        proof {
            assert(entries@.map_values(|v: VersionedGlyph| v@) =~= before.entries.remove(cp));
            assert(before.entries.dom().contains(cp) == before.order.contains(cp));
            before.order.index_of_first_ensures(cp);
            lemma_clear_keeps_form(before, cp);
        }
        *self = Glossary { entries, order, next_version };
    }

    /// Remove every registration in this session.
    pub fn clear_all(&mut self)
        ensures
            final(self)@ == cleared_all(old(self)@),
            well_formed(final(self)@),
    {
        let next_version: u32 = self.next_version;
        *self = Glossary { entries: HashMap::new(), order: VecDeque::new(), next_version };
        assert(self@.entries =~= Map::empty());
    }

    /// Look up the glyph registered for `cp`, if any.
    pub fn get(&self, cp: u32) -> (r: Option<&RegisteredGlyph>)
        ensures
            match r {
                Some(glyph) => self@.entries.dom().contains(cp) && self@.entries[cp].glyph
                    == glyph@,
                None => !self@.entries.dom().contains(cp),
            },
    {
        match self.entries.get(&cp) {
            Some(entry) => Some(&entry.glyph),
            None => None,
        }
    }

    /// The current version of `cp`'s registration, if any.
    pub fn version(&self, cp: u32) -> (r: Option<u32>)
        ensures
            match r {
                Some(version) => self@.entries.dom().contains(cp) && self@.entries[cp].version
                    == version,
                None => !self@.entries.dom().contains(cp),
            },
    {
        match self.entries.get(&cp) {
            Some(entry) => Some(entry.version),
            None => None,
        }
    }

    /// Whether `cp` has a live registration in this session.
    pub fn contains(&self, cp: u32) -> (r: bool)
        ensures
            r == self@.entries.dom().contains(cp),
    {
        self.entries.contains_key(&cp)
    }

    /// Number of live registrations.
    pub fn len(&self) -> (r: usize)
        ensures
            r == self@.entries.len(),
            r <= GLOSSARY_CAPACITY,
    {
        proof {
            use_type_invariant(self);
            lemma_within_capacity(self@);
        }
        assert(self@.entries.dom() =~= self.entries@.dom());
        self.entries.len()
    }

    /// Whether the glossary holds no registrations.
    pub fn is_empty(&self) -> (r: bool)
        ensures
            r == self@.entries.is_empty(),
    {
        assert(self@.entries.dom() =~= self.entries@.dom());
        self.entries.is_empty()
    }

    /// The set of registered codepoints (unordered).
    pub fn codepoints(&self) -> (r: Vec<u32>)
        ensures
            r@.no_duplicates(),
            forall|cp: u32| #[trigger] r@.contains(cp) <==> self@.entries.dom().contains(cp),
    {
        proof {
            use_type_invariant(self);
        }
        let mut out: Vec<u32> = Vec::with_capacity(self.order.len());
        let mut i: usize = 0;
        while i < self.order.len()
            invariant
                i <= self.order@.len(),
                out@ == self.order@.take(i as int),
            decreases self.order@.len() - i,
        {
            out.push(self.order[i]);
            i += 1;
            assert(out@ =~= self.order@.take(i as int));
        }
        assert(out@ =~= self@.order);
        out
    }

    /// A cheap-to-share snapshot of the full registration map. The renderer
    /// takes this once per pane paint (before the terminal render lock) so it
    /// can rasterize registered glyphs without locking during paint. Each entry
    /// carries its version for cache keying.
    pub fn snapshot(&self) -> (r: GlossarySnapshot)
        ensures
            r@.map_values(|v: VersionedGlyph| v@) == self@.entries,
    {
        std::sync::Arc::new(self.entries.clone())
    }
}

/// Registering keeps a glossary well-formed.
pub proof fn lemma_insert_keeps_form(g: GlossaryView, cp: u32, glyph: GlyphView)
    requires
        well_formed(g),
    ensures
        well_formed(inserted(g, cp, glyph)),
{
    let after = inserted(g, cp, glyph);
    if !g.entries.dom().contains(cp) {
        assert(!g.order.contains(cp));
        let kept = if g.order.len() < GLOSSARY_CAPACITY {
            g.order
        } else {
            g.order.drop_first()
        };
        assert(after.order == kept.push(cp));
        assert forall|i: int, j: int| 0 <= i < j < after.order.len() implies after.order[i]
            != after.order[j] by {
            if j == kept.len() {
                assert(g.order.contains(after.order[i]));
            }
        }
        assert forall|c: u32| after.entries.dom().contains(c) <==> #[trigger] after.order.contains(
            c,
        ) by {
            if after.order.contains(c) && c != cp {
                let k = after.order.index_of(c);
                assert(kept[k] == c);
                if g.order.len() >= GLOSSARY_CAPACITY {
                    assert(g.order[k + 1] == c);
                    assert(g.order[0] != c);
                }
                assert(g.order.contains(c));
            }
            if after.entries.dom().contains(c) {
                if c == cp {
                    assert(after.order[kept.len() as int] == cp);
                } else {
                    assert(g.order.contains(c));
                    let k = g.order.index_of(c);
                    if g.order.len() >= GLOSSARY_CAPACITY {
                        assert(kept[k - 1] == c);
                        assert(after.order[k - 1] == c);
                    } else {
                        assert(after.order[k] == c);
                    }
                }
            }
        }
    }
}

/// Clearing a slot keeps a glossary well-formed.
pub proof fn lemma_clear_keeps_form(g: GlossaryView, cp: u32)
    requires
        well_formed(g),
    ensures
        well_formed(cleared_one(g, cp)),
{
    let after = cleared_one(g, cp);
    g.order.index_of_first_ensures(cp);
    if g.order.contains(cp) {
        let k = g.order.index_of_first(cp).unwrap();
        assert forall|c: u32| after.entries.dom().contains(c) <==> #[trigger] after.order.contains(
            c,
        ) by {
            if after.order.contains(c) {
                let j = after.order.index_of(c);
                if j < k {
                    assert(g.order[j] == c);
                } else {
                    assert(g.order[j + 1] == c);
                }
                assert(g.order.contains(c));
            }
            if after.entries.dom().contains(c) {
                assert(g.order.contains(c));
                let j = g.order.index_of(c);
                if j < k {
                    assert(after.order[j] == c);
                } else {
                    assert(after.order[j - 1] == c);
                }
            }
        }
    }
}

/// One change to a glossary.
pub enum Change {
    Insert { cp: u32, glyph: GlyphView },
    ClearOne { cp: u32 },
    ClearAll,
}

/// `g` after `change`.
pub open spec fn changed(g: GlossaryView, change: Change) -> GlossaryView {
    match change {
        Change::Insert { cp, glyph } => inserted(g, cp, glyph),
        Change::ClearOne { cp } => cleared_one(g, cp),
        Change::ClearAll => cleared_all(g),
    }
}

/// `g` after all of `changes`, one after the other.
pub open spec fn changed_by_all(g: GlossaryView, changes: Seq<Change>) -> GlossaryView
    decreases changes.len(),
{
    if changes.len() == 0 {
        g
    } else {
        changed(changed_by_all(g, changes.drop_last()), changes.last())
    }
}

/// Every glossary that can come about is well-formed.
pub proof fn lemma_always_well_formed(changes: Seq<Change>)
    ensures
        well_formed(changed_by_all(empty_glossary(), changes)),
    decreases changes.len(),
{
    if changes.len() > 0 {
        lemma_always_well_formed(changes.drop_last());
        let g = changed_by_all(empty_glossary(), changes.drop_last());
        match changes.last() {
            Change::Insert { cp, glyph } => lemma_insert_keeps_form(g, cp, glyph),
            Change::ClearOne { cp } => lemma_clear_keeps_form(g, cp),
            Change::ClearAll => {},
        }
    }
}

/// There are never more live registrations than the capacity.
pub proof fn lemma_within_capacity(g: GlossaryView)
    requires
        well_formed(g),
    ensures
        g.entries.dom().finite(),
        g.entries.len() == g.order.len(),
        g.entries.len() <= GLOSSARY_CAPACITY,
{
    g.order.unique_seq_to_set();
    assert forall|cp: u32| g.entries.dom().contains(cp) <==> g.order.to_set().contains(cp) by {
        assert(g.order.contains(cp) == g.entries.dom().contains(cp));
    }
    assert(g.entries.dom() =~= g.order.to_set());
}

/// What was registered is what is found, with the version that was handed out.
/// Every other registration is found as before, unless it was the oldest and
/// made room.
pub proof fn lemma_registered_is_found(g: GlossaryView, cp: u32, glyph: GlyphView, other: u32)
    requires
        well_formed(g),
        other != cp,
    ensures
        ({
            let after = inserted(g, cp, glyph);
            let evicts = !g.entries.dom().contains(cp) && g.order.len() == GLOSSARY_CAPACITY;
            &&& after.entries.dom().contains(cp)
            &&& after.entries[cp] == EntryView { version: g.next_version, glyph }
            &&& after.entries.dom().contains(other) <==> g.entries.dom().contains(other) && !(evicts
                && other == g.order[0])
            &&& after.entries.dom().contains(other) ==> after.entries[other] == g.entries[other]
        }),
{
}

/// Overwriting a registration does not change its place in the order of
/// eviction, nor that of any other.
pub proof fn lemma_overwrite_keeps_order(g: GlossaryView, cp: u32, glyph: GlyphView)
    requires
        g.entries.dom().contains(cp),
    ensures
        inserted(g, cp, glyph).order == g.order,
        inserted(g, cp, glyph).entries.dom() == g.entries.dom(),
{
    assert(inserted(g, cp, glyph).entries.dom() =~= g.entries.dom());
}

/// Registering a new codepoint in a full glossary evicts the oldest
/// registration and no other, and the one after it becomes the oldest.
pub proof fn lemma_eviction_is_fifo(g: GlossaryView, cp: u32, glyph: GlyphView)
    requires
        well_formed(g),
        !g.entries.dom().contains(cp),
        g.order.len() == GLOSSARY_CAPACITY,
    ensures
        inserted(g, cp, glyph).entries.dom() == g.entries.dom().remove(g.order[0]).insert(cp),
        inserted(g, cp, glyph).order[0] == g.order[1],
        inserted(g, cp, glyph).order.last() == cp,
{
    assert(inserted(g, cp, glyph).entries.dom() =~= g.entries.dom().remove(g.order[0]).insert(cp));
}

/// A cleared codepoint is not found, and every other is found as before.
/// Clearing an empty slot changes nothing.
pub proof fn lemma_cleared_is_gone(g: GlossaryView, cp: u32, other: u32)
    requires
        well_formed(g),
        other != cp,
    ensures
        ({
            let after = cleared_one(g, cp);
            &&& !after.entries.dom().contains(cp)
            &&& after.entries.dom().contains(other) == g.entries.dom().contains(other)
            &&& after.entries.dom().contains(other) ==> after.entries[other] == g.entries[other]
            &&& !g.entries.dom().contains(cp) ==> after == g
        }),
{
    if !g.entries.dom().contains(cp) {
        assert(!g.order.contains(cp));
        g.order.index_of_first_ensures(cp);
        assert(cleared_one(g, cp).entries =~= g.entries);
    }
}

/// How many of `changes` register a glyph.
pub open spec fn registrations(changes: Seq<Change>) -> nat
    decreases changes.len(),
{
    if changes.len() == 0 {
        0
    } else {
        registrations(changes.drop_last()) + if changes.last() is Insert {
            1nat
        } else {
            0nat
        }
    }
}

proof fn lemma_versions_grow(g: GlossaryView, changes: Seq<Change>)
    requires
        g.next_version + registrations(changes) <= u32::MAX,
    ensures
        changed_by_all(g, changes).next_version == g.next_version + registrations(changes),
    decreases changes.len(),
{
    if changes.len() > 0 {
        lemma_versions_grow(g, changes.drop_last());
    }
}

/// Whatever happens in between, a later registration gets a strictly newer
/// version than an earlier one, so long as there are not so many in between
/// that the versions start over.
pub proof fn lemma_later_is_newer(
    g: GlossaryView,
    cp: u32,
    glyph: GlyphView,
    changes: Seq<Change>,
)
    requires
        g.next_version + 1 + registrations(changes) <= u32::MAX,
    ensures
        changed_by_all(inserted(g, cp, glyph), changes).next_version > g.next_version,
{
    lemma_versions_grow(inserted(g, cp, glyph), changes);
}

/// Whether every live version is older than the next one.
pub open spec fn versions_are_past(g: GlossaryView) -> bool {
    forall|cp: u32| #[trigger]
        g.entries.dom().contains(cp) ==> g.entries[cp].version < g.next_version
}

/// In every glossary that can come about, a new registration is strictly newer
/// than all live ones, so long as the versions have not started over.
pub proof fn lemma_live_versions_are_past(changes: Seq<Change>)
    requires
        registrations(changes) <= u32::MAX,
    ensures
        versions_are_past(changed_by_all(empty_glossary(), changes)),
    decreases changes.len(),
{
    if changes.len() > 0 {
        let before = changes.drop_last();
        lemma_live_versions_are_past(before);
        lemma_versions_grow(empty_glossary(), before);
    }
}

} // verus!
