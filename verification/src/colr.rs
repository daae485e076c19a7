//! Color glyph support (`colrv0`).
//!
//! A `colrv0` payload is a container wrapping the simple-glyph outlines each
//! layer references plus raw OpenType `COLR` v0 and `CPAL` tables. Each layer
//! is a `glyf` outline filled with a `CPAL` color, composited in painter order.

use crate::bytes;
use crate::glyf;
use crate::glyf::{Outline, OutlineView};
use vstd::prelude::*;

verus! {

/// A straight-alpha (non-premultiplied) RGBA bitmap, row-major.
#[derive(Debug, Clone, PartialEq, Eq)]
pub struct RgbaBitmap {
    pub data: Vec<u8>,
    pub width: usize,
    pub height: usize,
}

/// The decoded `colrv0` container.
#[derive(Debug, Clone, PartialEq, Eq)]
pub struct ColrContainer {
    /// Simple-glyph outlines; COLR layer GlyphIds index into this.
    pub glyphs: Vec<Vec<u8>>,
    pub colr: Vec<u8>,
    pub cpal: Vec<u8>,
}

/// The mathematical content of a [`ColrContainer`].
#[verifier::ext_equal]
pub struct ContainerView {
    pub glyphs: Seq<Seq<u8>>,
    pub colr: Seq<u8>,
    pub cpal: Seq<u8>,
}

impl View for ColrContainer {
    type V = ContainerView;

    open spec fn view(&self) -> ContainerView {
        ContainerView {
            glyphs: self.glyphs@.map_values(|g: Vec<u8>| g@),
            colr: self.colr@,
            cpal: self.cpal@,
        }
    }
}

/// Upper bound on outlines in one container (keeps decode cost bounded; sits
/// within COLR's 16-bit GlyphId space).
pub const MAX_GLYPHS: u16 = 1024;

/// The palette index that stands for the cell's foreground color.
pub const FOREGROUND: u16 = 0xffff;

// ---- the wire container --------------------------------------------------

/// The block at the front of `s` (a big-endian `u16` length and that many
/// bytes), and what follows it.
pub open spec fn block(s: Seq<u8>) -> Option<(Seq<u8>, Seq<u8>)> {
    if s.len() < 2 || s.len() < 2 + bytes::be16(s, 0) {
        None
    } else {
        let end = 2 + bytes::be16(s, 0);
        Some((s.subrange(2, end), s.skip(end)))
    }
}

/// The `n` blocks at the front of `s`, and what follows them.
pub open spec fn blocks(s: Seq<u8>, n: nat) -> Option<(Seq<Seq<u8>>, Seq<u8>)>
    decreases n,
{
    if n == 0 {
        Some((Seq::empty(), s))
    } else {
        match blocks(s, (n - 1) as nat) {
            Some((before, rest)) => match block(rest) {
                Some((last, rest)) => Some((before.push(last), rest)),
                None => None,
            },
            None => None,
        }
    }
}

/// The container that `data` holds: a `u16` count and that many outline
/// blocks, a COLR block that is not empty, a CPAL block, and nothing more.
pub open spec fn container(data: Seq<u8>) -> Option<ContainerView> {
    let n = bytes::be16(data, 0);
    if data.len() < 2 || n == 0 || n > MAX_GLYPHS {
        None
    } else {
        match blocks(data.skip(2), n as nat) {
            Some((glyphs, rest)) => match block(rest) {
                Some((colr, rest)) => match block(rest) {
                    Some((cpal, rest)) => if colr.len() > 0 && rest.len() == 0 {
                        Some(ContainerView { glyphs, colr, cpal })
                    } else {
                        None
                    },
                    None => None,
                },
                None => None,
            },
            None => None,
        }
    }
}

/// Once a block is missing, more blocks are missing too.
proof fn lemma_blocks_missing(s: Seq<u8>, m: nat, n: nat)
    requires
        m <= n,
        blocks(s, m) is None,
    ensures
        blocks(s, n) is None,
    decreases n,
{
    if m < n {
        lemma_blocks_missing(s, m, (n - 1) as nat);
    }
}

/// A reading position in a byte string.
struct Cursor<'a> {
    data: &'a [u8],
    pos: usize,
}

impl<'a> Cursor<'a> {
    spec fn valid(self) -> bool {
        self.pos <= self.data.len()
    }

    /// What is left to read.
    spec fn rest(self) -> Seq<u8> {
        self.data@.skip(self.pos as int)
    }

    fn new(data: &'a [u8]) -> (c: Self)
        ensures
            c.valid(),
            c.rest() == data@,
    {
        assert(data@.skip(0) =~= data@);
        Cursor { data, pos: 0 }
    }

    fn remaining(&self) -> (n: usize)
        requires
            self.valid(),
        ensures
            n == self.rest().len(),
    {
        self.data.len() - self.pos
    }

    /// Read a big-endian `u16`, if two bytes are left.
    fn u16(&mut self) -> (r: Option<u16>)
        requires
            old(self).valid(),
        ensures
            final(self).valid(),
            match r {
                Some(v) => {
                    &&& old(self).rest().len() >= 2
                    &&& v == bytes::be16(old(self).rest(), 0)
                    &&& final(self).rest() == old(self).rest().skip(2)
                },
                None => old(self).rest().len() < 2,
            },
    {
        if self.remaining() < 2 {
            return None;
        }
        let v: u16 = bytes::read_u16(self.data, self.pos);
        assert(self.rest().skip(2) =~= self.data@.skip(self.pos + 2));
        self.pos += 2;
        Some(v)
    }

    /// Read `n` bytes, if that many are left.
    fn take(&mut self, n: usize) -> (r: Option<&'a [u8]>)
        requires
            old(self).valid(),
        ensures
            final(self).valid(),
            match r {
                Some(s) => {
                    &&& old(self).rest().len() >= n
                    &&& s@ == old(self).rest().take(n as int)
                    &&& final(self).rest() == old(self).rest().skip(n as int)
                },
                None => old(self).rest().len() < n,
            },
    {
        if self.remaining() < n {
            return None;
        }
        let data: &'a [u8] = self.data;
        let s: &'a [u8] = &data[self.pos..self.pos + n];
        assert(s@ =~= self.rest().take(n as int));
        assert(self.rest().skip(n as int) =~= self.data@.skip(self.pos + n));
        self.pos += n;
        Some(s)
    }

    /// Read a block: a `u16` length and that many bytes.
    fn block(&mut self) -> (r: Option<Vec<u8>>)
        requires
            old(self).valid(),
        ensures
            final(self).valid(),
            match r {
                Some(v) => block(old(self).rest()) == Some((v@, final(self).rest())),
                None => block(old(self).rest()) is None,
            },
    {
        let ghost s = self.rest();
        match self.u16() {
            Some(n) => match self.take(n as usize) {
                Some(bytes) => {
                    assert(bytes@ =~= s.subrange(2, 2 + n));
                    assert(self.rest() =~= s.skip(2 + n));
                    Some(bytes::copied(bytes))
                },
                None => None,
            },
            None => None,
        }
    }
}

impl ColrContainer {
    /// Parse the wire container:
    /// ```text
    /// u16 n_glyphs
    /// per glyph: u16 glyf_len, glyf_len bytes
    /// u16 colr_len, colr_len bytes        (> 0)
    /// u16 cpal_len, cpal_len bytes         (may be 0)
    /// ```
    pub fn parse(data: &[u8]) -> (r: Option<Self>)
        ensures
            match r {
                Some(c) => container(data@) == Some(c@),
                None => container(data@) is None,
            },
    {
        let mut c = Cursor::new(data);
        let n: u16 = match c.u16() {
            Some(n) => n,
            None => {
                return None;
            },
        };
        if n == 0 || n > MAX_GLYPHS {
            return None;
        }
        let ghost front = c.rest();
        let mut glyphs: Vec<Vec<u8>> = Vec::with_capacity(n as usize);
        let mut i: u16 = 0;
        assert(glyphs@.map_values(|g: Vec<u8>| g@) =~= Seq::empty());
        while i < n
            invariant
                i <= n,
                c.valid(),
                data@.len() >= 2,
                n == bytes::be16(data@, 0),
                0 < n <= MAX_GLYPHS,
                front == data@.skip(2),
                blocks(front, i as nat) == Some(
                    (glyphs@.map_values(|g: Vec<u8>| g@), c.rest()),
                ),
            decreases n - i,
        {
            let ghost before = glyphs@;
            match c.block() {
                Some(glyph) => {
                    glyphs.push(glyph);
                    assert(glyphs@.map_values(|g: Vec<u8>| g@) =~= before.map_values(
                        |g: Vec<u8>| g@,
                    ).push(glyph@));
                },
                None => {
                    proof {
                        lemma_blocks_missing(front, (i + 1) as nat, n as nat);
                    }
                    return None;
                },
            }
            i += 1;
        }
        let colr: Vec<u8> = match c.block() {
            Some(b) => b,
            None => {
                return None;
            },
        };
        let cpal: Vec<u8> = match c.block() {
            Some(b) => b,
            None => {
                return None;
            },
        };
        if colr.len() == 0 || c.remaining() != 0 {
            return None;
        }
        Some(ColrContainer { glyphs, colr, cpal })
    }

    /// Whether rendering this container depends on the cell foreground color,
    /// i.e. some layer references CPAL palette index `0xFFFF`, some painted
    /// layer has an index that the palette has no entry for (it is painted in
    /// the foreground too), or the container has no usable COLR v0 layer list
    /// (in which case the base outline is painted in the foreground). Such
    /// glyphs must re-rasterize when the foreground changes; all others cache
    /// once.
    pub fn uses_foreground(&self) -> (r: bool)
        requires
            self.cpal@.len() <= MAX_CPAL,
        ensures
            r == references_foreground(self@),
    {
        match colrv0_layers(&self.colr, 0) {
            Some(layers) => {
                if layers.len() == 0 {
                    return true;
                }
                let mut i: usize = 0;
                while i < layers.len()
                    invariant
                        i <= layers@.len(),
                        self.cpal@.len() <= MAX_CPAL,
                        layer_list(self@.colr, 0) == Some(layers@),
                        forall|k: int|
                            0 <= k < i ==> !takes_foreground(self@, #[trigger] layers@[k]),
                    decreases layers@.len() - i,
                {
                    if self.layer_takes_foreground(layers[i]) {
                        assert(takes_foreground(self@, layers@[i as int]));
                        return true;
                    }
                    i += 1;
                }
                false
            },
            None => true,
        }
    }

    /// Whether `layer` (glyph index, palette index) takes the foreground color.
    fn layer_takes_foreground(&self, layer: (u16, u16)) -> (r: bool)
        requires
            self.cpal@.len() <= MAX_CPAL,
        ensures
            r == takes_foreground(self@, layer),
    {
        let (glyph, index) = layer;
        if index == FOREGROUND {
            return true;
        }
        if glyph as usize >= self.glyphs.len() || palette_color(&self.cpal, index).is_some() {
            return false;
        }
        assert(self@.glyphs[glyph as int] == self.glyphs@[glyph as int]@);
        glyf::decode(&self.glyphs[glyph as usize]).is_ok()
    }
}

/// Whether `layer` of `c` is painted: its glyph is there and decodes.
pub open spec fn is_painted(c: ContainerView, layer: (u16, u16)) -> bool {
    layer.0 < c.glyphs.len() && glyf::decoded(c.glyphs[layer.0 as int]) is Ok
}

/// Whether `layer` of `c` takes the foreground color: by the sentinel, or by
/// being painted with an index that the palette has no entry for.
pub open spec fn takes_foreground(c: ContainerView, layer: (u16, u16)) -> bool {
    layer.1 == FOREGROUND || (is_painted(c, layer) && palette_entry(c.cpal, layer.1) is None)
}

/// Whether some layer of `c` takes the foreground color, or `c` has no layers,
/// so that its base outline does.
pub open spec fn references_foreground(c: ContainerView) -> bool {
    match layer_list(c.colr, 0) {
        Some(layers) => layers.len() == 0 || exists|i: int|
            0 <= i < layers.len() && takes_foreground(c, #[trigger] layers[i]),
        None => true,
    }
}

/// Whether a raw container payload (as registered) depends on the cell
/// foreground color. Conservatively `true` for payloads that don't parse:
/// those are rejected at validation, so the value is unused, and `true` never
/// wrongly caches a foreground-dependent sprite.
pub fn container_uses_foreground(raw: &[u8]) -> (r: bool)
    ensures
        r == payload_references_foreground(raw@),
{
    match ColrContainer::parse(raw) {
        Some(c) => {
            proof {
                lemma_parsed_container_is_its_bytes(raw@);
            }
            c.uses_foreground()
        },
        None => true,
    }
}

/// `references_foreground` of the container in `raw`, and `true` where there is
/// none.
pub open spec fn payload_references_foreground(raw: Seq<u8>) -> bool {
    match container(raw) {
        Some(c) => references_foreground(c),
        None => true,
    }
}

// ---- the COLR v0 layer list ----------------------------------------------

/// Where the base glyph record for `base` stands, looking from record `i` on:
/// the records are six bytes each, and one that does not fit ends the search.
pub open spec fn base_record(colr: Seq<u8>, base: u16, i: int) -> Option<int>
    decreases bytes::be16(colr, 2) - i,
{
    let at = bytes::be32(colr, 4) + 6 * i;
    if i >= bytes::be16(colr, 2) || at + 6 > colr.len() {
        None
    } else if bytes::be16(colr, at) == base {
        Some(at)
    } else {
        base_record(colr, base, i + 1)
    }
}

/// Where layer record `i` stands; the records are four bytes each.
pub open spec fn layer_at(colr: Seq<u8>, i: int) -> int {
    bytes::be32(colr, 8) + 4 * i
}

/// Whether layer record `i` is announced by the table and fits in it.
pub open spec fn layer_present(colr: Seq<u8>, i: int) -> bool {
    i < bytes::be16(colr, 12) && layer_at(colr, i) + 4 <= colr.len()
}

/// Layer record `i`: glyph index and palette index.
pub open spec fn layer_record(colr: Seq<u8>, i: int) -> (u16, u16) {
    (
        bytes::be16(colr, layer_at(colr, i)) as u16,
        bytes::be16(colr, layer_at(colr, i) + 2) as u16,
    )
}

/// The layers (glyph index, palette index) of `base` in the COLR v0 table
/// `colr`, in painter order: none where the table is too short or of another
/// version, where `base` has no record, or where one of its layers is missing.
pub open spec fn layer_list(colr: Seq<u8>, base: u16) -> Option<Seq<(u16, u16)>> {
    if colr.len() < 14 || bytes::be16(colr, 0) != 0 {
        None
    } else {
        match base_record(colr, base, 0) {
            Some(at) => {
                let first = bytes::be16(colr, at + 2);
                let n = bytes::be16(colr, at + 4);
                if forall|j: int| 0 <= j < n ==> #[trigger] layer_present(colr, first + j) {
                    Some(Seq::new(n as nat, |j: int| layer_record(colr, first + j)))
                } else {
                    None
                }
            },
            None => None,
        }
    }
}

/// Parse a COLR v0 table and return the layer list `(glyph_id, palette_index)`
/// for `base_glyph` in painter order. Returns `None` for non-v0 tables or when
/// `base_glyph` has no record.
pub fn colrv0_layers(colr: &[u8], base_glyph: u16) -> (r: Option<Vec<(u16, u16)>>)
    ensures
        match r {
            Some(layers) => layer_list(colr@, base_glyph) == Some(layers@),
            None => layer_list(colr@, base_glyph) is None,
        },
{
    // Header: version u16, numBaseGlyphRecords u16, baseGlyphRecordsOffset
    // u32, layerRecordsOffset u32, numLayerRecords u16.
    let len: usize = colr.len();
    if len < 14 || bytes::read_u16(colr, 0) != 0 {
        return None;
    }
    let num_base: u16 = bytes::read_u16(colr, 2);
    let base_off: u64 = bytes::read_u32(colr, 4) as u64;
    let mut i: u16 = 0;
    while i < num_base
        invariant
            i <= num_base,
            len == colr@.len(),
            len >= 14,
            num_base == bytes::be16(colr@, 2),
            base_off == bytes::be32(colr@, 4),
            base_off <= u32::MAX,
            bytes::be16(colr@, 0) == 0,
            base_record(colr@, base_glyph, 0) == base_record(colr@, base_glyph, i as int),
        decreases num_base - i,
    {
        let at: u64 = base_off + 6 * i as u64;
        if at + 6 > len as u64 {
            return None;
        }
        let at: usize = at as usize;
        if bytes::read_u16(colr, at) == base_glyph {
            let first: u16 = bytes::read_u16(colr, at + 2);
            let n: u16 = bytes::read_u16(colr, at + 4);
            return read_layers(colr, first, n);
        }
        i += 1;
    }
    None
}

/// Read `n` layer records from `first` on.
fn read_layers(colr: &[u8], first: u16, n: u16) -> (r: Option<Vec<(u16, u16)>>)
    requires
        colr@.len() >= 14,
    ensures
        match r {
            Some(layers) => {
                &&& forall|j: int| 0 <= j < n ==> #[trigger] layer_present(colr@, first + j)
                &&& layers@ == Seq::new(n as nat, |j: int| layer_record(colr@, first + j))
            },
            None => exists|j: int| 0 <= j < n && !#[trigger] layer_present(colr@, first + j),
        },
{
    let len: usize = colr.len();
    let layer_off: u64 = bytes::read_u32(colr, 8) as u64;
    let num_layer: u16 = bytes::read_u16(colr, 12);
    let mut layers: Vec<(u16, u16)> = Vec::with_capacity(n as usize);
    let mut j: u16 = 0;
    while j < n
        invariant
            j <= n,
            len == colr@.len(),
            len >= 14,
            layer_off == bytes::be32(colr@, 8),
            layer_off <= u32::MAX,
            num_layer == bytes::be16(colr@, 12),
            layers@ == Seq::new(j as nat, |k: int| layer_record(colr@, first + k)),
            forall|k: int| 0 <= k < j ==> #[trigger] layer_present(colr@, first + k),
        decreases n - j,
    {
        let index: u32 = first as u32 + j as u32;
        let at: u64 = layer_off + 4 * index as u64;
        if index >= num_layer as u32 || at + 4 > len as u64 {
            assert(!layer_present(colr@, first + j));
            return None;
        }
        let at: usize = at as usize;
        assert(layer_present(colr@, first + j));
        layers.push((bytes::read_u16(colr, at), bytes::read_u16(colr, at + 2)));
        j += 1;
        assert(layers@ =~= Seq::new(j as nat, |k: int| layer_record(colr@, first + k)));
    }
    Some(layers)
}

// ---- the container as bytes ----------------------------------------------

/// `n` as a big-endian `u16`.
pub open spec fn be16_bytes(n: int) -> Seq<u8> {
    seq![(n / 0x100) as u8, (n % 0x100) as u8]
}

/// `b` with its length before it.
pub open spec fn block_bytes(b: Seq<u8>) -> Seq<u8> {
    be16_bytes(b.len() as int) + b
}

/// The blocks `bs` in a row.
pub open spec fn blocks_bytes(bs: Seq<Seq<u8>>) -> Seq<u8>
    decreases bs.len(),
{
    if bs.len() == 0 {
        Seq::empty()
    } else {
        blocks_bytes(bs.drop_last()) + block_bytes(bs.last())
    }
}

/// The wire form of `c`.
pub open spec fn container_bytes(c: ContainerView) -> Seq<u8> {
    be16_bytes(c.glyphs.len() as int) + blocks_bytes(c.glyphs) + block_bytes(c.colr) + block_bytes(
        c.cpal,
    )
}

/// Whether `c` has a wire form: its counts and lengths are in bounds.
pub open spec fn storable(c: ContainerView) -> bool {
    &&& 0 < c.glyphs.len() <= MAX_GLYPHS
    &&& forall|i: int| 0 <= i < c.glyphs.len() ==> (#[trigger] c.glyphs[i]).len() <= 0xffff
    &&& 0 < c.colr.len() <= 0xffff
    &&& c.cpal.len() <= 0xffff
}

proof fn lemma_block_written(b: Seq<u8>, rest: Seq<u8>)
    requires
        b.len() <= 0xffff,
    ensures
        block(block_bytes(b) + rest) == Some((b, rest)),
{
    let s = block_bytes(b) + rest;
    let n = b.len() as int;
    assert(s[0] == (n / 0x100) as u8 && s[1] == (n % 0x100) as u8);
    assert(bytes::be16(s, 0) == n);
    assert(s.subrange(2, 2 + n) =~= b);
    assert(s.skip(2 + n) =~= rest);
}

proof fn lemma_blocks_written(bs: Seq<Seq<u8>>, rest: Seq<u8>)
    requires
        forall|i: int| 0 <= i < bs.len() ==> (#[trigger] bs[i]).len() <= 0xffff,
    ensures
        blocks(blocks_bytes(bs) + rest, bs.len()) == Some((bs, rest)),
    decreases bs.len(),
{
    if bs.len() == 0 {
        assert(blocks_bytes(bs) + rest =~= rest);
        assert(bs =~= Seq::empty());
    } else {
        let tail = block_bytes(bs.last()) + rest;
        assert forall|i: int| 0 <= i < bs.drop_last().len() implies (
        #[trigger] bs.drop_last()[i]).len() <= 0xffff by {
            assert(bs.drop_last()[i] == bs[i]);
        }
        lemma_blocks_written(bs.drop_last(), tail);
        assert(blocks_bytes(bs) + rest =~= blocks_bytes(bs.drop_last()) + tail);
        assert(bs[bs.len() - 1].len() <= 0xffff);
        lemma_block_written(bs.last(), rest);
        assert(bs.drop_last().push(bs.last()) =~= bs);
    }
}

proof fn lemma_block_read(s: Seq<u8>)
    ensures
        block(s) matches Some((b, rest)) ==> b.len() <= 0xffff && s == block_bytes(b) + rest,
{
    if let Some((b, rest)) = block(s) {
        assert(s =~= block_bytes(b) + rest);
    }
}

proof fn lemma_blocks_read(s: Seq<u8>, n: nat)
    ensures
        blocks(s, n) matches Some((bs, rest)) ==> {
            &&& bs.len() == n
            &&& s == blocks_bytes(bs) + rest
            &&& forall|i: int| 0 <= i < bs.len() ==> (#[trigger] bs[i]).len() <= 0xffff
        },
    decreases n,
{
    if n == 0 {
        assert(s =~= blocks_bytes(Seq::empty()) + s);
    } else {
        lemma_blocks_read(s, (n - 1) as nat);
        if let Some((bs, rest)) = blocks(s, n) {
            let (before, mid) = blocks(s, (n - 1) as nat).unwrap();
            lemma_block_read(mid);
            assert(bs.drop_last() =~= before);
            assert(s =~= blocks_bytes(bs) + rest);
        }
    }
}

/// Parsing gives back every container that was written.
pub proof fn lemma_written_container_parses(c: ContainerView)
    requires
        storable(c),
    ensures
        container(container_bytes(c)) == Some(c),
{
    let data = container_bytes(c);
    let n = c.glyphs.len() as int;
    assert(data[0] == (n / 0x100) as u8 && data[1] == (n % 0x100) as u8);
    let after_glyphs = block_bytes(c.colr) + block_bytes(c.cpal);
    assert(data.skip(2) =~= blocks_bytes(c.glyphs) + after_glyphs);
    lemma_blocks_written(c.glyphs, after_glyphs);
    lemma_block_written(c.colr, block_bytes(c.cpal));
    assert(block_bytes(c.cpal) =~= block_bytes(c.cpal) + Seq::empty());
    lemma_block_written(c.cpal, Seq::empty());
}

/// What parses is the wire form of the container it parses to, so no two byte
/// strings parse to the same container, and none has bytes to spare.
pub proof fn lemma_parsed_container_is_its_bytes(data: Seq<u8>)
    ensures
        container(data) matches Some(c) ==> storable(c) && container_bytes(c) == data,
{
    if let Some(c) = container(data) {
        let n = bytes::be16(data, 0);
        let (glyphs, r1) = blocks(data.skip(2), n as nat).unwrap();
        let (colr, r2) = block(r1).unwrap();
        lemma_blocks_read(data.skip(2), n as nat);
        lemma_block_read(r1);
        lemma_block_read(r2);
        let (cpal, r3) = block(r2).unwrap();
        assert(r2 =~= block_bytes(cpal));
        assert(r1 == block_bytes(colr) + block_bytes(cpal));
        assert(be16_bytes(n) =~= data.take(2));
        assert(data =~= data.take(2) + data.skip(2));
        assert(container_bytes(c) =~= be16_bytes(n) + (blocks_bytes(glyphs) + r1));
    }
}

// ---- painting ------------------------------------------------------------

/// The palette color of entry `index` in palette `0` of the CPAL table `cpal`,
/// as red, green, blue and alpha; none where the table does not hold together
/// or has no such entry. Colors are stored blue first.
pub open spec fn palette_entry(cpal: Seq<u8>, index: u16) -> Option<Seq<u8>> {
    let palettes = bytes::be16(cpal, 4);
    let colors = bytes::be16(cpal, 6);
    let records = bytes::be32(cpal, 8);
    let record = bytes::be16(cpal, 12) + index;
    let at = records + 4 * record;
    if cpal.len() >= 14 && bytes::be16(cpal, 0) <= 1 && palettes > 0 && 12 + 2 * palettes
        <= cpal.len() && records + 4 * colors <= cpal.len() && record < colors {
        Some(seq![cpal[at + 2], cpal[at + 1], cpal[at], cpal[at + 3]])
    } else {
        None
    }
}

/// The longest CPAL table that is looked at: `ttf-parser` addresses a table by
/// 32-bit offsets.
pub const MAX_CPAL: usize = 0xfff0_0000;

/// `ttf_parser::cpal::Table::parse`, then `Table::get` on palette `0`: the
/// color at the place in the table that the header and the palette's first
/// color index give.
#[verifier::external_body]
fn palette_color(cpal: &[u8], index: u16) -> (r: Option<[u8; 4]>)
    requires
        cpal@.len() <= MAX_CPAL,
    ensures
        match r {
            Some(c) => palette_entry(cpal@, index) == Some(c@),
            None => palette_entry(cpal@, index) is None,
        },
{
    let c = ttf_parser::cpal::Table::parse(cpal)?.get(0, index)?;
    Some([c.red, c.green, c.blue, c.alpha])
}

/// The color of a layer: the palette's, and the foreground for the sentinel and
/// for an index that the palette has no entry for.
pub open spec fn layer_color(cpal: Seq<u8>, index: u16, fg: Seq<u8>) -> Seq<u8> {
    if index == FOREGROUND {
        fg
    } else {
        match palette_entry(cpal, index) {
            Some(color) => color,
            None => fg,
        }
    }
}

/// Resolve a layer's palette index to a color (RGBA). `0xFFFF` means the
/// current foreground color.
pub fn resolve_color(cpal: &[u8], index: u16, fg: [u8; 4]) -> (r: [u8; 4])
    requires
        cpal@.len() <= MAX_CPAL,
    ensures
        r@ == layer_color(cpal@, index, fg@),
{
    if index == FOREGROUND {
        return fg;
    }
    match palette_color(cpal, index) {
        Some(color) => color,
        None => fg,
    }
}

/// An outline and the color (RGBA) that it is filled with.
#[derive(Debug, Clone, PartialEq, Eq)]
pub struct PaintedLayer {
    pub outline: Outline,
    pub color: [u8; 4],
}

impl View for PaintedLayer {
    type V = (OutlineView, Seq<u8>);

    open spec fn view(&self) -> (OutlineView, Seq<u8>) {
        (self.outline@, self.color@)
    }
}

/// The layers of `c` that `layers` lists, in painter order. A layer whose glyph
/// is missing or does not decode is left out.
pub open spec fn listed_layers(
    c: ContainerView,
    layers: Seq<(u16, u16)>,
    fg: Seq<u8>,
) -> Seq<(OutlineView, Seq<u8>)>
    decreases layers.len(),
{
    if layers.len() == 0 {
        Seq::empty()
    } else {
        let before = listed_layers(c, layers.drop_last(), fg);
        let (glyph, index) = layers.last();
        if glyph < c.glyphs.len() {
            match glyf::decoded(c.glyphs[glyph as int]) {
                Ok(outline) => before.push((outline, layer_color(c.cpal, index, fg))),
                Err(_) => before,
            }
        } else {
            before
        }
    }
}

/// The layers to paint for `c`, in painter order. Without a usable COLR v0
/// layer list that is the base outline in the foreground color.
pub open spec fn painted_layers(c: ContainerView, fg: Seq<u8>) -> Seq<(OutlineView, Seq<u8>)> {
    match layer_list(c.colr, 0) {
        Some(layers) if layers.len() > 0 => listed_layers(c, layers, fg),
        _ => if c.glyphs.len() > 0 {
            match glyf::decoded(c.glyphs[0]) {
                Ok(outline) => seq![(outline, fg)],
                Err(_) => Seq::empty(),
            }
        } else {
            Seq::empty()
        },
    }
}

/// The least `y_min` of `layers`.
pub open spec fn lowest(layers: Seq<(OutlineView, Seq<u8>)>) -> int
    decreases layers.len(),
{
    let y = layers.last().0.y_min as int;
    if layers.len() <= 1 || y < lowest(layers.drop_last()) {
        y
    } else {
        lowest(layers.drop_last())
    }
}

/// The greatest `y_max` of `layers`.
pub open spec fn highest(layers: Seq<(OutlineView, Seq<u8>)>) -> int
    decreases layers.len(),
{
    let y = layers.last().0.y_max as int;
    if layers.len() <= 1 || y > highest(layers.drop_last()) {
        y
    } else {
        highest(layers.drop_last())
    }
}

/// What to paint for a color glyph: its layers in painter order, and the
/// vertical bounds of their union, which drive one shared placement so that
/// the layers stay registered with one another.
#[derive(Debug, Clone, PartialEq, Eq)]
pub struct PaintPlan {
    pub layers: Vec<PaintedLayer>,
    pub y_min: i16,
    pub y_max: i16,
}

impl PaintPlan {
    /// The layers, in painter order.
    pub open spec fn layer_views(self) -> Seq<(OutlineView, Seq<u8>)> {
        self.layers@.map_values(|l: PaintedLayer| l@)
    }
}

/// Whether `r` is the plan for painting `c` with the foreground `fg`; none
/// where nothing is to be painted, or the union of the layers has no height.
pub open spec fn plans(r: Option<PaintPlan>, c: ContainerView, fg: Seq<u8>) -> bool {
    let painted = painted_layers(c, fg);
    match r {
        Some(plan) => {
            &&& plan.layer_views() == painted
            &&& painted.len() > 0
            &&& plan.y_min == lowest(painted)
            &&& plan.y_max == highest(painted)
            &&& plan.y_min < plan.y_max
        },
        None => painted.len() == 0 || highest(painted) <= lowest(painted),
    }
}

/// Collect the layers that `layers` lists.
fn collect_layers(c: &ColrContainer, layers: &[(u16, u16)], fg: [u8; 4]) -> (r: Vec<PaintedLayer>)
    requires
        c.cpal@.len() <= MAX_CPAL,
    ensures
        r@.map_values(|l: PaintedLayer| l@) == listed_layers(c@, layers@, fg@),
{
    let mut out: Vec<PaintedLayer> = Vec::new();
    let mut i: usize = 0;
    assert(out@.map_values(|l: PaintedLayer| l@) =~= listed_layers(c@, layers@.take(0), fg@));
    while i < layers.len()
        invariant
            i <= layers@.len(),
            c.cpal@.len() <= MAX_CPAL,
            out@.map_values(|l: PaintedLayer| l@) == listed_layers(
                c@,
                layers@.take(i as int),
                fg@,
            ),
        decreases layers@.len() - i,
    {
        let (glyph, index) = layers[i];
        let ghost before = out@;
        assert(layers@.take(i + 1).drop_last() =~= layers@.take(i as int));
        assert(layers@.take(i + 1).last() == layers@[i as int]);
        if (glyph as usize) < c.glyphs.len() {
            assert(c@.glyphs[glyph as int] == c.glyphs@[glyph as int]@);
            if let Ok(outline) = glyf::decode(&c.glyphs[glyph as usize]) {
                let color: [u8; 4] = resolve_color(&c.cpal, index, fg);
                let layer = PaintedLayer { outline, color };
                out.push(layer);
                assert(out@.map_values(|l: PaintedLayer| l@) =~= before.map_values(
                    |l: PaintedLayer| l@,
                ).push(layer@));
            }
        }
        i += 1;
    }
    assert(layers@.take(i as int) =~= layers@);
    out
}

/// Resolve the layers to paint for a color container, in painter order, and
/// their shared vertical bounds. `fg` (RGBA) is the color of palette index
/// `0xFFFF`. `None` where nothing is to be painted, or the union of the layers
/// has no height.
pub fn paint_plan(c: &ColrContainer, fg: [u8; 4]) -> (r: Option<PaintPlan>)
    requires
        c.cpal@.len() <= MAX_CPAL,
    ensures
        plans(r, c@, fg@),
{
    let ghost painted = painted_layers(c@, fg@);
    let layers: Vec<PaintedLayer> = match colrv0_layers(&c.colr, 0) {
        Some(list) if list.len() > 0 => collect_layers(c, &list, fg),
        _ => {
            if c.glyphs.len() == 0 {
                return None;
            }
            assert(c@.glyphs[0] == c.glyphs@[0]@);
            match glyf::decode(&c.glyphs[0]) {
                Ok(outline) => {
                    let layer = PaintedLayer { outline, color: fg };
                    let mut layers: Vec<PaintedLayer> = Vec::new();
                    layers.push(layer);
                    assert(layers@.map_values(|l: PaintedLayer| l@) =~= seq![layer@]);
                    layers
                },
                Err(_) => {
                    return None;
                },
            }
        },
    };
    assert(layers@.map_values(|l: PaintedLayer| l@) == painted);
    if layers.len() == 0 {
        return None;
    }
    assert(layers@[0]@ == painted[0]);
    assert(painted.take(1).last() == painted[0]);
    let mut y_min: i16 = layers[0].outline.y_min;
    let mut y_max: i16 = layers[0].outline.y_max;
    let mut i: usize = 1;
    while i < layers.len()
        invariant
            1 <= i <= layers@.len(),
            layers@.map_values(|l: PaintedLayer| l@) == painted,
            y_min == lowest(painted.take(i as int)),
            y_max == highest(painted.take(i as int)),
        decreases layers@.len() - i,
    {
        assert(painted.take(i + 1).drop_last() =~= painted.take(i as int));
        assert(painted.take(i + 1).last() == layers@[i as int]@);
        if layers[i].outline.y_min < y_min {
            y_min = layers[i].outline.y_min;
        }
        if layers[i].outline.y_max > y_max {
            y_max = layers[i].outline.y_max;
        }
        i += 1;
    }
    assert(painted.take(i as int) =~= painted);
    if y_max <= y_min {
        return None;
    }
    Some(PaintPlan { layers, y_min, y_max })
}

proof fn lemma_layers_ignore_foreground(
    c: ContainerView,
    layers: Seq<(u16, u16)>,
    fg: Seq<u8>,
    other: Seq<u8>,
)
    requires
        forall|i: int| 0 <= i < layers.len() ==> !takes_foreground(c, #[trigger] layers[i]),
    ensures
        listed_layers(c, layers, fg) == listed_layers(c, layers, other),
    decreases layers.len(),
{
    if layers.len() > 0 {
        let before = layers.drop_last();
        assert forall|i: int| 0 <= i < before.len() implies !takes_foreground(
            c,
            #[trigger] before[i],
        ) by {
            assert(before[i] == layers[i]);
        }
        lemma_layers_ignore_foreground(c, before, fg, other);
        assert(!takes_foreground(c, layers[layers.len() - 1]));
    }
}

/// A container that does not use the foreground is painted alike whatever the
/// foreground is, so what was painted can be cached.
pub proof fn lemma_foreground_independent(c: ContainerView, fg: Seq<u8>, other: Seq<u8>)
    requires
        !references_foreground(c),
    ensures
        painted_layers(c, fg) == painted_layers(c, other),
{
    let layers = layer_list(c.colr, 0).unwrap();
    assert forall|i: int| 0 <= i < layers.len() implies !takes_foreground(
        c,
        #[trigger] layers[i],
    ) by {}
    lemma_layers_ignore_foreground(c, layers, fg, other);
}

/// The shared vertical bounds hold every layer.
pub proof fn lemma_bounds_hold_layers(layers: Seq<(OutlineView, Seq<u8>)>)
    ensures
        forall|i: int|
            0 <= i < layers.len() ==> lowest(layers) <= (#[trigger] layers[i]).0.y_min
                && layers[i].0.y_max <= highest(layers),
    decreases layers.len(),
{
    if layers.len() > 0 {
        lemma_bounds_hold_layers(layers.drop_last());
        assert forall|i: int| 0 <= i < layers.len() implies lowest(layers) <= (
        #[trigger] layers[i]).0.y_min && layers[i].0.y_max <= highest(layers) by {
            if i < layers.len() - 1 {
                assert(layers[i] == layers.drop_last()[i]);
            }
        }
    }
}

// ---- the bitmap ----------------------------------------------------------

/// What `PremultipliedColorU8::demultiply` makes of a pixel (red, green, blue,
/// alpha).
pub uninterp spec fn demultiplied(r: u8, g: u8, b: u8, a: u8) -> (u8, u8, u8, u8);

/// `PremultipliedColorU8::demultiply` on every pixel of a `Pixmap` that holds
/// `data`: each depends on its own four bytes alone, keeps its alpha, and is
/// left as it is where it is opaque. `Pixmap::from_vec` takes `data` where it
/// has the size of a pixmap of that width and height.
#[verifier::external_body]
fn demultiply_pixels(data: Vec<u8>, width: u32, height: u32) -> (r: Option<Vec<(u8, u8, u8, u8)>>)
    ensures
        match r {
            Some(pixels) => {
                &&& is_pixmap(data@, width as int, height as int)
                &&& pixels@.len() == width * height
                &&& forall|i: int|
                    0 <= i < pixels@.len() ==> {
                        &&& #[trigger] pixels@[i] == demultiplied(
                            data@[4 * i],
                            data@[4 * i + 1],
                            data@[4 * i + 2],
                            data@[4 * i + 3],
                        )
                        &&& pixels@[i].3 == data@[4 * i + 3]
                        &&& data@[4 * i + 3] == 255 ==> pixels@[i] == (
                            data@[4 * i],
                            data@[4 * i + 1],
                            data@[4 * i + 2],
                            255u8,
                        )
                    }
            },
            None => !is_pixmap(data@, width as int, height as int),
        },
{
    let size = tiny_skia::IntSize::from_wh(width, height)?;
    let pixmap = tiny_skia::Pixmap::from_vec(data, size)?;
    let straight = pixmap.pixels().iter().map(|p| p.demultiply());
    Some(straight.map(|c| (c.red(), c.green(), c.blue(), c.alpha())).collect())
}

/// Whether `data` has the size of a `width × height` pixmap, four bytes a
/// pixel, that is neither empty nor too wide.
pub open spec fn is_pixmap(data: Seq<u8>, width: int, height: int) -> bool {
    &&& 0 < width <= 0x1fff_ffff
    &&& 0 < height
    &&& data.len() == 4 * (width * height)
}

/// The bytes of `pixels` in a row, four each.
pub open spec fn rgba_bytes(pixels: Seq<(u8, u8, u8, u8)>) -> Seq<u8> {
    Seq::new(
        4 * pixels.len(),
        |k: int|
            {
                let p = pixels[k / 4];
                if k % 4 == 0 {
                    p.0
                } else if k % 4 == 1 {
                    p.1
                } else if k % 4 == 2 {
                    p.2
                } else {
                    p.3
                }
            },
    )
}

/// The straight-alpha form of premultiplied RGBA pixels.
pub open spec fn straight(data: Seq<u8>) -> Seq<(u8, u8, u8, u8)> {
    Seq::new(
        data.len() / 4,
        |i: int|
            demultiplied(data[4 * i], data[4 * i + 1], data[4 * i + 2], data[4 * i + 3]),
    )
}

/// Lay out pixels (red, green, blue, alpha) as bytes, four each.
pub fn pixel_bytes(pixels: &[(u8, u8, u8, u8)]) -> (r: Vec<u8>)
    ensures
        r@ == rgba_bytes(pixels@),
{
    let mut out: Vec<u8> = Vec::new();
    let mut i: usize = 0;
    while i < pixels.len()
        invariant
            i <= pixels@.len(),
            out@ == rgba_bytes(pixels@).take(4 * i),
        decreases pixels@.len() - i,
    {
        let p = pixels[i];
        out.push(p.0);
        out.push(p.1);
        out.push(p.2);
        out.push(p.3);
        assert(out@ =~= rgba_bytes(pixels@).take(4 * (i + 1)));
        i += 1;
    }
    assert(rgba_bytes(pixels@).take(4 * i) =~= rgba_bytes(pixels@));
    out
}

impl RgbaBitmap {
    /// Make a bitmap of premultiplied RGBA pixels, row-major, four bytes each.
    /// Alpha stays as it is, and so does every opaque pixel. `None` where
    /// `pixels` does not have that size, or it is empty or too wide.
    pub fn from_premultiplied(pixels: Vec<u8>, width: u32, height: u32) -> (r: Option<Self>)
        ensures
            match r {
                Some(bitmap) => {
                    &&& is_pixmap(pixels@, width as int, height as int)
                    &&& bitmap.data@ == rgba_bytes(straight(pixels@))
                    &&& forall|i: int|
                        0 <= i < width * height ==> {
                            &&& #[trigger] straight(pixels@)[i].3 == pixels@[4 * i + 3]
                            &&& pixels@[4 * i + 3] == 255 ==> straight(pixels@)[i] == (
                                pixels@[4 * i],
                                pixels@[4 * i + 1],
                                pixels@[4 * i + 2],
                                255u8,
                            )
                        }
                    &&& bitmap.width == width
                    &&& bitmap.height == height
                },
                None => !is_pixmap(pixels@, width as int, height as int),
            },
    {
        let ghost data = pixels@;
        match demultiply_pixels(pixels, width, height) {
            Some(all) => {
                assert(all@ =~= straight(data));
                Some(
                    RgbaBitmap {
                        data: pixel_bytes(&all),
                        width: width as usize,
                        height: height as usize,
                    },
                )
            },
            None => None,
        }
    }
}

} // verus!
