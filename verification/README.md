# wezterm-glyph-protocol

The renderer-agnostic core of the Glyph Protocol: runtime registration of custom
vector glyphs at Private-Use-Area codepoints, transported over APC escape
sequences. The core is written in Verus, and every function of it is proved to
meet its contract, but for the few that make an outside call (see below).

- `src/parse.rs`: the wire parser and the replies.
- `src/sizing.rs`, `src/fraction.rs`, `src/decimal.rs`: sizing parameters, and
  decimal fractions as single-precision bit patterns.
- `src/payload.rs`: base64 payloads.
- `src/glyf.rs`, `src/colr.rs`: the `glyf` and `colrv0` decoders, and what to
  paint for a color glyph.
- `src/raster.rs`, `src/place.rs`: the path to fill for an outline, and where in
  its render span it goes.
- `src/glossary.rs`, `src/dispatch.rs`: a session's registrations, and what it
  does with a message.
- `app/`: the floating-point placement transform, the `tiny-skia` rasterizers,
  and the terminal glue around the core.

Outside calls (`base64`, `read-fonts`, `ttf-parser`, `tiny-skia`, and a few of
the standard library) stand behind small functions whose contracts are trusted;
each says in its doc comment what it claims.
