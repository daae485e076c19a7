use wezterm_glyph_protocol::colr::{
    colrv0_layers, container_uses_foreground, paint_plan, resolve_color, ColrContainer, RgbaBitmap,
};

fn be16(v: u16) -> [u8; 2] {
    v.to_be_bytes()
}

/// A filled axis-aligned square outline as a bare simple-glyph record,
/// spanning [x0,x1]×[y0,y1] in 1000-upm space.
fn square_glyf(x0: i16, y0: i16, x1: i16, y1: i16) -> Vec<u8> {
    const ON: u8 = 0x01;
    let mut v = Vec::new();
    v.extend_from_slice(&1i16.to_be_bytes()); // numberOfContours
    v.extend_from_slice(&x0.to_be_bytes()); // xMin
    v.extend_from_slice(&y0.to_be_bytes()); // yMin
    v.extend_from_slice(&x1.to_be_bytes()); // xMax
    v.extend_from_slice(&y1.to_be_bytes()); // yMax
    v.extend_from_slice(&3u16.to_be_bytes()); // endPts[0]=3 -> 4 points
    v.extend_from_slice(&0u16.to_be_bytes()); // instructionLength
    v.extend_from_slice(&[ON, ON, ON, ON]);
    // 4 corners, absolute coords as i16 deltas from origin.
    for dx in [x0, x1 - x0, 0, x0 - x1] {
        v.extend_from_slice(&dx.to_be_bytes());
    }
    for dy in [y0, 0, y1 - y0, 0] {
        v.extend_from_slice(&dy.to_be_bytes());
    }
    v
}

/// COLR v0 table: base glyph 0 → `layers` (glyphId, paletteIndex).
fn colr_v0(layers: &[(u16, u16)]) -> Vec<u8> {
    let base_off = 14u32;
    let layer_off = base_off + 6; // one base record (6 bytes)
    let mut v = Vec::new();
    v.extend_from_slice(&be16(0)); // version
    v.extend_from_slice(&be16(1)); // numBaseGlyphRecords
    v.extend_from_slice(&base_off.to_be_bytes());
    v.extend_from_slice(&layer_off.to_be_bytes());
    v.extend_from_slice(&be16(layers.len() as u16)); // numLayerRecords
    // base glyph record: glyphID=0, firstLayerIndex=0, numLayers
    v.extend_from_slice(&be16(0));
    v.extend_from_slice(&be16(0));
    v.extend_from_slice(&be16(layers.len() as u16));
    for (gid, pal) in layers {
        v.extend_from_slice(&be16(*gid));
        v.extend_from_slice(&be16(*pal));
    }
    v
}

/// CPAL v0 with one palette of `colors` (each RGBA, stored BGRA).
fn cpal(colors: &[[u8; 4]]) -> Vec<u8> {
    let n = colors.len() as u16;
    let mut v = Vec::new();
    v.extend_from_slice(&be16(0)); // version
    v.extend_from_slice(&be16(n)); // numPaletteEntries
    v.extend_from_slice(&be16(1)); // numPalettes
    v.extend_from_slice(&be16(n)); // numColorRecords
    let off = 12u32 + 2; // header(12) + colorRecordIndices(1 palette * 2)
    v.extend_from_slice(&off.to_be_bytes()); // offsetFirstColorRecord
    v.extend_from_slice(&be16(0)); // colorRecordIndices[0]
    for c in colors {
        // BGRA on the wire
        v.extend_from_slice(&[c[2], c[1], c[0], c[3]]);
    }
    v
}

fn container(glyphs: &[Vec<u8>], colr: Vec<u8>, cpal: Vec<u8>) -> Vec<u8> {
    let mut v = Vec::new();
    v.extend_from_slice(&be16(glyphs.len() as u16));
    for g in glyphs {
        v.extend_from_slice(&be16(g.len() as u16));
        v.extend_from_slice(g);
    }
    v.extend_from_slice(&be16(colr.len() as u16));
    v.extend_from_slice(&colr);
    v.extend_from_slice(&be16(cpal.len() as u16));
    v.extend_from_slice(&cpal);
    v
}

#[test]
fn container_round_trips() {
    let g = vec![square_glyf(0, 0, 500, 500)];
    let bytes = container(&g, colr_v0(&[(0, 0)]), cpal(&[[255, 0, 0, 255]]));
    let c = ColrContainer::parse(&bytes).expect("parses");
    assert_eq!(c.glyphs.len(), 1);
    assert!(!c.colr.is_empty());
    assert!(!c.cpal.is_empty());
}

#[test]
fn container_rejects_trailing_garbage() {
    let g = vec![square_glyf(0, 0, 500, 500)];
    let mut bytes = container(&g, colr_v0(&[(0, 0)]), cpal(&[[255, 0, 0, 255]]));
    bytes.push(0xFF);
    assert!(ColrContainer::parse(&bytes).is_none());
}

#[test]
fn container_rejects_empty_colr() {
    let g = vec![square_glyf(0, 0, 500, 500)];
    assert!(ColrContainer::parse(&container(&g, vec![], cpal(&[[1, 2, 3, 4]]))).is_none());
}

#[test]
fn detects_foreground_sentinel() {
    let glyphs = vec![square_glyf(0, 0, 1000, 1000)];
    // A layer painted with palette index 0xFFFF means "use foreground".
    let sentinel = ColrContainer::parse(&container(
        &glyphs,
        colr_v0(&[(0, 0xFFFF)]),
        cpal(&[[1, 2, 3, 4]]),
    ))
    .unwrap();
    assert!(sentinel.uses_foreground());

    // A layer with a normal palette index does not depend on fg.
    let normal = ColrContainer::parse(&container(
        &glyphs,
        colr_v0(&[(0, 0)]),
        cpal(&[[255, 0, 0, 255]]),
    ))
    .unwrap();
    assert!(!normal.uses_foreground());
}

#[test]
fn written_containers_parse_to_what_was_written() {
    let glyphs = vec![square_glyf(0, 0, 1, 2), vec![], vec![9; 300]];
    let bytes = container(&glyphs, vec![1], vec![]);
    let c = ColrContainer::parse(&bytes).unwrap();
    assert_eq!(c.glyphs, glyphs);
    assert_eq!(c.colr, vec![1]);
    assert_eq!(c.cpal, Vec::<u8>::new());
    // Nothing shorter parses.
    for n in 0..bytes.len() {
        assert!(ColrContainer::parse(&bytes[..n]).is_none());
    }
}

#[test]
fn containers_hold_one_to_many_glyphs() {
    assert!(ColrContainer::parse(&container(&[], vec![1], vec![])).is_none());
    let most = vec![vec![]; 1024];
    let parsed = ColrContainer::parse(&container(&most, vec![1], vec![])).unwrap();
    assert_eq!(parsed.glyphs.len(), 1024);
    let more = vec![vec![]; 1025];
    assert!(ColrContainer::parse(&container(&more, vec![1], vec![])).is_none());
}

#[test]
fn payloads_that_do_not_parse_use_the_foreground() {
    assert!(container_uses_foreground(&[]));
    assert!(container_uses_foreground(&[7, 7]));
    let g = vec![square_glyf(0, 0, 500, 500)];
    let palette = cpal(&[[1, 2, 3, 4]]);
    // no usable layer list: the base outline is painted in the foreground
    assert!(container_uses_foreground(&container(&g, vec![0; 14], palette.clone())));
    assert!(container_uses_foreground(&container(&g, colr_v0(&[]), palette.clone())));
    assert!(!container_uses_foreground(&container(&g, colr_v0(&[(0, 0)]), palette)));
}

#[test]
fn a_painted_layer_without_a_palette_entry_uses_the_foreground() {
    let glyphs = vec![square_glyf(0, 0, 1000, 1000), vec![1, 2, 3]];
    let palette = cpal(&[[9, 8, 7, 6]]);
    let missing = container(&glyphs, colr_v0(&[(0, 0), (0, 5)]), palette.clone());
    let c = ColrContainer::parse(&missing).unwrap();
    assert!(c.uses_foreground());
    assert!(container_uses_foreground(&missing));
    assert_ne!(paint_plan(&c, [1, 1, 1, 1]), paint_plan(&c, [2, 2, 2, 2]));
    // no palette at all
    assert!(container_uses_foreground(&container(&glyphs, colr_v0(&[(0, 0)]), vec![])));
    // a layer that is not painted does not count: its glyph does not decode, or
    // is not there
    for layer in [(1, 5), (7, 5)] {
        let bytes = container(&glyphs, colr_v0(&[(0, 0), layer]), palette.clone());
        let c = ColrContainer::parse(&bytes).unwrap();
        assert!(!c.uses_foreground());
        assert_eq!(paint_plan(&c, [1, 1, 1, 1]), paint_plan(&c, [2, 2, 2, 2]));
    }
    // the sentinel does, painted or not
    let bytes = container(&glyphs, colr_v0(&[(0, 0), (1, 0xFFFF)]), palette);
    assert!(container_uses_foreground(&bytes));
}

#[test]
fn layer_lists_are_read_in_painter_order() {
    let table = colr_v0(&[(3, 1), (2, 0xFFFF), (3, 0)]);
    assert_eq!(
        colrv0_layers(&table, 0),
        Some(vec![(3, 1), (2, 0xFFFF), (3, 0)])
    );
    // no record for that glyph
    assert_eq!(colrv0_layers(&table, 1), None);
    // another version, and a table cut short
    let mut v1 = table.clone();
    v1[1] = 1;
    assert_eq!(colrv0_layers(&v1, 0), None);
    for n in 0..table.len() {
        assert_eq!(colrv0_layers(&table[..n], 0), None);
    }
    // more layers than the table says it has
    let mut few = table.clone();
    few[13] = 2;
    assert_eq!(colrv0_layers(&few, 0), None);
}

#[test]
fn palette_entries_are_stored_blue_first() {
    let palette = cpal(&[[1, 2, 3, 4], [5, 6, 7, 8]]);
    let fg = [90, 91, 92, 93];
    assert_eq!(resolve_color(&palette, 0, fg), [1, 2, 3, 4]);
    assert_eq!(resolve_color(&palette, 1, fg), [5, 6, 7, 8]);
    // no such entry, the sentinel, and no palette at all
    assert_eq!(resolve_color(&palette, 2, fg), fg);
    assert_eq!(resolve_color(&palette, 0xFFFF, fg), fg);
    assert_eq!(resolve_color(&[], 0, fg), fg);
    // the palette's first color need not be the table's
    let mut second = palette.clone();
    second[13] = 1;
    assert_eq!(resolve_color(&second, 0, fg), [5, 6, 7, 8]);
    assert_eq!(resolve_color(&second, 1, fg), fg);
    // a table that does not hold together
    for n in 0..palette.len() {
        assert_eq!(resolve_color(&palette[..n], 0, fg), fg);
    }
    let mut future = palette.clone();
    future[1] = 2;
    assert_eq!(resolve_color(&future, 0, fg), fg);
}

#[test]
fn plans_list_layers_with_shared_bounds() {
    let glyphs = vec![
        square_glyf(0, 0, 1000, 1000),
        square_glyf(0, -50, 500, 700),
        square_glyf(500, 10, 1000, 900),
    ];
    let palette = cpal(&[[255, 0, 0, 255], [0, 0, 255, 255]]);
    let bytes = container(&glyphs, colr_v0(&[(1, 0), (2, 1), (1, 0xFFFF)]), palette);
    let c = ColrContainer::parse(&bytes).unwrap();
    let fg = [10, 200, 30, 255];
    let plan = paint_plan(&c, fg).unwrap();
    assert_eq!((plan.y_min, plan.y_max), (-50, 900));
    let colors: Vec<[u8; 4]> = plan.layers.iter().map(|l| l.color).collect();
    assert_eq!(colors, vec![[255, 0, 0, 255], [0, 0, 255, 255], fg]);
    assert_eq!(plan.layers[1].outline.x_min, 500);
    assert_eq!(plan.layers[0].outline, plan.layers[2].outline);
}

#[test]
fn plans_without_the_sentinel_do_not_depend_on_the_foreground() {
    let glyphs = vec![square_glyf(0, 0, 1000, 1000)];
    let bytes = container(&glyphs, colr_v0(&[(0, 0)]), cpal(&[[9, 8, 7, 6]]));
    let c = ColrContainer::parse(&bytes).unwrap();
    assert!(!c.uses_foreground());
    assert_eq!(paint_plan(&c, [1, 1, 1, 1]), paint_plan(&c, [2, 2, 2, 2]));
}

#[test]
fn plans_leave_out_what_does_not_decode() {
    let glyphs = vec![vec![1, 2, 3], square_glyf(0, 0, 10, 10)];
    let palette = cpal(&[[9, 8, 7, 6]]);
    let bytes = container(&glyphs, colr_v0(&[(0, 0), (7, 0), (1, 0)]), palette.clone());
    let plan = paint_plan(&ColrContainer::parse(&bytes).unwrap(), [0; 4]).unwrap();
    assert_eq!(plan.layers.len(), 1);
    // nothing at all is left
    let bytes = container(&glyphs, colr_v0(&[(0, 0), (7, 0)]), palette.clone());
    assert!(paint_plan(&ColrContainer::parse(&bytes).unwrap(), [0; 4]).is_none());
    // no layer list: the base outline, which does not decode here
    let bytes = container(&glyphs, vec![1], palette.clone());
    assert!(paint_plan(&ColrContainer::parse(&bytes).unwrap(), [0; 4]).is_none());
    // and here it does
    let bytes = container(&glyphs[1..], vec![1], palette.clone());
    let plan = paint_plan(&ColrContainer::parse(&bytes).unwrap(), [4, 3, 2, 1]).unwrap();
    assert_eq!(plan.layers[0].color, [4, 3, 2, 1]);
    // an outline without height
    let bytes = container(&[square_glyf(0, 5, 10, 5)], vec![1], palette);
    assert!(paint_plan(&ColrContainer::parse(&bytes).unwrap(), [0; 4]).is_none());
}

#[test]
fn bitmaps_are_straight_alpha() {
    let pixels = vec![
        64, 0, 32, 128, // half transparent
        10, 20, 30, 255, // opaque
        0, 0, 0, 0, // transparent
        1, 1, 1, 1, // nearly so
    ];
    let bitmap = RgbaBitmap::from_premultiplied(pixels.clone(), 2, 2).unwrap();
    assert_eq!((bitmap.width, bitmap.height), (2, 2));
    assert_eq!(bitmap.data[..8], [128, 0, 64, 128, 10, 20, 30, 255]);
    assert_eq!(bitmap.data[8..12], [0, 0, 0, 0]);
    assert_eq!(bitmap.data[12..], [255, 255, 255, 1]);
    // the size has to fit
    assert!(RgbaBitmap::from_premultiplied(pixels.clone(), 1, 2).is_none());
    assert!(RgbaBitmap::from_premultiplied(pixels, 4, 2).is_none());
    assert!(RgbaBitmap::from_premultiplied(vec![], 0, 1).is_none());
    assert!(RgbaBitmap::from_premultiplied(vec![], 1, 0).is_none());
}
