use cviz::render::label::{
    font_atlas_pixels, label_file_name, label_glyphs, ATLAS_HEIGHT, ATLAS_PIXELS, ATLAS_WIDTH,
    FONT_BITMAP,
};

fn pixel(pixels: &[u8], x: usize, y: usize) -> u8 {
    pixels[y * ATLAS_WIDTH as usize + x]
}

#[test]
fn atlas_has_the_texture_size() {
    let pixels = font_atlas_pixels();
    assert_eq!(pixels.len(), ATLAS_PIXELS);
    assert_eq!(pixels.len(), (ATLAS_WIDTH * ATLAS_HEIGHT) as usize);
}

#[test]
fn atlas_draws_the_exclamation_mark() {
    // '!' is glyph 1: column 1, row 0; its rows are 18 18 18 18 18 00 18 00.
    let pixels = font_atlas_pixels();
    for y in 0..8 {
        let row = [0x18u8, 0x18, 0x18, 0x18, 0x18, 0x00, 0x18, 0x00][y];
        for x in 0..8 {
            let lit = (row >> (7 - x)) & 1 == 1;
            assert_eq!(pixel(&pixels, 8 + x, y), if lit { 255 } else { 0 });
        }
    }
}

#[test]
fn atlas_matches_font_bits_everywhere() {
    let pixels = font_atlas_pixels();
    for (idx, &bits) in FONT_BITMAP.iter().enumerate() {
        let bx = (idx % 16) * 8;
        let by = (idx / 16) * 8;
        for y in 0..8 {
            for x in 0..8 {
                let lit = (bits >> (63 - 8 * y - x)) & 1 == 1;
                assert_eq!(pixel(&pixels, bx + x, by + y), if lit { 255 } else { 0 });
            }
        }
    }
    // the slot after the last glyph ('~' is glyph 94) stays empty
    for y in 40..48 {
        for x in 120..128 {
            assert_eq!(pixel(&pixels, x, y), 0);
        }
    }
}

#[test]
fn label_is_file_name() {
    assert_eq!(label_file_name("src/render/state.rs"), "state.rs");
    assert_eq!(label_file_name("main.rs"), "main.rs");
    assert_eq!(label_file_name("dir/"), "");
    assert_eq!(label_file_name(""), "");
    assert_eq!(label_file_name("a/ä/ö.rs"), "ö.rs");
}

#[test]
fn label_glyphs_pick_atlas_cells() {
    let cells = label_glyphs("A~ é!");
    let got: Vec<(usize, u32, u32)> = cells.iter().map(|c| (c.index, c.col, c.row)).collect();
    // 'A' = 65 -> glyph 33 -> (1, 2); '~' = 126 -> glyph 94 -> (14, 5); ' ' -> glyph 0;
    // 'é' has no glyph but keeps its position; '!' -> glyph 1 -> (1, 0).
    assert_eq!(got, vec![(0, 1, 2), (1, 14, 5), (2, 0, 0), (4, 1, 0)]);
}
