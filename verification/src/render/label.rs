use vstd::prelude::*;
use vstd::string::StrSliceExecFns;

verus! {

/// 8x8 bitmap font for the printable ASCII characters 32 to 126 (95 glyphs).
/// Each word holds the 8 rows of a glyph top to bottom, one byte per row,
/// most significant bit leftmost.
pub const FONT_BITMAP: [u64; 95] = [
    0x00_00_00_00_00_00_00_00u64, // 32 ' '
    0x18_18_18_18_18_00_18_00u64, // 33 '!'
    0x6C_6C_00_00_00_00_00_00u64, // 34 '"'
    0x6C_FE_6C_6C_FE_6C_00_00u64, // 35 '#'
    0x18_3E_60_3C_06_7C_18_00u64, // 36 '$'
    0x62_66_0C_18_30_66_46_00u64, // 37 '%'
    0x3C_66_3C_38_67_66_3F_00u64, // 38 '&'
    0x18_18_00_00_00_00_00_00u64, // 39 '''
    0x0C_18_30_30_30_18_0C_00u64, // 40 '('
    0x30_18_0C_0C_0C_18_30_00u64, // 41 ')'
    0x00_66_3C_FF_3C_66_00_00u64, // 42 '*'
    0x00_18_18_7E_18_18_00_00u64, // 43 '+'
    0x00_00_00_00_00_18_18_30u64, // 44 ','
    0x00_00_00_7E_00_00_00_00u64, // 45 '-'
    0x00_00_00_00_00_18_18_00u64, // 46 '.'
    0x02_06_0C_18_30_60_40_00u64, // 47 '/'
    0x3C_66_6E_7E_76_66_3C_00u64, // 48 '0'
    0x18_38_18_18_18_18_7E_00u64, // 49 '1'
    0x3C_66_06_0C_18_30_7E_00u64, // 50 '2'
    0x3C_66_06_1C_06_66_3C_00u64, // 51 '3'
    0x0C_1C_3C_6C_7E_0C_0C_00u64, // 52 '4'
    0x7E_60_7C_06_06_66_3C_00u64, // 53 '5'
    0x1C_30_60_7C_66_66_3C_00u64, // 54 '6'
    0x7E_06_0C_18_30_30_30_00u64, // 55 '7'
    0x3C_66_66_3C_66_66_3C_00u64, // 56 '8'
    0x3C_66_66_3E_06_0C_38_00u64, // 57 '9'
    0x00_18_18_00_18_18_00_00u64, // 58 ':'
    0x00_18_18_00_18_18_30_00u64, // 59 ';'
    0x0C_18_30_60_30_18_0C_00u64, // 60 '<'
    0x00_00_7E_00_7E_00_00_00u64, // 61 '='
    0x30_18_0C_06_0C_18_30_00u64, // 62 '>'
    0x3C_66_06_0C_18_00_18_00u64, // 63 '?'
    0x3C_66_6E_6A_6E_60_3C_00u64, // 64 '@'
    0x18_3C_66_66_7E_66_66_00u64, // 65 'A'
    0x7C_66_66_7C_66_66_7C_00u64, // 66 'B'
    0x3C_66_60_60_60_66_3C_00u64, // 67 'C'
    0x78_6C_66_66_66_6C_78_00u64, // 68 'D'
    0x7E_60_60_7C_60_60_7E_00u64, // 69 'E'
    0x7E_60_60_7C_60_60_60_00u64, // 70 'F'
    0x3C_66_60_6E_66_66_3E_00u64, // 71 'G'
    0x66_66_66_7E_66_66_66_00u64, // 72 'H'
    0x3C_18_18_18_18_18_3C_00u64, // 73 'I'
    0x1E_0C_0C_0C_0C_6C_38_00u64, // 74 'J'
    0x66_6C_78_70_78_6C_66_00u64, // 75 'K'
    0x60_60_60_60_60_60_7E_00u64, // 76 'L'
    0x63_77_7F_6B_63_63_63_00u64, // 77 'M'
    0x66_76_7E_7E_6E_66_66_00u64, // 78 'N'
    0x3C_66_66_66_66_66_3C_00u64, // 79 'O'
    0x7C_66_66_7C_60_60_60_00u64, // 80 'P'
    0x3C_66_66_66_6A_6C_36_00u64, // 81 'Q'
    0x7C_66_66_7C_6C_66_66_00u64, // 82 'R'
    0x3C_66_60_3C_06_66_3C_00u64, // 83 'S'
    0x7E_18_18_18_18_18_18_00u64, // 84 'T'
    0x66_66_66_66_66_66_3C_00u64, // 85 'U'
    0x66_66_66_66_66_3C_18_00u64, // 86 'V'
    0x63_63_63_6B_7F_77_63_00u64, // 87 'W'
    0x66_66_3C_18_3C_66_66_00u64, // 88 'X'
    0x66_66_66_3C_18_18_18_00u64, // 89 'Y'
    0x7E_06_0C_18_30_60_7E_00u64, // 90 'Z'
    0x3C_30_30_30_30_30_3C_00u64, // 91 '['
    0x40_60_30_18_0C_06_02_00u64, // 92 '\'
    0x3C_0C_0C_0C_0C_0C_3C_00u64, // 93 ']'
    0x18_3C_66_00_00_00_00_00u64, // 94 '^'
    0x00_00_00_00_00_00_FF_00u64, // 95 '_'
    0x30_18_0C_00_00_00_00_00u64, // 96 '`'
    0x00_00_3C_06_3E_66_3E_00u64, // 97 'a'
    0x60_60_7C_66_66_66_7C_00u64, // 98 'b'
    0x00_00_3C_60_60_60_3C_00u64, // 99 'c'
    0x06_06_3E_66_66_66_3E_00u64, // 100 'd'
    0x00_00_3C_66_7E_60_3C_00u64, // 101 'e'
    0x1C_30_7C_30_30_30_30_00u64, // 102 'f'
    0x00_00_3E_66_66_3E_06_3Cu64, // 103 'g'
    0x60_60_7C_66_66_66_66_00u64, // 104 'h'
    0x18_00_38_18_18_18_3C_00u64, // 105 'i'
    0x0C_00_1C_0C_0C_0C_6C_38u64, // 106 'j'
    0x60_60_66_6C_78_6C_66_00u64, // 107 'k'
    0x38_18_18_18_18_18_3C_00u64, // 108 'l'
    0x00_00_66_7F_7F_6B_63_00u64, // 109 'm'
    0x00_00_7C_66_66_66_66_00u64, // 110 'n'
    0x00_00_3C_66_66_66_3C_00u64, // 111 'o'
    0x00_00_7C_66_66_7C_60_60u64, // 112 'p'
    0x00_00_3E_66_66_3E_06_06u64, // 113 'q'
    0x00_00_7C_66_60_60_60_00u64, // 114 'r'
    0x00_00_3E_60_3C_06_7C_00u64, // 115 's'
    0x30_30_7C_30_30_30_1C_00u64, // 116 't'
    0x00_00_66_66_66_66_3E_00u64, // 117 'u'
    0x00_00_66_66_66_3C_18_00u64, // 118 'v'
    0x00_00_63_6B_7F_7F_36_00u64, // 119 'w'
    0x00_00_66_3C_18_3C_66_00u64, // 120 'x'
    0x00_00_66_66_66_3E_06_3Cu64, // 121 'y'
    0x00_00_7E_0C_18_30_7E_00u64, // 122 'z'
    0x0C_18_18_30_18_18_0C_00u64, // 123 '{'
    0x18_18_18_18_18_18_18_00u64, // 124 '|'
    0x30_18_18_0C_18_18_30_00u64, // 125 '}'
    0x00_00_31_7B_4E_00_00_00u64, // 126 '~'
];

/// Glyphs per atlas row.
pub const ATLAS_COLS: u32 = 16;

/// Atlas width in pixels (16 glyphs of 8 pixels).
pub const ATLAS_WIDTH: u32 = 128;

/// Atlas height in pixels (6 glyph rows of 8 pixels).
pub const ATLAS_HEIGHT: u32 = 48;

/// Number of pixels of the atlas.
pub const ATLAS_PIXELS: usize = 6144;

/// Whether pixel `(x, y)` (column, row from the top-left, both below 8) of a
/// glyph is lit: bit `63 - 8y - x` of its word.
pub open spec fn glyph_lit(bits: u64, x: int, y: int) -> bool {
    (bits >> ((63 - 8 * y - x) as u64)) & 1u64 == 1u64
}

/// The glyph slot that atlas pixel `p` (row-major) falls in.
pub open spec fn slot_of(p: int) -> int {
    (p / 128 / 8) * 16 + (p % 128) / 8
}

/// Atlas pixel `p`: 255 where the glyph of its slot is lit, 0 elsewhere and in
/// the slots past the last glyph.
pub open spec fn atlas_pixel(p: int) -> u8 {
    let slot = slot_of(p);
    if slot < 95 && glyph_lit(FONT_BITMAP@[slot], (p % 128) % 8, (p / 128) % 8) {
        255
    } else {
        0
    }
}

/// Position of pixel `p` in the order the atlas is filled: glyph by glyph,
/// row by row, left to right.
spec fn fill_order(p: int) -> int {
    slot_of(p) * 64 + ((p / 128) % 8) * 8 + (p % 128) % 8
}

proof fn lemma_pixel_coords(slot: int, y: int, x: int)
    requires
        0 <= slot < 95,
        0 <= y < 8,
        0 <= x < 8,
    ensures
        ({
            let p = ((slot / 16) * 8 + y) * 128 + (slot % 16) * 8 + x;
            &&& 0 <= p < 6144
            &&& p / 128 == (slot / 16) * 8 + y
            &&& p % 128 == (slot % 16) * 8 + x
            &&& slot_of(p) == slot
            &&& (p % 128) % 8 == x
            &&& (p / 128) % 8 == y
            &&& fill_order(p) == slot * 64 + y * 8 + x
        }),
{
    let row = slot / 16;
    let col = slot % 16;
    vstd::arithmetic::div_mod::lemma_fundamental_div_mod(slot, 16);
    assert(0 <= row < 6);
    assert(0 <= col < 16);
    let a = row * 8 + y;
    let b = col * 8 + x;
    let p = a * 128 + b;
    assert(0 <= b < 128);
    assert(0 <= a < 48);
    assert(0 <= p < 6144) by (nonlinear_arith)
        requires
            0 <= a < 48,
            0 <= b < 128,
            p == a * 128 + b,
    ;
    vstd::arithmetic::div_mod::lemma_fundamental_div_mod_converse(p, 128, a, b);
    vstd::arithmetic::div_mod::lemma_fundamental_div_mod_converse(a, 8, row, y);
    vstd::arithmetic::div_mod::lemma_fundamental_div_mod_converse(b, 8, col, x);
}

proof fn lemma_fill_order_unique(p: int, slot: int, y: int, x: int)
    requires
        0 <= p < 6144,
        0 <= slot < 95,
        0 <= y < 8,
        0 <= x < 8,
        fill_order(p) == slot * 64 + y * 8 + x,
    ensures
        p == ((slot / 16) * 8 + y) * 128 + (slot % 16) * 8 + x,
{
    let py = p / 128;
    let px = p % 128;
    vstd::arithmetic::div_mod::lemma_fundamental_div_mod(p, 128);
    vstd::arithmetic::div_mod::lemma_fundamental_div_mod(py, 8);
    vstd::arithmetic::div_mod::lemma_fundamental_div_mod(px, 8);
    assert(0 <= py < 48);
    assert(0 <= px < 128);
    let g = slot_of(p);
    let ry = py % 8;
    let rx = px % 8;
    assert(0 <= ry * 8 + rx < 64);
    vstd::arithmetic::div_mod::lemma_fundamental_div_mod_converse(slot * 64 + y * 8 + x, 64, g, ry * 8 + rx);
    vstd::arithmetic::div_mod::lemma_fundamental_div_mod_converse(slot * 64 + y * 8 + x, 64, slot, y * 8 + x);
    vstd::arithmetic::div_mod::lemma_fundamental_div_mod_converse(ry * 8 + rx, 8, ry, rx);
    vstd::arithmetic::div_mod::lemma_fundamental_div_mod_converse(ry * 8 + rx, 8, y, x);
    assert(0 <= px / 8 < 16);
    vstd::arithmetic::div_mod::lemma_fundamental_div_mod_converse(g, 16, py / 8, px / 8);
}

/// Whether pixel `(x, y)` of the glyph `bits` is lit, computed the way the
/// atlas is filled: take row byte `y`, then bit `7 - x` of it.
fn glyph_pixel(bits: u64, y: u32, x: u32) -> (lit: bool)
    requires
        y < 8,
        x < 8,
    ensures
        lit == glyph_lit(bits, x as int, y as int),
{
    let yy = y as u64;
    let xx = x as u64;
    let row_byte = ((bits >> (56 - yy * 8)) & 0xFF) as u8;
    let bit = (row_byte >> ((7 - xx) as u8)) & 1;
    assert(((((bits >> ((56 - yy * 8) as u64)) & 0xFF) as u8 >> ((7 - xx) as u8)) & 1u8 != 0u8) == ((bits >> ((63 - 8 * yy - xx) as u64)) & 1u64 == 1u64)) by (bit_vector)
        requires
            yy < 8,
            xx < 8,
    ;
    bit != 0
}

/// The pixels of the font atlas texture (128 x 48, one byte per pixel,
/// row-major): glyph `i` occupies the 8x8 cell at column `i % 16`, row
/// `i / 16`; a lit glyph pixel is 255, everything else 0.
pub fn font_atlas_pixels() -> (pixels: Vec<u8>)
    ensures
        pixels@.len() == ATLAS_PIXELS,
        forall|p: int| 0 <= p < ATLAS_PIXELS ==> #[trigger] pixels@[p] == atlas_pixel(p),
{
    let mut pixels: Vec<u8> = Vec::new();
    let mut p: usize = 0;
    while p < ATLAS_PIXELS
        invariant
            p <= ATLAS_PIXELS,
            pixels@.len() == p,
            forall|q: int| 0 <= q < p ==> #[trigger] pixels@[q] == 0,
        decreases ATLAS_PIXELS - p,
    {
        pixels.push(0);
        p = p + 1;
    }
    let mut idx: usize = 0;
    while idx < 95
        invariant
            idx <= 95,
            pixels@.len() == ATLAS_PIXELS,
            forall|q: int|
                0 <= q < ATLAS_PIXELS ==> #[trigger] pixels@[q] == if fill_order(q) < idx * 64 {
                    atlas_pixel(q)
                } else {
                    0
                },
        decreases 95 - idx,
    {
        let bits = FONT_BITMAP[idx];
        let col = (idx as u32) % ATLAS_COLS;
        let row = (idx as u32) / ATLAS_COLS;
        let base_x = col * 8;
        let base_y = row * 8;
        let mut y: u32 = 0;
        while y < 8
            invariant
                idx < 95,
                bits == FONT_BITMAP@[idx as int],
                col == idx % 16,
                row == idx / 16,
                base_x == col * 8,
                base_y == row * 8,
                y <= 8,
                pixels@.len() == ATLAS_PIXELS,
                forall|q: int|
                    0 <= q < ATLAS_PIXELS ==> #[trigger] pixels@[q] == if fill_order(q) < idx * 64 + y * 8 {
                        atlas_pixel(q)
                    } else {
                        0
                    },
            decreases 8 - y,
        {
            let mut x: u32 = 0;
            while x < 8
                invariant
                    idx < 95,
                    bits == FONT_BITMAP@[idx as int],
                    col == idx % 16,
                    row == idx / 16,
                    base_x == col * 8,
                    base_y == row * 8,
                    y < 8,
                    x <= 8,
                    pixels@.len() == ATLAS_PIXELS,
                    forall|q: int|
                        0 <= q < ATLAS_PIXELS ==> #[trigger] pixels@[q] == if fill_order(q) < idx * 64 + y * 8 + x {
                            atlas_pixel(q)
                        } else {
                            0
                        },
                decreases 8 - x,
            {
                let lit = glyph_pixel(bits, y, x);
                let px = base_x + x;
                let py = base_y + y;
                proof {
                    lemma_pixel_coords(idx as int, y as int, x as int);
                }
                let target = (py * ATLAS_WIDTH + px) as usize;
                let ghost old_pixels = pixels@;
                pixels.set(target, if lit { 255 } else { 0 });
                proof {
                    assert forall|q: int| 0 <= q < ATLAS_PIXELS implies #[trigger] pixels@[q] == if fill_order(q) < idx * 64 + y * 8 + x + 1 {
                        atlas_pixel(q)
                    } else {
                        0
                    } by {
                        if q != target {
                            assert(pixels@[q] == old_pixels[q]);
                            if fill_order(q) == idx * 64 + y * 8 + x {
                                lemma_fill_order_unique(q, idx as int, y as int, x as int);
                            }
                        }
                    }
                }
                x = x + 1;
            }
            y = y + 1;
        }
        idx = idx + 1;
    }
    proof {
        assert forall|q: int| 0 <= q < ATLAS_PIXELS implies #[trigger] pixels@[q] == atlas_pixel(q) by {
            vstd::arithmetic::div_mod::lemma_fundamental_div_mod(q, 128);
            vstd::arithmetic::div_mod::lemma_fundamental_div_mod(q / 128, 8);
            vstd::arithmetic::div_mod::lemma_fundamental_div_mod(q % 128, 8);
            if fill_order(q) >= 95 * 64 {
                assert(slot_of(q) >= 95);
            }
        }
    }
    pixels
}


/// The file name of a path: the text after its last '/', or the whole path
/// when it has none.
pub open spec fn file_name(s: Seq<char>) -> Seq<char>
    decreases s.len(),
{
    if s.len() == 0 {
        s
    } else if s.last() == '/' {
        seq![]
    } else {
        file_name(s.drop_last()).push(s.last())
    }
}

proof fn lemma_file_name_suffix(s: Seq<char>, i: int)
    requires
        0 <= i <= s.len(),
        forall|k: int| i <= k < s.len() ==> s[k] != '/',
    ensures
        file_name(s) == file_name(s.take(i)) + s.subrange(i, s.len() as int),
    decreases s.len(),
{
    if i == s.len() {
        assert(s.take(i) =~= s);
        assert(s.subrange(i, s.len() as int) =~= Seq::<char>::empty());
        assert(file_name(s) + Seq::<char>::empty() =~= file_name(s));
    } else {
        let d = s.drop_last();
        assert(s.last() == s[s.len() - 1]);
        lemma_file_name_suffix(d, i);
        assert(d.take(i) =~= s.take(i));
        assert(d.subrange(i, d.len() as int).push(s.last()) =~= s.subrange(i, s.len() as int));
        assert((file_name(d.take(i)) + d.subrange(i, d.len() as int)).push(s.last()) =~= file_name(s.take(i)) + s.subrange(i, s.len() as int));
    }
}

/// Where the file name of `id` starts: just after its last '/', or 0.
fn name_start(id: &str) -> (i: usize)
    ensures
        i <= id@.len(),
        id@.subrange(i as int, id@.len() as int) == file_name(id@),
{
    let n = id.unicode_len();
    let mut i: usize = n;
    while i > 0
        invariant
            n == id@.len(),
            i <= n,
            forall|k: int| i <= k < n ==> id@[k] != '/',
        ensures
            i == 0 || id@[i - 1] == '/',
        decreases i,
    {
        if id.get_char(i - 1) == '/' {
            break;
        }
        i = i - 1;
    }
    proof {
        lemma_file_name_suffix(id@, i as int);
        if i == 0 {
            assert(id@.take(0) =~= Seq::<char>::empty());
        } else {
            assert(id@.take(i as int).last() == id@[i - 1]);
        }
        assert(file_name(id@.take(i as int)) =~= Seq::<char>::empty());
        assert(Seq::<char>::empty() + id@.subrange(i as int, n as int) =~= id@.subrange(i as int, n as int));
    }
    i
}

/// The label text of a node: the file name of its path.
pub fn label_file_name(id: &str) -> (name: &str)
    ensures
        name@ == file_name(id@),
{
    let i = name_start(id);
    id.substring_char(i, id.unicode_len())
}

/// The directory part of a path: everything up to and including its last
/// '/', or nothing when it has none.  Together with the file name it makes
/// up the path.
pub fn directory_of(id: &str) -> (dir: &str)
    ensures
        dir@ + file_name(id@) == id@,
{
    let i = name_start(id);
    proof {
        assert(id@.subrange(0, i as int) + id@.subrange(i as int, id@.len() as int) =~= id@);
    }
    id.substring_char(0, i)
}

/// A character of a label that the atlas can draw: its position in the
/// text and the atlas cell (column, row) of its glyph.
pub struct GlyphCell {
    pub index: usize,
    pub col: u32,
    pub row: u32,
}

impl GlyphCell {
    pub open spec fn view(self) -> (nat, u32, u32) {
        (self.index as nat, self.col, self.row)
    }
}

/// Whether the atlas holds a glyph for `c` (printable ASCII, 32 to 126).
pub open spec fn is_drawable(c: char) -> bool {
    32 <= c as u32 <= 126
}

/// The drawable characters of `s` with their positions and atlas cells.
pub open spec fn glyph_cells(s: Seq<char>) -> Seq<(nat, u32, u32)>
    decreases s.len(),
{
    if s.len() == 0 {
        seq![]
    } else {
        let r = glyph_cells(s.drop_last());
        let c = s.last();
        if is_drawable(c) {
            r.push(
                (
                    (s.len() - 1) as nat,
                    ((c as u32 - 32) % 16) as u32,
                    ((c as u32 - 32) / 16) as u32,
                ),
            )
        } else {
            r
        }
    }
}

/// The glyphs to draw for a label: one per drawable character, with the
/// character's position (which places it) and its atlas cell (which
/// textures it).  Other characters keep their position but draw nothing.
pub fn label_glyphs(name: &str) -> (cells: Vec<GlyphCell>)
    ensures
        cells@.map_values(|g: GlyphCell| g.view()) == glyph_cells(name@),
{
    let n = name.unicode_len();
    let mut cells: Vec<GlyphCell> = Vec::new();
    let mut i: usize = 0;
    proof {
        assert(name@.take(0) =~= Seq::<char>::empty());
        assert(cells@.map_values(|g: GlyphCell| g.view()) =~= Seq::<(nat, u32, u32)>::empty());
    }
    while i < n
        invariant
            n == name@.len(),
            i <= n,
            cells@.map_values(|g: GlyphCell| g.view()) == glyph_cells(name@.take(i as int)),
        decreases n - i,
    {
        let c = name.get_char(i);
        let code = c as u32;
        let ghost before = cells@.map_values(|g: GlyphCell| g.view());
        proof {
            assert(name@.take(i as int + 1).drop_last() =~= name@.take(i as int));
            assert(name@.take(i as int + 1).last() == c);
        }
        if code >= 32 && code <= 126 {
            let cell = GlyphCell { index: i, col: (code - 32) % ATLAS_COLS, row: (code - 32) / ATLAS_COLS };
            cells.push(cell);
            proof {
                assert(cells@.map_values(|g: GlyphCell| g.view()) =~= before.push(cell.view()));
            }
        }
        i = i + 1;
    }
    proof {
        assert(name@.take(n as int) =~= name@);
    }
    cells
}


/// Each glyph cell of a label names the atlas glyph of its own character:
/// the character at the cell's position is printable ASCII and its code is
/// `32 + row * 16 + col` with `col < 16`; the cells follow the text in order,
/// and every printable ASCII character of the text has a cell.
pub proof fn lemma_glyph_cells_name_their_characters(s: Seq<char>)
    ensures
        forall|j: int| #![trigger glyph_cells(s)[j]] 0 <= j < glyph_cells(s).len() ==> {
            let (k, col, row) = glyph_cells(s)[j];
            &&& k < s.len()
            &&& col < 16
            &&& 32 <= s[k as int] as u32 <= 126
            &&& row * 16 + col + 32 == s[k as int] as u32
        },
        forall|j1: int, j2: int|
            0 <= j1 < j2 < glyph_cells(s).len() ==> (#[trigger] glyph_cells(s)[j1]).0 < (
            #[trigger] glyph_cells(s)[j2]).0,
        forall|k: int|
            0 <= k < s.len() && 32 <= #[trigger] s[k] as u32 <= 126 ==> exists|j: int|
                0 <= j < glyph_cells(s).len() && (#[trigger] glyph_cells(s)[j]).0 == k,
    decreases s.len(),
{
    if s.len() > 0 {
        let d = s.drop_last();
        lemma_glyph_cells_name_their_characters(d);
        let r = glyph_cells(d);
        let c = s.last();
        assert(c == s[s.len() - 1]);
        assert forall|j: int| 0 <= j < r.len() implies r[j].0 < d.len() && s[r[j].0 as int] == d[r[j].0 as int] by {
            assert(r[j].0 < d.len());
        }
        if is_drawable(c) {
            let g = glyph_cells(s);
            let code = c as u32;
            assert(((code - 32) / 16) as u32 * 16 + ((code - 32) % 16) as u32 + 32 == code) by {
                assert(32 <= code <= 126);
                vstd::arithmetic::div_mod::lemma_fundamental_div_mod((code - 32) as int, 16);
            }
            assert(g == r.push(((s.len() - 1) as nat, ((code - 32) % 16) as u32, ((code - 32) / 16) as u32)));
            assert forall|k: int| 0 <= k < s.len() && 32 <= #[trigger] s[k] as u32 <= 126 implies exists|j: int|
                0 <= j < g.len() && (#[trigger] g[j]).0 == k by {
                if k < d.len() {
                    assert(d[k] == s[k]);
                    let j = choose|j: int| 0 <= j < r.len() && (#[trigger] r[j]).0 == k;
                    assert(g[j] == r[j]);
                } else {
                    assert(g[r.len() as int].0 == k);
                }
            }
        } else {
            assert(glyph_cells(s) == r);
            assert forall|k: int| 0 <= k < s.len() && 32 <= #[trigger] s[k] as u32 <= 126 implies exists|j: int|
                0 <= j < glyph_cells(s).len() && (#[trigger] glyph_cells(s)[j]).0 == k by {
                if k == s.len() - 1 {
                    assert(s[k] == c);
                    assert(false);
                }
                assert(d[k] == s[k]);
                let j = choose|j: int| 0 <= j < r.len() && (#[trigger] r[j]).0 == k;
                assert(glyph_cells(s)[j] == r[j]);
            }
        }
    }
}

} // verus!
