//! The 32x32 RGBA tray icon: download rate on a blue upper half, upload rate
//! on an orange lower half, written in a 3x5 pixel font scaled by two.
use crate::speed::{compact_label, compact_speed};
use crate::text::chars_of;
use vstd::prelude::*;

verus! {

pub const WIDTH: usize = 32;
pub const HEIGHT: usize = 32;
pub const SCALE: usize = 2;
pub const FONT_WIDTH: usize = 3;
pub const FONT_HEIGHT: usize = 5;

/// Number of bytes of the RGBA buffer.
pub const ICON_BYTES: usize = 4096;

/// Colour of the whole icon before the halves are painted.
pub open spec fn background() -> Seq<u8> { seq![16u8, 19u8, 28u8, 245u8] }
/// Colour of the upper half, behind the download rate.
pub open spec fn upper_color() -> Seq<u8> { seq![32u8, 87u8, 165u8, 255u8] }
/// Colour of the lower half, behind the upload rate.
pub open spec fn lower_color() -> Seq<u8> { seq![169u8, 92u8, 38u8, 255u8] }
/// Colour of the text.
pub open spec fn text_color() -> Seq<u8> { seq![255u8, 255u8, 255u8, 255u8] }

/// The five rows of a decimal digit, three bits each, most significant bit leftmost.
pub open spec fn digit_rows(d: nat) -> Seq<u8> {
    if d == 0 { seq![0b111u8, 0b101, 0b101, 0b101, 0b111] }
    else if d == 1 { seq![0b010u8, 0b110, 0b010, 0b010, 0b111] }
    else if d == 2 { seq![0b111u8, 0b001, 0b111, 0b100, 0b111] }
    else if d == 3 { seq![0b111u8, 0b001, 0b111, 0b001, 0b111] }
    else if d == 4 { seq![0b101u8, 0b101, 0b111, 0b001, 0b001] }
    else if d == 5 { seq![0b111u8, 0b100, 0b111, 0b001, 0b111] }
    else if d == 6 { seq![0b111u8, 0b100, 0b111, 0b101, 0b111] }
    else if d == 7 { seq![0b111u8, 0b001, 0b001, 0b010, 0b010] }
    else if d == 8 { seq![0b111u8, 0b101, 0b111, 0b101, 0b111] }
    else { seq![0b111u8, 0b101, 0b111, 0b001, 0b111] }
}

/// The five rows of the glyph for `c`; characters without a glyph get a
/// question-mark-like box.
pub open spec fn glyph_rows(c: char) -> Seq<u8> {
    if '0' <= c && c <= '9' {
        digit_rows((c as u32 - '0' as u32) as nat)
    } else if c == '.' {
        seq![0b000u8, 0b000, 0b000, 0b010, 0b010]
    } else if c == '-' {
        seq![0b000u8, 0b000, 0b111, 0b000, 0b000]
    } else if c == 'M' {
        seq![0b111u8, 0b101, 0b111, 0b101, 0b101]
    } else if c == 'K' {
        seq![0b110u8, 0b101, 0b110, 0b101, 0b110]
    } else if c == 'G' {
        seq![0b111u8, 0b101, 0b111, 0b101, 0b111]
    } else {
        seq![0b111u8, 0b101, 0b010, 0b000, 0b010]
    }
}

/// Whether column `col` (0 leftmost) of a glyph row is lit.
pub open spec fn bit_lit(bits: u8, col: int) -> bool {
    bits & (1u8 << ((2 - col) as u8)) != 0u8
}

/// Whether the glyph for `c`, drawn with its top-left corner at `(x, y)`,
/// lights pixel `(px, py)`: each font cell covers a 2x2 block of pixels.
pub open spec fn glyph_covers(c: char, x: int, y: int, px: int, py: int) -> bool {
    &&& x <= px < x + 6
    &&& y <= py < y + 10
    &&& bit_lit(glyph_rows(c)[(py - y) / 2], (px - x) / 2)
}

/// Whether one of the first `k` glyphs of the text, drawn from `(x, y)` with a
/// glyph every eight pixels, lights pixel `(px, py)`.
pub open spec fn text_prefix_covers(t: Seq<char>, k: int, x: int, y: int, px: int, py: int) -> bool {
    exists|j: int| 0 <= j < k && #[trigger] glyph_covers(t[j], x + 8 * j, y, px, py)
}

/// Whether the text, drawn from `(x, y)` with a glyph every eight pixels,
/// lights pixel `(px, py)`.
pub open spec fn text_covers(t: Seq<char>, x: int, y: int, px: int, py: int) -> bool {
    text_prefix_covers(t, t.len() as int, x, y, px, py)
}

/// Column of the pixel that byte `i` of the buffer belongs to.
pub open spec fn pixel_x(i: int) -> int { (i / 4) % 32 }
/// Row of the pixel that byte `i` of the buffer belongs to.
pub open spec fn pixel_y(i: int) -> int { (i / 4) / 32 }

/// The icon for the given rates, byte by byte: text pixels are white, the
/// others take the colour of their half.
pub open spec fn icon_byte(down_bps: nat, up_bps: nat, i: int) -> u8 {
    let px = pixel_x(i);
    let py = pixel_y(i);
    if text_covers(compact_label(down_bps), 2, 3, px, py) || text_covers(compact_label(up_bps), 2, 17, px, py) {
        text_color()[i % 4]
    } else if py < 16 {
        upper_color()[i % 4]
    } else {
        lower_color()[i % 4]
    }
}

proof fn lemma_pixel_index(i: int, px: int, py: int)
    requires
        0 <= i < 4096,
        0 <= px < 32,
        0 <= py < 32,
    ensures
        (pixel_x(i) == px && pixel_y(i) == py) <== (4 * (32 * py + px) <= i < 4 * (32 * py + px) + 4),
        (pixel_x(i) == px && pixel_y(i) == py) ==> (4 * (32 * py + px) <= i < 4 * (32 * py + px) + 4),
        4 * (32 * py + px) <= i < 4 * (32 * py + px) + 4 ==> i % 4 == i - 4 * (32 * py + px),
        0 <= pixel_x(i) < 32,
        0 <= pixel_y(i) < 32,
{
    let q = i / 4;
    assert(0 <= q < 1024);
    assert(i == 4 * q + i % 4);
    assert(q == 32 * (q / 32) + q % 32);
    if 4 * (32 * py + px) <= i < 4 * (32 * py + px) + 4 {
        assert(q == 32 * py + px);
    }
}

proof fn lemma_pixel_coords()
    ensures
        forall|i: int| 0 <= i < 4096 ==> 0 <= #[trigger] pixel_x(i) < 32,
        forall|i: int| 0 <= i < 4096 ==> 0 <= #[trigger] pixel_y(i) < 32,
{
    assert forall|i: int| 0 <= i < 4096 implies 0 <= #[trigger] pixel_x(i) < 32 by {
        lemma_pixel_index(i, 0, 0);
    }
    assert forall|i: int| 0 <= i < 4096 implies 0 <= #[trigger] pixel_y(i) < 32 by {
        lemma_pixel_index(i, 0, 0);
    }
}

/// Paints pixel `(px, py)` of the icon at the start of the buffer.
fn write_pixel(rgba: &mut [u8], px: usize, py: usize, color: &[u8; 4])
    requires
        old(rgba)@.len() >= 4096,
        px < 32,
        py < 32,
    ensures
        final(rgba)@.len() == old(rgba)@.len(),
        forall|i: int|
            0 <= i < 4096 ==> #[trigger] final(rgba)@[i] == if pixel_x(i) == px && pixel_y(i) == py {
                color@[i % 4]
            } else {
                old(rgba)@[i]
            },
        forall|i: int| 4096 <= i < old(rgba)@.len() ==> #[trigger] final(rgba)@[i] == old(rgba)@[i],
{
    let offset = (py * WIDTH + px) * 4;
    rgba[offset] = color[0];
    rgba[offset + 1] = color[1];
    rgba[offset + 2] = color[2];
    rgba[offset + 3] = color[3];
    assert forall|i: int| 0 <= i < 4096 implies #[trigger] rgba@[i] == if pixel_x(i) == px && pixel_y(i) == py {
        color@[i % 4]
    } else {
        old(rgba)@[i]
    } by {
        lemma_pixel_index(i, px as int, py as int);
    }
}

/// Whether pixel `(px, py)` lies in the rectangle.
pub open spec fn in_rect(px: int, py: int, x: int, y: int, w: int, h: int) -> bool {
    x <= px < x + w && y <= py < y + h
}

/// Paints the part of the rectangle that lies on the icon; bytes past the
/// icon are left alone.
fn fill_rect(rgba: &mut [u8], x: usize, y: usize, w: usize, h: usize, color: &[u8; 4])
    requires
        old(rgba)@.len() >= 4096,
        x + w <= usize::MAX,
        y + h <= usize::MAX,
    ensures
        final(rgba)@.len() == old(rgba)@.len(),
        forall|i: int|
            0 <= i < 4096 ==> #[trigger] final(rgba)@[i] == if in_rect(pixel_x(i), pixel_y(i), x as int, y as int, w as int, h as int) {
                color@[i % 4]
            } else {
                old(rgba)@[i]
            },
        forall|i: int| 4096 <= i < old(rgba)@.len() ==> #[trigger] final(rgba)@[i] == old(rgba)@[i],
{
    let y_end = if y + h < HEIGHT { y + h } else { HEIGHT };
    let x_end = if x + w < WIDTH { x + w } else { WIDTH };
    let ghost start = rgba@;
    proof { lemma_pixel_coords(); }
    let mut py = y;
    while py < y_end
        invariant
            rgba@.len() == start.len(),
            start.len() >= 4096,
            y <= py,
            py == y || py <= y_end,
            y_end <= 32,
            x_end <= 32,
            y_end == if y + h < 32 { y + h } else { 32 },
            x_end == if x + w < 32 { x + w } else { 32 },
            forall|i: int| 0 <= i < 4096 ==> 0 <= #[trigger] pixel_x(i) < 32,
            forall|i: int| 0 <= i < 4096 ==> 0 <= #[trigger] pixel_y(i) < 32,
            forall|i: int|
                0 <= i < 4096 ==> #[trigger] rgba@[i] == if in_rect(pixel_x(i), pixel_y(i), x as int, y as int, w as int, h as int)
                    && pixel_y(i) < py {
                    color@[i % 4]
                } else {
                    start[i]
                },
            forall|i: int| 4096 <= i < start.len() ==> #[trigger] rgba@[i] == start[i],
        decreases y_end - py,
    {
        let mut px = x;
        while px < x_end
            invariant
                rgba@.len() == start.len(),
                start.len() >= 4096,
                y <= py < y_end <= 32,
                x <= px,
                px == x || px <= x_end,
                x_end <= 32,
                y_end == if y + h < 32 { y + h } else { 32 },
                x_end == if x + w < 32 { x + w } else { 32 },
                forall|i: int| 0 <= i < 4096 ==> 0 <= #[trigger] pixel_x(i) < 32,
                forall|i: int| 0 <= i < 4096 ==> 0 <= #[trigger] pixel_y(i) < 32,
                forall|i: int|
                    0 <= i < 4096 ==> #[trigger] rgba@[i] == if in_rect(pixel_x(i), pixel_y(i), x as int, y as int, w as int, h as int)
                        && (pixel_y(i) < py || (pixel_y(i) == py && pixel_x(i) < px)) {
                        color@[i % 4]
                    } else {
                        start[i]
                    },
                forall|i: int| 4096 <= i < start.len() ==> #[trigger] rgba@[i] == start[i],
            decreases x_end - px,
        {
            write_pixel(rgba, px, py, color);
            px = px + 1;
        }
        py = py + 1;
    }
}

fn digit_glyph(d: u32) -> (r: [u8; 5])
    requires
        d < 10,
    ensures
        r@ == digit_rows(d as nat),
{
    let r = if d == 0 { [0b111u8, 0b101, 0b101, 0b101, 0b111] }
    else if d == 1 { [0b010u8, 0b110, 0b010, 0b010, 0b111] }
    else if d == 2 { [0b111u8, 0b001, 0b111, 0b100, 0b111] }
    else if d == 3 { [0b111u8, 0b001, 0b111, 0b001, 0b111] }
    else if d == 4 { [0b101u8, 0b101, 0b111, 0b001, 0b001] }
    else if d == 5 { [0b111u8, 0b100, 0b111, 0b001, 0b111] }
    else if d == 6 { [0b111u8, 0b100, 0b111, 0b101, 0b111] }
    else if d == 7 { [0b111u8, 0b001, 0b001, 0b010, 0b010] }
    else if d == 8 { [0b111u8, 0b101, 0b111, 0b101, 0b111] }
    else { [0b111u8, 0b101, 0b111, 0b001, 0b111] };
    assert(r@ =~= digit_rows(d as nat));
    r
}

/// The font rows for `character`.
fn glyph_for(character: char) -> (r: [u8; 5])
    ensures
        r@ == glyph_rows(character),
{
    let r = if '0' <= character && character <= '9' {
        digit_glyph(character as u32 - '0' as u32)
    } else if character == '.' {
        [0b000u8, 0b000, 0b000, 0b010, 0b010]
    } else if character == '-' {
        [0b000u8, 0b000, 0b111, 0b000, 0b000]
    } else if character == 'M' {
        [0b111u8, 0b101, 0b111, 0b101, 0b101]
    } else if character == 'K' {
        [0b110u8, 0b101, 0b110, 0b101, 0b110]
    } else if character == 'G' {
        [0b111u8, 0b101, 0b111, 0b101, 0b111]
    } else {
        [0b111u8, 0b101, 0b010, 0b000, 0b010]
    };
    assert(r@ =~= glyph_rows(character));
    r
}


/// Draws the glyph for `character` with its top-left corner at `(x, y)`,
/// clipped to the icon.
fn draw_glyph(rgba: &mut [u8], x: usize, y: usize, character: char, color: &[u8; 4])
    requires
        old(rgba)@.len() >= 4096,
        x + 6 <= usize::MAX,
        y + 10 <= usize::MAX,
    ensures
        final(rgba)@.len() == old(rgba)@.len(),
        forall|i: int|
            0 <= i < 4096 ==> #[trigger] final(rgba)@[i] == if glyph_covers(character, x as int, y as int, pixel_x(i), pixel_y(i)) {
                color@[i % 4]
            } else {
                old(rgba)@[i]
            },
        forall|i: int| 4096 <= i < old(rgba)@.len() ==> #[trigger] final(rgba)@[i] == old(rgba)@[i],
{
    let glyph = glyph_for(character);
    let ghost start = rgba@;
    proof { lemma_pixel_coords(); }
    let mut dy: usize = 0;
    while dy < FONT_HEIGHT * SCALE
        invariant
            rgba@.len() == start.len(),
            start.len() >= 4096,
            x + 6 <= usize::MAX,
            y + 10 <= usize::MAX,
            forall|i: int| 4096 <= i < start.len() ==> #[trigger] rgba@[i] == start[i],
            dy <= 10,
            glyph@ == glyph_rows(character),
            forall|i: int| 0 <= i < 4096 ==> 0 <= #[trigger] pixel_x(i) < 32,
            forall|i: int| 0 <= i < 4096 ==> 0 <= #[trigger] pixel_y(i) < 32,
            forall|i: int|
                0 <= i < 4096 ==> #[trigger] rgba@[i] == if glyph_covers(character, x as int, y as int, pixel_x(i), pixel_y(i))
                    && pixel_y(i) < y + dy {
                    color@[i % 4]
                } else {
                    start[i]
                },
        decreases 10 - dy,
    {
        let mut dx: usize = 0;
        while dx < FONT_WIDTH * SCALE
            invariant
                rgba@.len() == start.len(),
                start.len() >= 4096,
                x + 6 <= usize::MAX,
                y + 10 <= usize::MAX,
                forall|i: int| 4096 <= i < start.len() ==> #[trigger] rgba@[i] == start[i],
                dy < 10,
                dx <= 6,
                glyph@ == glyph_rows(character),
                forall|i: int| 0 <= i < 4096 ==> 0 <= #[trigger] pixel_x(i) < 32,
                forall|i: int| 0 <= i < 4096 ==> 0 <= #[trigger] pixel_y(i) < 32,
                forall|i: int|
                    0 <= i < 4096 ==> #[trigger] rgba@[i] == if glyph_covers(character, x as int, y as int, pixel_x(i), pixel_y(i))
                        && (pixel_y(i) < y + dy || (pixel_y(i) == y + dy && pixel_x(i) < x + dx)) {
                        color@[i % 4]
                    } else {
                        start[i]
                    },
            decreases 6 - dx,
        {
            let bits = glyph[dy / SCALE];
            let column = dx / SCALE;
            let mask: u8 = 1u8 << ((FONT_WIDTH - 1 - column) as u8);
            let px = x + dx;
            let py = y + dy;
            if bits & mask != 0 && px < WIDTH && py < HEIGHT {
                write_pixel(rgba, px, py, color);
            }
            dx = dx + 1;
        }
        dy = dy + 1;
    }
}

/// Draws the characters of `text` from `(x, y)`, one glyph every eight pixels.
fn draw_text(rgba: &mut [u8], x: usize, y: usize, text: &str, color: &[u8; 4])
    requires
        old(rgba)@.len() >= 4096,
        y + 10 <= usize::MAX,
    ensures
        final(rgba)@.len() == old(rgba)@.len(),
        forall|i: int|
            0 <= i < 4096 ==> #[trigger] final(rgba)@[i] == if text_covers(text@, x as int, y as int, pixel_x(i), pixel_y(i)) {
                color@[i % 4]
            } else {
                old(rgba)@[i]
            },
        forall|i: int| 4096 <= i < old(rgba)@.len() ==> #[trigger] final(rgba)@[i] == old(rgba)@[i],
{
    let characters = chars_of(text);
    let ghost start = rgba@;
    let ghost t = text@;
    proof { lemma_pixel_coords(); }
    let mut index: usize = 0;
    let mut cursor: usize = x;
    while index < characters.len() && cursor < WIDTH
        invariant
            rgba@.len() == start.len(),
            start.len() >= 4096,
            characters@ == t,
            index <= t.len(),
            cursor == x + 8 * index,
            y + 10 <= usize::MAX,
            index > 0 ==> cursor < 40,
            forall|i: int| 4096 <= i < start.len() ==> #[trigger] rgba@[i] == start[i],
            forall|i: int| 0 <= i < 4096 ==> 0 <= #[trigger] pixel_x(i) < 32,
            forall|i: int| 0 <= i < 4096 ==> 0 <= #[trigger] pixel_y(i) < 32,
            forall|i: int|
                0 <= i < 4096 ==> #[trigger] rgba@[i] == if text_prefix_covers(t, index as int, x as int, y as int, pixel_x(i), pixel_y(i)) {
                    color@[i % 4]
                } else {
                    start[i]
                },
        decreases t.len() - index,
    {
        let ghost before = rgba@;
        draw_glyph(rgba, cursor, y, characters[index], color);
        assert forall|i: int| 0 <= i < 4096 implies #[trigger] rgba@[i] == if text_prefix_covers(t, index + 1, x as int, y as int, pixel_x(i), pixel_y(i)) {
            color@[i % 4]
        } else {
            start[i]
        } by {
            let px = pixel_x(i);
            let py = pixel_y(i);
            if glyph_covers(t[index as int], x + 8 * index, y as int, px, py) {
                assert(text_prefix_covers(t, index + 1, x as int, y as int, px, py));
            } else if text_prefix_covers(t, index + 1, x as int, y as int, px, py) {
                let j = choose|j: int| 0 <= j < index + 1 && #[trigger] glyph_covers(t[j], x + 8 * j, y as int, px, py);
                assert(text_prefix_covers(t, index as int, x as int, y as int, px, py));
            }
        }
        index = index + 1;
        cursor = cursor + (FONT_WIDTH + 1) * SCALE;
    }
    assert forall|i: int| 0 <= i < 4096 implies #[trigger] rgba@[i] == if text_covers(t, x as int, y as int, pixel_x(i), pixel_y(i)) {
        color@[i % 4]
    } else {
        start[i]
    } by {
        let px = pixel_x(i);
        let py = pixel_y(i);
        if text_covers(t, x as int, y as int, px, py) {
            let j = choose|j: int| 0 <= j < t.len() && #[trigger] glyph_covers(t[j], x + 8 * j, y as int, px, py);
            assert(text_prefix_covers(t, index as int, x as int, y as int, px, py));
        }
    }
}

/// The RGBA bytes of the tray icon for the given download and upload rates.
pub fn render_summary_icon(down_bps: u64, up_bps: u64) -> (rgba: Vec<u8>)
    ensures
        rgba@.len() == ICON_BYTES,
        forall|i: int| 0 <= i < ICON_BYTES ==> #[trigger] rgba@[i] == icon_byte(down_bps as nat, up_bps as nat, i),
{
    let mut rgba: Vec<u8> = vec![0u8; WIDTH * HEIGHT * 4];
    let background: [u8; 4] = [16, 19, 28, 245];
    let upper: [u8; 4] = [32, 87, 165, 255];
    let lower: [u8; 4] = [169, 92, 38, 255];
    let white: [u8; 4] = [255, 255, 255, 255];
    assert(upper@ =~= upper_color());
    assert(lower@ =~= lower_color());
    assert(white@ =~= text_color());
    let down_text = compact_speed(down_bps);
    let up_text = compact_speed(up_bps);
    {
        let canvas = rgba.as_mut_slice();
        fill_rect(canvas, 0, 0, WIDTH, HEIGHT, &background);
        fill_rect(canvas, 0, 0, WIDTH, HEIGHT / 2, &upper);
        fill_rect(canvas, 0, HEIGHT / 2, WIDTH, HEIGHT / 2, &lower);
        draw_text(canvas, 2, 3, down_text.as_str(), &white);
        draw_text(canvas, 2, 17, up_text.as_str(), &white);
    }
    proof { lemma_pixel_coords(); }
    rgba
}

} // verus!
