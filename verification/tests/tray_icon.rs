use netmonitor::tray_icon::render_summary_icon;

const WIDTH: usize = 32;
const HEIGHT: usize = 32;

const DIGITS: [[u8; 5]; 10] = [
    [0b111, 0b101, 0b101, 0b101, 0b111],
    [0b010, 0b110, 0b010, 0b010, 0b111],
    [0b111, 0b001, 0b111, 0b100, 0b111],
    [0b111, 0b001, 0b111, 0b001, 0b111],
    [0b101, 0b101, 0b111, 0b001, 0b001],
    [0b111, 0b100, 0b111, 0b001, 0b111],
    [0b111, 0b100, 0b111, 0b101, 0b111],
    [0b111, 0b001, 0b001, 0b010, 0b010],
    [0b111, 0b101, 0b111, 0b101, 0b111],
    [0b111, 0b101, 0b111, 0b001, 0b111],
];

fn label(bps: u64) -> String {
    if bps >= 1_000_000_000 {
        format!("{:.0}G", bps as f64 / 1_000_000_000.0)
    } else if bps >= 100_000_000 {
        format!("{:.0}M", bps as f64 / 1_000_000.0)
    } else if bps >= 1_000_000 {
        format!("{:.1}M", bps as f64 / 1_000_000.0)
    } else if bps >= 100_000 {
        format!("{:.0}K", bps as f64 / 1_000.0)
    } else if bps >= 1_000 {
        format!("{:.1}K", bps as f64 / 1_000.0)
    } else {
        format!("{bps}")
    }
}

fn glyph(c: char) -> [u8; 5] {
    match c {
        '0'..='9' => DIGITS[c as usize - '0' as usize],
        '.' => [0b000, 0b000, 0b000, 0b010, 0b010],
        '-' => [0b000, 0b000, 0b111, 0b000, 0b000],
        'M' => [0b111, 0b101, 0b111, 0b101, 0b101],
        'K' => [0b110, 0b101, 0b110, 0b101, 0b110],
        'G' => [0b111, 0b101, 0b111, 0b101, 0b111],
        _ => [0b111, 0b101, 0b010, 0b000, 0b010],
    }
}

fn paint(rgba: &mut [u8], px: usize, py: usize, color: [u8; 4]) {
    if px < WIDTH && py < HEIGHT {
        let offset = (py * WIDTH + px) * 4;
        rgba[offset..offset + 4].copy_from_slice(&color);
    }
}

fn draw(rgba: &mut [u8], x: usize, y: usize, text: &str) {
    let mut cursor = x;
    for c in text.chars() {
        for (row, bits) in glyph(c).iter().enumerate() {
            for column in 0..3 {
                if bits & (1 << (2 - column)) != 0 {
                    for sy in 0..2 {
                        for sx in 0..2 {
                            paint(rgba, cursor + column * 2 + sx, y + row * 2 + sy, [255, 255, 255, 255]);
                        }
                    }
                }
            }
        }
        cursor += 8;
    }
}

fn expected_icon(down: u64, up: u64) -> Vec<u8> {
    let mut rgba = vec![0u8; WIDTH * HEIGHT * 4];
    for py in 0..HEIGHT {
        for px in 0..WIDTH {
            let color = if py < HEIGHT / 2 { [32, 87, 165, 255] } else { [169, 92, 38, 255] };
            paint(&mut rgba, px, py, color);
        }
    }
    draw(&mut rgba, 2, 3, &label(down));
    draw(&mut rgba, 2, 17, &label(up));
    rgba
}

#[test]
fn icon_has_one_rgba_pixel_per_cell() {
    assert_eq!(render_summary_icon(0, 0).len(), 32 * 32 * 4);
}

#[test]
fn icon_halves_are_blue_and_orange() {
    let rgba = render_summary_icon(0, 0);
    assert_eq!(&rgba[0..4], &[32, 87, 165, 255]);
    let last = rgba.len() - 4;
    assert_eq!(&rgba[last..], &[169, 92, 38, 255]);
}

#[test]
fn icon_draws_zero_glyph_at_its_place() {
    let rgba = render_summary_icon(0, 0);
    // Top-left pixel of the first glyph ('0', top row 0b111) at (2, 3).
    let offset = (3 * WIDTH + 2) * 4;
    assert_eq!(&rgba[offset..offset + 4], &[255, 255, 255, 255]);
    // The middle of '0' is open: column 1, row 1 at (4, 5).
    let inner = (5 * WIDTH + 4) * 4;
    assert_eq!(&rgba[inner..inner + 4], &[32, 87, 165, 255]);
    // The upload zero in the lower half starts at (2, 17).
    let lower = (17 * WIDTH + 2) * 4;
    assert_eq!(&rgba[lower..lower + 4], &[255, 255, 255, 255]);
}

#[test]
fn icon_matches_pixel_by_pixel_drawing() {
    let mut rates = vec![
        0u64, 7, 999, 1_000, 1_250, 12_345, 99_950, 100_000, 512_000, 999_999, 1_000_000,
        1_250_000, 12_500_000, 99_950_000, 100_000_000, 850_000_000, 1_000_000_000, 2_500_000_000,
        123_456_789_012, u64::MAX,
    ];
    let mut x: u64 = 0x2545_F491_4F6C_DD1D;
    for _ in 0..300 {
        x ^= x << 13;
        x ^= x >> 7;
        x ^= x << 17;
        rates.push(x >> (x % 64));
    }
    for pair in rates.windows(2) {
        assert_eq!(render_summary_icon(pair[0], pair[1]), expected_icon(pair[0], pair[1]), "rates {:?}", pair);
    }
}

#[test]
fn icon_text_is_clipped_at_the_right_edge() {
    // The label of the largest rate runs past the edge; the glyphs there are dropped.
    let rgba = render_summary_icon(u64::MAX, 0);
    assert_eq!(rgba, expected_icon(u64::MAX, 0));
}
