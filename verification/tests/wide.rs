use netmonitor::wide::{
    decode_utf16_chars, file_description_candidates, file_description_from_values, interface_alias, nonempty_wide_text, packaged_display_name,
    wide_to_string,
};

fn wide(text: &str) -> Vec<u16> {
    text.encode_utf16().collect()
}

fn expected_text(buffer: &[u16]) -> String {
    let end = buffer.iter().position(|value| *value == 0).unwrap_or(buffer.len());
    String::from_utf16_lossy(&buffer[..end]).trim().to_string()
}

#[test]
fn text_stops_at_nul_and_is_trimmed() {
    let mut buffer = wide("  Ethernet 2 ");
    buffer.push(0);
    buffer.extend(wide("garbage"));
    assert_eq!(wide_to_string(&buffer), "Ethernet 2");
    assert_eq!(wide_to_string(&wide("无线网络")), "无线网络");
    assert_eq!(wide_to_string(&[]), "");
}

#[test]
fn lone_surrogates_become_replacement_characters() {
    assert_eq!(wide_to_string(&[0x61, 0xD800, 0x62]), "a\u{FFFD}b");
    assert_eq!(wide_to_string(&[0xDC00, 0x61]), "\u{FFFD}a");
    assert_eq!(wide_to_string(&[0xD83D, 0xDE00]), "😀");
    assert_eq!(wide_to_string(&[0xD83D]), "\u{FFFD}");
}

#[test]
fn decoding_matches_lossy_utf16() {
    let mut x: u64 = 0x1234_5678_9ABC_DEF1;
    for round in 0..2_000 {
        let mut buffer = Vec::new();
        for _ in 0..(round % 12) {
            x ^= x << 13;
            x ^= x >> 7;
            x ^= x << 17;
            let unit = match x % 6 {
                0 => 0xD800 + (x >> 8) as u16 % 0x400,
                1 => 0xDC00 + (x >> 8) as u16 % 0x400,
                2 => 0x20,
                3 => 0,
                4 => 0x3000,
                _ => (x >> 16) as u16,
            };
            buffer.push(unit);
        }
        assert_eq!(wide_to_string(&buffer), expected_text(&buffer), "buffer {buffer:?}");
        let decoded: String = decode_utf16_chars(&buffer).into_iter().collect();
        assert_eq!(decoded, String::from_utf16_lossy(&buffer), "buffer {buffer:?}");
    }
}

#[test]
fn blank_text_is_none() {
    assert_eq!(nonempty_wide_text(&wide("   ")), None);
    assert_eq!(nonempty_wide_text(&[0, 0x61]), None);
    assert_eq!(nonempty_wide_text(&wide(" a ")), Some("a".to_string()));
}

#[test]
fn interface_names() {
    assert_eq!(interface_alias(&wide("Wi-Fi\0"), 7), "Wi-Fi");
    assert_eq!(interface_alias(&wide(" \0"), 7), "if#7");
    assert_eq!(interface_alias(&[], 4294967295), "if#4294967295");
}

#[test]
fn description_keys() {
    assert_eq!(
        file_description_candidates(Some((0x0409, 0x04b0))),
        vec![
            "\\StringFileInfo\\040904b0\\FileDescription".to_string(),
            "\\StringFileInfo\\040904b0\\FileDescription".to_string(),
        ]
    );
    assert_eq!(
        file_description_candidates(Some((0x0804, 0xABCD))),
        vec![
            "\\StringFileInfo\\0804abcd\\FileDescription".to_string(),
            "\\StringFileInfo\\040904b0\\FileDescription".to_string(),
        ]
    );
    assert_eq!(
        file_description_candidates(None),
        vec![
            "\\StringFileInfo\\040904b0\\FileDescription".to_string(),
            "\\StringFileInfo\\080404b0\\FileDescription".to_string(),
        ]
    );
}

#[test]
fn hex_keys_match_formatting() {
    for (language, code_page) in [(0u16, 0u16), (0xFFFF, 0x1), (0x0411, 0x03A4), (0xABCD, 0xEF01)] {
        let expected = format!("\\StringFileInfo\\{language:04x}{code_page:04x}\\FileDescription");
        assert_eq!(file_description_candidates(Some((language, code_page)))[0], expected);
    }
}

#[test]
fn packaged_names() {
    assert_eq!(packaged_display_name(&vec![]), None);
    assert_eq!(
        packaged_display_name(&vec![Some("  ".to_string()), Some(" Photos ".to_string()), Some("X".to_string())]),
        Some("Photos".to_string())
    );
    assert_eq!(packaged_display_name(&vec![Some("".to_string()), None, Some("X".to_string())]), None);
}

#[test]
fn first_nonblank_description_wins() {
    let values = vec![None, Some(wide("  \0junk")), Some(wide(" Google Chrome \0")), Some(wide("Other"))];
    assert_eq!(file_description_from_values(&values), Some("Google Chrome".to_string()));
    assert_eq!(file_description_from_values(&vec![None, Some(Vec::new())]), None);
    assert_eq!(file_description_from_values(&Vec::new()), None);
}
