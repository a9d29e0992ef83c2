use qrust_code::text::{
    color_to_hex, encode_base64, hex_to_color32, label_for, parse_hex_color, selected_image_label,
    slices_inside_char, strip_hashes_str, trim_str,
};

#[test]
fn colours_in_hexadecimal() {
    assert_eq!(parse_hex_color("#aabbcc"), Ok((170, 187, 204)));
    assert_eq!(parse_hex_color("  ##FFF000 \n"), Ok((255, 240, 0)));
    assert_eq!(parse_hex_color("000000"), Ok((0, 0, 0)));
    // A digit pair may be a plus sign and one digit, as `u8::from_str_radix` reads it.
    assert_eq!(parse_hex_color("#+f0000"), Ok((15, 0, 0)));
}

#[test]
fn colour_of_the_wrong_length() {
    assert_eq!(parse_hex_color("#abc"), Err("attendu format hex sur 6 caractères, ex: #aabbcc"));
    assert_eq!(parse_hex_color(""), Err("attendu format hex sur 6 caractères, ex: #aabbcc"));
    assert_eq!(parse_hex_color("#aabbccd"), Err("attendu format hex sur 6 caractères, ex: #aabbcc"));
}

#[test]
fn colour_with_a_bad_pair() {
    assert_eq!(parse_hex_color("#gg0000"), Err("valeur rouge invalide"));
    assert_eq!(parse_hex_color("#00zz00"), Err("valeur verte invalide"));
    assert_eq!(parse_hex_color("#0000-1"), Err("valeur bleue invalide"));
    // Two bytes of one character in the red pair: no digits.
    assert_eq!(parse_hex_color("#éabcd"), Err("valeur rouge invalide"));
}

#[test]
fn colour_slicing_inside_a_character() {
    assert!(slices_inside_char("#aéabc"));
    assert!(!slices_inside_char("#éabcd"));
    assert!(!slices_inside_char("#aabbcc"));
    assert!(slices_inside_char("ab0éc"));
}

#[test]
fn colours_written_back() {
    assert_eq!(color_to_hex(255, 0, 16), "#ff0010");
    assert_eq!(color_to_hex(0, 0, 0), "#000000");
}

#[test]
fn colour_round_trip() {
    for (r, g, b) in [(0u8, 0u8, 0u8), (255, 255, 255), (18, 52, 86), (171, 205, 239)] {
        assert_eq!(parse_hex_color(&color_to_hex(r, g, b)), Ok((r, g, b)));
    }
}

#[test]
fn colour_with_a_fallback() {
    assert_eq!(hex_to_color32("#102030", (1, 2, 3)), (16, 32, 48));
    assert_eq!(hex_to_color32("nope", (1, 2, 3)), (1, 2, 3));
    assert_eq!(hex_to_color32("#1020zz", (1, 2, 3)), (1, 2, 3));
}

#[test]
fn base64_of_short_inputs() {
    assert_eq!(encode_base64(b""), "");
    assert_eq!(encode_base64(b"M"), "TQ==");
    assert_eq!(encode_base64(b"Ma"), "TWE=");
    assert_eq!(encode_base64(b"Man"), "TWFu");
    assert_eq!(encode_base64(&[0xff, 0xfe, 0xfd, 0xfc]), "//79/A==");
}

#[test]
fn base64_length_is_four_per_started_triple() {
    for n in 0..20usize {
        let data = vec![7u8; n];
        assert_eq!(encode_base64(&data).len(), (n + 2) / 3 * 4);
    }
}

#[test]
fn trimming() {
    assert_eq!(trim_str("  a b \t"), "a b");
    assert_eq!(trim_str("   "), "");
    assert_eq!(strip_hashes_str("##a#"), "a#");
}

#[test]
fn labels_of_chosen_pictures() {
    assert_eq!(label_for(Some("fond.png"), "/tmp/fond.png"), "Sélectionnée: fond.png");
    assert_eq!(label_for(None, ".."), "Sélectionnée: ..");
    assert_eq!(selected_image_label("  /tmp/images/fond.png "), "Sélectionnée: fond.png");
    assert_eq!(selected_image_label(".."), "Sélectionnée: ..");
}

#[test]
fn colours_in_other_written_forms() {
    assert_eq!(parse_hex_color("  ##AABBCC\t"), Ok((170, 187, 204)));
    assert_eq!(parse_hex_color("aAbBcC"), Ok((170, 187, 204)));
    assert_eq!(parse_hex_color("\n#0F1e2D "), Ok((15, 30, 45)));
}

fn decode(s: &str) -> Vec<u8> {
    let value = |c: u8| match c {
        b'A'..=b'Z' => (c - b'A') as u32,
        b'a'..=b'z' => (c - b'a' + 26) as u32,
        b'0'..=b'9' => (c - b'0' + 52) as u32,
        b'+' => 62,
        b'/' => 63,
        _ => 0,
    };
    let mut out = Vec::new();
    for g in s.as_bytes().chunks(4) {
        let n = value(g[0]) << 18 | value(g[1]) << 12 | value(g[2]) << 6 | value(g[3]);
        out.push((n >> 16) as u8);
        if g[2] != b'=' {
            out.push((n >> 8) as u8);
        }
        if g[3] != b'=' {
            out.push(n as u8);
        }
    }
    out
}

#[test]
fn base64_decodes_back() {
    for n in 0..40usize {
        let data: Vec<u8> = (0..n).map(|i| (i * 37 + 11) as u8).collect();
        assert_eq!(decode(&encode_base64(&data)), data);
    }
}

#[test]
fn label_of_a_plain_path_is_its_last_name() {
    assert_eq!(selected_image_label("  /home/user/photo.png "), "Sélectionnée: photo.png");
    assert_eq!(selected_image_label("photo.png"), "Sélectionnée: photo.png");
    assert_eq!(selected_image_label("images//fond.jpeg"), "Sélectionnée: fond.jpeg");
}
