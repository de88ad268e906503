use relay_core::text::{trim_range, white_space};

#[test]
fn white_space_agrees_with_std_for_every_char() {
    for u in 0u32..=0x10FFFF {
        if let Some(c) = char::from_u32(u) {
            assert_eq!(white_space(c), c.is_whitespace(), "U+{:04X}", u);
        }
    }
}

#[test]
fn trim_range_agrees_with_str_trim() {
    let samples = [
        "", " ", "  a  ", "\t\nx y\r\n", "\u{3000}z\u{85}", "a", "  ", "\u{200B}k\u{200B}",
        "é ", " ü",
    ];
    for s in samples.iter() {
        let cs: Vec<char> = s.chars().collect();
        let (a, b) = trim_range(&cs, 0, cs.len());
        let got: String = cs[a..b].iter().collect();
        assert_eq!(got, s.trim());
    }
}
