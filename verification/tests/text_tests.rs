use ash::text::{
    byte_length, char_index_at_byte, chars_of, is_whitespace, split_whitespace, string_from,
    trim_chars,
};

fn s(v: &[char]) -> String {
    v.iter().collect()
}

#[test]
fn whitespace_matches_std() {
    for u in 0u32..0x3100 {
        if let Some(c) = char::from_u32(u) {
            assert_eq!(is_whitespace(c), c.is_whitespace(), "char {:x}", u);
        }
    }
    for c in ['\u{feff}', '\u{200b}', '\u{10ffff}', 'a', '\u{180e}'] {
        assert_eq!(is_whitespace(c), c.is_whitespace());
    }
}

#[test]
fn trim_and_split_match_std() {
    let samples = [
        "",
        "   ",
        "  ls -la  ",
        "\techo\u{3000}hi\n",
        "a",
        " a  b   c ",
        "\u{a0}x\u{85}",
    ];
    for t in samples {
        let c = chars_of(t);
        assert_eq!(s(&trim_chars(&c)), t.trim());
        let toks: Vec<String> = split_whitespace(&c).iter().map(|w| s(w)).collect();
        let std_toks: Vec<String> = t.split_whitespace().map(|w| w.to_string()).collect();
        assert_eq!(toks, std_toks);
    }
}

#[test]
fn byte_length_matches_len() {
    for t in ["", "abc", "é", "黑风雷", "a\u{3000}b", "👨‍👩‍👧"] {
        assert_eq!(byte_length(&chars_of(t)), t.len() as u128);
    }
}

#[test]
fn char_index_at_byte_boundaries() {
    let c = chars_of("aé b");
    assert_eq!(char_index_at_byte(&c, 0), Some(0));
    assert_eq!(char_index_at_byte(&c, 1), Some(1));
    assert_eq!(char_index_at_byte(&c, 2), None);
    assert_eq!(char_index_at_byte(&c, 3), Some(2));
    assert_eq!(char_index_at_byte(&c, 5), Some(4));
    assert_eq!(char_index_at_byte(&c, 6), None);
}

#[test]
fn string_round_trip() {
    let t = "héllo wörld";
    assert_eq!(string_from(&chars_of(t)), t);
}
