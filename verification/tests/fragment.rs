use multiline::fragment::decode;
use multiline::fragment::encode;
use multiline::fragment::should_persist;
use multiline::InputPair;

fn pair(overlay: &str, base: &str) -> InputPair {
    InputPair {
        overlay: overlay.to_string(),
        base: base.to_string(),
    }
}

#[test]
fn encode_plain_fields() {
    assert_eq!(encode(&pair("ab", "cd")), "#ab#cd");
}

#[test]
fn encode_escapes_reserved_characters() {
    assert_eq!(encode(&pair("a b", "c#d")), "#a%20b#c%23d");
    assert_eq!(encode(&pair("%", "")), "#%25#");
}

#[test]
fn encode_escapes_every_utf8_byte() {
    assert_eq!(encode(&pair("\u{e9}", "")), "#%C3%A9#");
}

#[test]
fn decode_undoes_encode() {
    let cases = [
        ("ab", "cd"),
        ("", ""),
        ("", "xy"),
        ("h\u{e9}llo", "w\u{f6}rld #%"),
        ("a b c", "multi word base"),
        ("#leading", "tr#ailing#"),
    ];
    for (overlay, base) in cases {
        let decoded = decode(&encode(&pair(overlay, base)));
        assert_eq!(decoded.overlay, overlay);
        assert_eq!(decoded.base, base);
    }
}

#[test]
fn decode_empty_fragment() {
    let p = decode("");
    assert_eq!(p.overlay, "");
    assert_eq!(p.base, "");
}

#[test]
fn decode_lone_hash() {
    let p = decode("#");
    assert_eq!(p.overlay, "");
    assert_eq!(p.base, "");
}

#[test]
fn decode_single_segment() {
    let p = decode("#onlyone");
    assert_eq!(p.overlay, "onlyone");
    assert_eq!(p.base, "");
}

#[test]
fn decode_ignores_extra_segments() {
    let p = decode("#a#b#c#d");
    assert_eq!(p.overlay, "a");
    assert_eq!(p.base, "b");
}

#[test]
fn decode_discards_text_before_first_hash() {
    let p = decode("junk#a#b");
    assert_eq!(p.overlay, "a");
    assert_eq!(p.base, "b");
}

#[test]
fn decode_unescapes_percent_sequences() {
    let p = decode("#a%20b#c%23d");
    assert_eq!(p.overlay, "a b");
    assert_eq!(p.base, "c#d");
}

#[test]
fn decode_keeps_malformed_escape() {
    let p = decode("#a%2#b");
    assert_eq!(p.overlay, "a%2");
    assert_eq!(p.base, "b");
}

#[test]
fn decode_replaces_invalid_utf8() {
    let p = decode("#%FF#x");
    assert_eq!(p.overlay, "\u{fffd}");
    assert_eq!(p.base, "x");
}

#[test]
fn persist_only_past_length_threshold() {
    assert!(should_persist(&pair("ab", "cd")));
    assert!(!should_persist(&pair("a", "cd")));
    assert!(!should_persist(&pair("ab", "c")));
    assert!(!should_persist(&pair("", "")));
}
