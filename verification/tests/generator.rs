use multiline::generator::generate;
use multiline::table::SymbolTable;

fn table_ab() -> SymbolTable {
    let pairs: Vec<(char, String)> = vec![
        ('a', "\u{301}".to_string()),
        ('b', "\u{300}".to_string()),
    ];
    SymbolTable::load(&pairs).unwrap()
}

#[test]
fn empty_overlay_passes_base_through() {
    let t = table_ab();
    assert_eq!(generate("", "hello world", &t), "hello world");
    assert_eq!(generate("", "", &t), "");
    assert_eq!(generate("", "  ", &t), "  ");
}

#[test]
fn space_skips_overlay_cursor() {
    let t = table_ab();
    assert_eq!(generate("ab", "x y", &t), "x\u{301} y\u{300}");
}

#[test]
fn lookup_miss_appends_base_only() {
    let t = table_ab();
    assert_eq!(generate("zz", "xy", &t), "xy");
    assert_eq!(generate("za", "xy", &t), "xy\u{301}");
}

#[test]
fn combining_acute_scenario() {
    let pairs = multiline::table::parse_dataset("a,\u{301}").unwrap();
    let t = SymbolTable::load(&pairs).unwrap();
    assert_eq!(generate("a", "cat", &t), "c\u{301}at");
}

#[test]
fn overlay_exhausted_leaves_rest_of_base() {
    let t = table_ab();
    assert_eq!(generate("a", "xyz", &t), "x\u{301}yz");
}

#[test]
fn empty_base_yields_empty_output() {
    let t = table_ab();
    assert_eq!(generate("ab", "", &t), "");
}

#[test]
fn leftover_overlay_is_never_consumed() {
    let t = table_ab();
    assert_eq!(generate("abba", "u v", &t), "u\u{301} v\u{300}");
}
