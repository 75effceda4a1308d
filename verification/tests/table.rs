use multiline::generator::generate;
use multiline::table::parse_dataset;
use multiline::table::SymbolTable;

fn sample_pairs() -> Vec<(char, String)> {
    vec![
        ('a', "\u{301}".to_string()),
        ('b', "\u{300}".to_string()),
        ('c', "\u{302}".to_string()),
    ]
}

#[test]
fn load_rejects_duplicate_key() {
    let pairs: Vec<(char, String)> = vec![
        ('a', "x".to_string()),
        ('b', "y".to_string()),
        ('a', "z".to_string()),
    ];
    let err = match SymbolTable::load(&pairs) {
        Ok(_) => panic!("duplicate key was accepted"),
        Err(e) => e,
    };
    assert_eq!(err.key, 'a');
}

#[test]
fn lookup_finds_loaded_symbols() {
    let t = SymbolTable::load(&sample_pairs()).unwrap();
    assert_eq!(t.lookup('a'), Some(&"\u{301}".to_string()));
    assert_eq!(t.lookup('b'), Some(&"\u{300}".to_string()));
    assert_eq!(t.lookup('z'), None);
}

#[test]
fn lookup_is_case_sensitive() {
    let t = SymbolTable::load(&sample_pairs()).unwrap();
    assert_eq!(t.lookup('A'), None);
}

#[test]
fn repeated_lookups_agree() {
    let t = SymbolTable::load(&sample_pairs()).unwrap();
    let first = t.lookup('b').cloned();
    // Interleave other operations; the table is never mutated, so the
    // second lookup must return the same result.
    let _ = t.contains('a');
    let _ = generate("abc", "xyz", &t);
    let _ = t.unsupported_chars("aq");
    let second = t.lookup('b').cloned();
    assert_eq!(first, second);
    assert_eq!(second, Some("\u{300}".to_string()));
}

#[test]
fn contains_reports_membership() {
    let t = SymbolTable::load(&sample_pairs()).unwrap();
    assert!(t.contains('a'));
    assert!(t.contains('c'));
    assert!(!t.contains('d'));
}

#[test]
fn parse_dataset_reads_records() {
    let recs = parse_dataset("a,x\nb,y").unwrap();
    assert_eq!(recs.len(), 2);
    assert_eq!(recs[0], ('a', "x".to_string()));
    assert_eq!(recs[1], ('b', "y".to_string()));
}

#[test]
fn parse_dataset_skips_blank_lines() {
    let recs = parse_dataset("a,x\n\nb,y\n").unwrap();
    assert_eq!(recs.len(), 2);
    assert_eq!(recs[0], ('a', "x".to_string()));
    assert_eq!(recs[1], ('b', "y".to_string()));
}

#[test]
fn parse_dataset_keeps_commas_in_symbol() {
    let recs = parse_dataset("a,x,y").unwrap();
    assert_eq!(recs, vec![('a', "x,y".to_string())]);
}

#[test]
fn parse_dataset_rejects_line_without_comma() {
    let err = match parse_dataset("a,x\nbad") {
        Ok(_) => panic!("malformed line was accepted"),
        Err(e) => e,
    };
    assert_eq!(err.line, 1);
}

#[test]
fn parse_dataset_rejects_single_character_line() {
    let err = match parse_dataset("q") {
        Ok(_) => panic!("malformed line was accepted"),
        Err(e) => e,
    };
    assert_eq!(err.line, 0);
}

#[test]
fn parse_dataset_allows_empty_symbol() {
    let recs = parse_dataset("a,").unwrap();
    assert_eq!(recs, vec![('a', String::new())]);
}

#[test]
fn unsupported_chars_lists_every_miss() {
    let t = SymbolTable::load(&sample_pairs()).unwrap();
    assert_eq!(t.unsupported_chars("azbz"), vec!['z', 'z']);
    assert_eq!(t.unsupported_chars("abc"), Vec::<char>::new());
}
