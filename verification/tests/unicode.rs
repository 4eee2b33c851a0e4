use luni::unicode::UnicodeDB;

#[test]
fn test_parse_line_0() {
    let dl = UnicodeDB::parse_line("1F9A6 ; [*180C.0020.0002] # OTTER");
    assert_eq!(dl.is_some(), true);
    if let Some(dl) = dl {
        assert_eq!(dl.code, 0x1F9A6);
        assert_eq!(dl.description, "otter");
    }
}

#[test]
fn test_parse_line_1() {
    let dl = UnicodeDB::parse_line("1F3DD ; [*1544.0020.0002] # DESERT ISLAND");
    assert_eq!(dl.is_some(), true);
    if let Some(dl) = dl {
        assert_eq!(dl.code, 0x1F3DD);
        assert_eq!(dl.description, "desert island");
    }
}

#[test]
fn test_parse_line_2() {
    let dl = UnicodeDB::parse_line("1F502 ; [*1669.0020.0002] # CLOCKWISE RIGHTWARDS AND LEFTWARDS OPEN CIRCLE ARROWS WITH CIRCLED ONE OVERLAY");
    assert_eq!(dl.is_some(), true);
    if let Some(dl) = dl {
        assert_eq!(dl.code, 0x1F502);
        assert_eq!(
            dl.description,
            "clockwise rightwards and leftwards open circle arrows with circled one overlay"
        );
    }
}

#[test]
fn test_parse_line_trims_and_lowercases() {
    let dl = UnicodeDB::parse_line("  41  ;  [*x]  #   LATIN CAPITAL LETTER A   ").unwrap();
    assert_eq!(dl.code, 0x41);
    assert_eq!(dl.description, "latin capital letter a");
}

#[test]
fn test_parse_line_mixed_case_description() {
    let dl = UnicodeDB::parse_line("41 ; x # MiXeD Case 123").unwrap();
    assert_eq!(dl.code, 0x41);
    assert_eq!(dl.description, "mixed case 123");
}

#[test]
fn test_parse_line_description_runs_to_line_end() {
    let dl = UnicodeDB::parse_line("41 ; a # B # C").unwrap();
    assert_eq!(dl.code, 0x41);
    assert_eq!(dl.description, "b # c");
}

#[test]
fn test_parse_line_empty_description() {
    let dl = UnicodeDB::parse_line("41 ; #").unwrap();
    assert_eq!(dl.code, 0x41);
    assert_eq!(dl.description, "");
}

#[test]
fn test_parse_line_plus_sign_code() {
    let dl = UnicodeDB::parse_line("+41 ; x # LATIN CAPITAL LETTER A").unwrap();
    assert_eq!(dl.code, 0x41);
}

#[test]
fn test_parse_line_rejects_malformed() {
    assert!(UnicodeDB::parse_line("").is_none());
    assert!(UnicodeDB::parse_line("1F9A6 [*180C.0020.0002] OTTER").is_none());
    assert!(UnicodeDB::parse_line("1F9A6 ; [*180C.0020.0002] OTTER").is_none());
    assert!(UnicodeDB::parse_line("XYZ ; [*180C.0020.0002] # OTTER").is_none());
    assert!(UnicodeDB::parse_line(" ; [*180C.0020.0002] # OTTER").is_none());
    assert!(UnicodeDB::parse_line("+ ; [*180C.0020.0002] # OTTER").is_none());
    assert!(UnicodeDB::parse_line("1FFFFFFFF ; x # TOO BIG FOR THIRTY-TWO BITS").is_none());
}

#[test]
fn test_parse_line_hash_before_semicolon_rejected() {
    assert!(UnicodeDB::parse_line("41 # X ; Y").is_none());
}

#[test]
fn test_search_round_trip() {
    let mut udb = UnicodeDB::new();
    udb.parse_database(&vec!["1F9A6 ; [*180C.0020.0002] # OTTER".to_string()]);
    let chars = udb.search("otter").unwrap();
    assert_eq!(chars, vec!['\u{1F9A6}']);
    let none = udb.search("zzz").unwrap();
    assert!(none.is_empty());
    assert!(udb.search("(").is_err());
}

#[test]
fn test_search_ring_in_file_order() {
    let mut udb = UnicodeDB::new();
    udb.parse_database(&vec![
        "25CB ; [*0F9E.0020.0002] # RING".to_string(),
        "25EF ; [*0FAC.0020.0002] # RING".to_string(),
    ]);
    let chars = udb.search("ring").unwrap();
    assert_eq!(chars, vec!['\u{25CB}', '\u{25EF}']);
}

#[test]
fn test_search_keeps_duplicate_characters() {
    let mut udb = UnicodeDB::new();
    udb.parse_database(&vec![
        "41 ; x # APPLE ONE".to_string(),
        "41 ; y # APPLE TWO".to_string(),
    ]);
    let chars = udb.search("apple").unwrap();
    assert_eq!(chars, vec!['A', 'A']);
}

#[test]
fn test_search_with_regex_syntax() {
    let mut udb = UnicodeDB::new();
    udb.parse_database(&vec![
        "1F9A6 ; [*180C.0020.0002] # OTTER".to_string(),
        "1F3DD ; [*1544.0020.0002] # DESERT ISLAND".to_string(),
    ]);
    let chars = udb.search("^otter$").unwrap();
    assert_eq!(chars, vec!['\u{1F9A6}']);
    let chars = udb.search("desert|otter").unwrap();
    assert_eq!(chars, vec!['\u{1F9A6}', '\u{1F3DD}']);
}

#[test]
fn test_search_skips_unrenderable_codes() {
    let mut udb = UnicodeDB::new();
    udb.parse_database(&vec!["D800 ; x # SURROGATE HALF".to_string()]);
    let chars = udb.search("surrogate").unwrap();
    assert!(chars.is_empty());
}

#[test]
fn test_search_malformed_lines_dropped_at_load() {
    let mut udb = UnicodeDB::new();
    udb.parse_database(&vec![
        "this line has no separators".to_string(),
        "1F9A6 ; [*180C.0020.0002] # OTTER".to_string(),
        "XYZ ; HEX # OTTER COLLECTOR".to_string(),
    ]);
    let chars = udb.search("otter").unwrap();
    assert_eq!(chars, vec!['\u{1F9A6}']);
}

#[test]
fn test_search_invalid_pattern_reports_message() {
    let udb = UnicodeDB::new();
    let err = udb.search("(").unwrap_err();
    assert!(!err.message().is_empty());
}

#[test]
fn test_search_empty_store() {
    let udb = UnicodeDB::new();
    let chars = udb.search("anything").unwrap();
    assert!(chars.is_empty());
}
