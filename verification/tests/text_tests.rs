use meta_chronic::text::{
    contains_all_terms, contains_str, join_terms, normalize_name, parse_rating_milli, parse_u32,
    strain_name_from_url, tokenize,
};

#[test]
fn normalize_folds_case_and_hyphens() {
    assert_eq!(normalize_name("Blue-Dream"), "blue dream");
    assert_eq!(normalize_name("OG Kush"), "og kush");
    assert_eq!(normalize_name("already lower"), "already lower");
    assert_eq!(normalize_name(""), "");
}

#[test]
fn normalize_keeps_other_characters() {
    assert_eq!(normalize_name("GG#4 (orig.)"), "gg#4 (orig.)");
}

#[test]
fn tokenize_splits_on_whitespace() {
    assert_eq!(tokenize("blue dream"), vec!["blue", "dream"]);
    assert_eq!(tokenize("  blue\t dream \n"), vec!["blue", "dream"]);
    assert_eq!(tokenize("single"), vec!["single"]);
}

#[test]
fn tokenize_rejects_blank_queries() {
    assert!(tokenize("").is_empty());
    assert!(tokenize("   \t  ").is_empty());
}

#[test]
fn contains_str_finds_substrings() {
    assert!(contains_str("blue dream", "dream"));
    assert!(contains_str("blue dream", ""));
    assert!(contains_str("blue dream", "blue dream"));
    assert!(!contains_str("blue dream", "kush"));
    assert!(!contains_str("og", "og kush"));
}

#[test]
fn contains_all_terms_filters_like_the_sources() {
    let terms = vec!["blue".to_string(), "dream".to_string()];
    assert!(contains_all_terms("blue dream", &terms));
    assert!(!contains_all_terms("blueberry", &terms));
    assert!(contains_all_terms("anything", &Vec::new()));
}

#[test]
fn parse_u32_reads_review_counts() {
    assert_eq!(parse_u32("0"), Some(0));
    assert_eq!(parse_u32("123"), Some(123));
    assert_eq!(parse_u32("4294967295"), Some(u32::MAX));
    assert_eq!(parse_u32("4294967296"), None);
    assert_eq!(parse_u32(""), None);
    assert_eq!(parse_u32("12a"), None);
    assert_eq!(parse_u32("-1"), None);
}

#[test]
fn parse_rating_reads_thousandths() {
    assert_eq!(parse_rating_milli("4"), Some(4000));
    assert_eq!(parse_rating_milli("4.5"), Some(4500));
    assert_eq!(parse_rating_milli("4.25"), Some(4250));
    assert_eq!(parse_rating_milli("0.123456"), Some(123));
    assert_eq!(parse_rating_milli("4."), Some(4000));
    assert_eq!(parse_rating_milli("10.0"), Some(10000));
}

#[test]
fn parse_rating_rejects_malformed_text() {
    assert_eq!(parse_rating_milli(""), None);
    assert_eq!(parse_rating_milli(".5"), None);
    assert_eq!(parse_rating_milli("a.5"), None);
    assert_eq!(parse_rating_milli("4.5x"), None);
    assert_eq!(parse_rating_milli("4.5.6"), None);
}

#[test]
fn strain_name_from_url_takes_last_segment() {
    assert_eq!(
        strain_name_from_url("https://www.allbud.com/marijuana-strains/hybrid/blue-dream"),
        "blue dream"
    );
    assert_eq!(strain_name_from_url("og-kush"), "og kush");
    assert_eq!(strain_name_from_url("a/b/"), "");
}

#[test]
fn join_terms_builds_search_queries() {
    assert_eq!(join_terms(&vec!["blue".to_string(), "dream".to_string()]), "blue+dream");
    assert_eq!(join_terms(&vec!["single".to_string()]), "single");
    assert_eq!(join_terms(&Vec::new()), "");
}
