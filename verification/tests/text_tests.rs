use mtg_fletch::text::{
    eq_ignore_ascii_case, parse_usize, similarity, to_lowercase, MATCH_THRESHOLD_KEY, ONE_KEY,
};

#[test]
fn parse_accepts_digits_and_plus() {
    assert_eq!(parse_usize("3"), Some(3));
    assert_eq!(parse_usize("+4"), Some(4));
    assert_eq!(parse_usize("007"), Some(7));
}

#[test]
fn parse_rejects_other_text() {
    assert_eq!(parse_usize(""), None);
    assert_eq!(parse_usize("+"), None);
    assert_eq!(parse_usize("-1"), None);
    assert_eq!(parse_usize("two"), None);
    assert_eq!(parse_usize(" 2"), None);
    assert_eq!(parse_usize("99999999999999999999999"), None);
}

#[test]
fn lowercase_maps_letters() {
    assert_eq!(to_lowercase("AlIcE"), "alice");
    assert_eq!(to_lowercase("ÉLODIE"), "élodie");
}

#[test]
fn similarity_of_equal_strings_is_one() {
    assert_eq!(similarity("alice", "alice"), ONE_KEY);
    assert_eq!(similarity("", ""), ONE_KEY);
    assert_eq!(similarity("", "bob"), 0);
    assert_eq!(f64::from_bits(ONE_KEY), 1.0);
    assert_eq!(f64::from_bits(MATCH_THRESHOLD_KEY), 0.80);
}

#[test]
fn similarity_keys_follow_similarity() {
    let a = similarity("martha", "marhta");
    let b = similarity("martha", "zzzzzz");
    assert_eq!(f64::from_bits(a), strsim::jaro_winkler("martha", "marhta"));
    assert!(a > b);
    assert!(a > MATCH_THRESHOLD_KEY);
}

#[test]
fn ascii_case_insensitive_comparison() {
    assert!(eq_ignore_ascii_case("Alice", "aLICE"));
    assert!(!eq_ignore_ascii_case("Alice", "Alicia"));
    assert!(!eq_ignore_ascii_case("é", "É"));
}
