use straptrack::number::is_float_text;
use straptrack::record::{extract, is_marker_text, Record};
use straptrack::text::split_tokens;

fn value(r: &Record, key: &str) -> Option<f64> {
    r.get(key).map(|v| v.parse::<f64>().unwrap())
}

#[test]
fn odd_trailing_token_is_dropped() {
    let r = extract("key1 1.0 key2", true);
    assert_eq!(r.len(), 1);
    assert_eq!(value(&r, "key1"), Some(1.0));
    assert_eq!(value(&r, "key2"), None);
}

#[test]
fn invalid_value_drops_only_its_pair() {
    let r = extract("key1 invalid_float key2 2.0", true);
    assert_eq!(r.len(), 1);
    assert_eq!(value(&r, "key2"), Some(2.0));
    assert_eq!(value(&r, "key1"), None);
}

#[test]
fn no_marker_strict_gives_empty_record() {
    let r = extract("key1 invalid_float key2 2.0", false);
    assert!(r.is_empty());
    let r = extract("a 1.0 b 2.0", false);
    assert_eq!(r.len(), 0);
}

#[test]
fn marker_at_start_both_modes() {
    for permissive in [true, false] {
        let r = extract("@strap damage 15.0 attacker_alice 1.0", permissive);
        assert_eq!(r.len(), 2);
        assert_eq!(value(&r, "damage"), Some(15.0));
        assert_eq!(value(&r, "attacker_alice"), Some(1.0));
    }
}

#[test]
fn marker_inside_line_takes_priority() {
    let strict = extract("DATE TIME @strap damage 15.0", false);
    assert_eq!(strict.len(), 1);
    assert_eq!(value(&strict, "damage"), Some(15.0));
    let loose = extract("DATE TIME @strap damage 15.0", true);
    assert_eq!(loose.len(), 1);
    assert_eq!(value(&loose, "damage"), Some(15.0));
    assert_eq!(value(&loose, "DATE"), None);
}

#[test]
fn numbered_marker() {
    let r = extract("  info @strap1 hp 3 mp 4e2  ", false);
    assert_eq!(r.len(), 2);
    assert_eq!(value(&r, "hp"), Some(3.0));
    assert_eq!(value(&r, "mp"), Some(400.0));
}

#[test]
fn marker_shapes() {
    assert!(is_marker_text("@strap"));
    assert!(is_marker_text("@strap12"));
    assert!(!is_marker_text("@strapx"));
    assert!(!is_marker_text("@stra"));
    assert!(!is_marker_text("strap"));
    let r = extract("@strapx a 1.0", false);
    assert!(r.is_empty());
}

#[test]
fn later_duplicate_overwrites() {
    let r = extract("a 1.0 b 2.0 a 3.5", true);
    assert_eq!(r.len(), 2);
    assert_eq!(value(&r, "a"), Some(3.5));
    assert_eq!(r.key_at(0).as_str(), "a");
    assert_eq!(r.value_at(0).as_str(), "3.5");
    assert_eq!(r.key_at(1).as_str(), "b");
}

#[test]
fn even_valid_pairs_all_kept() {
    let r = extract("@strap x 1 y -2.5 z 3e-3 w +7.", false);
    assert_eq!(r.len(), 4);
    assert_eq!(value(&r, "x"), Some(1.0));
    assert_eq!(value(&r, "y"), Some(-2.5));
    assert_eq!(value(&r, "z"), Some(0.003));
    assert_eq!(value(&r, "w"), Some(7.0));
}

#[test]
fn empty_and_blank_lines() {
    assert!(extract("", true).is_empty());
    assert!(extract("   \t ", true).is_empty());
    assert!(extract("@strap", false).is_empty());
}

#[test]
fn tokens_split_on_any_whitespace() {
    let t = split_tokens("  a\tb \u{3000}c\n");
    let t: Vec<&str> = t.iter().map(|s| s.as_str()).collect();
    assert_eq!(t, vec!["a", "b", "c"]);
    assert!(split_tokens("").is_empty());
}

fn float_text(s: &str) -> bool {
    let cs: Vec<char> = s.chars().collect();
    is_float_text(&cs)
}

#[test]
fn float_texts_agree_with_std() {
    let cases = [
        "1", "1.0", "-1", "+1.5", ".5", "5.", ".", "", "+", "-", "1e5", "1E5", "1e+5", "1e-5", "1e",
        "e5", "1.5e3", ".5e1", "5.e1", "inf", "-inf", "+Infinity", "NaN", "nan", "infin", "0x10",
        "1_000", "1.2.3", "--1", "1e5.0", "١", "12abc", "INF", "iNfInItY",
    ];
    for c in cases {
        assert_eq!(float_text(c), c.parse::<f64>().is_ok(), "{}", c);
    }
}
