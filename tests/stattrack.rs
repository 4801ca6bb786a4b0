use straptrack::record::Record;
use straptrack::stattrack::StatTrack;

fn sample() -> StatTrack {
    let src: Vec<String> = ["hp 10 mp 5", "hp 7", "mp 1", "hp 12 mp 0"].iter().map(|s| s.to_string()).collect();
    StatTrack::from_lines(&src, true)
}

fn hp(r: &Record) -> Option<f64> {
    r.get("hp").map(|v| v.parse().unwrap())
}

#[test]
fn rows_in_line_order() {
    let t = sample();
    assert_eq!(t.num_rows(), 4);
    assert_eq!(hp(t.get_row(0).unwrap()), Some(10.0));
    assert_eq!(hp(t.get_row(2).unwrap()), None);
    assert!(t.get_row(4).is_none());
}

#[test]
fn column_values_skip_missing() {
    let t = sample();
    assert_eq!(t.get_column("hp"), vec!["10", "7", "12"]);
    assert_eq!(t.get_column("mp"), vec!["5", "1", "0"]);
    assert!(t.get_column("none").is_empty());
}

#[test]
fn for_each_stops_on_false() {
    let t = sample();
    assert_eq!(t.for_each_row(|r: &Record| hp(r).is_some()), 3);
    assert_eq!(t.for_each_row(|_r: &Record| true), 4);
    assert_eq!(t.for_each_row(|_r: &Record| false), 1);
}

#[test]
fn filter_keeps_order() {
    let t = sample();
    let big = t.filter_rows(|r: &Record| hp(r).map_or(false, |v| v > 8.0));
    assert_eq!(big.len(), 2);
    assert_eq!(hp(&big[0]), Some(10.0));
    assert_eq!(hp(&big[1]), Some(12.0));
}

#[test]
fn aggregate_folds_in_order() {
    let t = sample();
    let total = t.aggregate(0.0f64, |acc, r: &Record| acc + hp(r).unwrap_or(0.0));
    assert_eq!(total, 29.0);
    let count = t.aggregate(0usize, |acc, r: &Record| acc + r.len());
    assert_eq!(count, 6);
}

#[test]
fn push_line_appends() {
    let mut t = StatTrack::new();
    t.push_line("@strap a 1", false);
    t.push_line("a 2", false);
    assert_eq!(t.num_rows(), 2);
    assert!(t.get_row(1).unwrap().is_empty());
    let copy = t.get_row(0).unwrap().clone();
    assert_eq!(copy.get("a").map(|s| s.as_str()), Some("1"));
}
