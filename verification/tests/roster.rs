use online_squares::roster::{
    bullet_fields, parse_record, parse_roster, position_texts, position_texts_with_flags, BulletText,
};

#[test]
fn position_keeps_coordinate_characters() {
    assert_eq!(position_texts("12.5,-3"), ("12.5".to_string(), "-3".to_string()));
    assert_eq!(position_texts("x1y,2z,3"), ("1".to_string(), "23".to_string()));
    assert_eq!(position_texts("7"), ("7".to_string(), "".to_string()));
    assert_eq!(position_texts("12"), ("12".to_string(), "".to_string()));
}

#[test]
fn position_keeps_non_ascii_digits() {
    assert_eq!(position_texts("٣,٤"), ("٣".to_string(), "٤".to_string()));
}

#[test]
fn bullet_needs_three_parts() {
    match bullet_fields("1,2.5,-3") {
        BulletText::Fields(x, y, d) => {
            assert_eq!((x.as_str(), y.as_str(), d.as_str()), ("1", "2.5", "-3"));
        }
        other => panic!("{:?}", other),
    }
    assert!(matches!(bullet_fields("1,2"), BulletText::Malformed));
    assert!(matches!(bullet_fields("1,2,3,4"), BulletText::Malformed));
}

#[test]
fn record_fields_in_order() {
    let r = parse_record("3:ann: 10,20 : 1,2,3 :hello");
    assert_eq!(r.id, Some(3));
    assert_eq!(r.name, "ann");
    assert_eq!(r.position, Some(("10".to_string(), "20".to_string())));
    assert!(matches!(r.bullet, BulletText::Fields(ref x, ref y, ref d) if x == "1" && y == "2" && d == "3"));
    assert_eq!(r.message, "hello");
    assert!(!r.corrupt);
}

#[test]
fn short_record_takes_defaults() {
    let r = parse_record("user");
    assert_eq!(r.id, None);
    assert_eq!(r.name, "[Unknown User]");
    assert_eq!(r.position, None);
    assert!(matches!(r.bullet, BulletText::Absent));
    assert_eq!(r.message, "");
    assert!(!r.corrupt);
}

#[test]
fn record_with_extra_fields_is_corrupt() {
    let r = parse_record("1:a:1,2:1,2,3:m:extra");
    assert!(r.corrupt);
    assert_eq!(r.message, "m");
}

#[test]
fn roster_skips_empty_and_barred_entries() {
    let records = parse_roster("#7,0;;|gone;2:bo;");
    assert_eq!(records.len(), 2);
    assert_eq!(records[0].id, None);
    assert_eq!(records[0].name, "[Unknown User]");
    assert_eq!(records[0].position, None);
    assert_eq!(records[1].id, Some(2));
    assert_eq!(records[1].name, "bo");
}

#[test]
fn position_follows_the_given_numeric_flags() {
    let v: Vec<char> = "a1,b2.-".chars().collect();
    let flags = vec![true, false, false, true, false, false, false];
    assert_eq!(position_texts_with_flags(&v, &flags), ("a".to_string(), "b.-".to_string()));
}

#[test]
fn empty_spot_markers_are_no_players() {
    assert_eq!(parse_roster("();();").len(), 0);
    assert_eq!(parse_roster("();1:ann;();").len(), 1);
    // Only the exact marker is skipped.
    assert_eq!(parse_roster("( );").len(), 1);
}
