use canalyzer::canbus::Message;
use canalyzer::diff::{diff_marks, Cell, Tier, Value};

fn value(data: &str, ts: i64) -> Value {
    Value { data: data.to_string(), ts }
}

fn flags(marks: &[(char, bool)]) -> Vec<bool> {
    marks.iter().map(|m| m.1).collect()
}

#[test]
fn one_changed_position() {
    let marks = diff_marks("AC12", Some("AB12"));
    assert_eq!(marks, vec![('A', false), ('C', true), ('1', false), ('2', false)]);
}

#[test]
fn first_payload_is_unchanged_throughout() {
    let marks = diff_marks("AB12", None);
    assert_eq!(marks, vec![('A', false), ('B', false), ('1', false), ('2', false)]);
}

#[test]
fn positions_past_the_earlier_payload_are_changed() {
    assert_eq!(flags(&diff_marks("ABCD", Some("AB"))), vec![false, false, true, true]);
    assert_eq!(flags(&diff_marks("AB", Some(""))), vec![true, true]);
}

#[test]
fn a_shorter_payload_has_only_its_own_positions() {
    assert_eq!(diff_marks("AB", Some("ABCD")), vec![('A', false), ('B', false)]);
    assert_eq!(diff_marks("", Some("ABCD")), vec![]);
    assert_eq!(diff_marks("", None), vec![]);
}

#[test]
fn equal_payloads_have_no_change() {
    assert_eq!(flags(&diff_marks("3F00", Some("3F00"))), vec![false; 4]);
}

#[test]
fn comparison_is_by_code_point() {
    let marks = diff_marks("\u{e9}1x", Some("e1x"));
    assert_eq!(marks, vec![('\u{e9}', true), ('1', false), ('x', false)]);
    let marks = diff_marks("a\u{1f600}b", Some("a\u{1f600}c"));
    assert_eq!(marks, vec![('a', false), ('\u{1f600}', false), ('b', true)]);
}

#[test]
fn tiers_change_at_full_seconds() {
    let v = value("00", 10_000);
    assert_eq!(v.tier(10_000), Tier::Fresh);
    assert_eq!(v.tier(10_999), Tier::Fresh);
    assert_eq!(v.tier(11_000), Tier::Recent);
    assert_eq!(v.tier(11_999), Tier::Recent);
    assert_eq!(v.tier(12_000), Tier::Fading);
    assert_eq!(v.tier(12_999), Tier::Fading);
    assert_eq!(v.tier(13_000), Tier::Quiet);
    assert_eq!(v.tier(i64::MAX), Tier::Quiet);
}

#[test]
fn a_stamp_in_the_future_is_quiet() {
    let v = value("00", 10_000);
    assert_eq!(v.tier(9_999), Tier::Quiet);
    assert_eq!(v.tier(i64::MIN), Tier::Quiet);
    assert_eq!(value("00", i64::MAX).tier(i64::MIN), Tier::Quiet);
    assert_eq!(value("00", i64::MIN).tier(i64::MAX), Tier::Quiet);
    assert_eq!(value("00", i64::MIN).tier(i64::MIN + 999), Tier::Fresh);
}

#[test]
fn cell_holds_marks_and_tier() {
    let cur = value("AC12", 5_000);
    let prev = value("AB12", 4_000);
    let cell = cur.diff(Some(&prev), 6_500);
    assert_eq!(
        cell,
        Cell {
            marks: vec![('A', false), ('C', true), ('1', false), ('2', false)],
            tier: Tier::Recent,
        }
    );
    let cell = cur.diff(None, 5_000);
    assert_eq!(cell.tier, Tier::Fresh);
    assert_eq!(flags(&cell.marks), vec![false; 4]);
}

#[test]
fn tier_does_not_depend_on_the_earlier_payload() {
    let cur = value("AC12", 5_000);
    let old = value("AB12", 0);
    assert_eq!(cur.diff(Some(&old), 5_100).tier, Tier::Fresh);
    assert_eq!(cur.diff(Some(&old), 9_000).tier, Tier::Quiet);
}

#[test]
fn value_from_message_keeps_payload_and_time() {
    let v = Value::from(Message::new("101".to_string(), "3F".to_string(), 77));
    assert_eq!(v, value("3F", 77));
    let w: Value = Message::new("101".to_string(), "".to_string(), -1).into();
    assert_eq!(w, value("", -1));
}
