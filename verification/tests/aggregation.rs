use canalyzer::canbus::{parse_line, Message};
use canalyzer::diff::{Cell, Tier, Value};
use canalyzer::store::{Row, Store, TrackedMessage};

fn msg(id: &str, data: &str, ts: i64) -> Message {
    Message::new(id.to_string(), data.to_string(), ts)
}

fn value(data: &str, ts: i64) -> Value {
    Value { data: data.to_string(), ts }
}

fn ids_in_display_order(store: &Store) -> Vec<String> {
    store.ordered().iter().map(|&i| store.get(i).unwrap().id.clone()).collect()
}

#[test]
fn first_record_creates_the_message() {
    let t = TrackedMessage::from(msg("101", "3F", 5));
    assert_eq!(t.id, "101");
    assert_eq!(t.values, vec![value("3F", 5)]);
    assert!(!t.ignored);
    assert!(!t.pinned);
}

#[test]
fn merge_appends_to_the_history() {
    let mut t = TrackedMessage::from(msg("101", "3F", 5));
    t.merge(msg("101", "40", 6));
    t.merge(msg("101", "41", 7));
    assert_eq!(t.values, vec![value("3F", 5), value("40", 6), value("41", 7)]);
    assert_eq!(t.id, "101");
    assert_eq!(t.last_seen(), 7);
}

#[test]
fn lines_for_one_id_give_a_history_in_arrival_order() {
    let mut store = Store::new();
    let n: usize = 25;
    for k in 0..n {
        let line = format!("ID: 2A0 len {:04X}", k);
        store.merge(parse_line(&line, k as i64).unwrap());
    }
    assert_eq!(store.len(), 1);
    let t = store.get(0).unwrap();
    assert_eq!(t.id, "2A0");
    assert_eq!(t.values.len(), n);
    for k in 0..n {
        assert_eq!(t.values[k], value(&format!("{:04X}", k), k as i64));
    }
}

#[test]
fn one_message_for_each_identifier() {
    let mut store = Store::new();
    assert_eq!(store.len(), 0);
    assert!(store.get(0).is_none());
    store.merge(msg("a", "1", 1));
    store.merge(msg("b", "2", 2));
    store.merge(msg("a", "3", 3));
    store.merge(msg("c", "4", 4));
    store.merge(msg("b", "5", 5));
    assert_eq!(store.len(), 3);
    assert_eq!(store.get(0).unwrap().values, vec![value("1", 1), value("3", 3)]);
    assert_eq!(store.get(1).unwrap().values, vec![value("2", 2), value("5", 5)]);
    assert_eq!(store.get(2).unwrap().values, vec![value("4", 4)]);
    assert_eq!(store.find(&"a".to_string()), Some(0));
    assert_eq!(store.find(&"b".to_string()), Some(1));
    assert_eq!(store.find(&"c".to_string()), Some(2));
    assert_eq!(store.find(&"d".to_string()), None);
    assert!(store.get(3).is_none());
}

#[test]
fn most_recent_message_comes_first() {
    let mut store = Store::new();
    store.merge(msg("a", "1", 10));
    store.merge(msg("b", "1", 30));
    store.merge(msg("c", "1", 20));
    assert_eq!(ids_in_display_order(&store), vec!["b", "c", "a"]);
    store.merge(msg("a", "2", 40));
    assert_eq!(ids_in_display_order(&store), vec!["a", "b", "c"]);
    assert_eq!(store.ordered(), vec![0, 1, 2]);
}

#[test]
fn equal_times_fall_back_to_the_identifier() {
    let mut store = Store::new();
    store.merge(msg("7", "1", 10));
    store.merge(msg("10", "1", 10));
    store.merge(msg("101", "1", 10));
    store.merge(msg("1", "1", 10));
    assert_eq!(ids_in_display_order(&store), vec!["1", "10", "101", "7"]);
}

#[test]
fn ignored_messages_sink_and_pinned_ones_rise() {
    let mut store = Store::new();
    store.merge(msg("a", "1", 10));
    store.merge(msg("b", "1", 20));
    store.merge(msg("c", "1", 30));
    store.merge(msg("d", "1", 40));
    assert_eq!(ids_in_display_order(&store), vec!["d", "c", "b", "a"]);
    // pin "a", shown last
    store.toggle_pinned(3);
    assert_eq!(ids_in_display_order(&store), vec!["a", "d", "c", "b"]);
    // ignore "d", shown second
    store.toggle_ignored(1);
    assert_eq!(ids_in_display_order(&store), vec!["a", "c", "b", "d"]);
    // ignore the pinned "a": it sinks below all that are not ignored
    store.toggle_ignored(0);
    assert_eq!(ids_in_display_order(&store), vec!["c", "b", "a", "d"]);
    assert!(store.get(0).unwrap().ignored && store.get(0).unwrap().pinned);
    // among the ignored, the pinned one stays above
    store.toggle_pinned(0);
    assert_eq!(ids_in_display_order(&store), vec!["c", "b", "a", "d"]);
    // take the ignore flag of "a" away again
    store.toggle_ignored(2);
    assert_eq!(ids_in_display_order(&store), vec!["c", "a", "b", "d"]);
}

#[test]
fn ignored_never_precedes_not_ignored() {
    for mask in 0u32..(1 << 6) {
        let mut store = Store::new();
        store.merge(msg("x", "1", 10));
        store.merge(msg("y", "1", 20));
        store.merge(msg("z", "1", 20));
        for bit in 0..3 {
            if mask & (1 << bit) != 0 {
                let at = store.ordered().iter().position(|&i| i == bit).unwrap();
                store.toggle_ignored(at);
            }
            if mask & (1 << (bit + 3)) != 0 {
                let at = store.ordered().iter().position(|&i| i == bit).unwrap();
                store.toggle_pinned(at);
            }
        }
        let shown: Vec<&TrackedMessage> =
            store.ordered().iter().map(|&i| store.get(i).unwrap()).collect();
        for i in 0..shown.len() {
            for j in (i + 1)..shown.len() {
                assert!(!(shown[i].ignored && !shown[j].ignored));
                if !shown[i].ignored && !shown[j].ignored {
                    assert!(!(shown[j].pinned && !shown[i].pinned));
                }
                assert!(shown[i].comes_before(shown[j]));
                assert!(!shown[j].comes_before(shown[i]));
            }
        }
    }
}

#[test]
fn toggle_without_a_row_changes_nothing() {
    let mut store = Store::new();
    store.toggle_ignored(0);
    store.toggle_pinned(0);
    assert_eq!(store.len(), 0);
    store.merge(msg("a", "1", 10));
    store.toggle_ignored(1);
    store.toggle_pinned(usize::MAX);
    let t = store.get(0).unwrap();
    assert!(!t.ignored && !t.pinned);
}

#[test]
fn toggles_turn_flags_back_and_forth() {
    let mut store = Store::new();
    store.merge(msg("a", "1", 10));
    store.toggle_ignored(0);
    assert!(store.get(0).unwrap().ignored);
    assert!(!store.get(0).unwrap().pinned);
    store.toggle_ignored(0);
    assert!(!store.get(0).unwrap().ignored);
    store.toggle_pinned(0);
    assert!(store.get(0).unwrap().pinned);
    store.toggle_pinned(0);
    assert!(!store.get(0).unwrap().pinned);
    assert_eq!(store.get(0).unwrap().values, vec![value("1", 10)]);
}

#[test]
fn ordering_leaves_the_store_as_it_is() {
    let mut store = Store::new();
    store.merge(msg("a", "1", 10));
    store.merge(msg("b", "1", 20));
    let _ = store.ordered();
    let _ = store.rows(3, 25);
    assert_eq!(store.get(0).unwrap().id, "a");
    assert_eq!(store.get(1).unwrap().id, "b");
}

#[test]
fn row_shows_the_newest_payloads_first() {
    let mut t = TrackedMessage::from(msg("101", "AB12", 1_000));
    t.merge(msg("101", "AC12", 2_000));
    t.merge(msg("101", "AC13", 3_500));
    let row = t.as_row(5, 4_000);
    let expected = Row {
        id: "101".to_string(),
        cells: vec![
            Cell {
                marks: vec![('A', false), ('C', false), ('1', false), ('3', true)],
                tier: Tier::Fresh,
            },
            Cell {
                marks: vec![('A', false), ('C', true), ('1', false), ('2', false)],
                tier: Tier::Fading,
            },
            Cell {
                marks: vec![('A', false), ('B', false), ('1', false), ('2', false)],
                tier: Tier::Quiet,
            },
        ],
        struck: false,
    };
    assert_eq!(row, expected);
}

#[test]
fn row_is_cut_to_the_columns() {
    let mut t = TrackedMessage::from(msg("101", "00", 1));
    t.merge(msg("101", "01", 2));
    t.merge(msg("101", "11", 3));
    let row = t.as_row(2, 3);
    assert_eq!(row.cells.len(), 2);
    assert_eq!(row.cells[0].marks, vec![('1', true), ('1', false)]);
    assert_eq!(row.cells[1].marks, vec![('0', false), ('1', true)]);
    assert_eq!(t.as_row(0, 3).cells.len(), 0);
    assert_eq!(t.as_row(3, 3).cells.len(), 3);
    assert_eq!(t.as_row(usize::MAX, 3).cells.len(), 3);
}

#[test]
fn row_of_an_ignored_message_is_struck() {
    let mut store = Store::new();
    store.merge(msg("a", "1", 10));
    store.merge(msg("b", "2", 4_000));
    store.toggle_ignored(0);
    let rows = store.rows(4, 4_000);
    assert_eq!(rows.len(), 2);
    assert_eq!(rows[0].id, "a");
    assert!(!rows[0].struck);
    assert_eq!(rows[1].id, "b");
    assert!(rows[1].struck);
    assert_eq!(rows[1].cells, vec![Cell { marks: vec![('2', false)], tier: Tier::Fresh }]);
    assert_eq!(rows[0].cells, vec![Cell { marks: vec![('1', false)], tier: Tier::Quiet }]);
}

#[test]
fn exported_state_holds_every_history_and_flag() {
    let mut store = Store::new();
    store.merge(msg("a", "1", 1_700_000_000_123));
    store.merge(msg("b", "2", 1_700_000_000_456));
    store.merge(msg("a", "3", 1_700_000_000_789));
    store.toggle_pinned(1);
    let mut seen: Vec<(String, Vec<(String, i64)>, bool, bool)> = Vec::new();
    for i in 0..store.len() {
        let t = store.get(i).unwrap();
        let history = t.values.iter().map(|v| (v.data.clone(), v.ts)).collect();
        seen.push((t.id.clone(), history, t.ignored, t.pinned));
    }
    assert_eq!(
        seen,
        vec![
            (
                "a".to_string(),
                vec![
                    ("1".to_string(), 1_700_000_000_123),
                    ("3".to_string(), 1_700_000_000_789)
                ],
                false,
                false
            ),
            ("b".to_string(), vec![("2".to_string(), 1_700_000_000_456)], false, true),
        ]
    );
}
