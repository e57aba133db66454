use canalyzer::canbus::Message;
use canalyzer::store::{Store, TrackedMessage};
use serde_json::{Number, Value as Json};

fn msg(id: &str, data: &str, ts: i64) -> Message {
    Message::new(id.to_string(), data.to_string(), ts)
}

fn to_json(t: &TrackedMessage) -> Json {
    let mut entry = serde_json::Map::new();
    entry.insert("id".to_string(), Json::String(t.id.clone()));
    let mut values = Vec::new();
    for v in &t.values {
        let mut value = serde_json::Map::new();
        value.insert("data".to_string(), Json::String(v.data.clone()));
        value.insert("ts".to_string(), Json::Number(Number::from(v.ts)));
        values.push(Json::Object(value));
    }
    entry.insert("values".to_string(), Json::Array(values));
    entry.insert("ignored".to_string(), Json::Bool(t.ignored));
    entry.insert("pinned".to_string(), Json::Bool(t.pinned));
    Json::Object(entry)
}

fn export(store: &Store) -> String {
    let shown: Vec<Json> =
        store.ordered().into_iter().map(|i| to_json(store.get(i).unwrap())).collect();
    serde_json::to_string(&Json::Array(shown)).unwrap()
}

fn read_back(text: &str) -> Vec<TrackedMessage> {
    let json: Json = serde_json::from_str(text).unwrap();
    let mut out = Vec::new();
    for entry in json.as_array().unwrap() {
        let id = entry["id"].as_str().unwrap();
        let mut built: Option<TrackedMessage> = None;
        for v in entry["values"].as_array().unwrap() {
            let m = msg(id, v["data"].as_str().unwrap(), v["ts"].as_i64().unwrap());
            built = Some(match built {
                None => TrackedMessage::from(m),
                Some(mut t) => {
                    t.merge(m);
                    t
                }
            });
        }
        let mut t = built.unwrap();
        t.ignored = entry["ignored"].as_bool().unwrap();
        t.pinned = entry["pinned"].as_bool().unwrap();
        out.push(t);
    }
    out
}

#[test]
fn snapshot_round_trip_through_json() {
    let mut store = Store::new();
    store.merge(msg("101", "3F", 1_700_000_000_123));
    store.merge(msg("2A0", "00FF", 1_700_000_000_456));
    store.merge(msg("101", "40", 1_700_000_000_789));
    store.merge(msg("h\u{e9}", "\"q\"", -5));
    store.toggle_pinned(2);
    store.toggle_ignored(1);
    let text = export(&store);
    let back = read_back(&text);
    let shown: Vec<TrackedMessage> =
        store.ordered().into_iter().map(|i| store.get(i).unwrap().clone()).collect();
    assert_eq!(back, shown);
    assert_eq!(back.len(), 3);
    let ids: Vec<&str> = back.iter().map(|t| t.id.as_str()).collect();
    assert_eq!(ids, vec!["h\u{e9}", "2A0", "101"]);
    assert_eq!(back[2].values.len(), 2);
    assert_eq!(back[2].values[0].ts, 1_700_000_000_123);
    assert_eq!(back[2].values[1].ts, 1_700_000_000_789);
    assert_eq!(back[0].values[0].data, "\"q\"");
    assert_eq!(back[0].values[0].ts, -5);
    assert!(back[0].pinned && !back[0].ignored);
    assert!(!back[1].pinned && !back[1].ignored);
    assert!(back[2].ignored && !back[2].pinned);
}

#[test]
fn snapshot_text_holds_millisecond_stamps() {
    let mut store = Store::new();
    store.merge(msg("101", "3F", 1_700_000_000_123));
    assert_eq!(
        export(&store),
        "[{\"id\":\"101\",\"ignored\":false,\"pinned\":false,\
         \"values\":[{\"data\":\"3F\",\"ts\":1700000000123}]}]"
    );
}

#[test]
fn snapshot_of_an_empty_store_is_an_empty_list() {
    assert_eq!(export(&Store::new()), "[]");
    assert!(read_back("[]").is_empty());
}
