use book_mirror::message::classify;
use book_mirror::message::Classified;
use book_mirror::message::FieldValue;
use book_mirror::message::WireField;
use book_mirror::message::WireMessage;
use book_mirror::order_book::WireEntry;

fn entry(fields: &[&str]) -> WireEntry {
    let mut v: Vec<Option<String>> = Vec::new();
    for f in fields {
        v.push(Some((*f).to_string()));
    }
    WireEntry { fields: v }
}

fn field(key: &str, value: FieldValue) -> WireField {
    WireField { key: key.to_string(), value }
}

#[test]
fn test_classify_heartbeat() {
    let m = WireMessage { indexed: false, fields: Vec::new() };
    assert!(matches!(classify(m), Classified::Heartbeat));
}

#[test]
fn test_classify_snapshot() {
    let m = WireMessage {
        indexed: true,
        fields: vec![
            field(
                "as",
                FieldValue::Entries(vec![entry(&["5711.80000", "8.13439401", "t"])]),
            ),
            field(
                "bs",
                FieldValue::Entries(vec![entry(&["5711.70000", "0.00749800", "t"])]),
            ),
        ],
    };
    match classify(m) {
        Classified::Snapshot { asks, bids } => {
            let asks = asks.expect("ask side present");
            let bids = bids.expect("bid side present");
            assert_eq!(asks.len(), 1);
            assert_eq!(bids.len(), 1);
            assert_eq!(asks[0].fields[0], Some("5711.80000".to_string()));
        }
        other => panic!("classified as {:?}", other),
    }
}

#[test]
fn test_classify_update_with_checksum() {
    let m = WireMessage {
        indexed: true,
        fields: vec![
            field(
                "b",
                FieldValue::Entries(vec![entry(&["5709.20000", "3.00000000", "t"])]),
            ),
            field("c", FieldValue::Text("2470128591".to_string())),
        ],
    };
    match classify(m) {
        Classified::Update { asks, bids, checksum } => {
            assert_eq!(asks.len(), 0);
            assert_eq!(bids.len(), 1);
            assert_eq!(checksum, Some("2470128591".to_string()));
        }
        other => panic!("classified as {:?}", other),
    }
}

#[test]
fn test_classify_update_beats_snapshot_keys() {
    // A payload carrying a diff key is an update even beside snapshot
    // keys.
    let m = WireMessage {
        indexed: true,
        fields: vec![
            field("as", FieldValue::Entries(Vec::new())),
            field("bs", FieldValue::Entries(Vec::new())),
            field("a", FieldValue::Entries(Vec::new())),
        ],
    };
    assert!(matches!(classify(m), Classified::Update { .. }));
}

#[test]
fn test_classify_unknown() {
    let m = WireMessage {
        indexed: true,
        fields: vec![field("event", FieldValue::Text("status".to_string()))],
    };
    assert!(matches!(classify(m), Classified::Unknown));

    // One snapshot key alone is not a snapshot.
    let m2 = WireMessage {
        indexed: true,
        fields: vec![field("as", FieldValue::Entries(Vec::new()))],
    };
    assert!(matches!(classify(m2), Classified::Unknown));
}

#[test]
fn test_classify_update_side_with_non_array_value() {
    // A diff key whose value is not an entry array classifies as an
    // update with that side empty.
    let m = WireMessage {
        indexed: true,
        fields: vec![field("a", FieldValue::Text("oops".to_string()))],
    };
    match classify(m) {
        Classified::Update { asks, bids, checksum } => {
            assert_eq!(asks.len(), 0);
            assert_eq!(bids.len(), 0);
            assert_eq!(checksum, None);
        }
        other => panic!("classified as {:?}", other),
    }
}

#[test]
fn test_classify_snapshot_side_not_array_left_out() {
    let m = WireMessage {
        indexed: true,
        fields: vec![
            field("as", FieldValue::Text("oops".to_string())),
            field("bs", FieldValue::Entries(Vec::new())),
        ],
    };
    match classify(m) {
        Classified::Snapshot { asks, bids } => {
            assert!(asks.is_none());
            assert!(bids.is_some());
        }
        other => panic!("classified as {:?}", other),
    }
}
