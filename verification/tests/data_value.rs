use redish::clock::{Span, Timestamp};
use redish::data_value::DataValue;
use redish::error::TreeError;

#[test]
fn record_round_trips_through_its_encoding() {
    let now = Timestamp::new(1_700_000_000, 123_456_789);
    let mut v = DataValue::new_at(b"payload".to_vec(), Some(Span::from_millis(1500)), now);
    v.transaction_id = Some(77);
    let bytes = v.encode();
    assert_eq!(bytes.len(), 43 + 7);
    let back = DataValue::decode(&bytes).unwrap();
    assert_eq!(back.data, b"payload".to_vec());
    assert_eq!(back.created_at, now);
    assert_eq!(back.expires_at, Some(Timestamp::new(1_700_000_001, 623_456_789)));
    assert_eq!(back.transaction_id, Some(77));
    assert!(!back.is_tombstone);
    assert_eq!(back.encode(), bytes);
}

#[test]
fn truncated_record_is_a_serialization_error() {
    let v = DataValue::new_at(b"abc".to_vec(), None, Timestamp::new(5, 6));
    let bytes = v.encode();
    let r = DataValue::decode(&bytes[..bytes.len() - 1]);
    assert!(matches!(r, Err(TreeError::Serialization { .. })));
    let r = DataValue::decode(&bytes[..10]);
    assert!(matches!(r, Err(TreeError::Serialization { .. })));
}
