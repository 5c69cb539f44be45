use verseconf::ast::{
    Key, KeyValue, MetadataItem, MetadataList, ScalarValue, StandardMetadata, TableBlock, TableEntry, TimeUnit,
    Value,
};
use verseconf::span::Span;

#[test]
fn test_span_unknown() {
    let span = Span::unknown();
    assert!(span.is_unknown());
}

#[test]
fn test_span_merge() {
    let s1 = Span::from_bytes(0, 10);
    let s2 = Span::from_bytes(5, 20);
    let merged = s1.merge(&s2);
    assert_eq!(merged.start, 0);
    assert_eq!(merged.end, 20);
}

#[test]
fn test_key_display() {
    let key = Key::BareKey("database".to_string());
    assert_eq!(key.as_str(), "database");
}

#[test]
fn test_time_unit_to_seconds() {
    assert_eq!(TimeUnit::Minutes.to_seconds(), 60);
    assert_eq!(TimeUnit::Hours.to_seconds(), 3600);
}

#[test]
fn test_table_block_get() {
    let table = TableBlock {
        name: None,
        entries: vec![TableEntry::KeyValue(KeyValue {
            key: Key::BareKey("name".to_string()),
            value: Value::Scalar(ScalarValue::String("test".to_string())),
            metadata: None,
            comment: None,
            span: Span::unknown(),
        })],
        span: Span::unknown(),
    };
    assert!(table.get("name").is_some());
    assert!(table.get("missing").is_none());
}

#[test]
fn test_metadata_list_has_sensitive() {
    let list = MetadataList {
        items: vec![MetadataItem::Standard(StandardMetadata::Sensitive)],
        span: Span::unknown(),
    };
    assert!(list.has_sensitive());
}

#[test]
fn test_metadata_list_get_range() {
    let list = MetadataList {
        items: vec![MetadataItem::Standard(StandardMetadata::Range {
            min: "1024.0".to_string(),
            max: "65535.0".to_string(),
        })],
        span: Span::unknown(),
    };
    let (min, max) = list.get_range().unwrap();
    assert_eq!((min.parse::<f64>().unwrap(), max.parse::<f64>().unwrap()), (1024.0, 65535.0));
}

#[test]
fn merged_span_keeps_the_first_position() {
    let a = Span::at(10, 12, 3, 4);
    let b = Span::at(2, 30, 1, 1);
    let m = a.merge(&b);
    assert_eq!((m.start, m.end, m.line, m.column), (2, 30, 3, 4));
}

#[test]
fn quoted_key_text_has_no_quotes() {
    assert_eq!(Key::QuotedKey("a b".to_string()).as_str(), "a b");
}

#[test]
fn unit_lengths_in_seconds() {
    assert_eq!(TimeUnit::Seconds.to_seconds(), 1);
    assert_eq!(TimeUnit::Days.to_seconds(), 86400);
}
