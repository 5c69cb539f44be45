use verseconf::engine::perf_cache::{FileMetadata, ParseCache, ParseCacheStats};
use verseconf::parse;

fn meta(path: &str, time: u64, content: &str) -> FileMetadata {
    FileMetadata::from_content(path, time, content.as_bytes())
}

#[test]
fn test_file_metadata() {
    let metadata = meta("test.vcf", 5, "name = \"test\"");
    assert!(metadata.size > 0);
    assert!(metadata.hash > 0);
    assert_eq!(metadata.size, 13);
    assert!(metadata.is_modified_since(4));
    assert!(!metadata.is_modified_since(5));
}

#[test]
fn test_parse_cache_basic() {
    let mut cache = ParseCache::new(10);
    let text = "name = \"test\"";
    cache.insert("a.vcf", meta("a.vcf", 1, text), parse(text).unwrap());
    let now = meta("a.vcf", 1, text);
    assert!(cache.get("a.vcf", Some(&now)).is_some());
    assert!(cache.get("b.vcf", None).is_none());
    assert_eq!(cache.stats(), ParseCacheStats { entry_count: 1, max_size: 10, hits: 1, misses: 1 });
}

#[test]
fn test_cache_misses_when_file_content_changes() {
    let mut cache = ParseCache::new(10);
    cache.insert("a.vcf", meta("a.vcf", 1, "a = 1"), parse("a = 1").unwrap());
    let changed = meta("a.vcf", 2, "a = 2");
    assert!(cache.get("a.vcf", Some(&changed)).is_none());
    assert!(cache.get("a.vcf", None).is_none());
    assert_eq!(cache.stats().misses, 2);
    assert_eq!(cache.stats().hits, 0);
}

#[test]
fn test_parse_cache_invalidation() {
    let mut cache = ParseCache::new(10);
    cache.insert("a.vcf", meta("a.vcf", 1, "a = 1"), parse("a = 1").unwrap());
    cache.invalidate("a.vcf");
    assert_eq!(cache.stats().entry_count, 0);
    assert!(cache.get("a.vcf", Some(&meta("a.vcf", 1, "a = 1"))).is_none());
}

#[test]
fn test_cache_eviction() {
    let mut cache = ParseCache::new(2);
    cache.insert("new.vcf", meta("new.vcf", 9, "a = 1"), parse("a = 1").unwrap());
    cache.insert("old.vcf", meta("old.vcf", 3, "b = 1"), parse("b = 1").unwrap());
    cache.insert("third.vcf", meta("third.vcf", 5, "c = 1"), parse("c = 1").unwrap());
    assert_eq!(cache.stats().entry_count, 2);
    assert!(cache.get("old.vcf", Some(&meta("old.vcf", 3, "b = 1"))).is_none());
    assert!(cache.get("new.vcf", Some(&meta("new.vcf", 9, "a = 1"))).is_some());
    assert!(cache.get("third.vcf", Some(&meta("third.vcf", 5, "c = 1"))).is_some());
}

#[test]
fn test_cache_counts_hits_and_misses() {
    let mut cache = ParseCache::new(4);
    cache.insert("a.vcf", meta("a.vcf", 1, "a = 1"), parse("a = 1").unwrap());
    let now = meta("a.vcf", 1, "a = 1");
    cache.get("a.vcf", Some(&now));
    cache.get("a.vcf", Some(&now));
    cache.get("z.vcf", Some(&now));
    assert_eq!(cache.stats(), ParseCacheStats { entry_count: 1, max_size: 4, hits: 2, misses: 1 });
    cache.clear();
    assert_eq!(cache.stats(), ParseCacheStats { entry_count: 0, max_size: 4, hits: 0, misses: 0 });
}
