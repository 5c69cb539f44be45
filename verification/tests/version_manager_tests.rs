use verseconf::engine::version_manager::{compute_diff, compute_hash, VersionManager};

fn record(m: &mut VersionManager, path: &str, content: &str, time: u64, description: Option<&str>) -> u64 {
    let r = m.prepare_version(path, content.to_string(), time, description.map(|d| d.to_string()));
    let id = r.info.version_id;
    m.store_version(r);
    id
}

#[test]
fn test_version_manager_basic() {
    let mut manager = VersionManager::new();
    let version1 = record(&mut manager, "test.vcf", "name = \"test1\"", 10, Some("Initial version"));
    assert_eq!(version1, 1);
    assert_eq!(manager.get_version_count("test.vcf"), 1);
    let v = manager.get_version("test.vcf", 1).unwrap();
    assert_eq!(v.content, "name = \"test1\"");
    assert_eq!(v.info.description.as_deref(), Some("Initial version"));
    assert_eq!(v.info.timestamp, 10);
    assert!(v.ast.is_some());
}

#[test]
fn test_version_history() {
    let mut manager = VersionManager::new();
    record(&mut manager, "a.vcf", "v = 1", 1, None);
    record(&mut manager, "b.vcf", "v = 1", 2, None);
    record(&mut manager, "a.vcf", "v = 2", 3, None);
    let history = manager.get_version_history("a.vcf");
    assert_eq!(history.len(), 2);
    assert_eq!(history[0].version_id, 1);
    assert_eq!(history[1].version_id, 3);
    assert_eq!(manager.get_version_count("b.vcf"), 1);
    assert_eq!(manager.get_version_count("c.vcf"), 0);
}

#[test]
fn test_get_latest_version() {
    let mut manager = VersionManager::new();
    assert!(manager.get_latest_version("a.vcf").is_none());
    record(&mut manager, "a.vcf", "v = 1", 1, None);
    record(&mut manager, "a.vcf", "v = 2", 2, None);
    let latest = manager.get_latest_version("a.vcf").unwrap();
    assert_eq!(latest.info.version_id, 2);
    assert_eq!(latest.content, "v = 2");
}

#[test]
fn test_compare_versions() {
    let mut manager = VersionManager::new();
    record(&mut manager, "a.vcf", "name = \"a\"\nport = 1", 1, None);
    record(&mut manager, "a.vcf", "name = \"a\"\nport = 2\nextra = 3", 2, None);
    let diff = manager.compare_versions("a.vcf", 1, 2).unwrap();
    assert_eq!(diff.diff, "- port = 1\n+ port = 2\n+ extra = 3\n");
    assert_eq!(diff.describe(), "Version 1 -> 2:\n- port = 1\n+ port = 2\n+ extra = 3\n");
    assert_eq!(manager.compare_versions("a.vcf", 1, 1).unwrap().diff, "No differences");
    assert_eq!(manager.compare_versions("a.vcf", 9, 1).unwrap_err(), "Version 9 not found");
    assert_eq!(manager.compare_versions("a.vcf", 1, 7).unwrap_err(), "Version 7 not found");
}

#[test]
fn hashes_are_djb2_over_the_bytes() {
    assert_eq!(compute_hash(b""), 5381);
    assert_eq!(compute_hash(b"a"), 5381 * 33 + 97);
    let mut manager = VersionManager::new();
    let r = manager.prepare_version("x", "a".to_string(), 0, None);
    assert_eq!(r.info.content_hash, 177670);
    assert_eq!(manager.get_version_count("x"), 0);
}

#[test]
fn line_diffs_show_both_sides_of_each_changed_line() {
    assert_eq!(compute_diff("a\nb", "a\nc"), "- b\n+ c\n");
    assert_eq!(compute_diff("a\nb\nc", "a"), "- b\n- c\n");
    assert_eq!(compute_diff("", ""), "No differences");
}

#[test]
fn storage_is_remembered() {
    let manager = VersionManager::new().with_storage_dir("versions".to_string());
    assert_eq!(manager.storage_dir(), Some("versions"));
    assert!(VersionManager::default().storage_dir().is_none());
}
