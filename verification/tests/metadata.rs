use mallard::model::Metadata;
use mallard::query::IndexReader;
use mallard::store::IndexWriter;

fn round_trip(allow: &[&str], hash: Option<&str>) -> mallard::query_lookup::MetadataRecord {
    let meta = Metadata {
        sha: "deadbeefcafe".to_string(),
        indexer_version: "0.1.3".to_string(),
        rule_set_hash: hash.map(str::to_string),
        built_at: "2024-01-02T03:04:05Z".to_string(),
        language_allow_list: allow.iter().map(|s| s.to_string()).collect(),
    };
    let w = IndexWriter::create(&meta);
    IndexReader::open(w.finalize()).unwrap().metadata()
}

#[test]
fn metadata_round_trips_each_field() {
    let m = round_trip(&["rust", "python", "tsx"], Some("abc123"));
    assert_eq!(m.sha.as_deref(), Some("deadbeefcafe"));
    assert_eq!(m.indexer_version.as_deref(), Some("0.1.3"));
    assert_eq!(m.rule_set_hash.as_deref(), Some("abc123"));
    assert_eq!(m.built_at.as_deref(), Some("2024-01-02T03:04:05Z"));
    assert_eq!(m.language_allow_list, vec!["rust".to_string(), "python".to_string(), "tsx".to_string()]);
    assert_eq!(m.index_format_version, 2);
}

#[test]
fn empty_allow_list_and_no_rule_hash_round_trip() {
    let m = round_trip(&[], None);
    assert!(m.rule_set_hash.is_none());
    assert!(m.language_allow_list.is_empty());
    assert_eq!(m.index_format_version, 2);
}
