use domain_search::domain::Domain;
use domain_search::ingest::{add_ops, attach_tokens, commit_due, prepare_batch, removal_ops, replace_ops, WriteOp};
use domain_search::schema::{document_fields, join_with_spaces, FIELD_DOMAIN_EXACT, FIELD_TOKENS};

fn strings(ws: &[&str]) -> Vec<String> {
    ws.iter().map(|w| w.to_string()).collect()
}

fn key(op: &WriteOp) -> Option<String> {
    match op {
        WriteOp::Delete(k) => Some(k.clone()),
        WriteOp::Add(d) => Some(d.domain_exact.clone()),
        WriteOp::Commit => None,
    }
}

#[test]
fn test_to_document() {
    let domain = Domain::new("middleofnight.com");
    let mut normalized = domain.normalize().unwrap();
    normalized.tokens = vec!["middle".to_string(), "of".to_string(), "night".to_string()];

    let doc = document_fields(&normalized);

    assert_eq!(doc.domain_exact, "middleofnight.com");
    assert_eq!(doc.tokens, "middle of night");
    assert_eq!(doc.tld, "com");
    assert_eq!(doc.len, 13);
    assert_eq!(doc.has_hyphen, 0);
    assert_eq!(doc.label, "middleofnight");
    assert_eq!(FIELD_DOMAIN_EXACT, "domain_exact");
    assert_eq!(FIELD_TOKENS, "tokens");
}

#[test]
fn join_uses_single_spaces() {
    assert_eq!(join_with_spaces(&strings(&[])), "");
    assert_eq!(join_with_spaces(&strings(&["one"])), "one");
    assert_eq!(join_with_spaces(&strings(&["a", "b", "c"])), "a b c");
}

#[test]
fn prepare_batch_counts_and_keeps() {
    let raws = strings(&["Foo.com", "nodot", "123456.com", "bar-baz.net", "aaaaa.org"]);
    let b = prepare_batch(&raws);
    assert_eq!(b.rejected, 1);
    assert_eq!(b.filtered, 2);
    let kept: Vec<String> = b.records.iter().map(|r| r.domain_exact.clone()).collect();
    assert_eq!(kept, vec!["foo.com", "bar-baz.net"]);
    assert_eq!(b.labels, vec!["foo", "bar-baz"]);
}

#[test]
fn segments_pair_by_position() {
    let raws = strings(&["middleofnight.com", "nightowl.com", "shop.com"]);
    let b = prepare_batch(&raws);
    let segments = vec![
        ("middleofnight".to_string(), strings(&["middle", "of", "night"])),
        ("nightowl".to_string(), strings(&["night", "owl"])),
    ];
    let records = attach_tokens(b.records, &segments);
    assert_eq!(records[0].tokens, vec!["middle", "of", "night"]);
    assert_eq!(records[1].tokens, vec!["night", "owl"]);
    assert!(records[2].tokens.is_empty());
    assert_eq!(records[2].domain_exact, "shop.com");
}

#[test]
fn daily_delete_then_add_same_domain() {
    let removals = removal_ops(&strings(&["foo.com"]));
    let b = prepare_batch(&strings(&["foo.com"]));
    let additions = replace_ops(&b.records);
    assert_eq!(removals.len(), 1);
    assert!(matches!(removals[0], WriteOp::Delete(_)));
    assert_eq!(key(&removals[0]).unwrap(), "foo.com");
    assert_eq!(additions.len(), 2);
    assert!(matches!(additions[0], WriteOp::Delete(_)));
    assert!(matches!(additions[1], WriteOp::Add(_)));
    assert_eq!(key(&additions[0]).unwrap(), "foo.com");
    assert_eq!(key(&additions[1]).unwrap(), "foo.com");
}

#[test]
fn removals_skip_lines_that_do_not_normalise() {
    let ops = removal_ops(&strings(&["A.com.", "nodot", "b.net"]));
    let keys: Vec<String> = ops.iter().map(|o| key(o).unwrap()).collect();
    assert_eq!(keys, vec!["a.com", "b.net"]);
}

#[test]
fn full_build_only_adds() {
    let b = prepare_batch(&strings(&["a.com", "b.com"]));
    let ops = add_ops(&b.records);
    assert_eq!(ops.len(), 2);
    assert!(ops.iter().all(|o| matches!(o, WriteOp::Add(_))));
}

#[test]
fn commit_interval() {
    assert!(commit_due(1_000_000, 0, 1_000_000));
    assert!(!commit_due(999_999, 0, 1_000_000));
    assert!(commit_due(2_500_000, 1_500_000, 1_000_000));
}

#[test]
fn test_schema_creation() {
    let schema = domain_search::schema::DomainSchema::new();

    assert!(schema.schema.get_field("domain_exact").is_ok());
    assert!(schema.schema.get_field("tokens").is_ok());
    assert!(schema.schema.get_field("tld").is_ok());
    assert!(schema.schema.get_field("len").is_ok());
    assert!(schema.schema.get_field("has_hyphen").is_ok());
    assert!(schema.schema.get_field("label").is_ok());
}

#[test]
fn tally_commits_at_the_interval() {
    let mut t = domain_search::ingest::IngestTally::new(10);
    assert!(!t.record_batch(1, 2, 6));
    assert_eq!((t.indexed, t.rejected, t.filtered, t.last_commit), (6, 1, 2, 0));
    assert!(t.record_batch(0, 0, 4));
    assert_eq!(t.last_commit, 10);
    assert!(!t.record_batch(0, 0, 9));
    assert!(t.record_batch(0, 0, u64::MAX));
    assert_eq!(t.indexed, u64::MAX);
}
