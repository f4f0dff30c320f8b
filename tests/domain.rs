use domain_search::domain::{canonical_form, should_filter_domain, Domain, NormalizedDomain};
use domain_search::error::Error;

#[test]
fn test_normalize_simple_domain() {
    let domain = Domain::new("Example.COM");
    let normalized = domain.normalize().unwrap();

    assert_eq!(normalized.domain_exact, "example.com");
    assert_eq!(normalized.label, "example");
    assert_eq!(normalized.tld, "com");
    assert_eq!(normalized.len, 7);
    assert!(!normalized.has_hyphen);
}

#[test]
fn test_normalize_with_trailing_dot() {
    let domain = Domain::new("example.com.");
    let normalized = domain.normalize().unwrap();

    assert_eq!(normalized.domain_exact, "example.com");
}

#[test]
fn test_normalize_hyphenated() {
    let domain = Domain::new("my-domain.net");
    let normalized = domain.normalize().unwrap();

    assert_eq!(normalized.label, "my-domain");
    assert!(normalized.has_hyphen);
}

#[test]
fn test_normalize_unicode_domain() {
    let domain = Domain::new("münchen.de");
    let normalized = domain.normalize().unwrap();

    assert_eq!(normalized.domain_exact, "xn--mnchen-3ya.de");
}

#[test]
fn test_generate_id_deterministic() {
    let domain = Domain::new("example.com");
    let normalized = domain.normalize().unwrap();

    let id1 = normalized.generate_id();
    let id2 = normalized.generate_id();

    assert_eq!(id1, id2);
}

#[test]
fn test_invalid_domain_no_dot() {
    let domain = Domain::new("nodot");
    assert!(domain.normalize().is_err());
}

#[test]
fn test_should_filter_numeric() {
    assert!(should_filter_domain("123456"));
    assert!(!should_filter_domain("12345"));
    assert!(!should_filter_domain("abc123"));
}

#[test]
fn test_should_filter_repetitive() {
    assert!(should_filter_domain("aaaaa"));
    assert!(should_filter_domain("xxxxxxx"));
    assert!(!should_filter_domain("ababa"));
}

#[test]
fn test_should_filter_numeric_hyphen() {
    assert!(should_filter_domain("1-2-3"));
    assert!(!should_filter_domain("a-1-2"));
}

#[test]
fn normalize_full_record_with_trailing_dot() {
    let n = Domain::new("Example.COM.").normalize().unwrap();
    assert_eq!(n.domain_exact, "example.com");
    assert_eq!(n.label, "example");
    assert_eq!(n.tld, "com");
    assert_eq!(n.len, 7);
    assert!(!n.has_hyphen);
    assert!(n.tokens.is_empty());
}

#[test]
fn normalize_unicode_keeps_tld() {
    let n = Domain::new("münchen.de").normalize().unwrap();
    assert_eq!(n.domain_exact, "xn--mnchen-3ya.de");
    assert_eq!(n.label, "xn--mnchen-3ya");
    assert_eq!(n.tld, "de");
    assert_eq!(n.len, 14);
    assert!(n.has_hyphen);
}

#[test]
fn normalize_trims_white_space() {
    let n = Domain::new("  Shop.Example.ORG \t").normalize().unwrap();
    assert_eq!(n.domain_exact, "shop.example.org");
    assert_eq!(n.label, "shop.example");
    assert_eq!(n.tld, "org");
}

#[test]
fn normalize_rejects_empty_label() {
    let r = Domain::new(".com").normalize();
    assert!(matches!(r, Err(Error::InvalidDomain(_))));
}

#[test]
fn normalize_rejects_long_label() {
    let long = format!("{}.com", "a".repeat(64));
    assert!(matches!(Domain::new(&long).normalize(), Err(Error::InvalidDomain(_))));
    let edge = format!("{}.com", "a".repeat(63));
    let n = Domain::new(&edge).normalize().unwrap();
    assert_eq!(n.len, 63);
}

#[test]
fn normalize_is_stable_on_its_own_output() {
    for raw in ["Example.COM.", "münchen.de", "my-domain.net", " a.b.c "] {
        let first = Domain::new(raw).normalize().unwrap();
        let again = Domain::new(&first.domain_exact).normalize().unwrap();
        assert_eq!(again.domain_exact, first.domain_exact);
        assert_eq!(again.label, first.label);
        assert_eq!(again.tld, first.tld);
        assert_eq!(again.len, first.len);
        assert_eq!(again.has_hyphen, first.has_hyphen);
    }
}

#[test]
fn generate_id_reads_first_six_digest_bytes() {
    let n = Domain::new("example.com").normalize().unwrap();
    assert_eq!(n.generate_id(), 99758087617314);
}

#[test]
fn with_tokens_sets_words() {
    let n = Domain::new("middleofnight.com").normalize().unwrap();
    let n = n.with_tokens(vec!["middle".to_string(), "of".to_string(), "night".to_string()]);
    assert_eq!(n.tokens, vec!["middle", "of", "night"]);
    assert_eq!(n.label, "middleofnight");
}

#[test]
fn filter_examples() {
    assert!(should_filter_domain("123456"));
    assert!(!should_filter_domain("12345"));
    assert!(should_filter_domain("aaaaa"));
    assert!(!should_filter_domain("ababa"));
    assert!(should_filter_domain("1-2-3"));
    assert!(!should_filter_domain("aaaa"));
    assert!(!should_filter_domain(""));
    assert!(!should_filter_domain("1"));
    assert!(should_filter_domain("12-34"));
    assert!(!should_filter_domain("12-3a"));
}

#[test]
fn filter_depends_on_label_alone() {
    let a = String::from("777777");
    let b = "7".repeat(6);
    assert_eq!(should_filter_domain(&a), should_filter_domain(&b));
}

#[test]
fn canonical_forms_split_at_the_last_dot() {
    assert_eq!(canonical_form(" Shop.Example.COM. "), "shop.example.com");
    let n = NormalizedDomain::from_canonical("a.b-c.org".to_string(), "raw").unwrap();
    assert_eq!(n.label, "a.b-c");
    assert_eq!(n.tld, "org");
    assert_eq!(n.len, 5);
    assert!(n.has_hyphen);
    match NormalizedDomain::from_canonical("nodot".to_string(), "NoDot") {
        Err(Error::InvalidDomain(m)) => assert_eq!(m, "Domain must have at least one dot: NoDot"),
        _ => panic!("expected an invalid domain"),
    }
}

#[test]
fn default_schema_has_all_fields() {
    let schema = domain_search::schema::DomainSchema::default();
    assert!(schema.schema.get_field("label").is_ok());
    assert!(schema.schema.get_field("missing").is_err());
}

#[test]
fn double_trailing_dot_keeps_one_dot() {
    let first = Domain::new("a.com..").normalize().unwrap();
    assert_eq!(first.domain_exact, "a.com.");
    assert_eq!(first.tld, "");
    let again = Domain::new(&first.domain_exact).normalize().unwrap();
    assert_eq!(again.domain_exact, "a.com");
}
