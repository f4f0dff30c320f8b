use domain_search::cache::{full_key, make_key, CacheStats};
use domain_search::config::{Config, EnvValues};
use domain_search::error::Error;
use domain_search::segment::{basic_auth, segment_url, Engine, SegmenterSettings, STANDARD};
use domain_search::text::parse_decimal;

fn env() -> EnvValues {
    EnvValues {
        word_splitter_url: None,
        word_splitter_user: Some("u".to_string()),
        word_splitter_pass: Some("p".to_string()),
        zonefile_token: Some("t".to_string()),
        zonefile_api_url: None,
        index_path: None,
        redis_url: None,
        api_port: None,
        index_heap_size: None,
        word_batch_size: None,
        index_batch_size: None,
    }
}

#[test]
fn test_config_defaults() {
    let config = Config::test();
    assert_eq!(config.api_port, 3000);
    assert_eq!(config.word_batch_size, 10);
}

#[test]
fn test_base64_encode() {
    let encoded = STANDARD.encode("user:pass".as_bytes());
    assert_eq!(encoded, "dXNlcjpwYXNz");
}

#[test]
fn base64_padding() {
    assert_eq!(STANDARD.encode(b""), "");
    assert_eq!(STANDARD.encode(b"f"), "Zg==");
    assert_eq!(STANDARD.encode(b"fo"), "Zm8=");
    assert_eq!(STANDARD.encode(b"foo"), "Zm9v");
    assert_eq!(STANDARD.encode(&[0xfb, 0xff]), "+/8=");
}

#[test]
fn auth_header_and_address() {
    assert_eq!(basic_auth("user", "pass"), "Basic dXNlcjpwYXNz");
    assert_eq!(segment_url("http://w"), "http://w/segment/bulk");
}

#[test]
fn segmenter_defaults_and_chunks() {
    let s = SegmenterSettings::new(None, None);
    assert_eq!(s.max_batch_size, 50000);
    assert_eq!(s.parallel_requests, 4);
    let s = SegmenterSettings::new(Some(2), Some(1));
    let labels: Vec<String> = vec!["a".into(), "b".into(), "c".into()];
    let chunks = s.request_chunks(&labels);
    assert_eq!(chunks, vec![vec!["a".to_string(), "b".to_string()], vec!["c".to_string()]]);
}

#[test]
fn cache_keys() {
    assert_eq!(make_key("middle night", None, 50, None), "search:middle night|any|50|1");
    assert_eq!(make_key("shop", Some("com"), 0, Some(12)), "search:shop|com|0|12");
    assert_eq!(full_key("search:x"), "ds:search:x");
}

#[test]
fn cache_stats_report() {
    let info = "# Stats\r\nkeyspace_hits:42\r\nkeyspace_misses:7\r\nother:1\r\n";
    let s = CacheStats::parse(info);
    assert_eq!(s.hits, 42);
    assert_eq!(s.misses, 7);
    let s = CacheStats::parse("keyspace_hits:x\n");
    assert_eq!(s.hits, 0);
    assert_eq!(s.misses, 0);
}

#[test]
fn config_from_environment() {
    let c = Config::from_values(env()).unwrap();
    assert_eq!(c.api_port, 3000);
    assert_eq!(c.word_batch_size, 500);
    assert_eq!(c.index_batch_size, 1_000_000);
    assert_eq!(c.index_heap_size, 4 * 1024 * 1024 * 1024);
    assert_eq!(c.index_path, "./data/index");
    let mut e = env();
    e.api_port = Some("8080".to_string());
    e.word_batch_size = Some("oops".to_string());
    let c = Config::from_values(e).unwrap();
    assert_eq!(c.api_port, 8080);
    assert_eq!(c.word_batch_size, 500);
    let mut e = env();
    e.word_splitter_pass = None;
    match Config::from_values(e) {
        Err(Error::Config(m)) => assert_eq!(m, "WORD_SPLITTER_PASS not set"),
        _ => panic!("expected a configuration error"),
    }
}

#[test]
fn decimal_parsing() {
    assert_eq!(parse_decimal("65535", 65535), Some(65535));
    assert_eq!(parse_decimal("65536", 65535), None);
    assert_eq!(parse_decimal("+12", 100), Some(12));
    assert_eq!(parse_decimal("", 100), None);
    assert_eq!(parse_decimal("1a", 100), None);
    assert_eq!(parse_decimal("18446744073709551616", u64::MAX), None);
}
