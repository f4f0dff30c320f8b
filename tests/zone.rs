use domain_search::zone::{batch_stream, download_url, is_domains_entry, Batcher, DomainStream, ZonefileType};

#[test]
fn test_zonefile_type_endpoint() {
    assert_eq!(ZonefileType::Full.endpoint(), "full");
    assert_eq!(ZonefileType::DailyUpdate.endpoint(), "dailyupdate");
    assert_eq!(ZonefileType::DailyRemove.endpoint(), "dailyremove");
}

#[test]
fn test_from_bytes() {
    let data = b"example.com\ntest.net\n\n# comment\ninvalid\n".to_vec();
    let domains = DomainStream::from_bytes(data).unwrap();

    assert_eq!(domains.len(), 2);
    assert_eq!(domains[0], "example.com");
    assert_eq!(domains[1], "test.net");
}

#[test]
fn test_batch_stream() {
    let data = b"a.com\nb.com\nc.com\nd.com\ne.com\n".to_vec();
    let domains = DomainStream::from_bytes(data).unwrap();
    let batches = batch_stream(&domains, 2);

    assert_eq!(batches.len(), 3);
    assert_eq!(batches[0], vec!["a.com", "b.com"]);
    assert_eq!(batches[1], vec!["c.com", "d.com"]);
    assert_eq!(batches[2], vec!["e.com"]);
}

#[test]
fn lines_are_trimmed_and_checked() {
    assert_eq!(DomainStream::accept_line("  shop.com \r").unwrap(), "shop.com");
    assert!(DomainStream::accept_line("#x.com").is_none());
    assert!(DomainStream::accept_line("   ").is_none());
    let long = format!("{}.com", "a".repeat(250));
    assert!(DomainStream::accept_line(&long).is_none());
    let edge = format!("{}.com", "a".repeat(249));
    assert!(DomainStream::accept_line(&edge).is_some());
    let lines: Vec<String> = vec!["a.com".into(), "# c".into(), "b".into(), "c.net".into()];
    assert_eq!(DomainStream::count_lines(&lines), 2);
}

#[test]
fn batcher_hands_out_full_batches() {
    let mut b = Batcher::new(2);
    assert!(b.push("a.com".to_string()).is_none());
    assert_eq!(b.push("b.com".to_string()).unwrap(), vec!["a.com", "b.com"]);
    assert!(b.push("c.com".to_string()).is_none());
    assert_eq!(b.finish().unwrap(), vec!["c.com"]);
    assert!(Batcher::new(3).finish().is_none());
}

#[test]
fn download_address() {
    assert_eq!(
        download_url("https://api.example", "tok", ZonefileType::DailyRemove),
        "https://api.example/tok/get/dailyremove/list/zip"
    );
}

#[test]
fn archive_entry_names() {
    assert!(is_domains_entry("domains.txt"));
    assert!(is_domains_entry("x/y/domains.txt"));
    assert!(!is_domains_entry("mydomains.txt"));
    assert!(!is_domains_entry("domains.txt.bak"));
}

#[test]
fn bytes_that_are_not_utf8_are_an_io_error() {
    let r = DomainStream::from_bytes(vec![b'a', 0xff, b'.', b'c']);
    assert!(matches!(r, Err(domain_search::error::Error::Io(_))));
    let text = "x.com\r\n# c\ny.org";
    assert_eq!(DomainStream::from_text(text), vec!["x.com", "y.org"]);
}
