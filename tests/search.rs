use domain_search::error::Error;
use domain_search::ranking::{finish_search, interleave, rank_candidates, sort_hits, RankedResult};
use domain_search::search::{
    candidate_limit, default_limit, exact_key, extract_domain_result, match_count, parse_query,
    plan_search, tokens_of_lowered, BulkQuery, BulkSearchRequest, DomainResult, SearchQuery,
    StoredFields,
};

fn words(ws: &[&str]) -> Vec<String> {
    ws.iter().map(|w| w.to_string()).collect()
}

fn candidate(domain: &str, tokens: &[&str]) -> DomainResult {
    let (label, tld) = domain.rsplit_once('.').unwrap();
    DomainResult {
        domain: domain.to_string(),
        label: label.to_string(),
        tld: tld.to_string(),
        length: label.len() as u64,
        has_hyphen: label.contains('-'),
        tokens: words(tokens),
    }
}

fn names(page: &domain_search::ranking::SearchPage) -> Vec<String> {
    page.results.iter().map(|r| r.domain.domain.clone()).collect()
}

#[test]
fn ranking_middle_night() {
    let cands = vec![
        candidate("middleofnight.com", &["middle", "of", "night"]),
        candidate("night.com", &["night"]),
        candidate("middle-night.com", &["middle", "night"]),
    ];
    let query = words(&["middle", "night"]);
    assert_eq!(match_count(&query, &cands[0].tokens), 2);
    assert_eq!(match_count(&query, &cands[1].tokens), 1);
    assert_eq!(match_count(&query, &cands[2].tokens), 2);
    let page = rank_candidates(&cands, &query, &None, 1, 2);
    assert_eq!(names(&page), vec!["middle-night.com", "middleofnight.com"]);
    assert_eq!(page.total_candidates, 3);
    assert_eq!(page.results[0].match_count, 2);
    assert_eq!(page.results[0].rank, 2);
    assert!(!page.cached);
}

#[test]
fn ranking_through_a_plan() {
    let params = SearchQuery {
        q: "Middle  NIGHT".to_string(),
        tld: None,
        limit: 2,
        min_match: None,
    };
    let plan = plan_search(&params).unwrap();
    assert_eq!(plan.tokens, vec!["middle", "night"]);
    assert_eq!(plan.min_match, 1);
    assert_eq!(plan.candidate_limit, 100);
    let cands = vec![
        candidate("middleofnight.com", &["middle", "of", "night"]),
        candidate("night.com", &["night"]),
        candidate("middle-night.com", &["middle", "night"]),
    ];
    let page = finish_search(&plan, &cands);
    assert_eq!(names(&page), vec!["middle-night.com", "middleofnight.com"]);
}

#[test]
fn empty_query_is_a_bad_request() {
    let params = SearchQuery { q: "   ".to_string(), tld: None, limit: 50, min_match: None };
    match plan_search(&params) {
        Err(Error::BadRequest(m)) => assert_eq!(m, "Query cannot be empty"),
        _ => panic!("expected a bad request"),
    }
    assert!(matches!(tokens_of_lowered(""), Err(Error::BadRequest(_))));
}

#[test]
fn bulk_of_101_queries_is_a_bad_request() {
    let q = || BulkQuery { q: "shop".to_string(), tld: None, min_match: None };
    let request = BulkSearchRequest { queries: (0..101).map(|_| q()).collect(), limit: 50 };
    assert!(matches!(request.check_size(), Err(Error::BadRequest(_))));
    let request = BulkSearchRequest { queries: (0..100).map(|_| q()).collect(), limit: 50 };
    assert!(request.check_size().is_ok());
    let s = request.queries[0].to_search_query(7);
    assert_eq!(s.q, "shop");
    assert_eq!(s.limit, 7);
}

#[test]
fn query_is_lowercased_and_split() {
    assert_eq!(parse_query("Hello\tWORLD  ").unwrap(), vec!["hello", "world"]);
    assert_eq!(tokens_of_lowered(" a  b ").unwrap(), vec!["a", "b"]);
    assert_eq!(default_limit(), 50);
}

#[test]
fn candidate_limits_follow_the_table() {
    assert_eq!(candidate_limit(1, false, 10), 200);
    assert_eq!(candidate_limit(1, false, 100), 1000);
    assert_eq!(candidate_limit(1, true, 100), 2000);
    assert_eq!(candidate_limit(1, true, 1000), 3000);
    assert_eq!(candidate_limit(3, false, 10), 500);
    assert_eq!(candidate_limit(3, false, 50), 1000);
    assert_eq!(candidate_limit(2, true, 50), 2500);
    assert_eq!(candidate_limit(2, true, 100), 3000);
}

#[test]
fn match_count_counts_distinct_words() {
    let q = words(&["shop", "shop", "online"]);
    assert_eq!(match_count(&q, &words(&["shop", "now"])), 1);
    assert_eq!(match_count(&q, &words(&["online", "shop"])), 2);
    assert_eq!(match_count(&q, &words(&[])), 0);
}

#[test]
fn min_match_and_tld_filter() {
    let cands = vec![
        candidate("shopnow.com", &["shop", "now"]),
        candidate("shoponline.net", &["shop", "online"]),
        candidate("online.com", &["online"]),
    ];
    let q = words(&["shop", "online"]);
    let page = rank_candidates(&cands, &q, &None, 2, 10);
    assert_eq!(names(&page), vec!["shoponline.net"]);
    assert!(page.results.iter().all(|r| r.match_count >= 2));
    let page = rank_candidates(&cands, &q, &Some("com".to_string()), 1, 10);
    assert_eq!(names(&page), vec!["online.com", "shopnow.com"]);
    assert_eq!(page.total_candidates, 2);
}

#[test]
fn shorter_label_wins_on_equal_matches() {
    let cands = vec![
        candidate("bestshopping.com", &["best", "shopping"]),
        candidate("shop.com", &["shop"]),
        candidate("shopnow.com", &["shop", "now"]),
    ];
    let q = words(&["shop"]);
    let page = rank_candidates(&cands, &q, &None, 1, 10);
    assert_eq!(names(&page), vec!["shop.com", "shopnow.com"]);
}

#[test]
fn more_matches_beat_shorter_labels() {
    let cands = vec![
        candidate("a.com", &["shop"]),
        candidate("shoponlinenow.com", &["shop", "online", "now"]),
    ];
    let q = words(&["shop", "online"]);
    let page = rank_candidates(&cands, &q, &None, 1, 10);
    assert_eq!(names(&page), vec!["shoponlinenow.com", "a.com"]);
}

#[test]
fn early_stop_after_twice_limit_perfect_matches() {
    let cands = vec![
        candidate("shopa.com", &["shop"]),
        candidate("shopb.com", &["shop"]),
        candidate("shop.com", &["shop"]),
    ];
    let q = words(&["shop"]);
    let page = rank_candidates(&cands, &q, &None, 1, 1);
    assert_eq!(page.total_candidates, 2);
    assert_eq!(names(&page), vec!["shopa.com"]);
}

fn hit(index: usize, hyphen: bool) -> RankedResult {
    RankedResult { index, match_count: 1, length: 5, has_hyphen: hyphen }
}

#[test]
fn interleave_alternates_and_fills() {
    let h: Vec<RankedResult> = (0..3).map(|i| hit(i, true)).collect();
    let n: Vec<RankedResult> = (10..13).map(|i| hit(i, false)).collect();
    let page = interleave(&h, &n, 5);
    let idx: Vec<usize> = page.iter().map(|x| x.index).collect();
    assert_eq!(idx, vec![0, 10, 1, 11, 2]);
    let page = interleave(&h[..1].to_vec(), &n, 4);
    let idx: Vec<usize> = page.iter().map(|x| x.index).collect();
    assert_eq!(idx, vec![0, 10, 11, 12]);
    assert!(interleave(&h, &n, 0).is_empty());
}

#[test]
fn sort_orders_by_matches_length_then_rank() {
    let v = vec![
        RankedResult { index: 0, match_count: 1, length: 3, has_hyphen: false },
        RankedResult { index: 1, match_count: 2, length: 9, has_hyphen: false },
        RankedResult { index: 2, match_count: 2, length: 4, has_hyphen: false },
        RankedResult { index: 3, match_count: 2, length: 4, has_hyphen: false },
    ];
    let idx: Vec<usize> = sort_hits(&v).iter().map(|x| x.index).collect();
    assert_eq!(idx, vec![2, 3, 1, 0]);
}

#[test]
fn same_search_twice_gives_same_page() {
    let cands = vec![
        candidate("middleofnight.com", &["middle", "of", "night"]),
        candidate("night.com", &["night"]),
        candidate("middle-night.com", &["middle", "night"]),
    ];
    let q = words(&["night"]);
    let a = rank_candidates(&cands, &q, &None, 1, 3);
    let b = rank_candidates(&cands, &q, &None, 1, 3);
    assert_eq!(names(&a), names(&b));
}

#[test]
fn cached_mark_keeps_the_page() {
    let cands = vec![candidate("night.com", &["night"])];
    let q = words(&["night"]);
    let page = rank_candidates(&cands, &q, &None, 1, 3);
    let before = names(&page);
    let total = page.total_candidates;
    let cached = page.mark_cached();
    assert!(cached.cached);
    assert_eq!(names(&cached), before);
    assert_eq!(cached.total_candidates, total);
}

#[test]
fn stored_fields_are_read_back() {
    let fields = StoredFields {
        domain_exact: Some("middle-night.co.uk".to_string()),
        label: Some("middle-night.co".to_string()),
        len: Some(15),
        has_hyphen: Some(1),
        tokens: Some("middle  night".to_string()),
    };
    let r = extract_domain_result(&fields);
    assert_eq!(r.domain, "middle-night.co.uk");
    assert_eq!(r.tld, "uk");
    assert_eq!(r.length, 15);
    assert!(r.has_hyphen);
    assert_eq!(r.tokens, vec!["middle", "night"]);
    let empty = StoredFields { domain_exact: None, label: None, len: None, has_hyphen: Some(0), tokens: None };
    let r = extract_domain_result(&empty);
    assert_eq!(r.domain, "");
    assert_eq!(r.length, 0);
    assert!(!r.has_hyphen);
    assert!(r.tokens.is_empty());
}

#[test]
fn exact_key_normalises_or_rejects() {
    assert_eq!(exact_key("Example.COM.").unwrap(), "example.com");
    assert!(matches!(exact_key("nodot"), Err(Error::BadRequest(_))));
}

#[test]
fn error_reasons_are_fixed() {
    match exact_key("nodot") {
        Err(Error::BadRequest(m)) => assert_eq!(m, "Invalid domain: Domain must have at least one dot: nodot"),
        _ => panic!("expected a bad request"),
    }
    let q = || BulkQuery { q: "shop".to_string(), tld: None, min_match: None };
    let request = BulkSearchRequest { queries: (0..101).map(|_| q()).collect(), limit: 50 };
    match request.check_size() {
        Err(Error::BadRequest(m)) => assert_eq!(m, "Maximum 100 queries per bulk request"),
        _ => panic!("expected a bad request"),
    }
    match parse_query("  ") {
        Err(Error::BadRequest(m)) => assert_eq!(m, "Query cannot be empty"),
        _ => panic!("expected a bad request"),
    }
}

#[test]
fn page_alternates_when_both_parts_are_full() {
    let cands = vec![
        candidate("a-b.com", &["shop"]),
        candidate("c-d.com", &["shop"]),
        candidate("ab.com", &["shop"]),
        candidate("cd.com", &["shop"]),
    ];
    let q = words(&["shop"]);
    let page = rank_candidates(&cands, &q, &None, 1, 3);
    let flags: Vec<bool> = page.results.iter().map(|r| r.domain.has_hyphen).collect();
    assert_eq!(flags, vec![true, false, true]);
}
