//! The query path: parsing a query, reading stored documents back, counting
//! matched words, and shaping the page of results.

use vstd::prelude::*;

use crate::domain::{canonical, normal_form, split_rejection, Domain};
use crate::error::Error;
use crate::text::{chars_of, copy_range, find_last, push_str, string_of, last_index_of, split_words, views, words};

verus! {

/// The number of results a page holds unless the request says otherwise.
pub fn default_limit() -> (r: u32)
    ensures
        r == 50,
{
    50
}

/// A domain as read back from the index.
pub struct DomainResult {
    pub domain: String,
    pub label: String,
    pub tld: String,
    pub length: u64,
    pub has_hyphen: bool,
    pub tokens: Vec<String>,
}

/// The mathematical value of a [`DomainResult`].
pub struct DomainView {
    pub domain: Seq<char>,
    pub label: Seq<char>,
    pub tld: Seq<char>,
    pub length: u64,
    pub has_hyphen: bool,
    pub tokens: Seq<Seq<char>>,
}

impl View for DomainResult {
    type V = DomainView;

    open spec fn view(&self) -> DomainView {
        DomainView {
            domain: self.domain@,
            label: self.label@,
            tld: self.tld@,
            length: self.length,
            has_hyphen: self.has_hyphen,
            tokens: views(self.tokens@),
        }
    }
}

/// A copy of a list of strings.
pub fn copy_strings(v: &Vec<String>) -> (r: Vec<String>)
    ensures
        views(r@) == views(v@),
{
    let mut r: Vec<String> = Vec::new();
    let mut i: usize = 0;
    while i < v.len()
        invariant
            i <= v@.len(),
            views(r@) == views(v@.take(i as int)),
        decreases v@.len() - i,
    {
        r.push(v[i].clone());
        assert(views(v@.take(i + 1)) == views(v@.take(i as int)).push(v@[i as int]@));
        i += 1;
    }
    assert(v@.take(v@.len() as int) == v@);
    r
}

impl DomainResult {
    /// A copy of the result.
    pub fn duplicate(&self) -> (r: Self)
        ensures
            r@ == self@,
    {
        DomainResult {
            domain: self.domain.clone(),
            label: self.label.clone(),
            tld: self.tld.clone(),
            length: self.length,
            has_hyphen: self.has_hyphen,
            tokens: copy_strings(&self.tokens),
        }
    }
}

/// The values stored for one document, each absent where the document lacks
/// the field.
pub struct StoredFields {
    pub domain_exact: Option<String>,
    pub label: Option<String>,
    pub len: Option<u64>,
    pub has_hyphen: Option<u64>,
    pub tokens: Option<String>,
}

/// What follows the last dot of `d`, or all of `d` where it has no dot.
pub open spec fn tld_of(d: Seq<char>) -> Seq<char> {
    match last_index_of(d, '.') {
        Some(i) => d.skip(i + 1),
        None => d,
    }
}

/// The characters of a stored text, or none where it is absent.
pub open spec fn text_or_empty(t: Option<String>) -> Seq<char> {
    match t {
        Some(s) => s@,
        None => seq![],
    }
}

/// A string value, or the empty string.
fn string_or_empty(t: &Option<String>) -> (r: String)
    ensures
        r@ == text_or_empty(*t),
{
    match t {
        Some(s) => s.clone(),
        None => String::new(),
    }
}

/// Rebuilds a result from the stored fields of a document: the tld is what
/// follows the last dot of the domain, the tokens are the words of the stored
/// token text, and a missing field reads as empty, zero or false.
pub fn extract_domain_result(fields: &StoredFields) -> (r: DomainResult)
    ensures
        r@.domain == text_or_empty(fields.domain_exact),
        r@.label == text_or_empty(fields.label),
        r@.tld == tld_of(text_or_empty(fields.domain_exact)),
        r@.length == (match fields.len {
            Some(n) => n,
            None => 0,
        }),
        r@.has_hyphen == (fields.has_hyphen == Some(1u64)),
        r@.tokens == words(text_or_empty(fields.tokens)),
{
    let domain = string_or_empty(&fields.domain_exact);
    let label = string_or_empty(&fields.label);
    let d = chars_of(domain.as_str());
    let tld = match find_last(&d, '.') {
        Some(i) => {
            assert(i < d.len());
            string_of(copy_range(&d, i + 1, d.len()).as_slice())
        },
        None => domain.clone(),
    };
    let length = match fields.len {
        Some(n) => n,
        None => 0,
    };
    let has_hyphen = match fields.has_hyphen {
        Some(v) => v == 1,
        None => false,
    };
    let token_text = string_or_empty(&fields.tokens);
    let tokens = split_words(&chars_of(token_text.as_str()));
    DomainResult { domain, label, tld, length, has_hyphen, tokens }
}

/// What lower-casing makes of a text.
pub uninterp spec fn lower_of(s: Seq<char>) -> Seq<char>;

/// Relies on `str::to_lowercase`, whose result depends on the characters of
/// its input alone; an empty text stays empty.
#[verifier::external_body]
fn to_lowercase(s: &str) -> (r: String)
    ensures
        r@ == lower_of(s@),
        s@.len() == 0 ==> r@.len() == 0,
{
    s.to_lowercase()
}

/// The words of a query that is already lower-cased; an error where there
/// are none.
pub fn tokens_of_lowered(lowered: &str) -> (r: Result<Vec<String>, Error>)
    ensures
        r matches Ok(t) ==> views(t@) == words(lowered@) && t@.len() > 0,
        r is Err <==> words(lowered@).len() == 0,
        r matches Err(e) ==> e is BadRequest && e.reason() == "Query cannot be empty"@,
{
    let t = split_words(&chars_of(lowered));
    if t.len() == 0 {
        Err(Error::BadRequest(String::from_str("Query cannot be empty")))
    } else {
        Ok(t)
    }
}

/// The words of a query: lower-cased, split on white space, empty pieces
/// dropped; an error where there are none.
pub fn parse_query(q: &str) -> (r: Result<Vec<String>, Error>)
    ensures
        r matches Ok(t) ==> views(t@) == words(lower_of(q@)) && t@.len() > 0,
        r is Err <==> words(lower_of(q@)).len() == 0,
        r matches Err(e) ==> e is BadRequest && e.reason() == "Query cannot be empty"@,
{
    let lowered = to_lowercase(q);
    tokens_of_lowered(lowered.as_str())
}

/// The lower-cased form of an optional tld filter.
pub fn lower_tld(tld: &Option<String>) -> (r: Option<String>)
    ensures
        r matches Some(t) ==> tld matches Some(u) && t@ == lower_of(u@),
        r is None <==> tld is None,
{
    match tld {
        Some(t) => Some(to_lowercase(t.as_str())),
        None => None,
    }
}

/// How many candidates to retrieve: twenty per result for one word, fifty for
/// more, capped at 3000 with a tld filter and at 1000 without.
pub open spec fn candidate_limit_of(n_tokens: nat, has_tld: bool, limit: nat) -> nat {
    let base = if n_tokens == 1 {
        20 * limit
    } else {
        50 * limit
    };
    let cap: nat = if has_tld {
        3000
    } else {
        1000
    };
    if base < cap {
        base
    } else {
        cap
    }
}

/// How many candidates to retrieve for a query.
pub fn candidate_limit(n_tokens: usize, has_tld: bool, limit: u32) -> (r: usize)
    ensures
        r as nat == candidate_limit_of(n_tokens as nat, has_tld, limit as nat),
{
    let base: u64 = if n_tokens == 1 {
        20 * (limit as u64)
    } else {
        50 * (limit as u64)
    };
    let cap: u64 = if has_tld {
        3000
    } else {
        1000
    };
    if base < cap {
        base as usize
    } else {
        cap as usize
    }
}

/// The number of distinct words of `q` that `d` holds.
pub open spec fn distinct_hits(q: Seq<Seq<char>>, d: Seq<Seq<char>>) -> nat
    decreases q.len(),
{
    if q.len() == 0 {
        0
    } else {
        distinct_hits(q.drop_last(), d) + if d.contains(q.last()) && !q.drop_last().contains(
            q.last(),
        ) {
            1nat
        } else {
            0nat
        }
    }
}

/// Every word of `q` is among `d`.
pub open spec fn covers(q: Seq<Seq<char>>, d: Seq<Seq<char>>) -> bool {
    forall|i: int| 0 <= i < q.len() ==> d.contains(#[trigger] q[i])
}

/// Whether `x` is among the first `upto` strings of `v`.
fn contains_within(v: &Vec<String>, upto: usize, x: &String) -> (r: bool)
    requires
        upto <= v@.len(),
    ensures
        r == views(v@).take(upto as int).contains(x@),
{
    let mut i: usize = 0;
    while i < upto
        invariant
            i <= upto <= v@.len(),
            forall|j: int| 0 <= j < i ==> views(v@)[j] != x@,
        decreases upto - i,
    {
        if v[i] == *x {
            assert(views(v@).take(upto as int)[i as int] == x@);
            return true;
        }
        i += 1;
    }
    assert forall|j: int| 0 <= j < upto implies #[trigger] views(v@).take(upto as int)[j] != x@ by {
        assert(views(v@).take(upto as int)[j] == views(v@)[j]);
    }
    false
}

/// The number of distinct query words that a document's words hold.
pub fn match_count(query: &Vec<String>, tokens: &Vec<String>) -> (r: usize)
    ensures
        r == distinct_hits(views(query@), views(tokens@)),
        r <= query@.len(),
{
    let ghost q = views(query@);
    let ghost d = views(tokens@);
    let mut count: usize = 0;
    let mut i: usize = 0;
    while i < query.len()
        invariant
            i <= query@.len(),
            q == views(query@),
            d == views(tokens@),
            count == distinct_hits(q.take(i as int), d),
            count <= i,
        decreases query@.len() - i,
    {
        assert(q.take(i + 1).drop_last() == q.take(i as int));
        assert(views(query@).take(i as int) == q.take(i as int));
        let present = contains_within(tokens, tokens.len(), &query[i]);
        let seen = contains_within(query, i, &query[i]);
        assert(views(tokens@).take(tokens@.len() as int) == d);
        if present && !seen {
            count += 1;
        }
        i += 1;
    }
    assert(q.take(query@.len() as int) == q);
    count
}

/// Whether a document's words hold every query word.
pub fn covers_all(query: &Vec<String>, tokens: &Vec<String>) -> (r: bool)
    ensures
        r == covers(views(query@), views(tokens@)),
{
    let mut i: usize = 0;
    while i < query.len()
        invariant
            i <= query@.len(),
            forall|j: int| 0 <= j < i ==> views(tokens@).contains(#[trigger] views(query@)[j]),
        decreases query@.len() - i,
    {
        let present = contains_within(tokens, tokens.len(), &query[i]);
        assert(views(tokens@).take(tokens@.len() as int) == views(tokens@));
        if !present {
            assert(views(query@)[i as int] == query@[i as int]@);
            return false;
        }
        i += 1;
    }
    true
}


/// The parameters of a keyword search.
pub struct SearchQuery {
    /// The keywords, separated by white space.
    pub q: String,
    /// Only domains under this tld, if given.
    pub tld: Option<String>,
    /// The most results to return.
    pub limit: u32,
    /// The fewest query words a result must hold; one if not given.
    pub min_match: Option<u32>,
}

/// The parameters of an exact lookup.
pub struct ExactQuery {
    pub domain: String,
}

/// One query of a bulk search.
pub struct BulkQuery {
    pub q: String,
    pub tld: Option<String>,
    pub min_match: Option<u32>,
}

/// A bulk search: several queries sharing one page size.
pub struct BulkSearchRequest {
    pub queries: Vec<BulkQuery>,
    pub limit: u32,
}

/// The most queries that one bulk search may hold.
pub const MAX_BULK_QUERIES: usize = 100;

impl BulkQuery {
    /// The search that this query stands for with the shared page size.
    pub fn to_search_query(&self, limit: u32) -> (r: SearchQuery)
        ensures
            r.q@ == self.q@,
            tld_view(r.tld) == tld_view(self.tld),
            r.limit == limit,
            r.min_match == self.min_match,
    {
        SearchQuery {
            q: self.q.clone(),
            tld: match &self.tld {
                Some(t) => Some(t.clone()),
                None => None,
            },
            limit,
            min_match: self.min_match,
        }
    }
}

impl BulkSearchRequest {
    /// Accepts a bulk search of at most 100 queries.
    pub fn check_size(&self) -> (r: Result<(), Error>)
        ensures
            r is Ok <==> self.queries@.len() <= 100,
            r matches Err(e) ==> e is BadRequest && e.reason()
                == "Maximum 100 queries per bulk request"@,
    {
        if self.queries.len() > MAX_BULK_QUERIES {
            Err(Error::BadRequest(String::from_str("Maximum 100 queries per bulk request")))
        } else {
            Ok(())
        }
    }
}

/// What a search retrieves and how it then filters: the query words, the
/// lower-cased tld filter, the minimum number of matched words, the page
/// size and the number of candidates to retrieve.
pub struct SearchPlan {
    pub tokens: Vec<String>,
    pub tld: Option<String>,
    pub min_match: usize,
    pub limit: usize,
    pub candidate_limit: usize,
}

/// The minimum number of matched words: one unless given.
pub open spec fn min_match_of(m: Option<u32>) -> nat {
    match m {
        Some(k) => k as nat,
        None => 1,
    }
}

/// Plans a search: parses the query (an error where it has no words),
/// lower-cases the tld filter, and sizes the candidate retrieval.
pub fn plan_search(params: &SearchQuery) -> (r: Result<SearchPlan, Error>)
    ensures
        r is Err <==> words(lower_of(params.q@)).len() == 0,
        r matches Err(e) ==> e is BadRequest && e.reason() == "Query cannot be empty"@,
        r matches Ok(p) ==> {
            &&& views(p.tokens@) == words(lower_of(params.q@))
            &&& p.tld is Some <==> params.tld is Some
            &&& (p.tld matches Some(t) ==> params.tld matches Some(u) && t@ == lower_of(u@))
            &&& p.min_match as nat == min_match_of(params.min_match)
            &&& p.limit == params.limit
            &&& p.candidate_limit as nat == candidate_limit_of(
                p.tokens@.len(),
                params.tld is Some,
                params.limit as nat,
            )
        },
{
    let tokens = parse_query(params.q.as_str())?;
    let tld = lower_tld(&params.tld);
    let min_match: usize = match params.min_match {
        Some(k) => k as usize,
        None => 1,
    };
    let candidate_limit = candidate_limit(tokens.len(), tld.is_some(), params.limit);
    Ok(SearchPlan { tokens, tld, min_match, limit: params.limit as usize, candidate_limit })
}

/// The optional tld filter as characters.
pub open spec fn tld_view(tld: Option<String>) -> Option<Seq<char>> {
    match tld {
        Some(t) => Some(t@),
        None => None,
    }
}


/// The key of an exact lookup: the normal form of the requested domain; a
/// bad request where it does not normalise.
pub fn exact_key(domain: &str) -> (r: Result<String, Error>)
    ensures
        r is Err <==> normal_form(domain@) is None,
        r matches Err(e) ==> e is BadRequest && e.reason() == "Invalid domain: "@ + split_rejection(
            canonical(domain@),
            domain@,
        ),
        r matches Ok(k) ==> normal_form(domain@) matches Some(f) && k@ == f.0,
{
    match Domain::new(domain).normalize() {
        Ok(n) => Ok(n.domain_exact),
        Err(e) => {
            let mut m = String::from_str("Invalid domain: ");
            let reason = e.message();
            push_str(&mut m, reason.as_str());
            Err(Error::BadRequest(m))
        },
    }
}

} // verus!
