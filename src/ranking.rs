//! Rescoring of retrieved candidates: the match-count filter, the split by
//! hyphenation, the ordering within each part, and the alternating page.

use vstd::prelude::*;

use crate::search::{
    covers, covers_all, distinct_hits, match_count, tld_view, DomainResult, DomainView, SearchPlan,
};
use crate::text::views;

verus! {

/// One candidate kept for ranking: its position in retrieval order (the order of
/// descending lexical score), the number of query words it matched, the
/// length of its label, and whether the label holds a hyphen.
#[derive(Clone, Copy, Debug, PartialEq, Eq, Structural)]
pub struct RankedResult {
    pub index: usize,
    pub match_count: usize,
    pub length: u64,
    pub has_hyphen: bool,
}

/// The views of a list of candidates.
pub open spec fn candidate_views(c: Seq<DomainResult>) -> Seq<DomainView> {
    c.map_values(|d: DomainResult| d@)
}

/// The candidate at `index`, kept with `m` matched words.
pub open spec fn hit_of(d: DomainView, index: nat, m: nat) -> RankedResult {
    RankedResult { index: index as usize, match_count: m as usize, length: d.length, has_hyphen: d.has_hyphen }
}

/// Whether a candidate passes the filters: at least `min_match` matched
/// words, and the tld filter, where there is one, equal to its tld.
pub open spec fn passes(d: DomainView, q: Seq<Seq<char>>, tld: Option<Seq<char>>, min_match: nat) -> bool {
    &&& distinct_hits(q, d.tokens) >= min_match
    &&& (tld matches Some(t) ==> d.tld == t)
}

/// Scanning the first `n` candidates in retrieval order: the kept hits, the
/// number of them that hold every query word, and whether the scan stopped
/// because that number reached twice the page size.
pub open spec fn gather(
    c: Seq<DomainView>,
    q: Seq<Seq<char>>,
    tld: Option<Seq<char>>,
    min_match: nat,
    limit: nat,
    n: nat,
) -> (Seq<RankedResult>, nat, bool)
    decreases n,
{
    if n == 0 {
        (seq![], 0, false)
    } else {
        let prev = gather(c, q, tld, min_match, limit, (n - 1) as nat);
        let d = c[n - 1];
        if prev.2 || !passes(d, q, tld, min_match) {
            prev
        } else {
            let p = prev.1 + if covers(q, d.tokens) {
                1nat
            } else {
                0nat
            };
            (prev.0.push(hit_of(d, (n - 1) as nat, distinct_hits(q, d.tokens))), p, p >= 2 * limit)
        }
    }
}

/// The hits kept from all candidates.
pub open spec fn gathered(
    c: Seq<DomainView>,
    q: Seq<Seq<char>>,
    tld: Option<Seq<char>>,
    min_match: nat,
    limit: nat,
) -> Seq<RankedResult> {
    gather(c, q, tld, min_match, limit, c.len()).0
}

/// A hit that describes candidate `h.index` of `c` faithfully.
pub open spec fn describes(h: RankedResult, c: Seq<DomainView>, q: Seq<Seq<char>>, min_match: nat) -> bool {
    &&& h.index < c.len()
    &&& h.match_count as nat == distinct_hits(q, c[h.index as int].tokens)
    &&& h.match_count >= min_match
    &&& h.length == c[h.index as int].length
    &&& h.has_hyphen == c[h.index as int].has_hyphen
}

/// Once the scan has stopped, later candidates change nothing.
proof fn lemma_gather_stopped(
    c: Seq<DomainView>,
    q: Seq<Seq<char>>,
    tld: Option<Seq<char>>,
    min_match: nat,
    limit: nat,
    k: nat,
    n: nat,
)
    requires
        k <= n,
        gather(c, q, tld, min_match, limit, k).2,
    ensures
        gather(c, q, tld, min_match, limit, n) == gather(c, q, tld, min_match, limit, k),
    decreases n,
{
    if n > k {
        lemma_gather_stopped(c, q, tld, min_match, limit, k, (n - 1) as nat);
    }
}

/// Every hit kept from the first `n` candidates describes its candidate,
/// which is one of those `n`.
proof fn lemma_gather_describes(
    c: Seq<DomainView>,
    q: Seq<Seq<char>>,
    tld: Option<Seq<char>>,
    min_match: nat,
    limit: nat,
    n: nat,
)
    requires
        n <= c.len(),
        c.len() <= usize::MAX,
        q.len() <= usize::MAX,
    ensures
        forall|k: int|
            0 <= k < gather(c, q, tld, min_match, limit, n).0.len() ==> describes(
                #[trigger] gather(c, q, tld, min_match, limit, n).0[k],
                c,
                q,
                min_match,
            ) && gather(c, q, tld, min_match, limit, n).0[k].index < n,
    decreases n,
{
    if n > 0 {
        lemma_gather_describes(c, q, tld, min_match, limit, (n - 1) as nat);
        lemma_distinct_hits_bound(q, c[n - 1].tokens);
        let prev = gather(c, q, tld, min_match, limit, (n - 1) as nat);
        let d = c[n - 1];
        if !prev.2 && passes(d, q, tld, min_match) {
            let h = hit_of(d, (n - 1) as nat, distinct_hits(q, d.tokens));
            assert(h.index as int == n - 1);
            assert(h.match_count as nat == distinct_hits(q, d.tokens));
            assert(describes(h, c, q, min_match));
            let g = gather(c, q, tld, min_match, limit, n).0;
            assert(g == prev.0.push(h));
            assert forall|k: int| 0 <= k < g.len() implies describes(#[trigger] g[k], c, q, min_match)
                && g[k].index < n by {
                if k < prev.0.len() {
                    assert(g[k] == prev.0[k]);
                }
            }
        }
    }
}

/// The number of distinct matched words is at most the number of query words.
pub proof fn lemma_distinct_hits_bound(q: Seq<Seq<char>>, d: Seq<Seq<char>>)
    ensures
        distinct_hits(q, d) <= q.len(),
    decreases q.len(),
{
    if q.len() > 0 {
        lemma_distinct_hits_bound(q.drop_last(), d);
    }
}

/// The hits kept from candidates, scanning in retrieval order and stopping
/// once twice `limit` of them hold every query word.
pub fn gather_hits(
    cands: &Vec<DomainResult>,
    query: &Vec<String>,
    tld: &Option<String>,
    min_match: usize,
    limit: usize,
) -> (r: Vec<RankedResult>)
    requires
        limit <= u32::MAX,
    ensures
        r@ == gathered(
            candidate_views(cands@),
            views(query@),
            match tld {
                Some(t) => Some(t@),
                None => None,
            },
            min_match as nat,
            limit as nat,
        ),
{
    let ghost c = candidate_views(cands@);
    let ghost q = views(query@);
    let ghost t = match tld {
        Some(t) => Some(t@),
        None => None,
    };
    let mut out: Vec<RankedResult> = Vec::new();
    let mut perfect: usize = 0;
    let mut i: usize = 0;
    while i < cands.len()
        invariant
            i <= cands@.len(),
            limit <= u32::MAX,
            c == candidate_views(cands@),
            q == views(query@),
            t == (match tld {
                Some(t) => Some(t@),
                None => None::<Seq<char>>,
            }),
            gather(c, q, t, min_match as nat, limit as nat, i as nat) == (
                out@,
                perfect as nat,
                false,
            ),
            perfect <= i,
        decreases cands@.len() - i,
    {
        let cand = &cands[i];
        assert(c[i as int] == cand@);
        let m = match_count(query, &cand.tokens);
        let tld_ok = match tld {
            Some(x) => cand.tld == *x,
            None => true,
        };
        if m >= min_match && tld_ok {
            let all = covers_all(query, &cand.tokens);
            if all {
                perfect += 1;
            }
            out.push(RankedResult { index: i, match_count: m, length: cand.length, has_hyphen: cand.has_hyphen });
            if perfect as u64 >= 2 * (limit as u64) {
                proof {
                    lemma_gather_stopped(c, q, t, min_match as nat, limit as nat, (i + 1) as nat, c.len());
                }
                return out;
            }
        }
        i += 1;
    }
    out
}

/// `a` comes before `b`: more matched words, then a shorter label, then an
/// earlier place in retrieval order.
pub open spec fn before(a: RankedResult, b: RankedResult) -> bool {
    ||| a.match_count > b.match_count
    ||| (a.match_count == b.match_count && a.length < b.length)
    ||| (a.match_count == b.match_count && a.length == b.length && a.index < b.index)
}

/// No hit of `s` comes before one that precedes it.
pub open spec fn is_ordered(s: Seq<RankedResult>) -> bool {
    forall|i: int, j: int| 0 <= i < j < s.len() ==> !before(#[trigger] s[j], #[trigger] s[i])
}

/// `s` with `h` placed before the first hit that it comes before.
pub open spec fn insert_ordered(s: Seq<RankedResult>, h: RankedResult) -> Seq<RankedResult>
    decreases s.len(),
{
    if s.len() == 0 {
        seq![h]
    } else if before(h, s[0]) {
        seq![h] + s
    } else {
        seq![s[0]] + insert_ordered(s.drop_first(), h)
    }
}

/// The hits of `s`, ordered by [`before`].
pub open spec fn ordered(s: Seq<RankedResult>) -> Seq<RankedResult>
    decreases s.len(),
{
    if s.len() == 0 {
        seq![]
    } else {
        insert_ordered(ordered(s.drop_last()), s.last())
    }
}

proof fn lemma_insert_at(s: Seq<RankedResult>, h: RankedResult, p: int)
    requires
        0 <= p <= s.len(),
        forall|k: int| 0 <= k < p ==> !before(h, #[trigger] s[k]),
        p < s.len() ==> before(h, s[p]),
    ensures
        insert_ordered(s, h) == s.take(p) + seq![h] + s.skip(p),
    decreases s.len(),
{
    if s.len() == 0 {
        assert(s.take(p) + seq![h] + s.skip(p) == seq![h]);
    } else if p == 0 {
        assert(s.take(0) + seq![h] + s.skip(0) == seq![h] + s);
    } else {
        let t = s.drop_first();
        assert forall|k: int| 0 <= k < p - 1 implies !before(h, #[trigger] t[k]) by {
            assert(t[k] == s[k + 1]);
        }
        lemma_insert_at(t, h, p - 1);
        assert(s.take(p) + seq![h] + s.skip(p) == seq![s[0]] + (t.take(p - 1) + seq![h] + t.skip(
            p - 1,
        )));
    }
}

proof fn lemma_insert_facts(s: Seq<RankedResult>, h: RankedResult)
    ensures
        insert_ordered(s, h).len() == s.len() + 1,
        insert_ordered(s, h).to_multiset() == s.to_multiset().insert(h),
        is_ordered(s) ==> is_ordered(insert_ordered(s, h)),
    decreases s.len(),
{
    broadcast use vstd::seq_lib::group_to_multiset_ensures, vstd::seq_lib::lemma_multiset_commutative;

    if s.len() == 0 {
        assert(seq![h] == Seq::<RankedResult>::empty().push(h));
    } else if before(h, s[0]) {
        assert((seq![h] + s).to_multiset() == s.to_multiset().insert(h)) by {
            vstd::seq_lib::lemma_multiset_commutative(seq![h], s);
            assert(seq![h] == Seq::<RankedResult>::empty().push(h));
        }
        if is_ordered(s) {
            let r = seq![h] + s;
            assert forall|i: int, j: int| 0 <= i < j < r.len() implies !before(
                #[trigger] r[j],
                #[trigger] r[i],
            ) by {
                if i > 0 {
                    assert(r[i] == s[i - 1] && r[j] == s[j - 1]);
                } else {
                    assert(r[j] == s[j - 1]);
                    if j > 1 {
                        assert(!before(s[j - 1], s[0]));
                    }
                }
            }
        }
    } else {
        let t = s.drop_first();
        lemma_insert_facts(t, h);
        let r = seq![s[0]] + insert_ordered(t, h);
        assert(s == seq![s[0]] + t);
        assert(r.to_multiset() == s.to_multiset().insert(h)) by {
            vstd::seq_lib::lemma_multiset_commutative(seq![s[0]], insert_ordered(t, h));
            vstd::seq_lib::lemma_multiset_commutative(seq![s[0]], t);
        }
        if is_ordered(s) {
            assert forall|i: int, j: int| 0 <= i < j < t.len() implies !before(
                #[trigger] t[j],
                #[trigger] t[i],
            ) by {
                assert(t[i] == s[i + 1] && t[j] == s[j + 1]);
            }
            let it = insert_ordered(t, h);
            assert forall|j: int| 0 <= j < it.len() implies !before(#[trigger] it[j], s[0]) by {
                assert(it.to_multiset().count(it[j]) > 0);
                assert(t.to_multiset().insert(h).count(it[j]) > 0);
                if it[j] != h {
                    assert(t.to_multiset().count(it[j]) > 0);
                    assert(t.contains(it[j]));
                    let k = choose|k: int| 0 <= k < t.len() && t[k] == it[j];
                    assert(t[k] == s[k + 1]);
                }
            }
            assert forall|i: int, j: int| 0 <= i < j < r.len() implies !before(
                #[trigger] r[j],
                #[trigger] r[i],
            ) by {
                if i == 0 {
                    assert(r[j] == it[j - 1]);
                } else {
                    assert(r[i] == it[i - 1] && r[j] == it[j - 1]);
                }
            }
        }
    }
}

/// The ordered arrangement is ordered, and holds the same hits.
pub proof fn lemma_ordered_facts(s: Seq<RankedResult>)
    ensures
        is_ordered(ordered(s)),
        ordered(s).len() == s.len(),
        ordered(s).to_multiset() == s.to_multiset(),
    decreases s.len(),
{
    broadcast use vstd::seq_lib::group_to_multiset_ensures;

    if s.len() > 0 {
        lemma_ordered_facts(s.drop_last());
        lemma_insert_facts(ordered(s.drop_last()), s.last());
        assert(s == s.drop_last().push(s.last()));
    }
}

/// The hits of `v`, ordered by [`before`].
pub fn sort_hits(v: &Vec<RankedResult>) -> (r: Vec<RankedResult>)
    ensures
        r@ == ordered(v@),
{
    let mut out: Vec<RankedResult> = Vec::new();
    let mut i: usize = 0;
    while i < v.len()
        invariant
            i <= v@.len(),
            out@ == ordered(v@.take(i as int)),
        decreases v@.len() - i,
    {
        let h = v[i];
        proof {
            lemma_ordered_facts(v@.take(i as int));
        }
        let mut p: usize = 0;
        while p < out.len() && !(h.match_count > out[p].match_count || (h.match_count
            == out[p].match_count && h.length < out[p].length) || (h.match_count
            == out[p].match_count && h.length == out[p].length && h.index < out[p].index))
            invariant
                p <= out@.len(),
                forall|k: int| 0 <= k < p ==> !before(h, #[trigger] out@[k]),
            decreases out@.len() - p,
        {
            p += 1;
        }
        proof {
            lemma_insert_at(out@, h, p as int);
            assert(v@.take(i + 1).drop_last() == v@.take(i as int));
        }
        out.insert(p, h);
        assert(out@ == ordered(v@.take(i + 1)));
        i += 1;
    }
    assert(v@.take(v@.len() as int) == v@);
    out
}


/// The hits of `s` whose hyphen flag is `flag`, in their order.
pub open spec fn side(s: Seq<RankedResult>, flag: bool) -> Seq<RankedResult>
    decreases s.len(),
{
    if s.len() == 0 {
        seq![]
    } else if s.last().has_hyphen == flag {
        side(s.drop_last(), flag).push(s.last())
    } else {
        side(s.drop_last(), flag)
    }
}

proof fn lemma_side_facts(s: Seq<RankedResult>, flag: bool)
    ensures
        forall|k: int|
            0 <= k < side(s, flag).len() ==> s.contains(#[trigger] side(s, flag)[k])
                && side(s, flag)[k].has_hyphen == flag,
        side(s, true).len() + side(s, false).len() == s.len(),
    decreases s.len(),
{
    if s.len() > 0 {
        lemma_side_facts(s.drop_last(), flag);
        lemma_side_facts(s.drop_last(), !flag);
        let t = side(s, flag);
        assert forall|k: int| 0 <= k < t.len() implies s.contains(#[trigger] t[k]) && t[k].has_hyphen
            == flag by {
            let u = side(s.drop_last(), flag);
            if k < u.len() {
                assert(t[k] == u[k]);
                let j = choose|j: int| 0 <= j < s.drop_last().len() && s.drop_last()[j] == u[k];
                assert(s[j] == u[k]);
            } else {
                assert(t[k] == s[s.len() - 1]);
            }
        }
    }
}

/// The hits of `v` whose hyphen flag is `flag`, in their order.
pub fn split_side(v: &Vec<RankedResult>, flag: bool) -> (r: Vec<RankedResult>)
    ensures
        r@ == side(v@, flag),
{
    let mut out: Vec<RankedResult> = Vec::new();
    let mut i: usize = 0;
    while i < v.len()
        invariant
            i <= v@.len(),
            out@ == side(v@.take(i as int), flag),
        decreases v@.len() - i,
    {
        assert(v@.take(i + 1).drop_last() == v@.take(i as int));
        if v[i].has_hyphen == flag {
            out.push(v[i]);
        }
        i += 1;
    }
    assert(v@.take(v@.len() as int) == v@);
    out
}

/// One hit from `h`, then one from `n`, and so on; once either runs out,
/// the rest of the other.
pub open spec fn alternate(h: Seq<RankedResult>, n: Seq<RankedResult>) -> Seq<RankedResult>
    decreases h.len(),
{
    if h.len() == 0 {
        n
    } else if n.len() == 0 {
        h
    } else {
        seq![h[0], n[0]] + alternate(h.drop_first(), n.drop_first())
    }
}

/// The first `limit` hits of the alternation of `h` and `n`.
pub open spec fn page_of(h: Seq<RankedResult>, n: Seq<RankedResult>, limit: nat) -> Seq<RankedResult> {
    let a = alternate(h, n);
    if a.len() <= limit {
        a
    } else {
        a.take(limit as int)
    }
}

proof fn lemma_alternate_facts(h: Seq<RankedResult>, n: Seq<RankedResult>)
    ensures
        alternate(h, n).len() == h.len() + n.len(),
        forall|k: int|
            0 <= k < alternate(h, n).len() ==> h.contains(#[trigger] alternate(h, n)[k])
                || n.contains(alternate(h, n)[k]),
        forall|k: int|
            0 <= k < 2 * h.len() && k < 2 * n.len() ==> #[trigger] alternate(h, n)[k] == if k % 2
                == 0 {
                h[k / 2]
            } else {
                n[k / 2]
            },
    decreases h.len(),
{
    if h.len() > 0 && n.len() > 0 {
        let (h1, n1) = (h.drop_first(), n.drop_first());
        lemma_alternate_facts(h1, n1);
        let a = alternate(h, n);
        let r = alternate(h1, n1);
        assert(a == seq![h[0], n[0]] + r);
        assert forall|k: int| 0 <= k < a.len() implies h.contains(#[trigger] a[k]) || n.contains(
            a[k],
        ) by {
            if k == 0 {
                assert(a[k] == h[0]);
            } else if k == 1 {
                assert(a[k] == n[0]);
            } else {
                assert(a[k] == r[k - 2]);
                if h1.contains(r[k - 2]) {
                    let j = choose|j: int| 0 <= j < h1.len() && h1[j] == r[k - 2];
                    assert(h[j + 1] == h1[j]);
                } else {
                    let j = choose|j: int| 0 <= j < n1.len() && n1[j] == r[k - 2];
                    assert(n[j + 1] == n1[j]);
                }
            }
        }
        assert forall|k: int| 0 <= k < 2 * h.len() && k < 2 * n.len() implies #[trigger] a[k] == if k
            % 2 == 0 {
            h[k / 2]
        } else {
            n[k / 2]
        } by {
            if k >= 2 {
                assert(a[k] == r[k - 2]);
                assert((k - 2) / 2 == k / 2 - 1 && (k - 2) % 2 == k % 2);
            }
        }
    } else if h.len() == 0 {
        assert forall|k: int| 0 <= k < alternate(h, n).len() implies h.contains(
            #[trigger] alternate(h, n)[k],
        ) || n.contains(alternate(h, n)[k]) by {
            assert(n[k] == alternate(h, n)[k]);
        }
    } else {
        assert forall|k: int| 0 <= k < alternate(h, n).len() implies h.contains(
            #[trigger] alternate(h, n)[k],
        ) || n.contains(alternate(h, n)[k]) by {
            assert(h[k] == alternate(h, n)[k]);
        }
    }
}

/// The alternation of `h` and `n`, cut to at most `limit` hits.
pub fn interleave(h: &Vec<RankedResult>, n: &Vec<RankedResult>, limit: usize) -> (r: Vec<RankedResult>)
    ensures
        r@ == page_of(h@, n@, limit as nat),
{
    let mut out: Vec<RankedResult> = Vec::new();
    let mut k: usize = 0;
    assert(h@.skip(0) == h@ && n@.skip(0) == n@);
    while k < h.len() && k < n.len()
        invariant
            k <= h@.len(),
            k <= n@.len(),
            out@ + alternate(h@.skip(k as int), n@.skip(k as int)) == alternate(h@, n@),
        decreases h@.len() - k,
    {
        let ghost (hs, ns) = (h@.skip(k as int), n@.skip(k as int));
        assert(hs.drop_first() == h@.skip(k + 1) && ns.drop_first() == n@.skip(k + 1));
        assert(out@.push(h[k as int]).push(n[k as int]) + alternate(h@.skip(k + 1), n@.skip(k + 1))
            == out@ + alternate(hs, ns));
        out.push(h[k]);
        out.push(n[k]);
        k += 1;
    }
    let mut j = k;
    while j < h.len()
        invariant
            k <= j <= h@.len(),
            k == n@.len() || k == h@.len(),
            out@ + h@.skip(j as int) + n@.skip(k as int) == alternate(h@, n@),
            j > k ==> k == n@.len(),
        decreases h@.len() - j,
    {
        assert(h@.skip(j as int) == seq![h[j as int]] + h@.skip(j + 1));
        assert(out@.push(h[j as int]) + h@.skip(j + 1) == out@ + h@.skip(j as int));
        out.push(h[j]);
        j += 1;
    }
    let mut m = k;
    while m < n.len()
        invariant
            k <= m <= n@.len(),
            out@ + n@.skip(m as int) == alternate(h@, n@),
        decreases n@.len() - m,
    {
        assert(n@.skip(m as int) == seq![n[m as int]] + n@.skip(m + 1));
        assert(out@.push(n[m as int]) + n@.skip(m + 1) == out@ + n@.skip(m as int));
        out.push(n[m]);
        m += 1;
    }
    assert(out@ == alternate(h@, n@));
    out.truncate(limit);
    out
}


/// The page for a search: the kept hits split by hyphenation, each part
/// ordered, then alternated starting with the hyphenated part, and cut to
/// `limit` hits.
pub open spec fn ranked(
    c: Seq<DomainView>,
    q: Seq<Seq<char>>,
    tld: Option<Seq<char>>,
    min_match: nat,
    limit: nat,
) -> Seq<RankedResult> {
    let g = gathered(c, q, tld, min_match, limit);
    page_of(ordered(side(g, true)), ordered(side(g, false)), limit)
}

/// A hit of the ordered arrangement is a hit of the unordered list.
proof fn lemma_ordered_contains(s: Seq<RankedResult>, k: int)
    requires
        0 <= k < ordered(s).len(),
    ensures
        s.contains(ordered(s)[k]),
{
    broadcast use vstd::seq_lib::to_multiset_contains;

    lemma_ordered_facts(s);
    assert(ordered(s).contains(ordered(s)[k]));
    assert(ordered(s).to_multiset().count(ordered(s)[k]) > 0);
}

/// Every hit on a page describes its candidate faithfully, and so has at
/// least `min_match` matched words.
pub proof fn lemma_ranked_describes(
    c: Seq<DomainView>,
    q: Seq<Seq<char>>,
    tld: Option<Seq<char>>,
    min_match: nat,
    limit: nat,
)
    requires
        c.len() <= usize::MAX,
        q.len() <= usize::MAX,
    ensures
        forall|k: int|
            0 <= k < ranked(c, q, tld, min_match, limit).len() ==> describes(
                #[trigger] ranked(c, q, tld, min_match, limit)[k],
                c,
                q,
                min_match,
            ),
{
    let g = gathered(c, q, tld, min_match, limit);
    lemma_gather_describes(c, q, tld, min_match, limit, c.len());
    let (hs, ns) = (side(g, true), side(g, false));
    lemma_side_facts(g, true);
    lemma_side_facts(g, false);
    let (oh, on) = (ordered(hs), ordered(ns));
    lemma_alternate_facts(oh, on);
    let a = alternate(oh, on);
    let p = ranked(c, q, tld, min_match, limit);
    assert forall|k: int| 0 <= k < p.len() implies describes(#[trigger] p[k], c, q, min_match) by {
        assert(p[k] == a[k]);
        let x = a[k];
        let part = if oh.contains(x) {
            hs
        } else {
            ns
        };
        if oh.contains(x) {
            let j = choose|j: int| 0 <= j < oh.len() && oh[j] == x;
            lemma_ordered_contains(hs, j);
        } else {
            let j = choose|j: int| 0 <= j < on.len() && on[j] == x;
            lemma_ordered_contains(ns, j);
        }
        let i = choose|i: int| 0 <= i < part.len() && part[i] == x;
        let gi = choose|gi: int| 0 <= gi < g.len() && g[gi] == part[i];
        assert(describes(g[gi], c, q, min_match));
    }
}

/// One entry of a page: the candidate, the number of query words it
/// matched, and its position in retrieval order.
pub struct SearchResult {
    pub domain: DomainResult,
    pub match_count: usize,
    pub rank: usize,
}

/// A page of results with the number of candidates that passed the filters.
pub struct SearchPage {
    pub results: Vec<SearchResult>,
    pub total_candidates: usize,
    pub cached: bool,
}

impl SearchPage {
    /// The page given for a query that failed.
    pub fn empty() -> (r: Self)
        ensures
            r.results@.len() == 0,
            r.total_candidates == 0,
            !r.cached,
    {
        SearchPage { results: Vec::new(), total_candidates: 0, cached: false }
    }

    /// The same page, marked as served from the cache; nothing else changes.
    pub fn mark_cached(self) -> (r: Self)
        ensures
            r.results == self.results,
            r.total_candidates == self.total_candidates,
            r.cached,
    {
        SearchPage { cached: true, ..self }
    }
}

/// Rescores retrieved candidates (given in retrieval order) and shapes the
/// page: candidates with fewer than `min_match` query words or another tld
/// are dropped, the scan stops once twice `limit` candidates hold every
/// query word, the rest are split by hyphenation, each part is ordered by
/// matched words (more first), label length (shorter first) and retrieval
/// order, and the page alternates between the parts.
pub fn rank_candidates(
    cands: &Vec<DomainResult>,
    query: &Vec<String>,
    tld: &Option<String>,
    min_match: usize,
    limit: usize,
) -> (r: SearchPage)
    requires
        limit <= u32::MAX,
    ensures
        ({
            let p = ranked(candidate_views(cands@), views(query@), tld_view(*tld), min_match as nat, limit as nat);
            &&& r.results@.len() == p.len()
            &&& forall|k: int|
                0 <= k < p.len() ==> {
                    &&& (#[trigger] r.results@[k]).rank == p[k].index
                    &&& r.results@[k].match_count == p[k].match_count
                    &&& r.results@[k].domain@ == cands@[p[k].index as int]@
                    &&& r.results@[k].domain@.has_hyphen == p[k].has_hyphen
                    &&& r.results@[k].domain@.length == p[k].length
                }
        }),
        r.total_candidates == gathered(
            candidate_views(cands@),
            views(query@),
            tld_view(*tld),
            min_match as nat,
            limit as nat,
        ).len(),
        !r.cached,
{
    let ghost c = candidate_views(cands@);
    let ghost q = views(query@);
    let hits = gather_hits(cands, query, tld, min_match, limit);
    proof {
        assert(tld_view(*tld) == (match tld {
            Some(t) => Some(t@),
            None => None,
        }));
        lemma_side_facts(hits@, true);
        lemma_ordered_facts(side(hits@, true));
        lemma_ordered_facts(side(hits@, false));
        assert(c.len() == cands@.len() && cands@.len() == cands.len());
        assert(q.len() == query@.len() && query@.len() == query.len());
        lemma_ranked_describes(c, q, tld_view(*tld), min_match as nat, limit as nat);
    }
    let hyphenated = sort_hits(&split_side(&hits, true));
    let plain = sort_hits(&split_side(&hits, false));
    let total = hyphenated.len() + plain.len();
    let page = interleave(&hyphenated, &plain, limit);
    let ghost p = ranked(c, q, tld_view(*tld), min_match as nat, limit as nat);
    assert(page@ == p);
    let mut results: Vec<SearchResult> = Vec::new();
    let mut k: usize = 0;
    while k < page.len()
        invariant
            k <= page@.len(),
            page@ == p,
            c == candidate_views(cands@),
            forall|j: int| 0 <= j < p.len() ==> describes(#[trigger] p[j], c, q, min_match as nat),
            results@.len() == k,
            forall|j: int|
                0 <= j < k ==> {
                    &&& (#[trigger] results@[j]).rank == p[j].index
                    &&& results@[j].match_count == p[j].match_count
                    &&& results@[j].domain@ == cands@[p[j].index as int]@
                    &&& results@[j].domain@.has_hyphen == p[j].has_hyphen
                    &&& results@[j].domain@.length == p[j].length
                },
        decreases page@.len() - k,
    {
        let h = page[k];
        assert(describes(p[k as int], c, q, min_match as nat));
        let d = cands[h.index].duplicate();
        results.push(SearchResult { domain: d, match_count: h.match_count, rank: h.index });
        k += 1;
    }
    SearchPage { results, total_candidates: total, cached: false }
}

/// Within a part, a hit with more matched words comes before one with fewer,
/// whatever their lengths or scores.
pub proof fn lemma_more_matches_first(g: Seq<RankedResult>, flag: bool, i: int, j: int)
    requires
        0 <= i < ordered(side(g, flag)).len(),
        0 <= j < ordered(side(g, flag)).len(),
        ordered(side(g, flag))[i].match_count > ordered(side(g, flag))[j].match_count,
    ensures
        i < j,
{
    lemma_ordered_facts(side(g, flag));
    let s = ordered(side(g, flag));
    if j < i {
        assert(!before(s[i], s[j]));
    }
}

/// Within a part, of two hits with as many matched words, the one with the
/// shorter label comes first.
pub proof fn lemma_shorter_first(g: Seq<RankedResult>, flag: bool, i: int, j: int)
    requires
        0 <= i < ordered(side(g, flag)).len(),
        0 <= j < ordered(side(g, flag)).len(),
        ordered(side(g, flag))[i].match_count == ordered(side(g, flag))[j].match_count,
        ordered(side(g, flag))[i].length < ordered(side(g, flag))[j].length,
    ensures
        i < j,
{
    lemma_ordered_facts(side(g, flag));
    let s = ordered(side(g, flag));
    if j < i {
        assert(!before(s[i], s[j]));
    }
}

/// Where each part holds at least half a page, the page is full and
/// alternates strictly: hyphenated hits at even places, the others at odd
/// places, each part in its order.
pub proof fn lemma_interleave_fair(h: Seq<RankedResult>, n: Seq<RankedResult>, limit: nat)
    requires
        2 * h.len() >= limit,
        2 * n.len() >= limit,
    ensures
        page_of(h, n, limit).len() == limit,
        forall|k: int|
            0 <= k < limit ==> #[trigger] page_of(h, n, limit)[k] == if k % 2 == 0 {
                h[k / 2]
            } else {
                n[k / 2]
            },
{
    lemma_alternate_facts(h, n);
    let a = alternate(h, n);
    assert forall|k: int| 0 <= k < limit implies #[trigger] page_of(h, n, limit)[k] == if k % 2
        == 0 {
        h[k / 2]
    } else {
        n[k / 2]
    } by {
        assert(page_of(h, n, limit)[k] == a[k]);
    }
}

/// Every result on a page matched at least `min_match` query words.
pub proof fn lemma_min_match_respected(
    c: Seq<DomainView>,
    q: Seq<Seq<char>>,
    tld: Option<Seq<char>>,
    min_match: nat,
    limit: nat,
)
    requires
        c.len() <= usize::MAX,
        q.len() <= usize::MAX,
    ensures
        forall|k: int|
            0 <= k < ranked(c, q, tld, min_match, limit).len() ==> (#[trigger] ranked(
                c,
                q,
                tld,
                min_match,
                limit,
            )[k]).match_count >= min_match,
{
    lemma_ranked_describes(c, q, tld, min_match, limit);
}

/// Two searches over the same candidates with the same parameters give the
/// same page, in the same order.
pub proof fn lemma_search_deterministic(
    c1: Seq<DomainView>,
    c2: Seq<DomainView>,
    q: Seq<Seq<char>>,
    tld: Option<Seq<char>>,
    min_match: nat,
    limit: nat,
)
    requires
        c1 == c2,
    ensures
        ranked(c1, q, tld, min_match, limit) == ranked(c2, q, tld, min_match, limit),
{
}


/// Finishes a planned search on the candidates retrieved for it, given in
/// retrieval order.
pub fn finish_search(plan: &SearchPlan, cands: &Vec<DomainResult>) -> (r: SearchPage)
    requires
        plan.limit <= u32::MAX,
    ensures
        ({
            let p = ranked(
                candidate_views(cands@),
                views(plan.tokens@),
                tld_view(plan.tld),
                plan.min_match as nat,
                plan.limit as nat,
            );
            &&& r.results@.len() == p.len()
            &&& forall|k: int|
                0 <= k < p.len() ==> {
                    &&& (#[trigger] r.results@[k]).rank == p[k].index
                    &&& r.results@[k].match_count == p[k].match_count
                    &&& r.results@[k].domain@ == cands@[p[k].index as int]@
                    &&& r.results@[k].domain@.has_hyphen == p[k].has_hyphen
                    &&& r.results@[k].domain@.length == p[k].length
                }
        }),
        r.total_candidates == gathered(
            candidate_views(cands@),
            views(plan.tokens@),
            tld_view(plan.tld),
            plan.min_match as nat,
            plan.limit as nat,
        ).len(),
        !r.cached,
{
    rank_candidates(cands, &plan.tokens, &plan.tld, plan.min_match, plan.limit)
}


/// Where place `k` of the alternation of parts of lengths `hl` and `nl`
/// takes its hit from: the hyphenated part (`true`) or the other, and the
/// place in that part.
pub open spec fn alt_source(hl: int, nl: int, k: int) -> (bool, int) {
    let m = if hl < nl {
        hl
    } else {
        nl
    };
    if k < 2 * m {
        (k % 2 == 0, k / 2)
    } else if hl > nl {
        (true, k - nl)
    } else {
        (false, k - hl)
    }
}

proof fn lemma_alternate_source(h: Seq<RankedResult>, n: Seq<RankedResult>, k: int)
    requires
        0 <= k < h.len() + n.len(),
    ensures
        ({
            let (from_h, i) = alt_source(h.len() as int, n.len() as int, k);
            if from_h {
                0 <= i < h.len() && alternate(h, n)[k] == h[i]
            } else {
                0 <= i < n.len() && alternate(h, n)[k] == n[i]
            }
        }),
    decreases h.len(),
{
    if h.len() > 0 && n.len() > 0 {
        let (h1, n1) = (h.drop_first(), n.drop_first());
        assert(alternate(h, n) == seq![h[0], n[0]] + alternate(h1, n1));
        if k >= 2 {
            lemma_alternate_source(h1, n1, k - 2);
            lemma_alternate_facts(h1, n1);
            assert(alternate(h, n)[k] == alternate(h1, n1)[k - 2]);
            assert((k - 2) / 2 == k / 2 - 1 && (k - 2) % 2 == k % 2);
        }
    }
}

proof fn lemma_alt_source_monotone(hl: int, nl: int, k1: int, k2: int)
    requires
        0 <= k1 < k2 < hl + nl,
        0 <= hl,
        0 <= nl,
        alt_source(hl, nl, k1).0 == alt_source(hl, nl, k2).0,
    ensures
        alt_source(hl, nl, k1).1 < alt_source(hl, nl, k2).1,
{
}

/// Place `k` of a page holds the hit at the place that [`alt_source`] names
/// in the ordered part of that hyphenation, and its hyphen flag names the
/// part.
proof fn lemma_page_entry(
    c: Seq<DomainView>,
    q: Seq<Seq<char>>,
    tld: Option<Seq<char>>,
    min_match: nat,
    limit: nat,
    k: int,
)
    requires
        0 <= k < ranked(c, q, tld, min_match, limit).len(),
    ensures
        ({
            let g = gathered(c, q, tld, min_match, limit);
            let (from_h, i) = alt_source(side(g, true).len() as int, side(g, false).len() as int, k);
            &&& 0 <= i < ordered(side(g, from_h)).len()
            &&& ranked(c, q, tld, min_match, limit)[k] == ordered(side(g, from_h))[i]
            &&& ranked(c, q, tld, min_match, limit)[k].has_hyphen == from_h
        }),
{
    let g = gathered(c, q, tld, min_match, limit);
    let (oh, on) = (ordered(side(g, true)), ordered(side(g, false)));
    lemma_ordered_facts(side(g, true));
    lemma_ordered_facts(side(g, false));
    lemma_alternate_facts(oh, on);
    lemma_alternate_source(oh, on, k);
    let (from_h, i) = alt_source(side(g, true).len() as int, side(g, false).len() as int, k);
    let part = side(g, from_h);
    lemma_side_facts(g, from_h);
    lemma_ordered_contains(part, i);
    let j = choose|j: int| 0 <= j < part.len() && part[j] == ordered(part)[i];
    assert(part[j].has_hyphen == from_h);
}

/// On a page, of two results with the same hyphenation, the one with more
/// matched words comes first, whatever their lengths or scores.
pub proof fn lemma_page_more_matches_first(
    c: Seq<DomainView>,
    q: Seq<Seq<char>>,
    tld: Option<Seq<char>>,
    min_match: nat,
    limit: nat,
    i: int,
    j: int,
)
    requires
        0 <= i < ranked(c, q, tld, min_match, limit).len(),
        0 <= j < ranked(c, q, tld, min_match, limit).len(),
        ranked(c, q, tld, min_match, limit)[i].has_hyphen == ranked(
            c,
            q,
            tld,
            min_match,
            limit,
        )[j].has_hyphen,
        ranked(c, q, tld, min_match, limit)[i].match_count > ranked(
            c,
            q,
            tld,
            min_match,
            limit,
        )[j].match_count,
    ensures
        i < j,
{
    lemma_page_order(c, q, tld, min_match, limit, i, j);
}

/// On a page, of two results with the same hyphenation and as many matched
/// words, the one with the shorter label comes first.
pub proof fn lemma_page_shorter_first(
    c: Seq<DomainView>,
    q: Seq<Seq<char>>,
    tld: Option<Seq<char>>,
    min_match: nat,
    limit: nat,
    i: int,
    j: int,
)
    requires
        0 <= i < ranked(c, q, tld, min_match, limit).len(),
        0 <= j < ranked(c, q, tld, min_match, limit).len(),
        ranked(c, q, tld, min_match, limit)[i].has_hyphen == ranked(
            c,
            q,
            tld,
            min_match,
            limit,
        )[j].has_hyphen,
        ranked(c, q, tld, min_match, limit)[i].match_count == ranked(
            c,
            q,
            tld,
            min_match,
            limit,
        )[j].match_count,
        ranked(c, q, tld, min_match, limit)[i].length < ranked(c, q, tld, min_match, limit)[j].length,
    ensures
        i < j,
{
    lemma_page_order(c, q, tld, min_match, limit, i, j);
}

/// On a page, a result that comes before another of the same hyphenation
/// stands before it.
proof fn lemma_page_order(
    c: Seq<DomainView>,
    q: Seq<Seq<char>>,
    tld: Option<Seq<char>>,
    min_match: nat,
    limit: nat,
    i: int,
    j: int,
)
    requires
        0 <= i < ranked(c, q, tld, min_match, limit).len(),
        0 <= j < ranked(c, q, tld, min_match, limit).len(),
        ranked(c, q, tld, min_match, limit)[i].has_hyphen == ranked(
            c,
            q,
            tld,
            min_match,
            limit,
        )[j].has_hyphen,
        before(ranked(c, q, tld, min_match, limit)[i], ranked(c, q, tld, min_match, limit)[j]),
    ensures
        i < j,
{
    let g = gathered(c, q, tld, min_match, limit);
    let p = ranked(c, q, tld, min_match, limit);
    let (hl, nl) = (side(g, true).len() as int, side(g, false).len() as int);
    lemma_page_entry(c, q, tld, min_match, limit, i);
    lemma_page_entry(c, q, tld, min_match, limit, j);
    lemma_side_facts(g, true);
    lemma_ordered_facts(side(g, true));
    lemma_ordered_facts(side(g, false));
    let flag = p[i].has_hyphen;
    let s = ordered(side(g, flag));
    assert(is_ordered(s));
    if j < i {
        lemma_alternate_facts(ordered(side(g, true)), ordered(side(g, false)));
        lemma_alt_source_monotone(hl, nl, j, i);
        let (ii, jj) = (alt_source(hl, nl, i).1, alt_source(hl, nl, j).1);
        assert(!before(s[ii], s[jj]));
    } else if i == j {
        assert(!before(p[i], p[i]));
    }
}

/// Where each hyphenation holds at least half a page of kept results, the
/// page is full and alternates strictly: hyphenated results at even places,
/// the others at odd places.
pub proof fn lemma_page_alternates(
    c: Seq<DomainView>,
    q: Seq<Seq<char>>,
    tld: Option<Seq<char>>,
    min_match: nat,
    limit: nat,
)
    requires
        2 * side(gathered(c, q, tld, min_match, limit), true).len() >= limit,
        2 * side(gathered(c, q, tld, min_match, limit), false).len() >= limit,
    ensures
        ranked(c, q, tld, min_match, limit).len() == limit,
        forall|k: int|
            0 <= k < limit ==> (#[trigger] ranked(c, q, tld, min_match, limit)[k]).has_hyphen == (k
                % 2 == 0),
        ranked(c, q, tld, min_match, limit).filter(|h: RankedResult| h.has_hyphen).len() == (limit
            + 1) / 2,
{
    let g = gathered(c, q, tld, min_match, limit);
    lemma_ordered_facts(side(g, true));
    lemma_ordered_facts(side(g, false));
    lemma_interleave_fair(ordered(side(g, true)), ordered(side(g, false)), limit);
    assert forall|k: int| 0 <= k < limit implies (#[trigger] ranked(
        c,
        q,
        tld,
        min_match,
        limit,
    )[k]).has_hyphen == (k % 2 == 0) by {
        lemma_page_entry(c, q, tld, min_match, limit, k);
    }
    lemma_alternating_count(ranked(c, q, tld, min_match, limit));
}

/// A list whose hyphen flags alternate, starting with a hyphenated entry,
/// holds half its length (rounded up) of hyphenated entries.
proof fn lemma_alternating_count(s: Seq<RankedResult>)
    requires
        forall|k: int| 0 <= k < s.len() ==> (#[trigger] s[k]).has_hyphen == (k % 2 == 0),
    ensures
        s.filter(|h: RankedResult| h.has_hyphen).len() == (s.len() + 1) / 2,
    decreases s.len(),
{
    reveal(Seq::filter);
    if s.len() > 0 {
        let t = s.drop_last();
        assert forall|k: int| 0 <= k < t.len() implies (#[trigger] t[k]).has_hyphen == (k % 2 == 0) by {
            assert(t[k] == s[k]);
        }
        lemma_alternating_count(t);
        assert(s.last().has_hyphen == ((s.len() - 1) % 2 == 0));
    }
}

} // verus!
