//! The keys under which search pages are cached, and the statistics that
//! the cache store reports.

use vstd::prelude::*;

use crate::text::{
    chars_of, copy_range, decimal, decimal_value, has_prefix, lines_from, parse_decimal,
    push_decimal, push_str, split_lines, starts_with, string_of, views,
};

verus! {

/// How long a cached page lives, in seconds.
pub const CACHE_TTL: u64 = 86400;

/// The namespace of this service's keys in the cache store.
pub const KEY_PREFIX: &'static str = "ds:";

/// The key of a search: `search:{q}|{tld or any}|{limit}|{min_match or 1}`.
pub open spec fn search_key(q: Seq<char>, tld: Option<Seq<char>>, limit: nat, min_match: nat) -> Seq<char> {
    "search:"@ + q + "|"@ + match tld {
        Some(t) => t,
        None => "any"@,
    } + "|"@ + decimal(limit) + "|"@ + decimal(min_match)
}

/// The key under which a search is cached.
pub fn make_key(query: &str, tld: Option<&str>, limit: u32, min_match: Option<u32>) -> (r: String)
    ensures
        r@ == search_key(
            query@,
            match tld {
                Some(t) => Some(t@),
                None => None,
            },
            limit as nat,
            match min_match {
                Some(m) => m as nat,
                None => 1,
            },
        ),
{
    let mut s = String::from_str("search:");
    push_str(&mut s, query);
    push_str(&mut s, "|");
    match tld {
        Some(t) => push_str(&mut s, t),
        None => push_str(&mut s, "any"),
    }
    push_str(&mut s, "|");
    push_decimal(&mut s, limit as u64);
    push_str(&mut s, "|");
    let m: u32 = match min_match {
        Some(m) => m,
        None => 1,
    };
    push_decimal(&mut s, m as u64);
    s
}

/// The key as stored: the namespace, then the key.
pub fn full_key(key: &str) -> (r: String)
    ensures
        r@ == KEY_PREFIX@ + key@,
{
    let mut s = String::from_str(KEY_PREFIX);
    push_str(&mut s, key);
    s
}

/// Hits and misses that the cache store counted.
pub struct CacheStats {
    pub hits: u64,
    pub misses: u64,
}

/// A line without one trailing carriage return.
pub open spec fn strip_cr(l: Seq<char>) -> Seq<char> {
    if l.len() > 0 && l.last() == '\r' {
        l.drop_last()
    } else {
        l
    }
}

/// What stands before the first colon of `s`, or all of `s`.
pub open spec fn before_colon(s: Seq<char>) -> Seq<char>
    decreases s.len(),
{
    if s.len() == 0 || s[0] == ':' {
        seq![]
    } else {
        seq![s[0]] + before_colon(s.drop_first())
    }
}

/// The value of the statistic `key` (a name ending with a colon) in the
/// lines of a report: read from the last line that starts with the name, up
/// to the next colon; zero where no line has it or the value is no number.
pub open spec fn stat_value(lines: Seq<Seq<char>>, key: Seq<char>) -> nat
    decreases lines.len(),
{
    if lines.len() == 0 {
        0
    } else {
        let l = strip_cr(lines.last());
        if starts_with(l, key) {
            match decimal_value(before_colon(l.skip(key.len() as int)), u64::MAX as nat) {
                Some(v) => v,
                None => 0,
            }
        } else {
            stat_value(lines.drop_last(), key)
        }
    }
}

/// The value that follows `key` on a line that starts with it.
fn value_after(cs: &Vec<char>, key_len: usize) -> (r: u64)
    requires
        key_len <= cs@.len(),
    ensures
        r as nat == match decimal_value(before_colon(cs@.skip(key_len as int)), u64::MAX as nat) {
            Some(v) => v,
            None => 0,
        },
{
    let mut end = key_len;
    while end < cs.len() && cs[end] != ':'
        invariant
            key_len <= end <= cs@.len(),
            before_colon(cs@.skip(key_len as int)) == cs@.subrange(key_len as int, end as int)
                + before_colon(cs@.skip(end as int)),
        decreases cs@.len() - end,
    {
        assert(cs@.skip(end as int).drop_first() == cs@.skip(end + 1));
        assert(cs@.subrange(key_len as int, end + 1) == cs@.subrange(key_len as int, end as int)
            + seq![cs@[end as int]]);
        end += 1;
    }
    assert(before_colon(cs@.skip(end as int)) == Seq::<char>::empty());
    let piece = string_of(copy_range(cs, key_len, end).as_slice());
    match parse_decimal(piece.as_str(), u64::MAX) {
        Some(v) => v,
        None => 0,
    }
}

/// A line of characters without one trailing carriage return.
fn line_chars(line: &str) -> (r: Vec<char>)
    ensures
        r@ == strip_cr(line@),
{
    let cs = chars_of(line);
    if cs.len() > 0 && cs[cs.len() - 1] == '\r' {
        copy_range(&cs, 0, cs.len() - 1)
    } else {
        cs
    }
}

impl CacheStats {
    /// Reads the hit and miss counts from a statistics report of the cache
    /// store (`keyspace_hits:` and `keyspace_misses:` lines).
    pub fn parse(info: &str) -> (r: CacheStats)
        ensures
            r.hits as nat == stat_value(lines_from(info@, seq![]), "keyspace_hits:"@),
            r.misses as nat == stat_value(lines_from(info@, seq![]), "keyspace_misses:"@),
    {
        let hits_key = "keyspace_hits:";
        let misses_key = "keyspace_misses:";
        proof {
            reveal_strlit("keyspace_hits:");
            reveal_strlit("keyspace_misses:");
        }
        let lines = split_lines(info);
        let ghost lv = views(lines@);
        let mut hits: u64 = 0;
        let mut misses: u64 = 0;
        let mut i: usize = 0;
        while i < lines.len()
            invariant
                i <= lines@.len(),
                lv == views(lines@),
                hits_key@ == "keyspace_hits:"@,
                misses_key@ == "keyspace_misses:"@,
                hits_key@.len() == 14,
                misses_key@.len() == 16,
                hits as nat == stat_value(lv.take(i as int), hits_key@),
                misses as nat == stat_value(lv.take(i as int), misses_key@),
            decreases lines@.len() - i,
        {
            assert(lv.take(i + 1).drop_last() == lv.take(i as int));
            assert(lv.take(i + 1).last() == lines@[i as int]@);
            let cs = line_chars(lines[i].as_str());
            let is_hits = has_prefix(&cs, hits_key);
            let is_misses = has_prefix(&cs, misses_key);
            if is_hits {
                hits = value_after(&cs, 14);
            }
            if is_misses {
                misses = value_after(&cs, 16);
            }
            i += 1;
        }
        assert(lv.take(lines@.len() as int) == lv);
        CacheStats { hits, misses }
    }
}

} // verus!
