//! Zone files: which lines hold a domain, how domains are grouped into
//! batches, and where a zone file is downloaded from.

use vstd::prelude::*;
use vstd::utf8::{decode_utf8, valid_utf8};

use crate::error::Error;

use crate::text::{
    chars_of, lines_from, push_str, split_lines, string_of, trim, trim_chars, utf8_len, utf8_len_upto,
    views,
};

verus! {

/// The longest line, in bytes, that can hold a domain name.
pub const MAX_LINE_BYTES: usize = 253;

/// The domain that a line of a zone file holds: the trimmed line, unless it
/// is empty, a `#` comment, without a dot, or longer than 253 bytes.
pub open spec fn accepted(line: Seq<char>) -> Option<Seq<char>> {
    let t = trim(line);
    if t.len() == 0 || t[0] == '#' || !t.contains('.') || utf8_len(t) > 253 {
        None
    } else {
        Some(t)
    }
}

/// The domains that the lines of a text hold, in order.
pub open spec fn domains_in(lines: Seq<Seq<char>>) -> Seq<Seq<char>>
    decreases lines.len(),
{
    if lines.len() == 0 {
        seq![]
    } else {
        match accepted(lines.last()) {
            Some(d) => domains_in(lines.drop_last()).push(d),
            None => domains_in(lines.drop_last()),
        }
    }
}

/// Relies on `String::from_utf8`, which accepts exactly the byte strings
/// that are valid UTF-8 and keeps their characters.
#[verifier::external_body]
fn utf8_string(data: Vec<u8>) -> (r: Option<String>)
    ensures
        r is Some <==> valid_utf8(data@),
        r matches Some(s) ==> s@ == decode_utf8(data@),
{
    String::from_utf8(data).ok()
}

/// The reader of domains from zone files.
pub struct DomainStream;

impl DomainStream {
    /// The domain that a line holds, if any.
    pub fn accept_line(line: &str) -> (r: Option<String>)
        ensures
            r matches Some(d) ==> accepted(line@) == Some(d@),
            r is None <==> accepted(line@) is None,
    {
        let t = trim_chars(&chars_of(line));
        if t.len() == 0 || t[0] == '#' {
            return None;
        }
        if !crate::domain::contains_char(&t, '.') {
            return None;
        }
        if utf8_len_upto(&t, MAX_LINE_BYTES) > MAX_LINE_BYTES {
            return None;
        }
        Some(string_of(t.as_slice()))
    }

    /// The domains held by the lines of a text, in order.
    pub fn from_text(text: &str) -> (r: Vec<String>)
        ensures
            views(r@) == domains_in(lines_from(text@, seq![])),
    {
        DomainStream::accept_lines(&split_lines(text))
    }

    /// The domains held by the lines of UTF-8 bytes, in order; an error where
    /// the bytes are not UTF-8.
    pub fn from_bytes(data: Vec<u8>) -> (r: Result<Vec<String>, Error>)
        ensures
            r is Ok <==> valid_utf8(data@),
            r matches Ok(v) ==> views(v@) == domains_in(lines_from(decode_utf8(data@), seq![])),
            r matches Err(e) ==> e is Io,
    {
        match utf8_string(data) {
            Some(text) => Ok(DomainStream::from_text(text.as_str())),
            None => Err(Error::Io(String::from_str("stream did not contain valid UTF-8"))),
        }
    }

    /// The domains that the given lines hold, in order.
    pub fn accept_lines(lines: &Vec<String>) -> (r: Vec<String>)
        ensures
            views(r@) == domains_in(views(lines@)),
    {
        let mut out: Vec<String> = Vec::new();
        let mut i: usize = 0;
        while i < lines.len()
            invariant
                i <= lines@.len(),
                views(out@) == domains_in(views(lines@).take(i as int)),
            decreases lines@.len() - i,
        {
            assert(views(lines@).take(i + 1).drop_last() == views(lines@).take(i as int));
            assert(views(lines@).take(i + 1).last() == lines@[i as int]@);
            match DomainStream::accept_line(lines[i].as_str()) {
                Some(d) => {
                    let ghost before = out@;
                    out.push(d);
                    assert(views(out@) == views(before).push(d@));
                },
                None => {},
            }
            i += 1;
        }
        assert(views(lines@).take(lines@.len() as int) == views(lines@));
        out
    }

    /// How many of the given lines hold a domain.
    pub fn count_lines(lines: &Vec<String>) -> (r: u64)
        ensures
            r as nat == domains_in(views(lines@)).len(),
    {
        let mut count: u64 = 0;
        let mut i: usize = 0;
        while i < lines.len()
            invariant
                i <= lines@.len(),
                count as nat == domains_in(views(lines@).take(i as int)).len(),
                count <= i,
            decreases lines@.len() - i,
        {
            assert(views(lines@).take(i + 1).drop_last() == views(lines@).take(i as int));
            assert(views(lines@).take(i + 1).last() == lines@[i as int]@);
            if DomainStream::accept_line(lines[i].as_str()).is_some() {
                count += 1;
            }
            i += 1;
        }
        assert(views(lines@).take(lines@.len() as int) == views(lines@));
        count
    }
}

/// `s` cut into consecutive pieces of `n` items, the last one shorter where
/// `n` does not divide the length.
pub open spec fn chunks_of<A>(s: Seq<A>, n: nat) -> Seq<Seq<A>>
    decreases s.len(),
{
    if s.len() == 0 || n == 0 {
        seq![]
    } else if s.len() <= n {
        seq![s]
    } else {
        seq![s.take(n as int)] + chunks_of(s.skip(n as int), n)
    }
}

/// The views of a list of batches.
pub open spec fn batch_views(v: Seq<Vec<String>>) -> Seq<Seq<Seq<char>>> {
    v.map_values(|b: Vec<String>| views(b@))
}

/// Cuts `items` into batches of `n`, keeping their order; the last batch is
/// shorter where `n` does not divide the count.
pub fn batch_stream(items: &Vec<String>, n: usize) -> (r: Vec<Vec<String>>)
    requires
        n > 0,
    ensures
        batch_views(r@) == chunks_of(views(items@), n as nat),
{
    let mut out: Vec<Vec<String>> = Vec::new();
    let mut start: usize = 0;
    let ghost all = views(items@);
    assert(all.skip(0) == all);
    assert(batch_views(out@) == Seq::<Seq<Seq<char>>>::empty());
    assert(batch_views(out@) + chunks_of(all, n as nat) == chunks_of(all, n as nat));
    while start < items.len()
        invariant
            n > 0,
            start <= items@.len(),
            all == views(items@),
            batch_views(out@) + chunks_of(all.skip(start as int), n as nat) == chunks_of(all, n as nat),
        decreases items@.len() - start,
    {
        let end = if items.len() - start <= n {
            items.len()
        } else {
            start + n
        };
        let mut b: Vec<String> = Vec::new();
        let mut k = start;
        while k < end
            invariant
                start <= k <= end <= items@.len(),
                views(b@) == all.subrange(start as int, k as int),
                all == views(items@),
            decreases end - k,
        {
            b.push(items[k].clone());
            assert(all.subrange(start as int, k + 1) == all.subrange(start as int, k as int).push(
                items@[k as int]@,
            ));
            k += 1;
        }
        proof {
            let rest = all.skip(start as int);
            if items.len() - start <= n {
                assert(rest == all.subrange(start as int, end as int));
                assert(all.skip(end as int).len() == 0);
            } else {
                assert(rest.take(n as int) == all.subrange(start as int, end as int));
                assert(rest.skip(n as int) == all.skip(end as int));
            }
            assert(batch_views(out@.push(b)) == batch_views(out@).push(views(b@)));
            assert(batch_views(out@).push(views(b@)) + chunks_of(all.skip(end as int), n as nat)
                == batch_views(out@) + (seq![views(b@)] + chunks_of(all.skip(end as int), n as nat)));
        }
        out.push(b);
        start = end;
    }
    proof {
        assert(all.skip(start as int).len() == 0);
        assert(batch_views(out@) + seq![] == batch_views(out@));
    }
    out
}

/// Groups a stream of domains into batches of a fixed size.
pub struct Batcher {
    pub pending: Vec<String>,
    pub size: usize,
}

impl Batcher {
    /// An empty batcher for batches of `size` items.
    pub fn new(size: usize) -> (r: Self)
        requires
            size > 0,
        ensures
            r.pending@.len() == 0,
            r.size == size,
    {
        Batcher { pending: Vec::new(), size }
    }

    /// Adds an item; hands out the batch once it holds `size` items.
    pub fn push(&mut self, item: String) -> (r: Option<Vec<String>>)
        requires
            old(self).pending@.len() < old(self).size,
        ensures
            final(self).size == old(self).size,
            final(self).pending@.len() < final(self).size,
            old(self).pending@.len() + 1 >= old(self).size ==> {
                &&& r matches Some(b) && b@ == old(self).pending@.push(item)
                &&& final(self).pending@.len() == 0
            },
            old(self).pending@.len() + 1 < old(self).size ==> {
                &&& r is None
                &&& final(self).pending@ == old(self).pending@.push(item)
            },
    {
        self.pending.push(item);
        if self.pending.len() >= self.size {
            let full = self.pending.split_off(0);
            Some(full)
        } else {
            None
        }
    }

    /// The last, shorter batch, if any items are left.
    pub fn finish(self) -> (r: Option<Vec<String>>)
        ensures
            self.pending@.len() == 0 ==> r is None,
            self.pending@.len() > 0 ==> (r matches Some(b) && b@ == self.pending@),
    {
        if self.pending.len() > 0 {
            Some(self.pending)
        } else {
            None
        }
    }
}

/// The kinds of zone file that the download service offers.
#[derive(Debug, Clone, Copy, PartialEq, Eq, Structural)]
pub enum ZonefileType {
    /// All domains.
    Full,
    /// Domains added since the day before.
    DailyUpdate,
    /// Domains removed since the day before.
    DailyRemove,
}

impl ZonefileType {
    /// The path segment that names the kind.
    pub open spec fn endpoint_spec(&self) -> Seq<char> {
        match self {
            ZonefileType::Full => "full"@,
            ZonefileType::DailyUpdate => "dailyupdate"@,
            ZonefileType::DailyRemove => "dailyremove"@,
        }
    }

    /// The path segment that names the kind.
    pub fn endpoint(&self) -> (r: &'static str)
        ensures
            r@ == self.endpoint_spec(),
    {
        match self {
            ZonefileType::Full => "full",
            ZonefileType::DailyUpdate => "dailyupdate",
            ZonefileType::DailyRemove => "dailyremove",
        }
    }
}

/// The address of a zone file archive: `{base}/{token}/get/{kind}/list/zip`.
pub fn download_url(base_url: &str, token: &str, kind: ZonefileType) -> (r: String)
    ensures
        r@ == base_url@ + "/"@ + token@ + "/get/"@ + kind.endpoint_spec() + "/list/zip"@,
{
    let mut s = String::from_str(base_url);
    push_str(&mut s, "/");
    push_str(&mut s, token);
    push_str(&mut s, "/get/");
    push_str(&mut s, kind.endpoint());
    push_str(&mut s, "/list/zip");
    s
}

/// Whether an archive entry is the domain list: `domains.txt` at any depth.
pub fn is_domains_entry(name: &str) -> (r: bool)
    ensures
        r == (name@ == "domains.txt"@ || (name@.len() >= 12 && name@.skip(name@.len() - 12)
            == "/domains.txt"@)),
{
    let wanted = "/domains.txt";
    proof {
        reveal_strlit("/domains.txt");
        reveal_strlit("domains.txt");
    }
    let cs = chars_of(name);
    let w = chars_of(wanted);
    assert(w@ == seq!['/', 'd', 'o', 'm', 'a', 'i', 'n', 's', '.', 't', 'x', 't']);
    if cs.len() == 11 {
        let mut same = true;
        let mut i: usize = 0;
        while i < 11
            invariant
                i <= 11,
                cs@.len() == 11,
                w@ == "/domains.txt"@,
                w@.len() == 12,
                same == (forall|j: int| 0 <= j < i ==> cs@[j] == w@[j + 1]),
            decreases 11 - i,
        {
            same = same && cs[i] == w[i + 1];
            i += 1;
        }
        assert(same ==> cs@ =~= "domains.txt"@);
        assert(cs@ == "domains.txt"@ ==> same) by {
            if cs@ == "domains.txt"@ {
                assert forall|j: int| 0 <= j < 11 implies cs@[j] == w@[j + 1] by {}
            }
        }
        return same;
    }
    if cs.len() < 12 {
        return false;
    }
    let off = cs.len() - 12;
    let mut same = true;
    let mut i: usize = 0;
    while i < 12
        invariant
            i <= 12,
            off + 12 == cs@.len(),
            cs@.len() == cs.len(),
            w@ == "/domains.txt"@,
            w@.len() == 12,
            same == (forall|j: int| 0 <= j < i ==> cs@[off + j] == w@[j]),
        decreases 12 - i,
    {
        same = same && cs[off + i] == w[i];
        i += 1;
    }
    assert(same ==> cs@.skip(off as int) =~= "/domains.txt"@);
    assert(cs@.skip(off as int) == "/domains.txt"@ ==> same) by {
        if cs@.skip(off as int) == "/domains.txt"@ {
            assert forall|j: int| 0 <= j < 12 implies cs@[off + j] == w@[j] by {
                assert(cs@.skip(off as int)[j] == cs@[off + j]);
            }
        }
    }
    assert(cs@ != "domains.txt"@);
    same
}

} // verus!
