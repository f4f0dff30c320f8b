//! Raw domains, their normal form, and the filter applied before indexing.

use vstd::prelude::*;
use vstd::utf8::encode_utf8;

use crate::error::Error;
use crate::text::{
    ascii_lower, ascii_lower_all, chars_of, copy_range, find_last, last_index_of, lower_ascii_chars,
    push_str, string_of, trim, trim_chars, utf8_len, utf8_len_upto,
};

verus! {

/// The longest label that DNS admits, in bytes.
pub const MAX_LABEL_BYTES: usize = 63;

/// What IDNA to-ASCII conversion makes of a domain: its ASCII form, or
/// `None` where the conversion fails.
pub uninterp spec fn idna_ascii(s: Seq<char>) -> Option<Seq<char>>;

/// Relies on `idna::domain_to_ascii`, which returns the ASCII form of a domain
/// name or an error; its outcome depends on the input alone, and its
/// documentation says it lowers upper-case letters.
#[verifier::external_body]
fn domain_to_ascii(s: &str) -> (r: Option<String>)
    ensures
        r matches Some(a) ==> idna_ascii(s@) == Some(a@),
        r matches Some(a) ==> ascii_lower_all(a@) == a@,
        r is None ==> idna_ascii(s@) is None,
{
    idna::domain_to_ascii(s).ok()
}

/// `s` without one trailing dot.
pub open spec fn strip_dot(s: Seq<char>) -> Seq<char> {
    if s.len() > 0 && s.last() == '.' {
        s.drop_last()
    } else {
        s
    }
}

/// The ASCII form of a raw domain: trimmed, one trailing dot removed, ASCII
/// lower-cased, then converted by IDNA, or kept lower-cased where IDNA fails.
pub open spec fn canonical(raw: Seq<char>) -> Seq<char> {
    let lowered = ascii_lower_all(strip_dot(trim(raw)));
    match idna_ascii(lowered) {
        Some(a) => a,
        None => lowered,
    }
}

/// The record that a raw domain normalises to, as (domain, label, tld), or
/// `None` where it is rejected: no dot, an empty label, or a label longer
/// than 63 bytes.
pub open spec fn normal_form(raw: Seq<char>) -> Option<(Seq<char>, Seq<char>, Seq<char>)> {
    split_form(canonical(raw))
}

/// The parts of an ASCII form, split at its last dot, as (domain, label,
/// tld); `None` where it has no dot, an empty label, or a label longer than
/// 63 bytes.
pub open spec fn split_form(d: Seq<char>) -> Option<(Seq<char>, Seq<char>, Seq<char>)> {
    match last_index_of(d, '.') {
        None => None,
        Some(i) => {
            let label = d.take(i);
            if label.len() == 0 || utf8_len(label) > 63 {
                None
            } else {
                Some((d, label, d.skip(i + 1)))
            }
        },
    }
}

/// The reason given when the ASCII form `d` of `raw` cannot be split: no
/// dot, a label over 63 bytes, or an empty label, checked in that order.
pub open spec fn split_rejection(d: Seq<char>, raw: Seq<char>) -> Seq<char> {
    match last_index_of(d, '.') {
        None => "Domain must have at least one dot: "@ + raw,
        Some(i) => if utf8_len(d.take(i)) > 63 {
            "Label exceeds 63 characters: "@ + raw
        } else {
            "Empty label: "@ + raw
        },
    }
}

/// A raw domain as received from a zone file or a request.
pub struct Domain {
    pub raw: String,
}

/// A domain in normal form, with its parts.
pub struct NormalizedDomain {
    /// The full ASCII form, for instance `example.com`.
    pub domain_exact: String,
    /// What stands before the last dot, for instance `example`.
    pub label: String,
    /// What stands after the last dot, for instance `com`.
    pub tld: String,
    /// The length of the label in bytes.
    pub len: u16,
    /// Whether the label holds a hyphen.
    pub has_hyphen: bool,
    /// The words of the label, once segmented.
    pub tokens: Vec<String>,
}

impl NormalizedDomain {
    /// The parts agree with each other: the label is non-empty and at most 63
    /// bytes long, and the domain is the label, a dot and the tld.
    pub open spec fn wf(&self) -> bool {
        &&& self.label@.len() > 0
        &&& utf8_len(self.label@) <= 63
        &&& self.len as nat == utf8_len(self.label@)
        &&& self.has_hyphen == self.label@.contains('-')
        &&& self.domain_exact@ == self.label@ + seq!['.'] + self.tld@
        &&& !self.tld@.contains('.')
    }

    /// The parts are those that `raw` normalises to.
    pub open spec fn is_normal_form_of(&self, raw: Seq<char>) -> bool {
        normal_form(raw) == Some((self.domain_exact@, self.label@, self.tld@))
    }
}

/// Whether `c` occurs in `cs`.
pub fn contains_char(cs: &Vec<char>, c: char) -> (r: bool)
    ensures
        r == cs@.contains(c),
{
    let mut i: usize = 0;
    while i < cs.len()
        invariant
            i <= cs@.len(),
            forall|j: int| 0 <= j < i ==> cs@[j] != c,
        decreases cs@.len() - i,
    {
        if cs[i] == c {
            assert(cs@[i as int] == c);
            return true;
        }
        i += 1;
    }
    false
}

/// An error for `raw` with the given reason.
fn invalid(reason: &str, raw: &str) -> (r: Error)
    ensures
        r is InvalidDomain,
        r.reason() == reason@ + raw@,
{
    let mut m = String::from_str(reason);
    push_str(&mut m, raw);
    Error::InvalidDomain(m)
}

proof fn lemma_last_index_bounds(s: Seq<char>, c: char)
    ensures
        last_index_of(s, c) matches Some(i) ==> 0 <= i < s.len() && s[i] == c && !s.skip(
            i + 1,
        ).contains(c),
    decreases s.len(),
{
    if s.len() > 0 && s.last() != c {
        lemma_last_index_bounds(s.drop_last(), c);
        if let Some(i) = last_index_of(s, c) {
            assert(s.skip(i + 1) == s.drop_last().skip(i + 1).push(s.last()));
            assert forall|j: int| 0 <= j < s.skip(i + 1).len() implies #[trigger] s.skip(i + 1)[j] != c by {
                if j < s.skip(i + 1).len() - 1 {
                    assert(s.skip(i + 1)[j] == s.drop_last().skip(i + 1)[j]);
                }
            }
        }
    }
}

impl Domain {
    /// A raw domain holding `raw`.
    pub fn new(raw: &str) -> (r: Self)
        ensures
            r.raw@ == raw@,
    {
        Domain { raw: String::from_str(raw) }
    }

    /// Normalises the domain: trims it, removes one trailing dot, lowers ASCII
    /// letters, applies IDNA (keeping the lowered form where IDNA fails) and
    /// splits at the last dot. Rejects a domain without a dot, with an empty
    /// label or with a label longer than 63 bytes.
    pub fn normalize(&self) -> (r: Result<NormalizedDomain, Error>)
        ensures
            r is Err <==> normal_form(self.raw@) is None,
            r matches Err(e) ==> e is InvalidDomain && e.reason() == split_rejection(
                canonical(self.raw@),
                self.raw@,
            ),
            r matches Ok(n) ==> {
                &&& n.is_normal_form_of(self.raw@)
                &&& ascii_lower_all(n.domain_exact@) == n.domain_exact@
                &&& n.wf()
                &&& n.tokens@.len() == 0
            },
    {
        let exact = canonical_form(self.raw.as_str());
        NormalizedDomain::from_canonical(exact, self.raw.as_str())
    }
}

/// The canonical form of a raw domain: trimmed, one trailing dot removed,
/// ASCII lower-cased, then converted by IDNA where IDNA accepts it.
pub fn canonical_form(raw: &str) -> (r: String)
    ensures
        r@ == canonical(raw@),
        ascii_lower_all(r@) == r@,
{
    let cs = chars_of(raw);
    let t = trim_chars(&cs);
    let s = if t.len() > 0 && t[t.len() - 1] == '.' {
        copy_range(&t, 0, t.len() - 1)
    } else {
        t
    };
    assert(s@ == strip_dot(trim(raw@)));
    let lowered = lower_ascii_chars(&s);
    let lowered_str = string_of(lowered.as_slice());
    proof {
        lemma_ascii_lower_idempotent(s@);
    }
    match domain_to_ascii(lowered_str.as_str()) {
        Some(a) => a,
        None => lowered_str,
    }
}

impl NormalizedDomain {
    /// Splits a canonical form at its last dot into a record without words;
    /// `raw` is the input it came from, named in the error. Rejects a form
    /// without a dot, with an empty label or with a label longer than 63
    /// bytes.
    pub fn from_canonical(exact: String, raw: &str) -> (r: Result<NormalizedDomain, Error>)
        ensures
            r is Err <==> split_form(exact@) is None,
            r matches Err(e) ==> e is InvalidDomain && e.reason() == split_rejection(exact@, raw@),
            r matches Ok(n) ==> {
                &&& split_form(exact@) == Some((n.domain_exact@, n.label@, n.tld@))
                &&& n.wf()
                &&& n.tokens@.len() == 0
            },
    {
        let d = chars_of(exact.as_str());
        proof {
            lemma_last_index_bounds(d@, '.');
        }
        match find_last(&d, '.') {
            None => Err(invalid("Domain must have at least one dot: ", raw)),
            Some(i) => {
                assert(last_index_of(d@, '.') == Some(i as int));
                assert(i < d.len() && !d@.skip(i + 1).contains('.'));
                let label_chars = copy_range(&d, 0, i);
                let label = string_of(label_chars.as_slice());
                let tld = string_of(copy_range(&d, i + 1, d.len()).as_slice());
                let nbytes = utf8_len_upto(&label_chars, MAX_LABEL_BYTES);
                assert(label_chars@ == d@.take(i as int));
                if nbytes > MAX_LABEL_BYTES {
                    return Err(invalid("Label exceeds 63 characters: ", raw));
                }
                if label_chars.len() == 0 {
                    return Err(invalid("Empty label: ", raw));
                }
                let has_hyphen = contains_char(&label_chars, '-');
                assert(d@ == d@.take(i as int) + seq!['.'] + d@.skip(i + 1));
                assert(split_form(exact@) == Some((d@, label@, tld@)));
                Ok(
                    NormalizedDomain {
                        domain_exact: exact,
                        label,
                        tld,
                        len: nbytes as u16,
                        has_hyphen,
                        tokens: Vec::new(),
                    },
                )
            },
        }
    }
}

/// The digest that MD5 gives for `data`.
pub uninterp spec fn md5_of(data: Seq<u8>) -> Seq<u8>;

/// Relies on `md5::compute`, whose `Digest` holds the 16 bytes of the MD5
/// digest of its input.
#[verifier::external_body]
fn md5_digest(data: &[u8]) -> (r: [u8; 16])
    ensures
        r@ == md5_of(data@),
{
    md5::compute(data).0
}

/// The big-endian number that the first six bytes of `d` spell.
pub open spec fn id_of_digest(d: Seq<u8>) -> nat {
    d[0] as nat * 0x100_0000_0000 + d[1] as nat * 0x1_0000_0000 + d[2] as nat * 0x100_0000
        + d[3] as nat * 0x1_0000 + d[4] as nat * 0x100 + d[5] as nat
}

/// The 48-bit identifier held in the first six bytes of a digest.
pub fn id_from_digest(d: &[u8; 16]) -> (r: u64)
    ensures
        r as nat == id_of_digest(d@),
        r < 0x1_0000_0000_0000,
{
    d[0] as u64 * 0x100_0000_0000 + d[1] as u64 * 0x1_0000_0000 + d[2] as u64 * 0x100_0000
        + d[3] as u64 * 0x1_0000 + d[4] as u64 * 0x100 + d[5] as u64
}

impl NormalizedDomain {
    /// A 48-bit identifier of the domain: the first six bytes of the MD5
    /// digest of its UTF-8 form, read big-endian.
    pub fn generate_id(&self) -> (r: u64)
        ensures
            r as nat == id_of_digest(md5_of(encode_utf8(self.domain_exact@))),
    {
        let bytes = self.domain_exact.as_str().as_bytes();
        let d = md5_digest(bytes);
        id_from_digest(&d)
    }

    /// The same domain with the given words.
    pub fn with_tokens(self, tokens: Vec<String>) -> (r: Self)
        ensures
            r.domain_exact == self.domain_exact,
            r.label == self.label,
            r.tld == self.tld,
            r.len == self.len,
            r.has_hyphen == self.has_hyphen,
            r.tokens == tokens,
    {
        NormalizedDomain { tokens, ..self }
    }
}

/// Whether `c` is an ASCII digit.
pub open spec fn is_digit(c: char) -> bool {
    '0' <= c <= '9'
}

/// Whether a label is dropped before indexing: an all-digit label longer than
/// five bytes, a label of at least five bytes that repeats one character, or
/// a label that starts with a digit and mixes digits with hyphens only (an
/// all-digit label falls under the first rule alone, so `12345` stays).
pub open spec fn filtered(label: Seq<char>) -> bool {
    ||| (utf8_len(label) > 5 && forall|i: int| 0 <= i < label.len() ==> is_digit(#[trigger] label[i]))
    ||| (utf8_len(label) >= 5 && forall|i: int| 0 <= i < label.len() ==> #[trigger] label[i] == label[0])
    ||| (label.len() > 0 && is_digit(label[0]) && label.contains('-') && forall|i: int|
        0 <= i < label.len() ==> is_digit(#[trigger] label[i]) || label[i] == '-')
}

/// Decides whether a label is dropped before indexing; the answer depends on
/// the characters of the label alone.
pub fn should_filter_domain(label: &str) -> (r: bool)
    ensures
        r == filtered(label@),
{
    let cs = chars_of(label);
    let n = utf8_len_upto(&cs, 5);
    let mut all_digits = true;
    let mut all_same = true;
    let mut digits_hyphens = true;
    let mut i: usize = 0;
    while i < cs.len()
        invariant
            i <= cs@.len(),
            cs@ == label@,
            all_digits == forall|j: int| 0 <= j < i ==> is_digit(#[trigger] cs@[j]),
            all_same == forall|j: int| 0 <= j < i ==> #[trigger] cs@[j] == cs@[0],
            digits_hyphens == forall|j: int|
                0 <= j < i ==> is_digit(#[trigger] cs@[j]) || cs@[j] == '-',
        decreases cs@.len() - i,
    {
        let c = cs[i];
        let digit = '0' <= c && c <= '9';
        all_digits = all_digits && digit;
        all_same = all_same && c == cs[0];
        digits_hyphens = digits_hyphens && (digit || c == '-');
        i += 1;
    }
    let starts_with_digit = cs.len() > 0 && '0' <= cs[0] && cs[0] <= '9';
    let has_hyphen = contains_char(&cs, '-');
    (n > 5 && all_digits) || (n >= 5 && all_same) || (starts_with_digit && has_hyphen
        && digits_hyphens)
}

/// The canonical form of a domain stays as it is under the steps before the
/// split: no white space at its ends, no trailing dot, and IDNA either keeps
/// it or rejects it. (That it has no ASCII capitals `normalize` guarantees.)
pub open spec fn settled(d: Seq<char>) -> bool {
    &&& trim(d) == d
    &&& strip_dot(d) == d
    &&& (idna_ascii(d) is None || idna_ascii(d) == Some(d))
}

/// The domain of the normal form of `raw`, where it has one.
pub open spec fn normal_domain(raw: Seq<char>) -> Seq<char> {
    match normal_form(raw) {
        Some(t) => t.0,
        None => seq![],
    }
}

/// Lowering ASCII letters twice is lowering them once.
pub proof fn lemma_ascii_lower_idempotent(s: Seq<char>)
    ensures
        ascii_lower_all(ascii_lower_all(s)) == ascii_lower_all(s),
{
    assert forall|i: int| 0 <= i < s.len() implies #[trigger] ascii_lower(ascii_lower(s[i])) == ascii_lower(
        s[i],
    ) by {
        let c = s[i];
        if 'A' <= c <= 'Z' {
            assert(((c as u8) + 32) as char >= 'a');
        }
    }
    assert(ascii_lower_all(ascii_lower_all(s)) =~= ascii_lower_all(s));
}

/// Normalising the domain of a normalised record again gives the same
/// record, wherever that domain is settled under the steps that come before
/// the split. The record is one that `normalize` returned for `raw`, so its
/// domain has no ASCII capitals.
pub proof fn lemma_normalize_idempotent(raw: Seq<char>, n: NormalizedDomain)
    requires
        n.is_normal_form_of(raw),
        ascii_lower_all(n.domain_exact@) == n.domain_exact@,
        settled(n.domain_exact@),
    ensures
        normal_form(n.domain_exact@) == normal_form(raw),
{
    let d = n.domain_exact@;
    assert(d == canonical(raw));
    assert(canonical(d) == d);
}

} // verus!
