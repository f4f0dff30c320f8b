//! The client side of the word-segmentation service: credentials, request
//! address, and how a list of labels is cut into requests.

use vstd::prelude::*;
use vstd::utf8::encode_utf8;

use crate::text::{push_char, push_str, views};
use crate::zone::{batch_stream, batch_views, chunks_of};

verus! {

/// The character that stands for the six-bit value `v` in standard base64.
pub open spec fn b64_digit(v: nat) -> char {
    if v < 26 {
        ((v + 65) as u8) as char
    } else if v < 52 {
        ((v - 26 + 97) as u8) as char
    } else if v < 62 {
        ((v - 52 + 48) as u8) as char
    } else if v == 62 {
        '+'
    } else {
        '/'
    }
}

/// The standard base64 encoding of `b`, with `=` padding.
pub open spec fn base64_of(b: Seq<u8>) -> Seq<char>
    decreases b.len(),
{
    if b.len() == 0 {
        seq![]
    } else if b.len() == 1 {
        seq![b64_digit(b[0] as nat / 4), b64_digit((b[0] as nat % 4) * 16), '=', '=']
    } else if b.len() == 2 {
        seq![
            b64_digit(b[0] as nat / 4),
            b64_digit((b[0] as nat % 4) * 16 + b[1] as nat / 16),
            b64_digit((b[1] as nat % 16) * 4),
            '=',
        ]
    } else {
        seq![
            b64_digit(b[0] as nat / 4),
            b64_digit((b[0] as nat % 4) * 16 + b[1] as nat / 16),
            b64_digit((b[1] as nat % 16) * 4 + b[2] as nat / 64),
            b64_digit(b[2] as nat % 64),
        ] + base64_of(b.skip(3))
    }
}

/// The base64 character for a six-bit value.
fn digit(v: u32) -> (r: char)
    requires
        v < 64,
    ensures
        r == b64_digit(v as nat),
{
    if v < 26 {
        ((v + 65) as u8) as char
    } else if v < 52 {
        ((v - 26 + 97) as u8) as char
    } else if v < 62 {
        ((v - 52 + 48) as u8) as char
    } else if v == 62 {
        '+'
    } else {
        '/'
    }
}

/// A base64 encoder.
pub trait Engine {
    /// The encoding of `input`.
    fn encode(&self, input: &[u8]) -> (r: String)
        ensures
            r@ == base64_of(input@),
    ;
}

/// The standard base64 alphabet, with padding.
pub struct StandardEngine;

/// The standard engine.
pub const STANDARD: StandardEngine = StandardEngine;

impl Engine for StandardEngine {
    fn encode(&self, input: &[u8]) -> (r: String) {
        let mut out = String::new();
        let mut i: usize = 0;
        let n = input.len();
        assert(input@.skip(0) == input@);
        while i < n
            invariant
                n == input@.len(),
                i <= n,
                out@ + base64_of(input@.skip(i as int)) == base64_of(input@),
            decreases n - i,
        {
            let ghost rest = input@.skip(i as int);
            let b0 = input[i] as u32;
            push_char(&mut out, digit(b0 / 4));
            if n - i == 1 {
                push_char(&mut out, digit((b0 % 4) * 16));
                push_char(&mut out, '=');
                push_char(&mut out, '=');
                i = n;
            } else {
                let b1 = input[i + 1] as u32;
                push_char(&mut out, digit((b0 % 4) * 16 + b1 / 16));
                if n - i == 2 {
                    push_char(&mut out, digit((b1 % 16) * 4));
                    push_char(&mut out, '=');
                    i = n;
                } else {
                    let b2 = input[i + 2] as u32;
                    push_char(&mut out, digit((b1 % 16) * 4 + b2 / 64));
                    push_char(&mut out, digit(b2 % 64));
                    assert(rest.skip(3) == input@.skip(i + 3));
                    i = i + 3;
                }
            }
            assert(input@.skip(n as int).len() == 0);
        }
        assert(out@ + seq![] == out@);
        out
    }
}

/// The value of the `Authorization` header for basic credentials.
pub fn basic_auth(user: &str, pass: &str) -> (r: String)
    ensures
        r@ == "Basic "@ + base64_of(encode_utf8(user@ + seq![':'] + pass@)),
{
    let mut pair = String::from_str(user);
    push_char(&mut pair, ':');
    push_str(&mut pair, pass);
    assert(pair@ == user@ + seq![':'] + pass@);
    let bytes = pair.as_str().as_bytes();
    assert(bytes@ == encode_utf8(pair@));
    let encoded = STANDARD.encode(bytes);
    let mut header = String::from_str("Basic ");
    push_str(&mut header, encoded.as_str());
    header
}

/// The address of the bulk segmentation endpoint.
pub fn segment_url(base_url: &str) -> (r: String)
    ensures
        r@ == base_url@ + "/segment/bulk"@,
{
    let mut s = String::from_str(base_url);
    push_str(&mut s, "/segment/bulk");
    s
}

/// How the segmentation client splits its work.
pub struct SegmenterSettings {
    /// The most labels in one request.
    pub max_batch_size: usize,
    /// The most requests in flight at once.
    pub parallel_requests: usize,
}

impl SegmenterSettings {
    /// Settings from optional values: 50 000 labels per request and 4
    /// requests at once unless given.
    pub fn new(max_batch_size: Option<usize>, parallel_requests: Option<usize>) -> (r: Self)
        ensures
            r.max_batch_size == (match max_batch_size {
                Some(n) => n,
                None => 50000,
            }),
            r.parallel_requests == (match parallel_requests {
                Some(n) => n,
                None => 4,
            }),
    {
        SegmenterSettings {
            max_batch_size: match max_batch_size {
                Some(n) => n,
                None => 50000,
            },
            parallel_requests: match parallel_requests {
                Some(n) => n,
                None => 4,
            },
        }
    }

    /// The requests for a list of labels: consecutive pieces of at most
    /// `max_batch_size` labels, in input order.
    pub fn request_chunks(&self, labels: &Vec<String>) -> (r: Vec<Vec<String>>)
        requires
            self.max_batch_size > 0,
        ensures
            batch_views(r@) == chunks_of(views(labels@), self.max_batch_size as nat),
    {
        batch_stream(labels, self.max_batch_size)
    }
}

} // verus!
