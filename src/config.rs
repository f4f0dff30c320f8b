//! The settings of the service and of the indexer.

use vstd::prelude::*;

use crate::error::Error;
use crate::text::{decimal_value, parse_decimal, push_str};

verus! {

/// The settings, as read from the environment.
pub struct Config {
    /// The address of the word-segmentation service.
    pub word_splitter_url: String,
    /// The user name for the word-segmentation service.
    pub word_splitter_user: String,
    /// The password for the word-segmentation service.
    pub word_splitter_pass: String,
    /// The token for the zone file service.
    pub zonefile_token: String,
    /// The address of the zone file service.
    pub zonefile_api_url: String,
    /// Where the index lives.
    pub index_path: String,
    /// The address of the result cache, if any.
    pub redis_url: Option<String>,
    /// The port the service listens on.
    pub api_port: u16,
    /// The write buffer of the index, in bytes.
    pub index_heap_size: u64,
    /// How many labels go to the segmentation service at once.
    pub word_batch_size: usize,
    /// How many documents are added between commits.
    pub index_batch_size: usize,
}

/// The values of the environment variables that the settings come from,
/// each absent where the variable is not set.
pub struct EnvValues {
    pub word_splitter_url: Option<String>,
    pub word_splitter_user: Option<String>,
    pub word_splitter_pass: Option<String>,
    pub zonefile_token: Option<String>,
    pub zonefile_api_url: Option<String>,
    pub index_path: Option<String>,
    pub redis_url: Option<String>,
    pub api_port: Option<String>,
    pub index_heap_size: Option<String>,
    pub word_batch_size: Option<String>,
    pub index_batch_size: Option<String>,
}

/// The default write buffer: 4 GiB.
pub const DEFAULT_HEAP_SIZE: u64 = 4 * 1024 * 1024 * 1024;

/// A given text, or the default.
pub open spec fn text_or(v: Option<String>, default: Seq<char>) -> Seq<char> {
    match v {
        Some(s) => s@,
        None => default,
    }
}

/// A number read from a given text; the default where the text is absent or
/// is not a number of at most `max`.
pub open spec fn number_or(v: Option<String>, max: nat, default: nat) -> nat {
    match v {
        Some(s) => match decimal_value(s@, max) {
            Some(n) => n,
            None => default,
        },
        None => default,
    }
}

fn text_or_default(v: Option<String>, default: &str) -> (r: String)
    ensures
        r@ == text_or(v, default@),
{
    match v {
        Some(s) => s,
        None => String::from_str(default),
    }
}

fn number_or_default(v: &Option<String>, max: u64, default: u64) -> (r: u64)
    requires
        default <= max,
    ensures
        r as nat == number_or(*v, max as nat, default as nat),
        r <= max,
{
    match v {
        Some(s) => match parse_decimal(s.as_str(), max) {
            Some(n) => n,
            None => default,
        },
        None => default,
    }
}

fn missing(name: &str) -> (r: Error)
    ensures
        r matches Error::Config(m) && m@ == name@ + " not set"@,
{
    let mut m = String::from_str(name);
    push_str(&mut m, " not set");
    Error::Config(m)
}

impl Config {
    /// Settings from the environment. The user, the password and the token
    /// are required, checked in that order; the others have defaults, and a
    /// number that does not parse takes its default.
    pub fn from_values(env: EnvValues) -> (r: Result<Config, Error>)
        ensures
            r is Err <==> env.word_splitter_user is None || env.word_splitter_pass is None
                || env.zonefile_token is None,
            r matches Err(e) ==> e is Config,
            r matches Ok(c) ==> {
                &&& c.word_splitter_url@ == text_or(
                    env.word_splitter_url,
                    "https://moustafamahdy.xyz/word-splitter-api"@,
                )
                &&& env.word_splitter_user matches Some(u) && c.word_splitter_user@ == u@
                &&& env.word_splitter_pass matches Some(p) && c.word_splitter_pass@ == p@
                &&& env.zonefile_token matches Some(t) && c.zonefile_token@ == t@
                &&& c.zonefile_api_url@ == text_or(
                    env.zonefile_api_url,
                    "https://domains-monitor.com/api/v1"@,
                )
                &&& c.index_path@ == text_or(env.index_path, "./data/index"@)
                &&& (c.redis_url is Some <==> env.redis_url is Some)
                &&& (c.redis_url matches Some(x) ==> env.redis_url matches Some(y) && x@ == y@)
                &&& c.api_port as nat == number_or(env.api_port, 65535, 3000)
                &&& c.index_heap_size as nat == number_or(
                    env.index_heap_size,
                    u64::MAX as nat,
                    DEFAULT_HEAP_SIZE as nat,
                )
                &&& c.word_batch_size as nat == number_or(env.word_batch_size, usize::MAX as nat, 500)
                &&& c.index_batch_size as nat == number_or(
                    env.index_batch_size,
                    usize::MAX as nat,
                    1_000_000,
                )
            },
    {
        let word_splitter_user = match env.word_splitter_user {
            Some(u) => u,
            None => return Err(missing("WORD_SPLITTER_USER")),
        };
        let word_splitter_pass = match env.word_splitter_pass {
            Some(p) => p,
            None => return Err(missing("WORD_SPLITTER_PASS")),
        };
        let zonefile_token = match env.zonefile_token {
            Some(t) => t,
            None => return Err(missing("ZONEFILE_TOKEN")),
        };
        let api_port = number_or_default(&env.api_port, 65535, 3000) as u16;
        let index_heap_size = number_or_default(&env.index_heap_size, u64::MAX, DEFAULT_HEAP_SIZE);
        let word_batch_size = number_or_default(&env.word_batch_size, usize::MAX as u64, 500) as usize;
        let index_batch_size = number_or_default(&env.index_batch_size, usize::MAX as u64, 1_000_000)
            as usize;
        Ok(
            Config {
                word_splitter_url: text_or_default(
                    env.word_splitter_url,
                    "https://moustafamahdy.xyz/word-splitter-api",
                ),
                word_splitter_user,
                word_splitter_pass,
                zonefile_token,
                zonefile_api_url: text_or_default(
                    env.zonefile_api_url,
                    "https://domains-monitor.com/api/v1",
                ),
                index_path: text_or_default(env.index_path, "./data/index"),
                redis_url: env.redis_url,
                api_port,
                index_heap_size,
                word_batch_size,
                index_batch_size,
            },
        )
    }

    /// Settings for tests: local services, a 50 MiB write buffer, batches of
    /// ten labels and commits every hundred documents.
    pub fn test() -> (r: Config)
        ensures
            r.word_splitter_url@ == "http://localhost:8080"@,
            r.word_splitter_user@ == "test"@,
            r.word_splitter_pass@ == "test"@,
            r.zonefile_token@ == "test-token"@,
            r.zonefile_api_url@ == "http://localhost:8081"@,
            r.index_path@ == "/tmp/test-index"@,
            r.redis_url is None,
            r.api_port == 3000,
            r.index_heap_size == 50 * 1024 * 1024,
            r.word_batch_size == 10,
            r.index_batch_size == 100,
    {
        Config {
            word_splitter_url: String::from_str("http://localhost:8080"),
            word_splitter_user: String::from_str("test"),
            word_splitter_pass: String::from_str("test"),
            zonefile_token: String::from_str("test-token"),
            zonefile_api_url: String::from_str("http://localhost:8081"),
            index_path: String::from_str("/tmp/test-index"),
            redis_url: None,
            api_port: 3000,
            index_heap_size: 50 * 1024 * 1024,
            word_batch_size: 10,
            index_batch_size: 100,
        }
    }
}

} // verus!
