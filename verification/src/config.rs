//! The configuration of the server.
use crate::bytes::same_bytes;
use crate::constants::get_ratelimiter;
use crate::ratelimit::{Bucket, BucketView, Mint};
use crate::text::{decimal, decimal_text, object_text, ObjectText};
use vstd::prelude::*;

verus! {

/// The parameters of a leaky bucket.
#[derive(Clone, Copy, PartialEq, Eq, Structural, Debug)]
pub struct Ratelimit {
    pub max_tokens: u32,
    pub tokens: u32,
    pub refill_amount: u32,
    pub refill_millis: u64,
}

/// The members of a ratelimit's text.
pub open spec fn ratelimit_fields(limit: Ratelimit) -> Seq<(Seq<char>, Seq<char>)> {
    seq![
        ("max_tokens"@, decimal(limit.max_tokens as nat)),
        ("tokens"@, decimal(limit.tokens as nat)),
        ("refill_amount"@, decimal(limit.refill_amount as nat)),
        ("refill_millis"@, decimal(limit.refill_millis as nat)),
    ]
}

/// A ratelimit as a JSON object.
pub open spec fn ratelimit_text(limit: Ratelimit) -> Seq<char> {
    object_text(true, ratelimit_fields(limit))
}

impl Ratelimit {
    /// The four numbers, in the order in which a bucket is made with them.
    pub open spec fn parameters(self) -> (u32, u32, u32, u64) {
        (self.max_tokens, self.tokens, self.refill_amount, self.refill_millis)
    }

    /// The ratelimit as a JSON object.
    pub fn to_json(&self) -> (text: String)
        ensures
            text@ == ratelimit_text(*self),
    {
        let mut object = ObjectText::new(true);
        object.field("max_tokens", decimal_text(self.max_tokens as u64).as_str());
        object.field("tokens", decimal_text(self.tokens as u64).as_str());
        object.field("refill_amount", decimal_text(self.refill_amount as u64).as_str());
        object.field("refill_millis", decimal_text(self.refill_millis).as_str());
        assert(object.fields() =~= ratelimit_fields(*self));
        object.finish()
    }
}

/// A room that exists by configuration.
#[derive(Debug)]
pub struct PublicChannel {
    pub name: String,
    pub read_only: bool,
    /// The text of a JSON value.
    pub extra_info: Option<String>,
    pub msg_freq_ratelimit: Option<Ratelimit>,
    pub msg_size_ratelimit: Option<Ratelimit>,
}

/// The configuration of the server.
#[derive(Debug)]
pub struct Config {
    pub port: u16,
    pub connections_per_ip: usize,
    pub msg_freq_ratelimit: Ratelimit,
    pub msg_size_ratelimit: Ratelimit,
    pub max_message_size: usize,
    pub admin_password_hash: Option<String>,
    pub public_channels: Vec<PublicChannel>,
    pub behind_proxy: bool,
    pub metrics_token: Option<String>,
}

impl Config {
    /// A ratelimiter for how often one address sends.
    pub fn get_global_freq_ratelimiter(&self, mint: &mut Mint) -> (bucket: Bucket)
        ensures
            bucket@ == (BucketView {
                number: old(mint)@,
                parameters: self.msg_freq_ratelimit.parameters(),
            }),
            final(mint)@ == old(mint)@ + 1,
    {
        get_ratelimiter(&self.msg_freq_ratelimit, mint)
    }

    /// A ratelimiter for how much one address sends.
    pub fn get_global_size_ratelimiter(&self, mint: &mut Mint) -> (bucket: Bucket)
        ensures
            bucket@ == (BucketView {
                number: old(mint)@,
                parameters: self.msg_size_ratelimit.parameters(),
            }),
            final(mint)@ == old(mint)@ + 1,
    {
        get_ratelimiter(&self.msg_size_ratelimit, mint)
    }
}

impl Default for Config {
    /// The configuration of a server that was told nothing: port 3333, 50
    /// connections for each address, 10 messages in a second, 5 MiB in ten seconds,
    /// payloads of 1 MiB, no administrator, no public rooms, no proxy and metrics
    /// for everyone.
    fn default() -> (config: Self)
        ensures
            config.port == 3333,
            config.connections_per_ip == 50,
            config.msg_freq_ratelimit == (Ratelimit {
                max_tokens: 10,
                tokens: 10,
                refill_amount: 10,
                refill_millis: 1000,
            }),
            config.msg_size_ratelimit == (Ratelimit {
                max_tokens: 5_242_880,
                tokens: 5_242_880,
                refill_amount: 5_242_880,
                refill_millis: 10000,
            }),
            config.max_message_size == 1_048_576,
            config.admin_password_hash is None,
            config.public_channels@.len() == 0,
            !config.behind_proxy,
            config.metrics_token is None,
    {
        Config {
            port: default_port(),
            connections_per_ip: default_connections_per_ip(),
            msg_freq_ratelimit: default_msg_freq(),
            msg_size_ratelimit: default_msg_size(),
            max_message_size: default_max_message_size(),
            admin_password_hash: None,
            public_channels: Vec::new(),
            behind_proxy: default_behind_proxy(),
            metrics_token: None,
        }
    }
}

pub fn default_port() -> (port: u16)
    ensures
        port == 3333,
{
    3333
}

pub fn default_connections_per_ip() -> (limit: usize)
    ensures
        limit == 50,
{
    50
}

pub fn default_msg_freq() -> (limit: Ratelimit)
    ensures
        limit == (Ratelimit {
            max_tokens: 10,
            tokens: 10,
            refill_amount: 10,
            refill_millis: 1000,
        }),
{
    Ratelimit { max_tokens: 10, tokens: 10, refill_amount: 10, refill_millis: 1000 }
}

pub fn default_msg_size() -> (limit: Ratelimit)
    ensures
        limit == (Ratelimit {
            max_tokens: 5_242_880,
            tokens: 5_242_880,
            refill_amount: 5_242_880,
            refill_millis: 10000,
        }),
{
    Ratelimit {
        max_tokens: 5_242_880,
        tokens: 5_242_880,
        refill_amount: 5_242_880,
        refill_millis: 10000,
    }
}

pub fn default_max_message_size() -> (size: usize)
    ensures
        size == 1_048_576,
{
    1_048_576
}

pub fn default_behind_proxy() -> (behind: bool)
    ensures
        !behind,
{
    false
}

/// Where the configuration is read from: the file that was named, or
/// `config.json`.
pub fn config_file(argument: Option<String>) -> (file: String)
    ensures
        file@ == (match argument {
            Some(name) => name@,
            None => "config.json"@,
        }),
{
    match argument {
        Some(name) => name,
        None => "config.json".to_owned(),
    }
}

/// What is read as the configuration: the file's content, or an empty object where
/// there is no file.
pub fn config_text(content: Option<String>) -> (text: String)
    ensures
        text@ == (match content {
            Some(content) => content@,
            None => "{}"@,
        }),
{
    match content {
        Some(content) => content,
        None => "{}".to_owned(),
    }
}

/// The directory to watch for changes of the configuration, given the directory of
/// its path: an empty one is the current directory. Without one nothing is watched.
pub fn watched_directory(parent: Option<Vec<u8>>) -> (directory: Option<Vec<u8>>)
    ensures
        parent is None ==> directory is None,
        parent matches Some(path) ==> directory is Some && directory->0@ == (if path@.len() == 0 {
            seq![46u8]
        } else {
            path@
        }),
{
    match parent {
        Some(path) => {
            if path.len() == 0 {
                let mut current: Vec<u8> = Vec::new();
                current.push(46);
                assert(current@ =~= seq![46u8]);
                Some(current)
            } else {
                Some(path)
            }
        },
        None => None,
    }
}

/// Whether a change in the watched directory is one of the configuration: it has a
/// name, and that is the name of the file.
pub fn concerns_config(changed: Option<&Vec<u8>>, file_name: Option<&Vec<u8>>) -> (concerns: bool)
    ensures
        concerns == (changed is Some && file_name is Some && changed->0@ == file_name->0@),
{
    match (changed, file_name) {
        (Some(changed), Some(file_name)) => same_bytes(changed.as_slice(), file_name.as_slice()),
        _ => false,
    }
}

} // verus!
