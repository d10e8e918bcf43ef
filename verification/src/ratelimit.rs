//! Rate limiters and what a message costs.
use crate::config::Ratelimit;
use crate::constants::get_ratelimiter;
use leaky_bucket_lite::LeakyBucket;
use std::time::Duration;
use vstd::prelude::*;

verus! {

/// `leaky_bucket_lite::LeakyBucket`, seen from outside only.
#[verifier::external_type_specification]
#[verifier::external_body]
pub struct ExLeakyBucket(leaky_bucket_lite::LeakyBucket);

/// What a bucket was made with: the most tokens it holds, the tokens it starts
/// with, the tokens it gains at a time, and the milliseconds between two gains.
pub uninterp spec fn bucket_parameters(bucket: LeakyBucket) -> (u32, u32, u32, u64);

/// Calls `LeakyBucket::builder`, the four setters of the builder, and `build`:
/// the bucket is made with the given parameters. Which tokens it holds at a later
/// time is left unsaid: that goes by the clock.
#[verifier::external_body]
pub(crate) fn build_bucket(max: u32, tokens: u32, refill_amount: u32, refill_millis: u64) -> (bucket:
    LeakyBucket)
    ensures
        bucket_parameters(bucket) == (max, tokens, refill_amount, refill_millis),
{
    LeakyBucket::builder()
        .max(max)
        .tokens(tokens)
        .refill_interval(Duration::from_millis(refill_millis))
        .refill_amount(refill_amount)
        .build()
}

/// Where buckets are made. It numbers them, so that no two of its buckets have one
/// number. A bucket cannot be copied: its number stands for it.
pub struct Mint {
    made: Ghost<nat>,
}

impl View for Mint {
    type V = nat;

    /// How many buckets were made.
    closed spec fn view(&self) -> nat {
        self.made@
    }
}

/// A bucket with its number.
pub struct Bucket {
    number: Ghost<nat>,
    leaky: LeakyBucket,
}

/// Which bucket it is, and what it was made with.
#[verifier::ext_equal]
pub struct BucketView {
    pub number: nat,
    pub parameters: (u32, u32, u32, u64),
}

impl View for Bucket {
    type V = BucketView;

    closed spec fn view(&self) -> BucketView {
        BucketView { number: self.number@, parameters: bucket_parameters(self.leaky) }
    }
}

impl Mint {
    /// A mint that has made nothing yet.
    pub fn new() -> (mint: Self)
        ensures
            mint@ == 0,
    {
        Mint { made: Ghost(0) }
    }

    /// Makes a bucket. Its number is one that none of the buckets made before has.
    pub fn make(&mut self, max: u32, tokens: u32, refill_amount: u32, refill_millis: u64) -> (bucket:
        Bucket)
        ensures
            bucket@ == (BucketView {
                number: old(self)@,
                parameters: (max, tokens, refill_amount, refill_millis),
            }),
            final(self)@ == old(self)@ + 1,
    {
        let number: Ghost<nat> = self.made;
        self.made = Ghost(number@ + 1);
        Bucket { number, leaky: build_bucket(max, tokens, refill_amount, refill_millis) }
    }
}

impl Bucket {
    /// The bucket itself, to take tokens from.
    pub fn leaky(&self) -> (leaky: &LeakyBucket)
        ensures
            bucket_parameters(*leaky) == self@.parameters,
    {
        &self.leaky
    }
}

/// Ratelimiters for a client's messages.
pub struct Ratelimiters {
    /// Size ratelimiter.
    pub size: Option<Bucket>,
    /// Frequency ratelimiter.
    pub freq: Option<Bucket>,
}

/// A client's ratelimiters: which they are, and what they were made with.
#[verifier::ext_equal]
pub struct RatelimitersView {
    pub size: Option<BucketView>,
    pub freq: Option<BucketView>,
}

/// What an optional bucket is.
pub open spec fn bucket_said(bucket: Option<Bucket>) -> Option<BucketView> {
    match bucket {
        Some(b) => Some(b@),
        None => None,
    }
}

impl View for Ratelimiters {
    type V = RatelimitersView;

    open spec fn view(&self) -> RatelimitersView {
        RatelimitersView { size: bucket_said(self.size), freq: bucket_said(self.freq) }
    }
}

/// A bucket that is made after `made` others, if there is a ratelimit to make it with.
pub open spec fn bucket_for(limit: Option<Ratelimit>, made: nat) -> Option<BucketView> {
    match limit {
        Some(l) => Some(BucketView { number: made, parameters: l.parameters() }),
        None => None,
    }
}

/// How many buckets an optional ratelimit takes.
pub open spec fn buckets_for(limit: Option<Ratelimit>) -> nat {
    if limit is Some {
        1
    } else {
        0
    }
}

/// Ratelimiters that are made after `made` other buckets: first the one for the
/// frequency, then the one for the size.
pub open spec fn limits_for(
    freq: Option<Ratelimit>,
    size: Option<Ratelimit>,
    made: nat,
) -> RatelimitersView {
    RatelimitersView {
        freq: bucket_for(freq, made),
        size: bucket_for(size, made + buckets_for(freq)),
    }
}

impl RatelimitersView {
    /// The bucket of that number is one of these.
    pub open spec fn holds(self, number: nat) -> bool {
        ||| (self.freq matches Some(bucket) && bucket.number == number)
        ||| (self.size matches Some(bucket) && bucket.number == number)
    }

    /// The two buckets are different ones, and were made among the first `made`.
    pub open spec fn made_among(self, made: nat) -> bool {
        &&& forall|number: nat| #[trigger] self.holds(number) ==> number < made
        &&& self.freq is Some && self.size is Some ==> self.freq->0.number != self.size->0.number
    }

    /// No bucket is one of these and one of those.
    pub open spec fn apart_from(self, those: RatelimitersView) -> bool {
        forall|number: nat| !(#[trigger] self.holds(number) && #[trigger] those.holds(number))
    }

    /// The buckets were made with these ratelimits.
    pub open spec fn made_with(self, freq: Option<Ratelimit>, size: Option<Ratelimit>) -> bool {
        &&& self.freq is Some == freq is Some
        &&& self.size is Some == size is Some
        &&& freq matches Some(limit) ==> self.freq->0.parameters == limit.parameters()
        &&& size matches Some(limit) ==> self.size->0.parameters == limit.parameters()
    }
}

/// Makes ratelimiters.
pub(crate) fn make_ratelimiters(
    freq: &Option<Ratelimit>,
    size: &Option<Ratelimit>,
    mint: &mut Mint,
) -> (limits: Ratelimiters)
    ensures
        limits@ == limits_for(*freq, *size, old(mint)@),
        final(mint)@ == old(mint)@ + buckets_for(*freq) + buckets_for(*size),
{
    let freq_bucket = match freq {
        Some(limit) => Some(get_ratelimiter(limit, mint)),
        None => None,
    };
    let size_bucket = match size {
        Some(limit) => Some(get_ratelimiter(limit, mint)),
        None => None,
    };
    Ratelimiters { freq: freq_bucket, size: size_bucket }
}

/// What has to be taken from a ratelimiter before a message may pass.
#[derive(Clone, Copy, PartialEq, Eq, Structural, Debug)]
pub enum Charge {
    /// One token of the frequency ratelimiter.
    Frequency,
    /// This many tokens of the size ratelimiter.
    Size(u32),
}

/// What a message of `payload_size` bytes costs, in the order in which it is paid.
pub open spec fn charges(limits: RatelimitersView, payload_size: int) -> Seq<Charge> {
    (if limits.freq is Some {
        seq![Charge::Frequency]
    } else {
        seq![]
    }) + (if limits.size is Some {
        seq![Charge::Size((payload_size % 0x1_0000_0000) as u32)]
    } else {
        seq![]
    })
}

impl Ratelimiters {
    /// What sending a message costs. The size counts modulo 2 to the 32.
    pub fn send_message(&self, payload_size: usize) -> (due: Vec<Charge>)
        ensures
            due@ == charges(self@, payload_size as int),
    {
        let mut due: Vec<Charge> = Vec::new();
        if self.freq.is_some() {
            due.push(Charge::Frequency);
        }
        if self.size.is_some() {
            due.push(Charge::Size((payload_size as u64 % 0x1_0000_0000) as u32));
        }
        assert(due@ =~= charges(self@, payload_size as int));
        due
    }
}

} // verus!
