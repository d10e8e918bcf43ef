//! Fixed texts of the protocol and the rule for room names.
use crate::config::Ratelimit;
use crate::ratelimit::{Bucket, BucketView, Mint};
use vstd::prelude::*;

verus! {

/// What a websocket key is extended with before it is hashed.
pub const GUID: &'static str = "258EAFA5-E914-47DA-95CA-C5AB0DC85B11";

pub const INVALID_ROOM_MSG: &'static str =
    "\"You attempted to interact with an invalid room, either because you are subscribed and trying to subscribe again or because you are not subscribed and unsubscribing or sending a message\"";

pub const ROOM_NAME_TOO_SHORT: &'static str = "\"The room name provided is shorter than 32 characters\"";

pub const ROOM_READ_ONLY: &'static str =
    "\"The room you attempted to send a message in is in read-only mode\"";

pub const INVALID_JSON_MSG: &'static str =
    "{\"type\": \"error\", \"body\": \"You sent an invalid JSON payload\"}";

pub const INVALID_MSG: &'static str =
    "\"Your JSON payload is missing required fields or has a disallowed type\"";

pub const ROOM_JOIN_MSG: &'static str = "\"You joined the room\"";

pub const ROOM_LEAVE_MSG: &'static str = "\"You left the room\"";

/// The fewest characters that the name of a private room has.
pub const MIN_ROOM_LEN: usize = 32;

/// The names that a client may make up: those of at least 32 characters.
pub open spec fn valid_room_name(room: Seq<char>) -> bool {
    room.len() >= MIN_ROOM_LEN
}

/// Whether a client may make a room of this name. All other rooms come from the
/// configuration.
pub fn is_valid_room(room: &str) -> (valid: bool)
    ensures
        valid == valid_room_name(room@),
{
    room.unicode_len() >= MIN_ROOM_LEN
}

/// Makes a rate limiter with the given parameters. It is a bucket of its own: no other
/// bucket of the mint has its number.
pub fn get_ratelimiter(ratelimit: &Ratelimit, mint: &mut Mint) -> (bucket: Bucket)
    ensures
        bucket@ == (BucketView { number: old(mint)@, parameters: ratelimit.parameters() }),
        final(mint)@ == old(mint)@ + 1,
{
    mint.make(
        ratelimit.max_tokens,
        ratelimit.tokens,
        ratelimit.refill_amount,
        ratelimit.refill_millis,
    )
}

} // verus!
