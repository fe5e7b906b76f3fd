//! One measurement: a query goes out, a datagram comes back, and the time in
//! between is the server's latency if the datagram is a sound response.
//!
//! The socket and the clock are the caller's. What is here says what to send,
//! how long to wait, and what to make of the reply.

use crate::error::DnsError;
use crate::wire::{decode_response, decoded_response, encode_query, encoded_query, query_view};
use vstd::prelude::*;

verus! {

/// The port that the servers are asked on.
pub const DNS_PORT: u16 = 53;

/// How long to wait for the reply to one query, in seconds.
pub const RECEIVE_TIMEOUT_SECS: u64 = 3;

/// The room to keep for a reply, in octets.
pub const MAX_REPLY_LEN: usize = 512;

/// What a measurement comes to when `datagram` arrived after `elapsed`
/// nanoseconds: that time if the datagram is a sound response, and else the
/// reason why it is none.
pub open spec fn measured(elapsed: u64, datagram: Seq<u8>) -> Result<u64, DnsError> {
    match decoded_response(datagram) {
        Ok(_) => Ok(elapsed),
        Err(e) => Err(e),
    }
}

/// Calls `rand::random::<u16>()`. Nothing is claimed of the number.
#[verifier::external_body]
fn random_id() -> u16 {
    rand::random::<u16>()
}

/// The query for the address records of `domain` under a fresh identifier,
/// drawn at random.
pub fn fresh_query(domain: &str) -> (query: Result<Vec<u8>, DnsError>)
    ensures
        exists|id: u16| query_view(query) == #[trigger] encoded_query(domain@, id),
{
    let id = random_id();
    encode_query(domain, id)
}

/// Makes of a reply what the measurement comes to: the time that passed, in
/// nanoseconds, if the datagram is a sound response.
pub fn measure_reply(elapsed: u64, datagram: &[u8]) -> (result: Result<u64, DnsError>)
    ensures
        result == measured(elapsed, datagram@),
{
    match decode_response(datagram) {
        Ok(_) => Ok(elapsed),
        Err(e) => Err(e),
    }
}

} // verus!
