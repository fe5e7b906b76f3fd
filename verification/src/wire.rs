//! The two DNS messages of one measurement: the query that goes out and the
//! response that comes back.
//!
//! Messages are written and read by `trust_dns_client`. Nothing is assumed of
//! the bytes it writes beyond their being the same for the same request: the
//! shape of every query is checked here before it is handed out.

use crate::address::Address;
use crate::error::DnsError;
use std::str::FromStr;
use trust_dns_client::op::{Message, Query};
use trust_dns_client::rr::{Name, RData, RecordType};
use vstd::prelude::*;

verus! {

/// The code of the record type that maps a name to an IPv4 address.
pub const TYPE_A: u16 = 1;

/// The code of the Internet class.
pub const CLASS_IN: u16 = 1;

/// The number of octets in the fixed header of a message.
pub const HEADER_LEN: usize = 12;

/// The longest label of a name, in octets.
pub const MAX_LABEL_LEN: u8 = 63;

/// The longest name on the wire, in octets, length octets included.
pub const MAX_NAME_LEN: usize = 255;

/// One record of a response's answer section, as far as a measurement reads it.
#[derive(Clone, Copy, Debug, PartialEq, Eq)]
pub struct Answer {
    /// The code of the record's type.
    pub record_type: u16,
    /// The address that the record's data holds, if it holds one.
    pub address: Option<Address>,
}

/// A response whose answer section was read and found sound.
#[derive(Clone, Debug, PartialEq, Eq)]
pub struct Response {
    /// The answer section, in the order of the message.
    pub answers: Vec<Answer>,
}

/// Where the name that starts at `pos` ends: the position after its closing
/// zero octet. `None` if the octets from `pos` on are not a sequence of labels
/// of 1 to 63 octets each that a zero octet closes within `bytes`.
pub open spec fn name_end(bytes: Seq<u8>, pos: int) -> Option<int>
    decreases bytes.len() - pos,
{
    if pos < 0 || pos >= bytes.len() {
        None
    } else if bytes[pos] == 0 {
        Some(pos + 1)
    } else if bytes[pos] > MAX_LABEL_LEN || pos + 1 + bytes[pos] >= bytes.len() {
        None
    } else {
        name_end(bytes, pos + 1 + bytes[pos])
    }
}

/// The header of a standard query with the identifier `id`: not a response,
/// opcode zero, recursion desired and no other flag, one question and no other
/// record.
pub open spec fn query_header(id: u16) -> Seq<u8> {
    seq![(id / 256) as u8, (id % 256) as u8, 1u8, 0u8, 0u8, 1u8, 0u8, 0u8, 0u8, 0u8, 0u8, 0u8]
}

/// What follows the name in the question of a query for address records: the
/// code of the type and the code of the class, each in two octets.
pub open spec fn question_tail() -> Seq<u8> {
    seq![
        (TYPE_A / 256) as u8,
        (TYPE_A % 256) as u8,
        (CLASS_IN / 256) as u8,
        (CLASS_IN % 256) as u8,
    ]
}

/// `bytes` is a standard query with the identifier `id` that asks one question,
/// for the address records of one name in the Internet class, and holds
/// nothing else.
pub open spec fn address_query(bytes: Seq<u8>, id: u16) -> bool {
    &&& bytes.len() >= HEADER_LEN
    &&& bytes.subrange(0, HEADER_LEN as int) == query_header(id)
    &&& name_end(bytes, HEADER_LEN as int) matches Some(end)
    &&& end - HEADER_LEN <= MAX_NAME_LEN
    &&& bytes.len() == end + 4
    &&& bytes.subrange(end, end + 4) == question_tail()
}

/// Every answer of the address type holds an address.
pub open spec fn answers_sound(answers: Seq<Answer>) -> bool {
    forall|i: int|
        0 <= i < answers.len() && (#[trigger] answers[i]).record_type == TYPE_A
            ==> answers[i].address is Some
}

/// The addresses of the answers of the address type, in their order.
pub open spec fn answer_addresses(answers: Seq<Answer>) -> Seq<Address>
    decreases answers.len(),
{
    if answers.len() == 0 {
        Seq::empty()
    } else {
        let rest = answer_addresses(answers.drop_last());
        match answers.last().address {
            Some(address) if answers.last().record_type == TYPE_A => rest.push(address),
            _ => rest,
        }
    }
}

/// The octets that the message library writes for a query with the identifier
/// `id`, the flag `recursion_desired` and one question, for the records of the
/// type `record_type` of `domain`. `None` where it refuses the domain or the
/// message.
pub uninterp spec fn query_wire(
    domain: Seq<char>,
    id: u16,
    record_type: u16,
    recursion_desired: bool,
) -> Option<Seq<u8>>;

/// The answer section that the message library reads from `bytes`. `None`
/// where it refuses the message.
pub uninterp spec fn wire_answers(bytes: Seq<u8>) -> Option<Seq<Answer>>;

/// The octets of a query, or why there are none, as values of specifications.
pub open spec fn query_view(query: Result<Vec<u8>, DnsError>) -> Result<Seq<u8>, DnsError> {
    match query {
        Ok(bytes) => Ok(bytes@),
        Err(e) => Err(e),
    }
}

/// What `encode_query` gives for a domain and an identifier.
pub open spec fn encoded_query(domain: Seq<char>, id: u16) -> Result<Seq<u8>, DnsError> {
    accepted_query(query_wire(domain, id, TYPE_A, true), id)
}

/// What `accept_query` gives for the octets that were written.
pub open spec fn accepted_query(wire: Option<Seq<u8>>, id: u16) -> Result<Seq<u8>, DnsError> {
    match wire {
        Some(bytes) if address_query(bytes, id) => Ok(bytes),
        _ => Err(DnsError::InvalidQuery),
    }
}

/// The answers of a response, or why there is none, as values of
/// specifications.
pub open spec fn response_view(response: Result<Response, DnsError>) -> Result<
    Seq<Answer>,
    DnsError,
> {
    match response {
        Ok(r) => Ok(r@),
        Err(e) => Err(e),
    }
}

/// What `check_answers` gives for an answer section.
pub open spec fn checked_answers(answers: Seq<Answer>) -> Result<Seq<Answer>, DnsError> {
    if answers_sound(answers) {
        Ok(answers)
    } else {
        Err(DnsError::InvalidAddress)
    }
}

/// What `decode_response` gives for the octets of a datagram: the answers
/// read from it, if they are sound. A datagram that is cut off within the
/// header is malformed, whatever else it holds.
pub open spec fn decoded_response(bytes: Seq<u8>) -> Result<Seq<Answer>, DnsError> {
    if bytes.len() < HEADER_LEN {
        Err(DnsError::MalformedResponse)
    } else {
        match wire_answers(bytes) {
            Some(answers) => checked_answers(answers),
            None => Err(DnsError::MalformedResponse),
        }
    }
}

impl View for Response {
    type V = Seq<Answer>;

    open spec fn view(&self) -> Seq<Answer> {
        self.answers@
    }
}

/// Calls `Name::from_str`, then builds a `Message` with `Message::new`,
/// `set_id`, `set_recursion_desired` and `add_query` on `Query::query`, and
/// writes it with `Message::to_vec`. Claimed: the outcome depends on the four
/// arguments alone. Nothing is claimed of the octets themselves.
#[verifier::external_body]
fn write_query(domain: &str, id: u16, record_type: u16, recursion_desired: bool) -> (wire: Option<
    Vec<u8>,
>)
    ensures
        wire matches Some(bytes) ==> query_wire(domain@, id, record_type, recursion_desired)
            == Some(bytes@),
        wire is None ==> query_wire(domain@, id, record_type, recursion_desired) is None,
{
    let name = Name::from_str(domain).ok()?;
    let mut message = Message::new();
    message.set_id(id).set_recursion_desired(recursion_desired);
    message.add_query(Query::query(name, RecordType::from(record_type)));
    message.to_vec().ok()
}

/// Calls `Message::from_vec` and hands out the records of `Message::answers`:
/// of each its type, as `u16::from` gives the code of `Record::record_type`,
/// and the address in `Record::data`, where the data is of the variant `A` or
/// `AAAA`. Claimed: the outcome depends on the octets alone.
#[verifier::external_body]
fn read_answers(bytes: &[u8]) -> (answers: Option<Vec<Answer>>)
    ensures
        answers matches Some(read) ==> wire_answers(bytes@) == Some(read@),
        answers is None ==> wire_answers(bytes@) is None,
{
    let message = Message::from_vec(bytes).ok()?;
    Some(message.answers().iter().map(|record| Answer {
        record_type: u16::from(record.record_type()),
        address: match record.data() {
            Some(RData::A(v4)) => Some(Address::V4(u32::from(*v4))),
            Some(RData::AAAA(v6)) => Some(Address::V6(u128::from(*v6))),
            _ => None,
        },
    }).collect())
}

/// Tells whether `bytes` is a well-formed query for the address records of one
/// name, with the identifier `id`.
pub fn is_address_query(bytes: &[u8], id: u16) -> (ok: bool)
    ensures
        ok == address_query(bytes@, id),
{
    if bytes.len() < HEADER_LEN + 5 {
        proof {
            if bytes.len() >= HEADER_LEN {
                lemma_name_end_bounds(bytes@, HEADER_LEN as int);
            }
        }
        return false;
    }
    let header_ok = bytes[0] == (id / 256) as u8 && bytes[1] == (id % 256) as u8 && bytes[2] == 1
        && bytes[3] == 0 && bytes[4] == 0 && bytes[5] == 1 && bytes[6] == 0 && bytes[7] == 0
        && bytes[8] == 0 && bytes[9] == 0 && bytes[10] == 0 && bytes[11] == 0;
    if !header_ok {
        assert(bytes@.subrange(0, HEADER_LEN as int) != query_header(id)) by {
            let head = bytes@.subrange(0, HEADER_LEN as int);
            let want = query_header(id);
            if head == want {
                assert(forall|i: int| 0 <= i < 12 ==> head[i] == want[i]);
                assert(head[0] == bytes@[0] && head[1] == bytes@[1] && head[2] == bytes@[2]
                    && head[3] == bytes@[3] && head[4] == bytes@[4] && head[5] == bytes@[5]
                    && head[6] == bytes@[6] && head[7] == bytes@[7] && head[8] == bytes@[8]
                    && head[9] == bytes@[9] && head[10] == bytes@[10] && head[11] == bytes@[11]);
            }
        }
        return false;
    }
    assert(bytes@.subrange(0, HEADER_LEN as int) =~= query_header(id));
    let mut pos: usize = HEADER_LEN;
    while bytes[pos] != 0
        invariant
            HEADER_LEN <= pos < bytes.len(),
            name_end(bytes@, pos as int) == name_end(bytes@, HEADER_LEN as int),
        decreases bytes.len() - pos,
    {
        let len = bytes[pos] as usize;
        if len > MAX_LABEL_LEN as usize || bytes.len() - pos - 1 <= len {
            return false;
        }
        pos = pos + 1 + len;
    }
    let end = pos + 1;
    assert(name_end(bytes@, HEADER_LEN as int) == Some(end as int));
    if end - HEADER_LEN > MAX_NAME_LEN || bytes.len() - end != 4 {
        return false;
    }
    let tail_ok = bytes[end] == (TYPE_A / 256) as u8 && bytes[end + 1] == (TYPE_A % 256) as u8
        && bytes[end + 2] == (CLASS_IN / 256) as u8 && bytes[end + 3] == (CLASS_IN % 256) as u8;
    proof {
        let tail = bytes@.subrange(end as int, end + 4);
        let want = question_tail();
        assert(tail[0] == bytes@[end as int] && tail[1] == bytes@[end + 1] && tail[2] == bytes@[end
            + 2] && tail[3] == bytes@[end + 3]);
        if tail_ok {
            assert(tail =~= want);
        } else {
            assert(tail != want) by {
                if tail == want {
                    assert(tail[0] == want[0] && tail[1] == want[1] && tail[2] == want[2]
                        && tail[3] == want[3]);
                }
            }
        }
    }
    tail_ok
}

/// A response whose one answer is an address record gives that address back:
/// the answer section is sound, and the addresses read from it are the one
/// address.
pub proof fn lemma_single_address_answer(address: Address)
    ensures
        checked_answers(seq![Answer { record_type: TYPE_A, address: Some(address) }]) is Ok,
        answer_addresses(seq![Answer { record_type: TYPE_A, address: Some(address) }])
            == seq![address],
{
    let answers = seq![Answer { record_type: TYPE_A, address: Some(address) }];
    assert(answers.drop_last() =~= Seq::<Answer>::empty());
    assert(answer_addresses(answers.drop_last()) =~= Seq::<Address>::empty());
    assert(answer_addresses(answers) =~= seq![address]);
}

/// A name that ends, ends after its first octet and within the message.
pub proof fn lemma_name_end_bounds(bytes: Seq<u8>, pos: int)
    ensures
        name_end(bytes, pos) matches Some(end) ==> pos < end <= bytes.len(),
    decreases bytes.len() - pos,
{
    if 0 <= pos < bytes.len() && 0 < bytes[pos] <= MAX_LABEL_LEN && pos + 1 + bytes[pos]
        < bytes.len() {
        lemma_name_end_bounds(bytes, pos + 1 + bytes[pos]);
    }
}

/// Hands the written octets on if they are the query that was asked for, and
/// refuses them otherwise.
pub fn accept_query(wire: Option<Vec<u8>>, id: u16) -> (query: Result<Vec<u8>, DnsError>)
    ensures
        query_view(query) == accepted_query(
            match wire {
                Some(bytes) => Some(bytes@),
                None => None,
            },
            id,
        ),
        query matches Ok(bytes) ==> wire == Some(bytes),
{
    match wire {
        Some(bytes) => {
            if is_address_query(bytes.as_slice(), id) {
                Ok(bytes)
            } else {
                Err(DnsError::InvalidQuery)
            }
        },
        None => Err(DnsError::InvalidQuery),
    }
}

/// The query for the address records of `domain`, with the identifier `id`
/// and recursion desired.
pub fn encode_query(domain: &str, id: u16) -> (query: Result<Vec<u8>, DnsError>)
    ensures
        query_view(query) == encoded_query(domain@, id),
        query matches Ok(bytes) ==> address_query(bytes@, id),
{
    let wire = write_query(domain, id, TYPE_A, true);
    accept_query(wire, id)
}

/// Accepts an answer section in which every answer of the address type holds
/// an address, and refuses any other.
pub fn check_answers(answers: Vec<Answer>) -> (response: Result<Response, DnsError>)
    ensures
        response_view(response) == checked_answers(answers@),
        response matches Ok(r) ==> r.answers == answers,
{
    let mut i: usize = 0;
    while i < answers.len()
        invariant
            i <= answers.len(),
            answers_sound(answers@.take(i as int)),
        decreases answers.len() - i,
    {
        if answers[i].record_type == TYPE_A && answers[i].address.is_none() {
            return Err(DnsError::InvalidAddress);
        }
        assert(answers_sound(answers@.take(i + 1))) by {
            assert forall|k: int|
                0 <= k < i + 1 && (#[trigger] answers@.take(i + 1)[k]).record_type
                    == TYPE_A implies answers@.take(i + 1)[k].address is Some by {
                if k < i {
                    assert(answers@.take(i as int)[k] == answers@[k]);
                }
            }
        }
        i = i + 1;
    }
    assert(answers@.take(i as int) =~= answers@);
    Ok(Response { answers })
}

/// Reads the answer section of a received datagram and checks it.
pub fn decode_response(bytes: &[u8]) -> (response: Result<Response, DnsError>)
    ensures
        response_view(response) == decoded_response(bytes@),
        response matches Ok(r) ==> answers_sound(r@),
{
    if bytes.len() < HEADER_LEN {
        return Err(DnsError::MalformedResponse);
    }
    match read_answers(bytes) {
        Some(answers) => check_answers(answers),
        None => Err(DnsError::MalformedResponse),
    }
}

impl Response {
    /// The addresses that the response gives for the name: those of its
    /// answers of the address type, in their order.
    pub fn addresses(&self) -> (addresses: Vec<Address>)
        ensures
            addresses@ == answer_addresses(self@),
    {
        let mut addresses: Vec<Address> = Vec::new();
        let mut i: usize = 0;
        while i < self.answers.len()
            invariant
                i <= self.answers.len(),
                addresses@ == answer_addresses(self.answers@.take(i as int)),
            decreases self.answers.len() - i,
        {
            assert(self.answers@.take(i + 1).drop_last() =~= self.answers@.take(i as int));
            let answer = self.answers[i];
            if answer.record_type == TYPE_A {
                if let Some(address) = answer.address {
                    addresses.push(address);
                }
            }
            i = i + 1;
        }
        assert(self.answers@.take(i as int) =~= self.answers@);
        addresses
    }
}

} // verus!
