use vstd::prelude::*;

verus! {

/// Why a single request produced no measurement.
#[derive(Clone, Copy, Debug, PartialEq, Eq, Structural)]
pub enum DnsError {
    /// The exchange with the server failed: nothing could be sent, nothing
    /// arrived in time, or receiving failed.
    DNSError,
    /// The domain could not be put into a well-formed query.
    InvalidQuery,
    /// The bytes received are not a DNS message.
    MalformedResponse,
    /// An answer of the address type carries no address.
    InvalidAddress,
}

impl DnsError {
    /// The name of the error, as text.
    pub fn to_text(&self) -> (text: String)
        ensures
            text@ == match *self {
                DnsError::DNSError => "DNSError"@,
                DnsError::InvalidQuery => "InvalidQuery"@,
                DnsError::MalformedResponse => "MalformedResponse"@,
                DnsError::InvalidAddress => "InvalidAddress"@,
            },
    {
        match *self {
            DnsError::DNSError => "DNSError".to_owned(),
            DnsError::InvalidQuery => "InvalidQuery".to_owned(),
            DnsError::MalformedResponse => "MalformedResponse".to_owned(),
            DnsError::InvalidAddress => "InvalidAddress".to_owned(),
        }
    }
}

} // verus!
