//! What the node's HTTP interface is asked to do, read from a request's
//! path and its `lambda` parameter.

use vstd::prelude::*;
use vstd::string::StringSliceAdditionalSpecFns;

verus! {

/// Why a decimal number could not be read, as `u64::from_str` reports it.
#[derive(Debug, Clone, Copy, PartialEq, Eq, Structural)]
pub enum IntError {
    /// The string is empty.
    Empty,
    /// A character is not a decimal digit.
    InvalidDigit,
    /// The number does not fit in 64 bits.
    PosOverflow,
}

/// Why a request is refused.
#[derive(Debug, Clone, Copy, PartialEq, Eq, Structural)]
pub enum ApiRejection {
    /// Starting the miner needs a `lambda` parameter.
    MissingLambda,
    /// The `lambda` parameter is not a 64-bit number.
    BadLambda(IntError),
    /// No endpoint has this path.
    NotFound,
}

/// What a request asks for.
#[derive(Debug, Clone, Copy, PartialEq, Eq, Structural)]
pub enum ApiAction {
    /// Start mining with the given rate parameter.
    MinerStart(u64),
    /// Stop mining.
    MinerEnd,
    /// Ping every peer.
    NetworkPing,
    Reject(ApiRejection),
}

/// Whether a byte is a decimal digit.
pub open spec fn is_digit(b: u8) -> bool {
    48 <= b <= 57
}

/// Reading the digits `d` after the value `acc` read so far.
pub open spec fn scan_digits(d: Seq<u8>, acc: int) -> Result<u64, IntError>
    decreases d.len(),
{
    if d.len() == 0 {
        Ok(acc as u64)
    } else if !is_digit(d[0]) {
        Err(IntError::InvalidDigit)
    } else if acc * 10 + (d[0] - 48) > u64::MAX {
        Err(IntError::PosOverflow)
    } else {
        scan_digits(d.drop_first(), acc * 10 + (d[0] - 48))
    }
}

/// What `u64::from_str` answers on the bytes `b`: an optional plus sign and
/// decimal digits, read left to right.
pub open spec fn parse_u64_spec(b: Seq<u8>) -> Result<u64, IntError> {
    if b.len() == 0 {
        Err(IntError::Empty)
    } else {
        let d = if b[0] == 43 { b.drop_first() } else { b };
        if d.len() == 0 {
            Err(IntError::InvalidDigit)
        } else {
            scan_digits(d, 0)
        }
    }
}

pub open spec fn miner_start_path() -> Seq<u8> {
    seq![47u8, 109u8, 105u8, 110u8, 101u8, 114u8, 47u8, 115u8, 116u8, 97u8, 114u8, 116u8]
}

pub open spec fn miner_end_path() -> Seq<u8> {
    seq![47u8, 109u8, 105u8, 110u8, 101u8, 114u8, 47u8, 101u8, 110u8, 100u8]
}

pub open spec fn network_ping_path() -> Seq<u8> {
    seq![47u8, 110u8, 101u8, 116u8, 119u8, 111u8, 114u8, 107u8, 47u8, 112u8, 105u8, 110u8, 103u8]
}

/// The action the path and the `lambda` parameter give.
pub open spec fn route_spec(path: Seq<u8>, lambda: Option<Seq<u8>>) -> ApiAction {
    if path == miner_start_path() {
        match lambda {
            None => ApiAction::Reject(ApiRejection::MissingLambda),
            Some(l) => match parse_u64_spec(l) {
                Ok(v) => ApiAction::MinerStart(v),
                Err(e) => ApiAction::Reject(ApiRejection::BadLambda(e)),
            },
        }
    } else if path == miner_end_path() {
        ApiAction::MinerEnd
    } else if path == network_ping_path() {
        ApiAction::NetworkPing
    } else {
        ApiAction::Reject(ApiRejection::NotFound)
    }
}

/// Reads a decimal `u64`, as `u64::from_str` does.
pub fn parse_u64(s: &str) -> (r: Result<u64, IntError>)
    ensures
        r == parse_u64_spec(s.spec_bytes()),
{
    let b = s.as_bytes();
    let n = b.len();
    if n == 0 {
        return Err(IntError::Empty);
    }
    let mut i: usize = if b[0] == 43 { 1 } else { 0 };
    if i == n {
        return Err(IntError::InvalidDigit);
    }
    let ghost d = if b@[0] == 43 { b@.drop_first() } else { b@ };
    assert(d =~= b@.subrange(i as int, n as int));
    assert(parse_u64_spec(b@) == scan_digits(d, 0));
    let mut acc: u64 = 0;
    while i < n
        invariant
            b@ == s.spec_bytes(),
            n == b@.len(),
            i <= n,
            parse_u64_spec(b@) == scan_digits(b@.subrange(i as int, n as int), acc as int),
        decreases n - i,
    {
        let ghost rest = b@.subrange(i as int, n as int);
        assert(rest[0] == b@[i as int]);
        assert(rest.drop_first() =~= b@.subrange(i + 1, n as int));
        let c = b[i];
        if c < 48 || c > 57 {
            return Err(IntError::InvalidDigit);
        }
        let digit = (c - 48) as u64;
        if acc > (u64::MAX - digit) / 10 {
            assert(acc * 10 + digit > u64::MAX) by (nonlinear_arith)
                requires
                    acc > (u64::MAX - digit) / 10,
                    digit <= 9,
            ;
            return Err(IntError::PosOverflow);
        }
        assert(acc * 10 + digit <= u64::MAX) by (nonlinear_arith)
            requires
                acc <= (u64::MAX - digit) / 10,
                digit <= 9,
        ;
        acc = acc * 10 + digit;
        i = i + 1;
    }
    Ok(acc)
}

/// Whether two byte strings are equal.
fn bytes_eq(a: &[u8], b: &[u8]) -> (r: bool)
    ensures
        r == (a@ == b@),
{
    if a.len() != b.len() {
        return false;
    }
    let mut i: usize = 0;
    while i < a.len()
        invariant
            a@.len() == b@.len(),
            i <= a@.len(),
            forall|j: int| 0 <= j < i ==> a@[j] == b@[j],
        decreases a@.len() - i,
    {
        if a[i] != b[i] {
            return false;
        }
        i = i + 1;
    }
    assert(a@ =~= b@);
    true
}

/// The action a request asks for, from its path and its `lambda` parameter.
pub fn route(path: &str, lambda: Option<&str>) -> (r: ApiAction)
    ensures
        r == route_spec(
            path.spec_bytes(),
            match lambda {
                Some(l) => Some(l.spec_bytes()),
                None => None,
            },
        ),
{
    let p = path.as_bytes();
    let start: [u8; 12] = [47, 109, 105, 110, 101, 114, 47, 115, 116, 97, 114, 116];
    let end: [u8; 10] = [47, 109, 105, 110, 101, 114, 47, 101, 110, 100];
    let ping: [u8; 13] = [47, 110, 101, 116, 119, 111, 114, 107, 47, 112, 105, 110, 103];
    assert(start@ =~= miner_start_path());
    assert(end@ =~= miner_end_path());
    assert(ping@ =~= network_ping_path());
    if bytes_eq(p, start.as_slice()) {
        match lambda {
            None => ApiAction::Reject(ApiRejection::MissingLambda),
            Some(l) => match parse_u64(l) {
                Ok(v) => ApiAction::MinerStart(v),
                Err(e) => ApiAction::Reject(ApiRejection::BadLambda(e)),
            },
        }
    } else if bytes_eq(p, end.as_slice()) {
        ApiAction::MinerEnd
    } else if bytes_eq(p, ping.as_slice()) {
        ApiAction::NetworkPing
    } else {
        ApiAction::Reject(ApiRejection::NotFound)
    }
}

} // verus!
