//! Decoding of hexadecimal strings, as the command line gives difficulties.

use vstd::prelude::*;
use vstd::string::StringSliceAdditionalSpecFns;

verus! {

/// A hexadecimal string held a pair that is not a base-16 number.
#[derive(Clone, Copy, PartialEq, Eq, Structural, Debug)]
pub enum HexError {
    /// The pair starting at byte `index` is not a base-16 number.
    InvalidDigit { index: usize },
}

/// Value of a base-16 digit (either case), if the byte is one.
pub open spec fn hex_digit_value(b: u8) -> Option<u8> {
    if 48 <= b <= 57 {
        Some((b - 48) as u8)
    } else if 97 <= b <= 102 {
        Some((b - 87) as u8)
    } else if 65 <= b <= 70 {
        Some((b - 55) as u8)
    } else {
        None
    }
}

/// Value of a two-byte chunk read as a base-16 `u8`, as `u8::from_str_radix`
/// reads it: two digits, or a plus sign and one digit.
pub open spec fn hex_pair_value(b0: u8, b1: u8) -> Option<u8> {
    if b0 == 43 {
        match hex_digit_value(b1) {
            Some(d) => Some(d),
            None => None,
        }
    } else {
        match (hex_digit_value(b0), hex_digit_value(b1)) {
            (Some(h), Some(l)) => Some((h * 16 + l) as u8),
            _ => None,
        }
    }
}

/// Whether every pair of the byte string is a base-16 number.
pub open spec fn hex_all_valid(b: Seq<u8>) -> bool {
    forall|k: int| 0 <= k < b.len() / 2 ==> #[trigger] hex_pair_value(b[2 * k], b[2 * k + 1]) is Some
}

/// The bytes that the pairs of a valid hexadecimal string stand for.
pub open spec fn hex_decoded(b: Seq<u8>) -> Seq<u8> {
    Seq::new(b.len() / 2, |k: int| hex_pair_value(b[2 * k], b[2 * k + 1])->Some_0)
}

/// Whether every pair before the `k`-th is a base-16 number.
pub open spec fn hex_valid_before(b: Seq<u8>, k: int) -> bool {
    forall|j: int| 0 <= j < k ==> #[trigger] hex_pair_value(b[2 * j], b[2 * j + 1]) is Some
}

/// Inputs on which decoding reads no piece past the end or across a
/// character: each piece that decoding reaches (all pieces before it being
/// numbers) has two bytes and starts and ends on a character boundary.
pub open spec fn hex_cuttable(s: &str) -> bool {
    forall|k: int|
        0 <= k && 2 * k < s.spec_bytes().len() && #[trigger] hex_valid_before(s.spec_bytes(), k) ==> {
            &&& 2 * k + 2 <= s.spec_bytes().len()
            &&& vstd::utf8::is_char_boundary(s.spec_bytes(), 2 * k)
            &&& vstd::utf8::is_char_boundary(s.spec_bytes(), 2 * k + 2)
        }
}

fn digit_value(b: u8) -> (r: Option<u8>)
    ensures
        r == hex_digit_value(b),
{
    if 48 <= b && b <= 57 {
        Some(b - 48)
    } else if 97 <= b && b <= 102 {
        Some(b - 87)
    } else if 65 <= b && b <= 70 {
        Some(b - 55)
    } else {
        None
    }
}

fn pair_value(b0: u8, b1: u8) -> (r: Option<u8>)
    ensures
        r == hex_pair_value(b0, b1),
{
    if b0 == 43 {
        digit_value(b1)
    } else {
        match (digit_value(b0), digit_value(b1)) {
            (Some(h), Some(l)) => Some(h * 16 + l),
            _ => None,
        }
    }
}

/// Decodes a hexadecimal string two characters at a time. Fails on the first
/// pair that is not a base-16 number.
pub fn decode_hex(s: &str) -> (r: Result<Vec<u8>, HexError>)
    requires
        hex_cuttable(s),
    ensures
        r is Ok <==> hex_all_valid(s.spec_bytes()),
        r matches Ok(v) ==> v@ == hex_decoded(s.spec_bytes()),
        r matches Err(HexError::InvalidDigit { index }) ==> index % 2 == 0 && index + 1
            < s.spec_bytes().len() && hex_pair_value(
            s.spec_bytes()[index as int],
            s.spec_bytes()[index + 1],
        ) is None && hex_valid_before(s.spec_bytes(), index as int / 2),
{
    let bytes = s.as_bytes();
    let ghost b = s.spec_bytes();
    let n = bytes.len();
    let mut out: Vec<u8> = Vec::new();
    let mut i: usize = 0;
    proof {
        if 0 < n {
            assert(hex_valid_before(b, 0));
        }
    }
    while i < n
        invariant
            bytes@ == b,
            b == s.spec_bytes(),
            n == b.len(),
            hex_cuttable(s),
            i % 2 == 0,
            i <= n,
            i < n ==> i + 2 <= n,
            out@.len() == i / 2,
            forall|k: int| 0 <= k < i / 2 ==> #[trigger] hex_pair_value(b[2 * k], b[2 * k + 1]) is Some,
            forall|k: int| 0 <= k < i / 2 ==> out@[k] == #[trigger] hex_pair_value(b[2 * k], b[2 * k + 1])->Some_0,
        decreases n - i,
    {
        match pair_value(bytes[i], bytes[i + 1]) {
            Some(v) => {
                out.push(v);
                assert(2 * ((i / 2) as int) == i);
                proof {
                    let k = i as int / 2 + 1;
                    if 2 * k < n {
                        assert(hex_valid_before(b, k));
                    }
                }
            }
            None => {
                let ghost k: int = i as int / 2;
                assert(2 * k == i);
                assert(hex_pair_value(b[2 * k], b[2 * k + 1]) is None);
                assert(!hex_all_valid(b));
                assert(hex_valid_before(b, k));
                return Err(HexError::InvalidDigit { index: i });
            }
        }
        i = i + 2;
    }
    assert(out@ =~= hex_decoded(b));
    assert(hex_all_valid(b));
    Ok(out)
}

} // verus!
