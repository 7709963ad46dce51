//! Segment identifiers: 8 random bytes, written as 16 hex characters.

use vstd::prelude::*;

use crate::error::Error;
use crate::hexbytes::bytes_of_hex;
use crate::hexbytes::decode;
use crate::hexbytes::encode;
use crate::hexbytes::hex_of;
use crate::hexbytes::is_hex_digit;
use crate::hexbytes::lemma_bytes_hex_round_trip;

verus! {

/// One segment's identifier within a trace: 8 raw bytes drawn from a
/// uniform random source, rendered as 16 lowercase hexadecimal
/// characters. Equality and ordering go by the raw byte value.
#[derive(Clone, Copy, Debug, PartialEq, Eq, Hash, PartialOrd, Ord)]
pub struct SegmentId {
    /// The raw identifier value.
    pub bytes: [u8; 8],
}

impl View for SegmentId {
    type V = Seq<u8>;

    open spec fn view(&self) -> Seq<u8> {
        self.bytes@
    }
}

/// Text accepted as a segment identifier: exactly 16 hexadecimal digits,
/// in either letter case.
pub open spec fn valid_segment_str(s: Seq<char>) -> bool {
    s.len() == 16 && forall|i: int| 0 <= i < s.len() ==> is_hex_digit(#[trigger] s[i])
}

impl SegmentId {
    /// Wraps 8 raw identifier bytes.
    pub fn from_bytes(bytes: [u8; 8]) -> (r: SegmentId)
        ensures
            r@ == bytes@,
    {
        SegmentId { bytes }
    }

    /// Draws 8 fresh bytes from the process-wide random source.
    pub fn generate() -> SegmentId {
        SegmentId { bytes: rand::random::<[u8; 8]>() }
    }

    /// Renders the identifier as its canonical textual form: 16
    /// lowercase hexadecimal characters, no separators.
    pub fn to_string(&self) -> (r: String)
        ensures
            r@ == hex_of(self@),
            valid_segment_str(r@),
    {
        proof {
            lemma_bytes_hex_round_trip(self@);
        }
        encode(self.bytes.as_slice())
    }

    /// Parses 16 hexadecimal characters (either letter case) into an
    /// identifier; any other input is rejected with a format error.
    pub fn parse(s: &str) -> (r: Result<SegmentId, Error>)
        ensures
            r is Ok <==> valid_segment_str(s@),
            r is Ok ==> r->Ok_0@ == bytes_of_hex(s@),
            r is Err ==> r->Err_0 == Error::InvalidFormat,
    {
        let n = s.unicode_len();
        if n != 16 {
            return Err(Error::InvalidFormat);
        }
        let v = match decode(s) {
            Ok(v) => v,
            Err(_) => {
                return Err(Error::InvalidFormat);
            },
        };
        let bytes: [u8; 8] = [v[0], v[1], v[2], v[3], v[4], v[5], v[6], v[7]];
        proof {
            assert(bytes@ =~= bytes_of_hex(s@));
        }
        Ok(SegmentId { bytes })
    }
}

/// A segment identifier round-trips through its textual form: the
/// rendering is valid identifier text of length 16, and decoding it
/// yields the same raw bytes.
pub proof fn lemma_segment_round_trip(s: SegmentId)
    ensures
        valid_segment_str(hex_of(s@)),
        hex_of(s@).len() == 16,
        bytes_of_hex(hex_of(s@)) == s@,
{
    lemma_bytes_hex_round_trip(s@);
}

} // verus!
