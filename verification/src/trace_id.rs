//! Trace identifiers: a format version, the creation second, and a
//! random component, hyphen-joined.

use vstd::prelude::*;

use vstd::arithmetic::div_mod::lemma_div_denominator;
use vstd::arithmetic::div_mod::lemma_fundamental_div_mod;

use crate::epoch::clock_unix_millis;
use crate::error::Error;
use crate::hexbytes::bytes_of_hex;
use crate::hexbytes::decode;
use crate::hexbytes::encode;
use crate::hexbytes::hex_of;
use crate::hexbytes::is_hex_digit;
use crate::hexbytes::lemma_bytes_hex_round_trip;
use crate::hexbytes::valid_hex;

verus! {

/// A trace's identifier: the fixed format version `1`, the creation
/// time's whole-second Unix timestamp as 4 big-endian bytes, and 12
/// random bytes. Written `1-xxxxxxxx-xxxxxxxxxxxxxxxxxxxxxxxx` in
/// lowercase hex. Equality and ordering go by the raw byte values.
#[derive(Clone, Copy, Debug, PartialEq, Eq, Hash, PartialOrd, Ord)]
pub struct TraceId {
    /// The creation time: a whole-second Unix timestamp, big-endian.
    pub epoch: [u8; 4],
    /// The random component that makes the identifier unique.
    pub unique: [u8; 12],
}

/// The canonical textual form of an identifier: version `1`, the
/// creation time and the random component in lowercase hex, joined by
/// hyphens; always 35 characters.
pub open spec fn trace_str(t: TraceId) -> Seq<char> {
    seq!['1', '-'] + hex_of(t.epoch@) + seq!['-'] + hex_of(t.unique@)
}

/// Text accepted as a trace identifier: exactly three hyphen-separated
/// fields — the version `1`, 8 hex digits of creation time and 24 hex
/// digits of random component (hex digits in either letter case).
pub open spec fn valid_trace_str(s: Seq<char>) -> bool {
    &&& s.len() == 35
    &&& s[0] == '1'
    &&& s[1] == '-'
    &&& s[10] == '-'
    &&& forall|i: int| 2 <= i < 10 ==> is_hex_digit(#[trigger] s[i])
    &&& forall|i: int| 11 <= i < 35 ==> is_hex_digit(#[trigger] s[i])
}

/// A second count written as 4 bytes, most significant first.
pub open spec fn be_bytes(s: u32) -> Seq<u8> {
    seq![
        (s / 0x1000000) as u8,
        ((s / 0x10000) % 256) as u8,
        ((s / 256) % 256) as u8,
        (s % 256) as u8,
    ]
}

/// The second count denoted by 4 bytes, most significant first.
pub open spec fn be_val(e: Seq<u8>) -> int
    recommends
        e.len() == 4,
{
    e[0] * 0x1000000 + e[1] * 0x10000 + e[2] * 256 + e[3]
}

/// Writing a second count big-endian and reading it back is the
/// identity: the creation time embedded in an identifier is exactly the
/// second count it was minted with.
pub proof fn lemma_creation_second_round_trip(s: u32)
    ensures
        be_val(be_bytes(s)) == s,
{
    lemma_fundamental_div_mod(s as int, 256);
    lemma_fundamental_div_mod(s as int / 256, 256);
    lemma_fundamental_div_mod(s as int / 0x10000, 256);
    lemma_div_denominator(s as int, 256, 256);
    lemma_div_denominator(s as int, 0x10000, 256);
}

impl TraceId {
    /// Wraps the raw creation-time and random component bytes.
    pub fn from_bytes(epoch: [u8; 4], unique: [u8; 12]) -> (r: TraceId)
        ensures
            r.epoch@ == epoch@,
            r.unique@ == unique@,
    {
        TraceId { epoch, unique }
    }

    /// Builds an identifier whose creation time is `secs`, written
    /// big-endian into the epoch field.
    pub fn from_creation_second(secs: u32, unique: [u8; 12]) -> (r: TraceId)
        ensures
            r.epoch@ == be_bytes(secs),
            r.unique@ == unique@,
    {
        let epoch: [u8; 4] = [
            (secs / 0x1000000) as u8,
            ((secs / 0x10000) % 256) as u8,
            ((secs / 256) % 256) as u8,
            (secs % 256) as u8,
        ];
        proof {
            assert(epoch@ =~= be_bytes(secs));
        }
        TraceId { epoch, unique }
    }

    /// The creation time embedded in the identifier: the big-endian
    /// second count of its epoch field.
    pub fn creation_second(&self) -> (r: u32)
        ensures
            r == be_val(self.epoch@),
    {
        (self.epoch[0] as u32) * 0x1000000 + (self.epoch[1] as u32) * 0x10000 + (self.epoch[2]
            as u32) * 256 + (self.epoch[3] as u32)
    }

    /// Mints a fresh identifier: version `1`, the current Unix second
    /// count as the creation time, and 12 fresh random bytes.
    pub fn generate() -> TraceId {
        let secs_wide: u64 = clock_unix_millis() / 1000;
        let secs: u32 = #[verifier::truncate] (secs_wide as u32);
        TraceId::from_creation_second(secs, rand::random::<[u8; 12]>())
    }

    /// Renders the identifier in its canonical textual form.
    pub fn to_string(&self) -> (r: String)
        ensures
            r@ == trace_str(*self),
            valid_trace_str(r@),
    {
        let mut s = String::new();
        proof {
            reveal_strlit("1-");
            reveal_strlit("-");
        }
        s.append("1-");
        let e = encode(self.epoch.as_slice());
        s.append(e.as_str());
        s.append("-");
        let u = encode(self.unique.as_slice());
        s.append(u.as_str());
        proof {
            lemma_bytes_hex_round_trip(self.epoch@);
            lemma_bytes_hex_round_trip(self.unique@);
            assert(s@ =~= trace_str(*self));
            assert forall|i: int| 2 <= i < 10 implies is_hex_digit(#[trigger] s@[i]) by {
                assert(s@[i] == hex_of(self.epoch@)[i - 2]);
            }
            assert forall|i: int| 11 <= i < 35 implies is_hex_digit(#[trigger] s@[i]) by {
                assert(s@[i] == hex_of(self.unique@)[i - 11]);
            }
        }
        s
    }

    /// Parses the canonical textual form; any deviation — wrong field
    /// count, wrong field length, a non-hex character, an unrecognized
    /// version — is rejected with a format error.
    pub fn parse(s: &str) -> (r: Result<TraceId, Error>)
        ensures
            r is Ok <==> valid_trace_str(s@),
            r is Ok ==> r->Ok_0.epoch@ == bytes_of_hex(s@.subrange(2, 10)),
            r is Ok ==> r->Ok_0.unique@ == bytes_of_hex(s@.subrange(11, 35)),
            r is Err ==> r->Err_0 == Error::InvalidFormat,
    {
        let n = s.unicode_len();
        if n != 35 {
            return Err(Error::InvalidFormat);
        }
        if s.get_char(0) != '1' || s.get_char(1) != '-' || s.get_char(10) != '-' {
            return Err(Error::InvalidFormat);
        }
        let epoch_text = s.substring_char(2, 10);
        let unique_text = s.substring_char(11, 35);
        let ev = match decode(epoch_text) {
            Ok(v) => v,
            Err(_) => {
                proof {
                    lemma_subfield_not_hex(s@, epoch_text@, 2);
                }
                return Err(Error::InvalidFormat);
            },
        };
        let uv = match decode(unique_text) {
            Ok(v) => v,
            Err(_) => {
                proof {
                    lemma_subfield_not_hex(s@, unique_text@, 11);
                }
                return Err(Error::InvalidFormat);
            },
        };
        let epoch: [u8; 4] = [ev[0], ev[1], ev[2], ev[3]];
        let unique: [u8; 12] = [
            uv[0], uv[1], uv[2], uv[3], uv[4], uv[5], uv[6], uv[7], uv[8], uv[9], uv[10], uv[11],
        ];
        proof {
            assert(epoch@ =~= bytes_of_hex(s@.subrange(2, 10)));
            assert(unique@ =~= bytes_of_hex(s@.subrange(11, 35)));
            assert forall|i: int| 2 <= i < 10 implies is_hex_digit(#[trigger] s@[i]) by {
                assert(s@.subrange(2, 10)[i - 2] == s@[i]);
            }
            assert forall|i: int| 11 <= i < 35 implies is_hex_digit(#[trigger] s@[i]) by {
                assert(s@.subrange(11, 35)[i - 11] == s@[i]);
            }
        }
        Ok(TraceId { epoch, unique })
    }
}

/// If an even-length field cut out of `s` at `start` is not all hex
/// digits, then some character of `s` inside the field is not one.
proof fn lemma_subfield_not_hex(s: Seq<char>, field: Seq<char>, start: int)
    requires
        0 <= start,
        start + field.len() <= s.len(),
        field == s.subrange(start, start + field.len() as int),
        field.len() % 2 == 0,
        !valid_hex(field),
    ensures
        exists|i: int| start <= i < start + field.len() && !is_hex_digit(#[trigger] s[i]),
{
    assert(exists|j: int| 0 <= j < field.len() && !is_hex_digit(#[trigger] field[j]));
    let j = choose|j: int| 0 <= j < field.len() && !is_hex_digit(#[trigger] field[j]);
    assert(s[start + j] == field[j]);
    assert(!is_hex_digit(s[start + j]));
}

/// A trace identifier round-trips through its textual form: the
/// rendering matches the grammar (three hyphen-joined fields, version
/// `1`, 8 and 24 hex digits), and parsing it back yields the same
/// creation-time and random bytes.
pub proof fn lemma_trace_round_trip(t: TraceId)
    ensures
        valid_trace_str(trace_str(t)),
        trace_str(t).len() == 35,
        bytes_of_hex(trace_str(t).subrange(2, 10)) == t.epoch@,
        bytes_of_hex(trace_str(t).subrange(11, 35)) == t.unique@,
{
    lemma_bytes_hex_round_trip(t.epoch@);
    lemma_bytes_hex_round_trip(t.unique@);
    let s = trace_str(t);
    assert(s.subrange(2, 10) =~= hex_of(t.epoch@));
    assert(s.subrange(11, 35) =~= hex_of(t.unique@));
    assert forall|i: int| 2 <= i < 10 implies is_hex_digit(#[trigger] s[i]) by {
        assert(s[i] == hex_of(t.epoch@)[i - 2]);
    }
    assert forall|i: int| 11 <= i < 35 implies is_hex_digit(#[trigger] s[i]) by {
        assert(s[i] == hex_of(t.unique@)[i - 11]);
    }
}

} // verus!
