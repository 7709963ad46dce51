//! The fixed framing header and the per-send packet layout.
//!
//! Every packet handed to the transport is the header bytes followed
//! immediately by one JSON-serialized payload; the collector reads up to
//! the first newline to pick a deserializer, then parses the
//! rest as JSON.

use vstd::prelude::*;

verus! {

/// The framing bytes that precede every payload: the text
/// `{"format": "json", "version": 1}` followed by a newline, exactly
/// as the collector expects them.
pub open spec fn header_seq() -> Seq<u8> {
    seq![
        123u8, 34u8, 102u8, 111u8, 114u8, 109u8, 97u8, 116u8, 34u8, 58u8, 32u8, 34u8, 106u8,
        115u8, 111u8, 110u8, 34u8, 44u8, 32u8, 34u8, 118u8, 101u8, 114u8, 115u8, 105u8, 111u8,
        110u8, 34u8, 58u8, 32u8, 49u8, 125u8, 10u8,
    ]
}

/// The fixed JSON object declaring the framing format and version that
/// the collector expects; it precedes every payload and never changes.
pub struct Header;

impl Header {
    /// The header's byte sequence, fresh for the caller to own.
    pub fn bytes() -> (r: Vec<u8>)
        ensures
            r@ == header_seq(),
    {
        let r: Vec<u8> = vec![
            123u8, 34u8, 102u8, 111u8, 114u8, 109u8, 97u8, 116u8, 34u8, 58u8, 32u8, 34u8, 106u8,
            115u8, 111u8, 110u8, 34u8, 44u8, 32u8, 34u8, 118u8, 101u8, 114u8, 115u8, 105u8, 111u8,
            110u8, 34u8, 58u8, 32u8, 49u8, 125u8, 10u8,
        ];
        proof {
            assert(r@ =~= header_seq());
        }
        r
    }
}

/// Frames one serialized payload as a packet: the fixed header bytes,
/// then the payload, with nothing in between and nothing after.
pub fn packet(payload: &[u8]) -> (r: Vec<u8>)
    ensures
        r@ == header_seq() + payload@,
{
    let mut r = Header::bytes();
    proof {
        assert(r@ =~= header_seq() + payload@.subrange(0, 0));
    }
    let mut i: usize = 0;
    while i < payload.len()
        invariant
            i <= payload@.len(),
            r@ == header_seq() + payload@.subrange(0, i as int),
        decreases payload@.len() - i,
    {
        r.push(payload[i]);
        i = i + 1;
        proof {
            assert(r@ =~= header_seq() + payload@.subrange(0, i as int));
        }
    }
    proof {
        assert(payload@.subrange(0, payload@.len() as int) =~= payload@);
    }
    r
}

} // verus!
