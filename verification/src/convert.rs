//! The chunk converter: decodes one even-length slice of ASCII hex digits
//! into binary bytes. It is stateless, so disjoint slices can be converted
//! concurrently.

use vstd::prelude::*;

use crate::errors::Hex2BinError;
use crate::hex::all_hex_digits;
use crate::hex::byte_of_pair;
use crate::hex::decode_hex_seq;
use crate::hex::hex_to_4bit;
use crate::hex::is_hex_digit;

verus! {

/// The result of converting a hex digit string: its decoding when it has
/// even length and holds only hex digits, and the exact error otherwise.
pub open spec fn convert_result(s: Seq<u8>) -> Result<Seq<u8>, Hex2BinError> {
    if s.len() % 2 != 0 {
        Err(Hex2BinError::OddLength)
    } else if !all_hex_digits(s) {
        Err(Hex2BinError::MalformedHex)
    } else {
        Ok(decode_hex_seq(s))
    }
}

/// A converted chunk, seen as a spec-level result.
pub open spec fn view_result(r: Result<Vec<u8>, Hex2BinError>) -> Result<Seq<u8>, Hex2BinError> {
    match r {
        Ok(v) => Ok(v@),
        Err(e) => Err(e),
    }
}

/// Decodes an even-length slice of ASCII hex digits into bytes of half the
/// length; fails on odd length or on any byte outside the hex character set.
pub fn convert_chunk(chunk: &[u8]) -> (r: Result<Vec<u8>, Hex2BinError>)
    ensures
        view_result(r) == convert_result(chunk@),
        r is Ok <==> chunk@.len() % 2 == 0 && all_hex_digits(chunk@),
        r is Ok ==> r->Ok_0@ == decode_hex_seq(chunk@),
{
    if chunk.len() % 2 != 0 {
        return Err(Hex2BinError::OddLength);
    }
    let mut out: Vec<u8> = Vec::new();
    let mut i: usize = 0;
    while i < chunk.len()
        invariant
            i <= chunk@.len(),
            i % 2 == 0,
            chunk@.len() % 2 == 0,
            forall|j: int| 0 <= j < i ==> #[trigger] is_hex_digit(chunk@[j]),
            out@ == decode_hex_seq(chunk@.subrange(0, i as int)),
        decreases chunk@.len() - i,
    {
        let a = *vstd::slice::slice_index_get(chunk, i);
        let b = *vstd::slice::slice_index_get(chunk, i + 1);
        let high = match hex_to_4bit(a) {
            Ok(v) => v,
            Err(e) => {
                return Err(e);
            },
        };
        let low = match hex_to_4bit(b) {
            Ok(v) => v,
            Err(e) => {
                return Err(e);
            },
        };
        proof {
            assert((high << 4) | (low & 0xF) == high * 16 + low) by (bit_vector)
                requires
                    high <= 15 && low <= 15,
            ;
            assert(byte_of_pair(a, b) == high * 16 + low);
        }
        out.push((high << 4) | (low & 0xF));
        i = i + 2;
        proof {
            assert(out@ =~= decode_hex_seq(chunk@.subrange(0, i as int)));
        }
    }
    proof {
        assert(chunk@.subrange(0, chunk@.len() as int) =~= chunk@);
    }
    Ok(out)
}

} // verus!
