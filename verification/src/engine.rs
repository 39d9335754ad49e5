//! The conversion engine: plans memory-bounded passes, decodes each pass in
//! parallel, and appends the reordered output pass by pass, so committed
//! bytes are always a prefix of the final decoding.

use vstd::prelude::*;

use crate::commit::bytes_at_ordinal;
use crate::commit::ordered_bytes;
use crate::commit::reassemble_pass;
use crate::convert::view_result;
use crate::errors::Hex2BinError;
use crate::executor::DecodedChunk;
use crate::executor::concat_chunk_decodings;
use crate::executor::decoded_pass;
use crate::executor::execute_pass;
use crate::executor::has_chunk_ordinal;
use crate::executor::lemma_chunked_decode_equals_whole;
use crate::executor::spec_chunk_len;
use crate::hex::all_hex_digits;
use crate::hex::decode_hex_seq;
use crate::hex::is_hex_digit;
use crate::hex::lemma_decode_split;
use crate::planner::Pass;
use crate::planner::plan_passes;
use crate::planner::start_offset;
use crate::planner::valid_plan;

verus! {

/// One mebibyte of input.
pub const MEGABYTE: u64 = 1024 * 1024;

/// The default decoded-output memory budget of one pass.
pub const MAX_MEM_UTIL: u64 = 1024 * 1024 * 1024 * 8;

/// The default maximum input bytes per pass: twice the memory budget, since
/// two input characters decode to one output byte.
pub const MAX_INPUT_PASS_SIZE: u64 = 1024 * 1024 * 1024 * 8 * 2;

/// A conversion accepts its input when the input is long enough for the
/// requested prefix trim, the remaining length is even, and every remaining
/// byte is a hex digit.
pub open spec fn conversion_accepts(s: Seq<u8>, skip_prefix: bool) -> bool {
    &&& (skip_prefix ==> s.len() >= 2)
    &&& (s.len() - start_offset(skip_prefix)) % 2 == 0
    &&& all_hex_digits(s.subrange(start_offset(skip_prefix), s.len() as int))
}

/// The output of an accepted conversion: the decoding of the input after
/// the optional prefix trim.
pub open spec fn conversion_output(s: Seq<u8>, skip_prefix: bool) -> Seq<u8> {
    decode_hex_seq(s.subrange(start_offset(skip_prefix), s.len() as int))
}

/// The exact result of converting `s`: its decoding when the conversion
/// accepts, and the specific error otherwise.
pub open spec fn conversion_result(s: Seq<u8>, skip_prefix: bool) -> Result<
    Seq<u8>,
    Hex2BinError,
> {
    if skip_prefix && s.len() < 2 {
        Err(Hex2BinError::MalformedHex)
    } else if (s.len() - start_offset(skip_prefix)) % 2 != 0 {
        Err(Hex2BinError::OddLength)
    } else if !all_hex_digits(s.subrange(start_offset(skip_prefix), s.len() as int)) {
        Err(Hex2BinError::MalformedHex)
    } else {
        Ok(conversion_output(s, skip_prefix))
    }
}

/// The chunk length of a non-empty pass is even and at least 2.
proof fn lemma_chunk_len_bounds(pass_len: int, workers: int)
    requires
        workers >= 1,
        pass_len >= 1,
    ensures
        spec_chunk_len(pass_len, workers) >= 2,
        spec_chunk_len(pass_len, workers) % 2 == 0,
{
    vstd::arithmetic::div_mod::lemma_div_pos_is_pos(pass_len - 1, workers);
}

/// Within a decoded pass, concatenating the chunk bytes in ordinal order
/// equals concatenating the chunk decodings in ordinal order.
proof fn lemma_ordered_equals_concat(cs: Seq<DecodedChunk>, data: Seq<u8>, chunk_len: int, k: int)
    requires
        decoded_pass(cs, data, chunk_len),
        0 <= k <= cs.len(),
    ensures
        ordered_bytes(cs, k) == concat_chunk_decodings(data, chunk_len, k),
    decreases k,
{
    if k > 0 {
        lemma_ordered_equals_concat(cs, data, chunk_len, k - 1);
        assert(has_chunk_ordinal(cs, k - 1));
        let j = choose|j: int| 0 <= j < cs.len() && (#[trigger] cs[j]).ordinal == k - 1;
        assert(bytes_at_ordinal(cs, k - 1) == cs[j].bytes@);
        assert(cs[j].bytes@ == decode_hex_seq(
            crate::executor::chunk_of(data, chunk_len, k - 1),
        ));
    }
}

/// Converts one pass: decodes `input[start..end]` in parallel chunks and
/// reassembles the decoded bytes in original order. Returns the decoding of
/// the pass exactly when the pass holds only hex digits.
pub fn convert_pass(input: &[u8], start: usize, end: usize, workers: usize) -> (r: Result<
    Vec<u8>,
    Hex2BinError,
>)
    requires
        start <= end <= input@.len(),
        (end - start) % 2 == 0,
        workers >= 1,
    ensures
        r is Ok <==> all_hex_digits(input@.subrange(start as int, end as int)),
        r is Ok ==> r->Ok_0@ == decode_hex_seq(input@.subrange(start as int, end as int)),
        !all_hex_digits(input@.subrange(start as int, end as int)) ==> r == Err::<
            Vec<u8>,
            Hex2BinError,
        >(Hex2BinError::MalformedHex),
{
    let data = vstd::slice::slice_subrange(input, start, end);
    if data.len() == 0 {
        proof {
            assert(decode_hex_seq(data@) =~= Seq::<u8>::empty());
        }
        return Ok(Vec::new());
    }
    let decoded = match execute_pass(data, workers) {
        Ok(d) => d,
        Err(e) => {
            return Err(e);
        },
    };
    let out = reassemble_pass(&decoded);
    proof {
        let cl = spec_chunk_len(data@.len() as int, workers as int);
        lemma_chunk_len_bounds(data@.len() as int, workers as int);
        lemma_ordered_equals_concat(decoded@, data@, cl, decoded@.len() as int);
        lemma_chunked_decode_equals_whole(data@, cl);
    }
    Ok(out)
}

/// Extending a decoded, all-hex prefix `[off, a)` of the input by one more
/// all-hex pass `[a, b)` keeps the range all hex, and its decoding is the
/// concatenation of the two decodings.
proof fn lemma_extend_pass(s: Seq<u8>, off: int, a: int, b: int)
    requires
        0 <= off <= a <= b <= s.len(),
        (a - off) % 2 == 0,
        (b - a) % 2 == 0,
        all_hex_digits(s.subrange(off, a)),
        all_hex_digits(s.subrange(a, b)),
    ensures
        all_hex_digits(s.subrange(off, b)),
        decode_hex_seq(s.subrange(off, b)) == decode_hex_seq(s.subrange(off, a))
            + decode_hex_seq(s.subrange(a, b)),
{
    let s2 = s.subrange(off, b);
    lemma_decode_split(s2, a - off);
    assert(s2.subrange(0, a - off) =~= s.subrange(off, a));
    assert(s2.subrange(a - off, s2.len() as int) =~= s.subrange(a, b));
    assert forall|t: int| 0 <= t < s2.len() implies #[trigger] is_hex_digit(s2[t]) by {
        if t < a - off {
            assert(s2[t] == s.subrange(off, a)[t]);
            assert(is_hex_digit(s.subrange(off, a)[t]));
        } else {
            assert(s2[t] == s.subrange(a, b)[t - (a - off)]);
            assert(is_hex_digit(s.subrange(a, b)[t - (a - off)]));
        }
    }
}

/// A byte outside the hex set inside the pass `[a, b)` is one inside the
/// whole effective range `[off, len)`.
proof fn lemma_bad_byte_extends(s: Seq<u8>, off: int, a: int, b: int, len: int)
    requires
        0 <= off <= a <= b <= len <= s.len(),
        !all_hex_digits(s.subrange(a, b)),
    ensures
        !all_hex_digits(s.subrange(off, len)),
{
    let ps = s.subrange(a, b);
    let bad = choose|t: int| 0 <= t < ps.len() && !(#[trigger] is_hex_digit(ps[t]));
    let eff = s.subrange(off, len);
    assert(ps[bad] == s[a + bad]);
    assert(eff[a - off + bad] == s[a + bad]);
    assert(!is_hex_digit(eff[a - off + bad]));
}

/// The input position up to which the first `k` passes reach.
pub open spec fn pass_upto(passes: Seq<Pass>, offset: int, k: int) -> int {
    if k == 0 {
        offset
    } else {
        passes[k - 1].end as int
    }
}

/// Runs the whole conversion in memory: plans the passes, decodes each pass
/// in parallel, and appends its reordered output. Returns the decoding of
/// the input after the optional prefix trim exactly when the conversion
/// accepts, and the specific error otherwise.
pub fn convert_all(input: &[u8], max_pass: usize, workers: usize, skip_prefix: bool) -> (r: Result<
    Vec<u8>,
    Hex2BinError,
>)
    requires
        max_pass >= 2,
        max_pass % 2 == 0,
        workers >= 1,
    ensures
        view_result(r) == conversion_result(input@, skip_prefix),
        r is Ok <==> conversion_accepts(input@, skip_prefix),
        r is Ok ==> r->Ok_0@ == conversion_output(input@, skip_prefix),
{
    let passes = match plan_passes(input.len(), max_pass, skip_prefix) {
        Ok(p) => p,
        Err(e) => {
            return Err(e);
        },
    };
    let offset: usize = if skip_prefix {
        2
    } else {
        0
    };
    let ghost off = offset as int;
    let ghost len = input@.len() as int;
    let n_passes = passes.len();
    let mut out: Vec<u8> = Vec::new();
    let mut k: usize = 0;
    while k < n_passes
        invariant
            n_passes == passes@.len(),
            valid_plan(passes@, off, len, max_pass as int),
            off == start_offset(skip_prefix),
            skip_prefix ==> input@.len() >= 2,
            len == input@.len(),
            (len - off) % 2 == 0,
            0 <= off <= len,
            k <= n_passes,
            workers >= 1,
            (pass_upto(passes@, off, k as int) - off) % 2 == 0,
            off <= pass_upto(passes@, off, k as int) <= len,
            out@ == decode_hex_seq(input@.subrange(off, pass_upto(passes@, off, k as int))),
            all_hex_digits(input@.subrange(off, pass_upto(passes@, off, k as int))),
        decreases n_passes - k,
    {
        let p = passes[k];
        let ghost upto0 = pass_upto(passes@, off, k as int);
        proof {
            if k > 0 {
                assert(crate::planner::adjacent(passes@, k - 1));
            }
            assert(p.start as int == upto0);
        }
        let decoded = match convert_pass(input, p.start, p.end, workers) {
            Ok(d) => d,
            Err(e) => {
                proof {
                    lemma_bad_byte_extends(input@, off, p.start as int, p.end as int, len);
                }
                return Err(e);
            },
        };
        let mut d = decoded;
        out.append(&mut d);
        proof {
            lemma_extend_pass(input@, off, upto0, p.end as int);
        }
        k = k + 1;
    }
    proof {
        if passes@.len() == 0 {
            assert(pass_upto(passes@, off, 0) == off && off == len);
        } else {
            assert(passes@[passes@.len() - 1].end == len);
        }
        assert(conversion_accepts(input@, skip_prefix));
    }
    Ok(out)
}

/// Cumulative progress counters of a conversion, updated after each
/// committed pass: bytes of input consumed and bytes of output committed.
pub struct Progress {
    /// Input bytes consumed so far.
    pub bytes_read: usize,
    /// Output bytes committed so far.
    pub bytes_written: usize,
}

impl Progress {
    /// Fresh counters: nothing read, nothing written.
    pub fn new() -> (r: Progress)
        ensures
            r.bytes_read == 0,
            r.bytes_written == 0,
    {
        Progress { bytes_read: 0, bytes_written: 0 }
    }

    /// Records one committed pass: `pass_len` input bytes were consumed and
    /// `out_len` output bytes were written.
    pub fn record_pass(&mut self, pass_len: usize, out_len: usize)
        requires
            old(self).bytes_read + pass_len <= usize::MAX,
            old(self).bytes_written + out_len <= usize::MAX,
        ensures
            final(self).bytes_read == old(self).bytes_read + pass_len,
            final(self).bytes_written == old(self).bytes_written + out_len,
    {
        self.bytes_read = self.bytes_read + pass_len;
        self.bytes_written = self.bytes_written + out_len;
    }
}

/// Law: what the committer has written after any whole number of passes is
/// a prefix of the final output — the decoding of the effective range up to
/// any even boundary `mid` is a prefix of the decoding of the whole range.
pub proof fn lemma_committed_prefix(s: Seq<u8>, off: int, mid: int, len: int)
    requires
        0 <= off <= mid <= len <= s.len(),
        (mid - off) % 2 == 0,
        (len - off) % 2 == 0,
    ensures
        decode_hex_seq(s.subrange(off, mid)).is_prefix_of(decode_hex_seq(s.subrange(off, len))),
{
    let whole = s.subrange(off, len);
    lemma_decode_split(whole, mid - off);
    assert(whole.subrange(0, mid - off) =~= s.subrange(off, mid));
}

/// Law: conversion is deterministic — two runs over the same input with the
/// same prefix configuration give the same result, so running the full
/// conversion twice on one input produces byte-identical output.
pub proof fn lemma_conversion_deterministic(
    s: Seq<u8>,
    skip_prefix: bool,
    r1: Result<Vec<u8>, Hex2BinError>,
    r2: Result<Vec<u8>, Hex2BinError>,
)
    requires
        view_result(r1) == conversion_result(s, skip_prefix),
        view_result(r2) == conversion_result(s, skip_prefix),
    ensures
        view_result(r1) == view_result(r2),
        r1 is Ok ==> r2 is Ok && r1->Ok_0@ == r2->Ok_0@,
{
}

} // verus!
