//! The parallel pass executor: cuts one pass into hex-pair-aligned chunks,
//! decodes the chunks concurrently on a worker pool, and returns the decoded
//! chunks tagged with their ordinals, in no particular order.

use vstd::prelude::*;

use rayon::iter::IndexedParallelIterator;
use rayon::iter::ParallelIterator;
use rayon::slice::ParallelSlice;

use crate::convert::convert_chunk;
use crate::convert::convert_result;
use crate::convert::view_result;
use crate::errors::Hex2BinError;
use crate::hex::all_hex_digits;
use crate::hex::decode_hex_seq;
use crate::hex::is_hex_digit;

verus! {

/// The binary output of one chunk, tagged with the chunk's ordinal: the
/// position of the source chunk among the chunks of its pass, starting at 0.
pub struct DecodedChunk {
    /// Position of the source chunk within its pass.
    pub ordinal: usize,
    /// The binary decoding of the source chunk.
    pub bytes: Vec<u8>,
}

/// The number of chunks a pass of `len` bytes yields at `chunk_len` bytes
/// per chunk: the ceiling of their quotient.
pub open spec fn spec_chunk_count(len: int, chunk_len: int) -> int {
    if len <= 0 {
        0
    } else {
        (len - 1) / chunk_len + 1
    }
}

/// Chunk `i` of `s` cut into consecutive pieces of `chunk_len` bytes; only
/// the last chunk may be shorter.
pub open spec fn chunk_of(s: Seq<u8>, chunk_len: int, i: int) -> Seq<u8> {
    s.subrange(i * chunk_len, vstd::math::min((i + 1) * chunk_len, s.len() as int))
}

/// The worker chunk length for a pass: the ceiling of `pass_len / workers`,
/// rounded up to the nearest even number so a hex pair is never split.
pub open spec fn spec_chunk_len(pass_len: int, workers: int) -> int {
    let raw = if pass_len <= 0 {
        0
    } else {
        (pass_len - 1) / workers + 1
    };
    if raw % 2 == 0 {
        raw
    } else {
        raw + 1
    }
}

/// Computes the worker chunk length of a pass.
pub fn chunk_len_for(pass_len: usize, workers: usize) -> (r: usize)
    requires
        workers >= 1,
        pass_len >= 1,
        pass_len % 2 == 0,
    ensures
        r == spec_chunk_len(pass_len as int, workers as int),
        r >= 2,
        r % 2 == 0,
{
    proof {
        assert((pass_len - 1) / (workers as int) <= pass_len - 1) by (nonlinear_arith)
            requires
                workers >= 1,
                pass_len >= 1,
        ;
    }
    let raw = 1 + (pass_len - 1) / workers;
    if raw % 2 == 0 {
        raw
    } else {
        raw + 1
    }
}

/// Some entry of `r` carries the ordinal `i`.
pub open spec fn has_ordinal(r: Seq<(usize, Result<Vec<u8>, Hex2BinError>)>, i: int) -> bool {
    exists|j: int| 0 <= j < r.len() && (#[trigger] r[j]).0 == i
}

/// Some chunk of `cs` carries the ordinal `i`.
pub open spec fn has_chunk_ordinal(cs: Seq<DecodedChunk>, i: int) -> bool {
    exists|j: int| 0 <= j < cs.len() && (#[trigger] cs[j]).ordinal == i
}

/// The decoded chunks `cs` are exactly the chunkwise decoding of `data` cut
/// at `chunk_len`: one entry per chunk, every ordinal exactly once, and the
/// bytes tagged with ordinal `i` are the decoding of chunk `i`. Nothing is
/// said about the order of the entries.
pub open spec fn decoded_pass(cs: Seq<DecodedChunk>, data: Seq<u8>, chunk_len: int) -> bool {
    &&& cs.len() == spec_chunk_count(data.len() as int, chunk_len)
    &&& (forall|j: int| 0 <= j < cs.len() ==> (#[trigger] cs[j]).ordinal < cs.len())
    &&& (forall|j: int, k: int| 0 <= j < k < cs.len() ==> cs[j].ordinal != cs[k].ordinal)
    &&& (forall|i: int| 0 <= i < cs.len() ==> #[trigger] has_chunk_ordinal(cs, i))
    &&& (forall|j: int|
        0 <= j < cs.len() ==> (#[trigger] cs[j]).bytes@ == decode_hex_seq(
            chunk_of(data, chunk_len, cs[j].ordinal as int),
        ))
}

/// Relies on rayon's `par_chunks`, `enumerate`, `map` and `collect` for byte
/// slices: the slice is cut into consecutive chunks of `chunk_len` bytes
/// (only the last may be shorter), each chunk is handed to `convert_chunk`
/// exactly once, possibly on another worker thread, and the collected vector
/// holds exactly one entry per chunk, pairing the chunk's ordinal with its
/// conversion. No order of the entries is assumed.
#[verifier::external_body]
fn decode_chunks_parallel(data: &[u8], chunk_len: usize) -> (r: Vec<
    (usize, Result<Vec<u8>, Hex2BinError>),
>)
    requires
        chunk_len >= 1,
    ensures
        r@.len() == spec_chunk_count(data@.len() as int, chunk_len as int),
        forall|j: int| 0 <= j < r@.len() ==> (#[trigger] r@[j]).0 < r@.len(),
        forall|j: int, k: int| 0 <= j < k < r@.len() ==> r@[j].0 != r@[k].0,
        forall|i: int| 0 <= i < r@.len() ==> #[trigger] has_ordinal(r@, i),
        forall|j: int|
            0 <= j < r@.len() ==> view_result((#[trigger] r@[j]).1) == convert_result(
                chunk_of(data@, chunk_len as int, r@[j].0 as int),
            ),
{
    data.par_chunks(chunk_len).enumerate().map(|(no, chunk)| (no, convert_chunk(chunk))).collect()
}

/// Chunk `i` of a pass is a non-empty range inside the pass and, when both
/// the pass length and the chunk length are even, has even length.
proof fn lemma_chunk_in_range(len: int, chunk_len: int, i: int)
    requires
        chunk_len >= 2,
        chunk_len % 2 == 0,
        len % 2 == 0,
        0 <= i < spec_chunk_count(len, chunk_len),
    ensures
        0 <= i * chunk_len < vstd::math::min((i + 1) * chunk_len, len) <= len,
        (vstd::math::min((i + 1) * chunk_len, len) - i * chunk_len) % 2 == 0,
        (i * chunk_len) % 2 == 0,
{
    let q = (len - 1) / chunk_len;
    vstd::arithmetic::div_mod::lemma_fundamental_div_mod(len - 1, chunk_len);
    assert(i * chunk_len <= q * chunk_len) by (nonlinear_arith)
        requires
            i <= q,
            chunk_len >= 2,
    ;
    assert(chunk_len * q == q * chunk_len) by (nonlinear_arith);
    assert(i * chunk_len >= 0) by (nonlinear_arith)
        requires
            i >= 0,
            chunk_len >= 2,
    ;
    assert((i + 1) * chunk_len == i * chunk_len + chunk_len) by (nonlinear_arith);
    let h = chunk_len / 2;
    assert(chunk_len == 2 * h);
    assert(i * chunk_len == (i * h) * 2) by (nonlinear_arith)
        requires
            chunk_len == 2 * h,
    ;
    vstd::arithmetic::div_mod::lemma_mod_multiples_basic(i * h, 2);
}

/// Every byte position of a pass falls in the chunk given by dividing the
/// position by the chunk length.
proof fn lemma_position_in_chunk(len: int, chunk_len: int, p: int)
    requires
        chunk_len >= 1,
        0 <= p < len,
    ensures
        0 <= p / chunk_len < spec_chunk_count(len, chunk_len),
        (p / chunk_len) * chunk_len <= p < vstd::math::min((p / chunk_len + 1) * chunk_len, len),
{
    let i = p / chunk_len;
    vstd::arithmetic::div_mod::lemma_fundamental_div_mod(p, chunk_len);
    assert(i * chunk_len == chunk_len * i) by (nonlinear_arith);
    assert((i + 1) * chunk_len == i * chunk_len + chunk_len) by (nonlinear_arith);
    assert(p / chunk_len <= (len - 1) / chunk_len) by {
        vstd::arithmetic::div_mod::lemma_div_is_ordered(p, len - 1, chunk_len);
    }
    assert(p >= 0);
    vstd::arithmetic::div_mod::lemma_div_pos_is_pos(p, chunk_len);
}

/// The concatenation of the decodings of chunks `0 .. k` of `data` cut at
/// `chunk_len`, in ordinal order.
pub open spec fn concat_chunk_decodings(data: Seq<u8>, chunk_len: int, k: int) -> Seq<u8>
    decreases k,
{
    if k <= 0 {
        Seq::empty()
    } else {
        concat_chunk_decodings(data, chunk_len, k - 1) + decode_hex_seq(
            chunk_of(data, chunk_len, k - 1),
        )
    }
}

/// The concatenated decodings of the first `k` chunks equal the decoding of
/// the pass prefix those chunks cover.
proof fn lemma_chunked_decode_prefix(data: Seq<u8>, chunk_len: int, k: int)
    requires
        chunk_len >= 2,
        chunk_len % 2 == 0,
        data.len() % 2 == 0,
        0 <= k <= spec_chunk_count(data.len() as int, chunk_len),
    ensures
        concat_chunk_decodings(data, chunk_len, k) == decode_hex_seq(
            data.subrange(0, vstd::math::min(k * chunk_len, data.len() as int)),
        ),
    decreases k,
{
    let len = data.len() as int;
    if k == 0 {
        assert(0 * chunk_len == 0) by (nonlinear_arith);
        assert(data.subrange(0, 0) =~= Seq::<u8>::empty());
        assert(decode_hex_seq(Seq::<u8>::empty()).len() == 0);
        assert(concat_chunk_decodings(data, chunk_len, 0) =~= decode_hex_seq(data.subrange(0, 0)));
    } else {
        lemma_chunked_decode_prefix(data, chunk_len, k - 1);
        lemma_chunk_in_range(len, chunk_len, k - 1);
        let a = (k - 1) * chunk_len;
        let b = vstd::math::min(k * chunk_len, len);
        assert(k * chunk_len == a + chunk_len) by (nonlinear_arith)
            requires
                a == (k - 1) * chunk_len,
        ;
        assert(vstd::math::min((k - 1) * chunk_len, len) == a);
        let whole = data.subrange(0, b);
        vstd::arithmetic::div_mod::lemma_mod_adds(a, b - a, 2);
        crate::hex::lemma_decode_split(whole, a);
        assert(whole.subrange(0, a) =~= data.subrange(0, a));
        assert(whole.subrange(a, whole.len() as int) =~= chunk_of(data, chunk_len, k - 1));
    }
}

/// Law: decoding a pass chunk by chunk and concatenating the results in
/// ordinal order equals decoding the whole pass at once, so parallel
/// decoding is observably equivalent to sequential decoding.
pub proof fn lemma_chunked_decode_equals_whole(data: Seq<u8>, chunk_len: int)
    requires
        chunk_len >= 2,
        chunk_len % 2 == 0,
        data.len() % 2 == 0,
    ensures
        concat_chunk_decodings(
            data,
            chunk_len,
            spec_chunk_count(data.len() as int, chunk_len),
        ) == decode_hex_seq(data),
{
    let len = data.len() as int;
    let n = spec_chunk_count(len, chunk_len);
    lemma_chunked_decode_prefix(data, chunk_len, n);
    if len > 0 {
        let q = (len - 1) / chunk_len;
        vstd::arithmetic::div_mod::lemma_fundamental_div_mod(len - 1, chunk_len);
        assert(n * chunk_len == q * chunk_len + chunk_len) by (nonlinear_arith)
            requires
                n == q + 1,
        ;
        assert(chunk_len * q == q * chunk_len) by (nonlinear_arith);
        assert(n * chunk_len >= len);
        assert(vstd::math::min(n * chunk_len, len) == len);
    } else {
        assert(0 * chunk_len == 0) by (nonlinear_arith);
    }
    assert(data.subrange(0, len) =~= data);
}

/// Relies on num_cpus::get_physical: the number of physical cores of the
/// machine, documented to always be at least 1.
#[verifier::external_body]
fn physical_core_count() -> (r: usize)
    ensures
        r >= 1,
{
    num_cpus::get_physical()
}

/// The default worker count of the executor: the number of physical cores.
pub fn default_worker_count() -> (r: usize)
    ensures
        r >= 1,
{
    physical_core_count()
}

/// Decodes one pass in parallel: cuts the pass into even-length chunks, one
/// per worker, decodes every chunk exactly once on the worker pool, and
/// returns the decoded chunks tagged with their ordinals, in no particular
/// order. Fails exactly when the pass holds a byte outside the hex set.
pub fn execute_pass(data: &[u8], workers: usize) -> (r: Result<Vec<DecodedChunk>, Hex2BinError>)
    requires
        workers >= 1,
        data@.len() >= 1,
        data@.len() % 2 == 0,
    ensures
        r is Ok <==> all_hex_digits(data@),
        !all_hex_digits(data@) ==> r == Err::<Vec<DecodedChunk>, Hex2BinError>(
            Hex2BinError::MalformedHex,
        ),
        r is Ok ==> decoded_pass(
            r->Ok_0@,
            data@,
            spec_chunk_len(data@.len() as int, workers as int),
        ),
{
    let chunk_len = chunk_len_for(data.len(), workers);
    let ghost cl = chunk_len as int;
    let mut raw = decode_chunks_parallel(data, chunk_len);
    let ghost orig = raw@;
    let ghost n = orig.len() as int;
    let mut out: Vec<DecodedChunk> = Vec::new();
    while raw.len() > 0
        invariant
            chunk_len >= 2,
            chunk_len % 2 == 0,
            cl == chunk_len as int,
            data@.len() % 2 == 0,
            n == orig.len() == spec_chunk_count(data@.len() as int, cl),
            raw@ == orig.subrange(0, raw@.len() as int),
            out@.len() == n - raw@.len(),
            forall|j: int|
                0 <= j < out@.len() ==> (#[trigger] out@[j]).ordinal == orig[n - 1 - j].0
                    && out@[j].bytes@ == decode_hex_seq(chunk_of(data@, cl, orig[n - 1 - j].0 as int)),
            forall|j: int| raw@.len() <= j < n ==> (#[trigger] orig[j]).1 is Ok,
            forall|j: int| 0 <= j < n ==> (#[trigger] orig[j]).0 < n,
            forall|j: int, k: int| 0 <= j < k < n ==> orig[j].0 != orig[k].0,
            forall|i: int| 0 <= i < n ==> #[trigger] has_ordinal(orig, i),
            forall|j: int|
                0 <= j < n ==> view_result((#[trigger] orig[j]).1) == convert_result(
                    chunk_of(data@, cl, orig[j].0 as int),
                ),
        decreases raw@.len(),
    {
        let (no, res) = match raw.pop() {
            Some(pair) => pair,
            None => vstd::pervasive::unreached(),
        };
        proof {
            assert(raw@ =~= orig.subrange(0, raw@.len() as int));
            assert((no, res) == orig[raw@.len() as int]);
            lemma_chunk_in_range(data@.len() as int, cl, no as int);
        }
        match res {
            Ok(bytes) => {
                out.push(DecodedChunk { ordinal: no, bytes });
            },
            Err(_) => {
                proof {
                    let lo = no as int * cl;
                    let piece = chunk_of(data@, cl, no as int);
                    assert(view_result(orig[raw@.len() as int].1) == convert_result(piece));
                    assert(convert_result(piece) is Err);
                    assert(piece.len() % 2 == 0);
                    assert(!all_hex_digits(piece));
                    let bad = choose|t: int|
                        0 <= t < piece.len() && !(#[trigger] is_hex_digit(piece[t]));
                    assert(piece[bad] == data@[lo + bad]);
                    assert(!is_hex_digit(data@[lo + bad]));
                }
                return Err(Hex2BinError::MalformedHex);
            },
        }
    }
    proof {
        assert(raw@.len() == 0);
        assert forall|p: int| 0 <= p < data@.len() implies #[trigger] is_hex_digit(data@[p]) by {
            lemma_position_in_chunk(data@.len() as int, cl, p);
            let i = p / cl;
            assert(has_ordinal(orig, i));
            let j = choose|j: int| 0 <= j < orig.len() && (#[trigger] orig[j]).0 == i;
            assert(orig[j].1 is Ok);
            assert(view_result(orig[j].1) == convert_result(chunk_of(data@, cl, i)));
            assert(convert_result(chunk_of(data@, cl, i)) is Ok);
            assert(all_hex_digits(chunk_of(data@, cl, i)));
            lemma_chunk_in_range(data@.len() as int, cl, i);
            assert(chunk_of(data@, cl, i)[p - i * cl] == data@[p]);
            assert(is_hex_digit(chunk_of(data@, cl, i)[p - i * cl]));
        }
        assert forall|i: int| 0 <= i < out@.len() implies #[trigger] has_chunk_ordinal(
            out@,
            i,
        ) by {
            assert(has_ordinal(orig, i));
            let j = choose|j: int| 0 <= j < orig.len() && (#[trigger] orig[j]).0 == i;
            assert(out@[n - 1 - j].ordinal == orig[n - 1 - (n - 1 - j)].0);
            assert(out@[n - 1 - j].ordinal == i);
        }
        assert forall|j: int, k: int| 0 <= j < k < out@.len() implies out@[j].ordinal
            != out@[k].ordinal by {
            assert(out@[j].ordinal == orig[n - 1 - j].0);
            assert(out@[k].ordinal == orig[n - 1 - k].0);
        }
        assert(decoded_pass(out@, data@, cl));
    }
    Ok(out)
}

} // verus!
