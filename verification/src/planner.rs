//! The pass planner: splits the input into memory-bounded, hex-pair-aligned
//! byte ranges that cover it exactly once, in order.

use vstd::prelude::*;

use crate::errors::Hex2BinError;

verus! {

/// One memory-bounded pass: the half-open byte range `[start, end)` of the
/// input view.
#[derive(Clone, Copy, Debug, PartialEq, Eq, Structural)]
pub struct Pass {
    /// First input byte of the pass.
    pub start: usize,
    /// One past the last input byte of the pass.
    pub end: usize,
}

/// The byte offset at which decoding starts: 2 when the two-byte prefix
/// marker is skipped, 0 otherwise.
pub open spec fn start_offset(skip_prefix: bool) -> int {
    if skip_prefix {
        2
    } else {
        0
    }
}

/// Reports whether the input carries the two-byte prefix marker that is
/// trimmed before decoding: the delimiter byte `.` (46) at offset 1, as in
/// a leading `3.` format tag.
pub fn detect_prefix_marker(input: &[u8]) -> (r: bool)
    ensures
        r == (input@.len() >= 2 && input@[1] == 46),
{
    if input.len() >= 2 {
        *vstd::slice::slice_index_get(input, 1) == 46
    } else {
        false
    }
}

/// The number of passes needed for `effective_len` input bytes at
/// `max_pass` bytes per pass: the ceiling of their quotient.
pub open spec fn spec_pass_count(effective_len: int, max_pass: int) -> int {
    if effective_len <= 0 {
        0
    } else {
        (effective_len - 1) / max_pass + 1
    }
}

/// Pass `i + 1` starts exactly where pass `i` ends.
pub open spec fn adjacent(passes: Seq<Pass>, i: int) -> bool {
    passes[i + 1].start == passes[i].end
}

/// A valid pass plan over the range `[offset, len)`: the passes are
/// non-empty, contiguous, in increasing order, cover the range exactly once,
/// each has even length (a hex pair is never split), none is longer than
/// `max_pass`, and every pass but the last is exactly `max_pass` long.
pub open spec fn valid_plan(passes: Seq<Pass>, offset: int, len: int, max_pass: int) -> bool {
    &&& (forall|i: int| 0 <= i < passes.len() ==> (#[trigger] passes[i]).start < passes[i].end)
    &&& (forall|i: int| 0 <= i < passes.len() ==> (#[trigger] passes[i]).end <= len)
    &&& (forall|i: int|
        0 <= i < passes.len() ==> ((#[trigger] passes[i]).end - passes[i].start) % 2 == 0)
    &&& (forall|i: int|
        0 <= i < passes.len() ==> (#[trigger] passes[i]).end - passes[i].start <= max_pass)
    &&& (forall|i: int|
        0 <= i < passes.len() - 1 ==> (#[trigger] passes[i]).end - passes[i].start == max_pass)
    &&& (forall|i: int| 0 <= i < passes.len() - 1 ==> #[trigger] adjacent(passes, i))
    &&& (passes.len() == 0 ==> offset == len)
    &&& (passes.len() > 0 ==> passes[0].start == offset && passes[passes.len() - 1].end == len)
}

/// Computes the number of passes: the ceiling of `effective_len / max_pass`.
pub fn pass_count(effective_len: usize, max_pass: usize) -> (r: usize)
    requires
        max_pass >= 1,
    ensures
        r == spec_pass_count(effective_len as int, max_pass as int),
{
    if effective_len == 0 {
        0
    } else {
        (effective_len - 1) / max_pass + 1
    }
}

/// Plans the passes of a conversion: rejects an input that is too short for
/// the requested prefix trim or whose effective length is odd, and otherwise
/// returns ranges that cover `[offset, input_len)` exactly once, in order,
/// in even-length passes of at most `max_pass` bytes.
pub fn plan_passes(input_len: usize, max_pass: usize, skip_prefix: bool) -> (r: Result<
    Vec<Pass>,
    Hex2BinError,
>)
    requires
        max_pass >= 2,
        max_pass % 2 == 0,
    ensures
        r is Ok <==> (!skip_prefix || input_len >= 2) && (input_len - start_offset(skip_prefix))
            % 2 == 0,
        skip_prefix && input_len < 2 ==> r == Err::<Vec<Pass>, Hex2BinError>(
            Hex2BinError::MalformedHex,
        ),
        (!skip_prefix || input_len >= 2) && (input_len - start_offset(skip_prefix)) % 2 != 0
            ==> r == Err::<Vec<Pass>, Hex2BinError>(Hex2BinError::OddLength),
        r is Ok ==> valid_plan(
            r->Ok_0@,
            start_offset(skip_prefix),
            input_len as int,
            max_pass as int,
        ),
        r is Ok ==> r->Ok_0@.len() == spec_pass_count(
            input_len - start_offset(skip_prefix),
            max_pass as int,
        ),
{
    if skip_prefix && input_len < 2 {
        return Err(Hex2BinError::MalformedHex);
    }
    let offset: usize = if skip_prefix {
        2
    } else {
        0
    };
    let effective = input_len - offset;
    if effective % 2 != 0 {
        return Err(Hex2BinError::OddLength);
    }
    let n = pass_count(effective, max_pass);
    let mut passes: Vec<Pass> = Vec::new();
    let mut next_start: usize = offset;
    let mut k: usize = 0;
    while k < n
        invariant
            k <= n,
            n == spec_pass_count(input_len - offset, max_pass as int),
            offset == start_offset(skip_prefix),
            offset <= next_start <= input_len,
            max_pass >= 2,
            max_pass % 2 == 0,
            (input_len - next_start) % 2 == 0,
            passes@.len() == k,
            spec_pass_count(input_len - next_start, max_pass as int) == n - k,
            valid_plan(passes@, offset as int, next_start as int, max_pass as int),
            k < n && k > 0 ==> passes@[k - 1].end - passes@[k - 1].start == max_pass,
        decreases n - k,
    {
        let room = input_len - next_start;
        proof {
            if room == 0 {
                assert(spec_pass_count(0, max_pass as int) == 0);
                assert(false);
            }
        }
        let this_len = if room > max_pass {
            max_pass
        } else {
            room
        };
        let end = next_start + this_len;
        let p = Pass { start: next_start, end };
        let ghost prev = passes@;
        passes.push(p);
        proof {
            let m = max_pass as int;
            let e = room as int;
            if e > m {
                vstd::arithmetic::div_mod::lemma_div_minus_one(e - 1, m);
                assert(spec_pass_count(e - m, m) == spec_pass_count(e, m) - 1);
            } else {
                vstd::arithmetic::div_mod::lemma_basic_div(e - 1, m);
                assert(spec_pass_count(e, m) == 1);
            }
            lemma_plan_extend(prev, p, offset as int, next_start as int, m);
        }
        next_start = end;
        k = k + 1;
    }
    proof {
        assert(spec_pass_count(input_len - next_start, max_pass as int) == 0);
        assert(next_start == input_len);
    }
    Ok(passes)
}

/// Appending one more pass that starts where a valid plan ends, while the
/// plan's previous last pass was full, keeps the plan valid.
proof fn lemma_plan_extend(passes: Seq<Pass>, p: Pass, offset: int, len: int, max_pass: int)
    requires
        valid_plan(passes, offset, len, max_pass),
        passes.len() > 0 ==> passes[passes.len() - 1].end - passes[passes.len() - 1].start
            == max_pass,
        p.start == len,
        p.start < p.end,
        (p.end - p.start) % 2 == 0,
        p.end - p.start <= max_pass,
    ensures
        valid_plan(passes.push(p), offset, p.end as int, max_pass),
{
    let q = passes.push(p);
    assert forall|i: int| 0 <= i < q.len() implies (#[trigger] q[i]).start < q[i].end
        && q[i].end <= p.end && (q[i].end - q[i].start) % 2 == 0 && q[i].end - q[i].start
        <= max_pass by {
        if i < passes.len() {
            assert(q[i] == passes[i]);
        } else {
            assert(q[i] == p);
        }
    }
    assert forall|i: int| 0 <= i < q.len() - 1 implies (#[trigger] q[i]).end - q[i].start
        == max_pass by {
        assert(q[i] == passes[i]);
    }
    assert forall|i: int| 0 <= i < q.len() - 1 implies #[trigger] adjacent(q, i) by {
        assert(q[i] == passes[i]);
        if i < passes.len() - 1 {
            assert(adjacent(passes, i));
            assert(q[i + 1] == passes[i + 1]);
        } else {
            assert(q[i + 1] == p);
        }
    }
    assert(q[0].start == offset);
    assert(q[q.len() - 1] == p);
}

/// In a chain of non-empty, adjacent passes, every earlier pass ends at or
/// before a later pass starts.
proof fn lemma_end_le_start(passes: Seq<Pass>, i: int, j: int)
    requires
        forall|t: int| 0 <= t < passes.len() ==> (#[trigger] passes[t]).start < passes[t].end,
        forall|t: int| 0 <= t < passes.len() - 1 ==> #[trigger] adjacent(passes, t),
        0 <= i < j < passes.len(),
    ensures
        passes[i].end <= passes[j].start,
    decreases j - i,
{
    assert(adjacent(passes, j - 1));
    if i < j - 1 {
        lemma_end_le_start(passes, i, j - 1);
    }
}

/// The concatenation of the input slices named by `passes`, in order.
pub open spec fn concat_pass_ranges(s: Seq<u8>, passes: Seq<Pass>) -> Seq<u8>
    decreases passes.len(),
{
    if passes.len() == 0 {
        Seq::empty()
    } else {
        concat_pass_ranges(s, passes.drop_last()) + s.subrange(
            passes.last().start as int,
            passes.last().end as int,
        )
    }
}

/// Law: the passes of a valid plan cover the planned range exactly once,
/// with no gaps, overlaps or reordering: concatenating their slices
/// reproduces `s[offset..len]`.
pub proof fn lemma_passes_cover(s: Seq<u8>, passes: Seq<Pass>, offset: int, len: int, max_pass: int)
    requires
        valid_plan(passes, offset, len, max_pass),
        0 <= offset <= len <= s.len(),
    ensures
        concat_pass_ranges(s, passes) == s.subrange(offset, len),
    decreases passes.len(),
{
    if passes.len() == 0 {
        assert(concat_pass_ranges(s, passes) =~= s.subrange(offset, len));
    } else {
        let pre = passes.drop_last();
        let last = passes.last();
        assert(valid_plan(pre, offset, last.start as int, max_pass)) by {
            if pre.len() > 0 {
                assert(adjacent(passes, pre.len() - 1));
            }
            assert forall|i: int| 0 <= i < pre.len() - 1 implies #[trigger] adjacent(pre, i) by {
                assert(adjacent(passes, i));
            }
            assert forall|i: int| 0 <= i < pre.len() implies (#[trigger] pre[i]).end
                <= last.start by {
                lemma_end_le_start(passes, i, passes.len() - 1);
            }
        }
        lemma_passes_cover(s, pre, offset, last.start as int, max_pass);
        assert(concat_pass_ranges(s, passes) =~= s.subrange(offset, len));
    }
}

} // verus!
