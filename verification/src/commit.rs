//! The output committer: restores original input order among the decoded
//! chunks of one pass, whatever order the workers completed them in, so
//! that committed bytes are always a prefix of the final output.

use vstd::prelude::*;

use crate::executor::DecodedChunk;
use crate::executor::has_chunk_ordinal;

verus! {

/// The bytes of the chunk of `cs` whose ordinal is `i`, or the empty string
/// when no chunk carries that ordinal.
pub open spec fn bytes_at_ordinal(cs: Seq<DecodedChunk>, i: int) -> Seq<u8> {
    if has_chunk_ordinal(cs, i) {
        cs[choose|j: int| 0 <= j < cs.len() && (#[trigger] cs[j]).ordinal == i].bytes@
    } else {
        Seq::empty()
    }
}

/// The concatenation, in ascending ordinal order, of the bytes of the
/// chunks of `cs` with ordinals `0 .. k`.
pub open spec fn ordered_bytes(cs: Seq<DecodedChunk>, k: int) -> Seq<u8>
    decreases k,
{
    if k <= 0 {
        Seq::empty()
    } else {
        ordered_bytes(cs, k - 1) + bytes_at_ordinal(cs, k - 1)
    }
}

/// The slot for ordinal `i` points at the chunk of `cs` carrying ordinal
/// `i`.
pub open spec fn slot_ok(slots: Seq<Option<usize>>, cs: Seq<DecodedChunk>, i: int) -> bool {
    match slots[i] {
        Some(jj) => jj < cs.len() && cs[jj as int].ordinal == i,
        None => false,
    }
}

/// Restores original input order: concatenates the decoded chunks of one
/// pass in ascending ordinal order. The chunks may arrive in any order, but
/// each ordinal below the chunk count must be present exactly once.
pub fn reassemble_pass(chunks: &Vec<DecodedChunk>) -> (r: Vec<u8>)
    requires
        forall|j: int| 0 <= j < chunks@.len() ==> (#[trigger] chunks@[j]).ordinal < chunks@.len(),
        forall|j: int, k: int|
            0 <= j < k < chunks@.len() ==> chunks@[j].ordinal != chunks@[k].ordinal,
        forall|i: int| 0 <= i < chunks@.len() ==> #[trigger] has_chunk_ordinal(chunks@, i),
    ensures
        r@ == ordered_bytes(chunks@, chunks@.len() as int),
{
    let n = chunks.len();
    let mut slot_of: Vec<Option<usize>> = vec![None; n];
    let mut j: usize = 0;
    while j < n
        invariant
            n == chunks@.len(),
            slot_of@.len() == n,
            j <= n,
            forall|j2: int| 0 <= j2 < chunks@.len() ==> (#[trigger] chunks@[j2]).ordinal
                < chunks@.len(),
            forall|i: int|
                0 <= i < n && (#[trigger] slot_of@[i]) is Some ==> slot_of@[i]->0 < j
                    && chunks@[slot_of@[i]->0 as int].ordinal == i,
            forall|i: int, jj: int|
                #![trigger slot_of@[i], chunks@[jj]]
                0 <= i < n && slot_of@[i] is None && 0 <= jj < j ==> chunks@[jj].ordinal != i,
        decreases n - j,
    {
        let ord = chunks[j].ordinal;
        slot_of[ord] = Some(j);
        j = j + 1;
    }
    proof {
        assert forall|i: int| 0 <= i < n implies slot_ok(slot_of@, chunks@, i) by {
            assert(has_chunk_ordinal(chunks@, i));
            let w = choose|j2: int| 0 <= j2 < chunks@.len() && (#[trigger] chunks@[j2]).ordinal
                == i;
            match slot_of@[i] {
                Some(_) => {
                },
                None => {
                    assert(chunks@[w].ordinal != i);
                },
            }
        }
    }
    let mut out: Vec<u8> = Vec::new();
    let mut i: usize = 0;
    while i < n
        invariant
            n == chunks@.len(),
            slot_of@.len() == n,
            i <= n,
            forall|i2: int| 0 <= i2 < n ==> #[trigger] slot_ok(slot_of@, chunks@, i2),
            forall|j2: int, k2: int|
                0 <= j2 < k2 < chunks@.len() ==> chunks@[j2].ordinal != chunks@[k2].ordinal,
            forall|i2: int| 0 <= i2 < chunks@.len() ==> #[trigger] has_chunk_ordinal(chunks@, i2),
            out@ == ordered_bytes(chunks@, i as int),
        decreases n - i,
    {
        assert(slot_ok(slot_of@, chunks@, i as int));
        let jj = match slot_of[i] {
            Some(x) => x,
            None => vstd::pervasive::unreached(),
        };
        let piece = &chunks[jj].bytes;
        let mut t: usize = 0;
        while t < piece.len()
            invariant
                t <= piece@.len(),
                out@ == ordered_bytes(chunks@, i as int) + piece@.subrange(0, t as int),
            decreases piece@.len() - t,
        {
            let byte: u8 = piece[t];
            out.push(byte);
            proof {
                assert(out@ =~= ordered_bytes(chunks@, i as int) + piece@.subrange(
                    0,
                    t as int + 1,
                ));
            }
            t = t + 1;
        }
        proof {
            assert(piece@.subrange(0, piece@.len() as int) =~= piece@);
            let w = choose|j2: int| 0 <= j2 < chunks@.len() && (#[trigger] chunks@[j2]).ordinal
                == i as int;
            if w != jj as int {
                if w < jj as int {
                    assert(chunks@[w].ordinal != chunks@[jj as int].ordinal);
                } else {
                    assert(chunks@[jj as int].ordinal != chunks@[w].ordinal);
                }
            }
            assert(bytes_at_ordinal(chunks@, i as int) == piece@);
        }
        i = i + 1;
    }
    out
}

} // verus!
