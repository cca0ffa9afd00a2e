//! How the pixels of an image are shared out among workers.
//!
//! The pixel indices are cut into as many contiguous chunks as there are
//! workers, one chunk for each worker, of sizes that differ by one at
//! most. Every pixel belongs to exactly one chunk, whatever the number of
//! workers: no pixel is rendered twice and none is left out.

use vstd::prelude::*;
use vstd::arithmetic::div_mod::lemma_fundamental_div_mod;

verus! {

/// The pixel indices from `start` up to, but without, `end`.
#[derive(Clone, Copy, Debug, PartialEq, Eq, Structural)]
pub struct Chunk {
    pub start: usize,
    pub end: usize,
}

impl Chunk {
    /// Whether the chunk holds the pixel index `p`.
    pub open spec fn holds(&self, p: int) -> bool {
        self.start <= p < self.end
    }
}

/// Where the chunk of worker `i` starts when `total` pixels are shared
/// out among `workers` workers: every worker takes the whole part of
/// `total / workers`, and the first `total % workers` workers take one
/// pixel more.
pub open spec fn chunk_start(total: nat, workers: nat, i: nat) -> nat {
    let share = total / workers;
    let spare = total % workers;
    i * share + if i < spare {
        i
    } else {
        spare
    }
}

/// Whether `chunks` is the split of `total` pixels among `workers`
/// workers.
pub open spec fn is_split(chunks: Seq<Chunk>, total: nat, workers: nat) -> bool {
    &&& chunks.len() == workers
    &&& forall|i: int|
        0 <= i < chunks.len() ==> {
            &&& (#[trigger] chunks[i]).start == chunk_start(total, workers, i as nat)
            &&& chunks[i].end == chunk_start(total, workers, (i + 1) as nat)
        }
}

/// Law: the chunks tile the pixels. The first starts at zero, each starts
/// where the one before it ends, the last ends at `total`, and a chunk is
/// smaller than no other by more than one pixel.
pub proof fn lemma_chunks_tile(total: nat, workers: nat, i: nat)
    requires
        workers > 0,
        i < workers,
    ensures
        chunk_start(total, workers, 0) == 0,
        chunk_start(total, workers, workers) == total,
        chunk_start(total, workers, i) <= chunk_start(total, workers, i + 1) <= total,
        chunk_start(total, workers, i + 1) - chunk_start(total, workers, i) == total / workers
            + if i < total % workers {
            1nat
        } else {
            0nat
        },
{
    let share = (total / workers) as int;
    let spare = (total % workers) as int;
    let w = workers as int;
    lemma_fundamental_div_mod(total as int, w);
    assert(share >= 0 && 0 <= spare < w);
    assert(0 * share == 0);
    assert(w * share + spare == total);
    assert((i + 1) * share == i * share + share) by (nonlinear_arith);
    assert((i + 1) * share <= w * share) by (nonlinear_arith)
        requires
            i + 1 <= w,
            share >= 0,
    ;
}

/// Law: every pixel has exactly one owner. Whatever the number of
/// workers, the pixel index `p` lies in the chunk of one worker and of no
/// other.
pub proof fn lemma_one_owner(total: nat, workers: nat, p: nat) -> (owner: nat)
    requires
        workers > 0,
        p < total,
    ensures
        owner < workers,
        chunk_start(total, workers, owner) <= p < chunk_start(total, workers, owner + 1),
        forall|i: nat|
            i < workers && chunk_start(total, workers, i) <= p < #[trigger] chunk_start(
                total,
                workers,
                i + 1,
            ) ==> i == owner,
{
    lemma_chunks_tile(total, workers, 0);
    let owner = lemma_owner_below(total, workers, p, workers);
    assert forall|i: nat|
        i < workers && chunk_start(total, workers, i) <= p < #[trigger] chunk_start(
            total,
            workers,
            i + 1,
        ) implies i == owner by {
        if i < owner {
            lemma_starts_ordered(total, workers, i + 1, owner);
        } else if owner < i {
            lemma_starts_ordered(total, workers, owner + 1, i);
        }
    }
    owner
}

/// Chunk starts never go down.
proof fn lemma_starts_ordered(total: nat, workers: nat, i: nat, j: nat)
    requires
        workers > 0,
        i <= j <= workers,
    ensures
        chunk_start(total, workers, i) <= chunk_start(total, workers, j),
    decreases j - i,
{
    if i < j {
        lemma_chunks_tile(total, workers, (j - 1) as nat);
        lemma_starts_ordered(total, workers, i, (j - 1) as nat);
    }
}

/// A pixel below the start of chunk `n` lies in one of the chunks before
/// it.
proof fn lemma_owner_below(total: nat, workers: nat, p: nat, n: nat) -> (owner: nat)
    requires
        workers > 0,
        0 < n <= workers,
        p < chunk_start(total, workers, n),
    ensures
        owner < n,
        chunk_start(total, workers, owner) <= p < chunk_start(total, workers, owner + 1),
    decreases n,
{
    lemma_chunks_tile(total, workers, (n - 1) as nat);
    if chunk_start(total, workers, (n - 1) as nat) <= p {
        (n - 1) as nat
    } else {
        lemma_owner_below(total, workers, p, (n - 1) as nat)
    }
}

/// Shares `total` pixels out among `workers` workers. Without a worker
/// there is no split.
pub fn partition(total: usize, workers: usize) -> (r: Option<Vec<Chunk>>)
    ensures
        r is Some <==> workers > 0,
        r matches Some(chunks) ==> is_split(chunks@, total as nat, workers as nat),
{
    if workers == 0 {
        return None;
    }
    let share = total / workers;
    let spare = total % workers;
    let mut chunks: Vec<Chunk> = Vec::new();
    let mut start: usize = 0;
    let mut i: usize = 0;
    while i < workers
        invariant
            i <= workers,
            workers > 0,
            share == total / workers,
            spare == total % workers,
            chunks.len() == i,
            start == chunk_start(total as nat, workers as nat, i as nat),
            forall|k: int|
                0 <= k < i ==> {
                    &&& (#[trigger] chunks[k]).start == chunk_start(
                        total as nat,
                        workers as nat,
                        k as nat,
                    )
                    &&& chunks[k].end == chunk_start(total as nat, workers as nat, (k + 1) as nat)
                },
        decreases workers - i,
    {
        proof {
            lemma_chunks_tile(total as nat, workers as nat, i as nat);
        }
        let size = if i < spare {
            share + 1
        } else {
            share
        };
        let end = start + size;
        chunks.push(Chunk { start, end });
        start = end;
        i = i + 1;
    }
    Some(chunks)
}

} // verus!
