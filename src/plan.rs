use vstd::prelude::*;

verus! {

/// Inputs of at most this many items are mapped on the calling thread; above
/// it, the input is cut into chunks of exactly this many items (the last one
/// may be shorter).
pub const THRESHOLD: usize = 5;

/// Capacity of each bounded channel of the worker-pool strategy.
pub const CHANNEL_CAPACITY: usize = 10;

/// Number of chunks of an input of `len` items: `ceil(len / THRESHOLD)`.
pub open spec fn chunk_count(len: nat) -> nat {
    ((len + THRESHOLD - 1) / (THRESHOLD as int)) as nat
}

/// First position of chunk `k`.
pub open spec fn chunk_start(k: nat) -> nat {
    (k * THRESHOLD) as nat
}

/// One past the last position of chunk `k` of an input of `len` items.
pub open spec fn chunk_end(len: nat, k: nat) -> nat {
    if (k + 1) * THRESHOLD <= len {
        ((k + 1) * THRESHOLD) as nat
    } else {
        len
    }
}

/// Chunk `k` of `xs`.
pub open spec fn chunk_of<T>(xs: Seq<T>, k: nat) -> Seq<T> {
    xs.subrange(chunk_start(k) as int, chunk_end(xs.len(), k) as int)
}

/// Number of workers of the pool strategy for an input of `len` items.
pub open spec fn spec_worker_count(len: nat) -> nat {
    len / (THRESHOLD as nat) + 1
}

/// Whether an input of `len` items is mapped on the calling thread.
pub fn runs_sequentially(len: usize) -> (r: bool)
    ensures
        r == (len <= THRESHOLD),
{
    len <= THRESHOLD
}

/// Number of worker tasks the pool strategy starts: `len / THRESHOLD + 1`,
/// so at least one.
pub fn worker_count(len: usize) -> (r: usize)
    ensures
        r == spec_worker_count(len as nat),
        r >= 1,
{
    len / THRESHOLD + 1
}

/// Number of chunks the chunked strategy cuts `len` items into.
pub fn count_chunks(len: usize) -> (r: usize)
    ensures
        r == chunk_count(len as nat),
{
    len / THRESHOLD + if len % THRESHOLD == 0 { 0 } else { 1 }
}

/// Cuts `input` into its consecutive chunks, in order.
pub fn split_into_chunks<T>(input: Vec<T>) -> (r: Vec<Vec<T>>)
    ensures
        r@.len() == chunk_count(input@.len()),
        forall|k: int| 0 <= k < r@.len() ==> (#[trigger] r@[k])@ == chunk_of(input@, k as nat),
{
    let ghost xs = input@;
    let total: usize = input.len();
    let mut chunks: Vec<Vec<T>> = Vec::new();
    let mut rest = input;
    let mut taken: usize = 0;
    while rest.len() > 0
        invariant
            taken as int + rest@.len() == xs.len(),
            xs.len() == total,
            rest@ == xs.subrange(taken as int, xs.len() as int),
            rest@.len() > 0 ==> taken == chunks@.len() * THRESHOLD,
            rest@.len() == 0 ==> chunks@.len() == chunk_count(xs.len()),
            chunks@.len() <= chunk_count(xs.len()),
            taken == chunks@.len() * THRESHOLD || (taken == xs.len() && chunks@.len() == chunk_count(xs.len())),
            forall|k: int| 0 <= k < chunks@.len() ==> (#[trigger] chunks@[k])@ == chunk_of(xs, k as nat),
        decreases rest@.len(),
    {
        let at: usize = if rest.len() < THRESHOLD { rest.len() } else { THRESHOLD };
        let tail = rest.split_off(at);
        proof {
            let k = chunks@.len() as nat;
            assert(rest@ =~= chunk_of(xs, k));
        }
        chunks.push(rest);
        taken = taken + at;
        rest = tail;
    }
    chunks
}

/// Every position of an input lies in chunk `i / THRESHOLD` and in no other
/// chunk, so each item is handed to exactly one chunk task.
pub proof fn lemma_index_in_one_chunk(len: nat, i: nat)
    requires
        i < len,
    ensures
        i / (THRESHOLD as nat) < chunk_count(len),
        chunk_start(i / (THRESHOLD as nat)) <= i < chunk_end(len, i / (THRESHOLD as nat)),
        forall|k: nat|
            k < chunk_count(len) && chunk_start(k) <= i && i < #[trigger] chunk_end(len, k)
                ==> k == i / (THRESHOLD as nat),
{
}

} // verus!
