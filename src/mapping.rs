use vstd::prelude::*;
use crate::plan::{chunk_count, chunk_of, THRESHOLD};
use crate::reassembly::{arrived, placed_by};

verus! {

/// `rs` is a possible result of mapping `f` over `xs`: same length, and each
/// `rs[i]` is a result `f` may give on `xs[i]`.
pub open spec fn is_map<T, R, F: Fn(T) -> R>(f: F, xs: Seq<T>, rs: Seq<R>) -> bool {
    &&& rs.len() == xs.len()
    &&& forall|i: int| 0 <= i < xs.len() ==> f.ensures((xs[i],), #[trigger] rs[i])
}

/// `f` may be called on every item of `xs`.
pub open spec fn callable_on_all<T, R, F: Fn(T) -> R>(f: F, xs: Seq<T>) -> bool {
    forall|i: int| 0 <= i < xs.len() ==> f.requires((#[trigger] xs[i],))
}

/// `f` gives one result per argument.
pub open spec fn deterministic<T, R, F: Fn(T) -> R>(f: F) -> bool {
    forall|x: T, a: R, b: R| f.ensures((x,), a) && f.ensures((x,), b) ==> a == b
}

/// The results of the parts, one after the other.
pub open spec fn concat_parts<R>(parts: Seq<Vec<R>>) -> Seq<R>
    decreases parts.len(),
{
    if parts.len() == 0 {
        Seq::empty()
    } else {
        concat_parts(parts.drop_last()) + parts.last()@
    }
}

/// Applies `f` to each item in order on the calling thread. This is the
/// sequential fallback of both strategies and the work of one chunk task.
pub fn map_in_order<T, R, F: Fn(T) -> R>(input: Vec<T>, f: &F) -> (r: Vec<R>)
    requires
        callable_on_all(*f, input@),
    ensures
        is_map(*f, input@, r@),
{
    let ghost xs = input@;
    let mut out: Vec<R> = Vec::new();
    for x in it: input.into_iter()
        invariant
            it.seq() == xs,
            callable_on_all(*f, xs),
            out@.len() == it.index(),
            forall|i: int| 0 <= i < it.index() ==> f.ensures((xs[i],), #[trigger] out@[i]),
    {
        let y = f(x);
        out.push(y);
    }
    out
}

/// Work of a pool worker on one work item: keeps the position, maps the value.
pub fn process_item<T, R, F: Fn(T) -> R>(item: (usize, T), f: &F) -> (r: (usize, R))
    requires
        f.requires((item.1,)),
    ensures
        r.0 == item.0,
        f.ensures((item.1,), r.1),
{
    let (i, x) = item;
    (i, f(x))
}

/// Joins the results of the chunks, in chunk order.
pub fn concat_in_order<R>(parts: Vec<Vec<R>>) -> (r: Vec<R>)
    ensures
        r@ == concat_parts(parts@),
{
    let ghost ps = parts@;
    let mut out: Vec<R> = Vec::new();
    for p in it: parts.into_iter()
        invariant
            it.seq() == ps,
            out@ == concat_parts(ps.subrange(0, it.index() as int)),
    {
        let mut p = p;
        proof {
            let k = it.index() as int;
            assert(ps.subrange(0, k + 1).drop_last() =~= ps.subrange(0, k));
        }
        out.append(&mut p);
    }
    proof {
        assert(ps.subrange(0, ps.len() as int) =~= ps);
    }
    out
}

/// Mapping each chunk and joining the chunk results in chunk order maps the
/// whole input: same length, and every position holds a result of `f` on the
/// item at that position.
pub proof fn lemma_chunked_is_map<T, R, F: Fn(T) -> R>(f: F, xs: Seq<T>, parts: Seq<Vec<R>>)
    requires
        parts.len() == chunk_count(xs.len()),
        forall|k: int| 0 <= k < parts.len() ==> is_map(f, chunk_of(xs, k as nat), (#[trigger] parts[k])@),
    ensures
        is_map(f, xs, concat_parts(parts)),
    decreases parts.len(),
{
    if parts.len() > 0 {
        let n = parts.len() - 1;
        let m = n * THRESHOLD;
        let ys = xs.subrange(0, m as int);
        assert(chunk_count(ys.len()) == n);
        assert forall|k: int| 0 <= k < parts.drop_last().len() implies
            is_map(f, chunk_of(ys, k as nat), (#[trigger] parts.drop_last()[k])@) by {
            assert(chunk_of(ys, k as nat) =~= chunk_of(xs, k as nat));
            assert(is_map(f, chunk_of(xs, k as nat), parts[k]@));
        }
        lemma_chunked_is_map(f, ys, parts.drop_last());
        let last = chunk_of(xs, n as nat);
        assert(is_map(f, last, parts[n as int]@));
        assert(last =~= xs.subrange(m as int, xs.len() as int));
        let whole = concat_parts(parts);
        let front = concat_parts(parts.drop_last());
        assert(whole == front + parts.last()@);
        assert forall|i: int| 0 <= i < xs.len() implies f.ensures((xs[i],), #[trigger] whole[i]) by {
            if i < m {
                assert(ys[i] == xs[i]);
            } else {
                assert(last[i - m] == xs[i]);
            }
        }
    }
}

/// For an `f` that gives one result per argument, there is one map of `xs`.
pub proof fn lemma_map_unique<T, R, F: Fn(T) -> R>(f: F, xs: Seq<T>, a: Seq<R>, b: Seq<R>)
    requires
        deterministic(f),
        is_map(f, xs, a),
        is_map(f, xs, b),
    ensures
        a == b,
{
    assert forall|i: int| 0 <= i < a.len() implies a[i] == b[i] by {
        assert(f.ensures((xs[i],), a[i]));
        assert(f.ensures((xs[i],), b[i]));
    }
    assert(a =~= b);
}

/// The chunked strategy gives what mapping the input in order gives, for an
/// `f` with one result per argument.
pub proof fn lemma_chunked_agrees_with_sequential<T, R, F: Fn(T) -> R>(
    f: F,
    xs: Seq<T>,
    parts: Seq<Vec<R>>,
    sequential: Seq<R>,
)
    requires
        deterministic(f),
        parts.len() == chunk_count(xs.len()),
        forall|k: int| 0 <= k < parts.len() ==> is_map(f, chunk_of(xs, k as nat), (#[trigger] parts[k])@),
        is_map(f, xs, sequential),
    ensures
        concat_parts(parts) == sequential,
        concat_parts(parts).len() == xs.len(),
{
    lemma_chunked_is_map(f, xs, parts);
    lemma_map_unique(f, xs, concat_parts(parts), sequential);
}

/// Every result carries the position of its work item and a result of `f`
/// on the item at that position.
pub open spec fn results_of<T, R, F: Fn(T) -> R>(f: F, xs: Seq<T>, arrivals: Seq<(usize, R)>) -> bool {
    forall|j: int| 0 <= j < arrivals.len() ==> (#[trigger] arrivals[j]).0 < xs.len()
        && f.ensures((xs[arrivals[j].0 as int],), arrivals[j].1)
}

/// Whatever order the workers' results arrive in, putting each into the slot
/// of the position it carries maps the whole input in input order. The
/// premise `results_of` is what the channels deliver when every worker runs
/// `process_item` on the work items of `tag_positions`; no contract can state
/// it of the channels themselves, whose contents are opaque here.
pub proof fn lemma_pool_is_map<T, R, F: Fn(T) -> R>(
    f: F,
    xs: Seq<T>,
    arrivals: Seq<(usize, R)>,
    out: Seq<R>,
)
    requires
        results_of(f, xs, arrivals),
        placed_by(arrivals, out, xs.len()),
    ensures
        is_map(f, xs, out),
{
    assert forall|i: int| 0 <= i < xs.len() implies f.ensures((xs[i],), #[trigger] out[i]) by {
        assert(arrived(arrivals, i, out[i]));
        let j = choose|j: int| 0 <= j < arrivals.len() && (#[trigger] arrivals[j]).0 == i && arrivals[j].1 == out[i];
        assert(f.ensures((xs[arrivals[j].0 as int],), arrivals[j].1));
    }
}

/// The pool strategy gives what mapping the input in order gives, for an
/// `f` with one result per argument, whatever order results arrive in.
/// As for `lemma_pool_is_map`, `results_of` is the premise that the results
/// the channels deliver are the workers' results on the tagged items.
pub proof fn lemma_pool_agrees_with_sequential<T, R, F: Fn(T) -> R>(
    f: F,
    xs: Seq<T>,
    arrivals: Seq<(usize, R)>,
    out: Seq<R>,
    sequential: Seq<R>,
)
    requires
        deterministic(f),
        results_of(f, xs, arrivals),
        placed_by(arrivals, out, xs.len()),
        is_map(f, xs, sequential),
    ensures
        out == sequential,
{
    lemma_pool_is_map(f, xs, arrivals, out);
    lemma_map_unique(f, xs, out, sequential);
}

} // verus!
