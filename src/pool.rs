use vstd::prelude::*;
use crossbeam_channel::{Receiver, RecvError, SendError, Sender};
use crate::mapping::{process_item, results_of};
use crate::plan::CHANNEL_CAPACITY;
use crate::reassembly::{indices_exact, ReassemblyError};

verus! {

/// crossbeam_channel's sending handle, carried through unopened.
#[verifier::external_type_specification]
#[verifier::external_body]
#[verifier::reject_recursive_types(T)]
pub struct ExSender<T>(crossbeam_channel::Sender<T>);

/// crossbeam_channel's receiving handle, carried through unopened.
#[verifier::external_type_specification]
#[verifier::external_body]
#[verifier::reject_recursive_types(T)]
pub struct ExReceiver<T>(crossbeam_channel::Receiver<T>);

/// The error of a send on a channel whose receivers are gone.
#[verifier::external_type_specification]
#[verifier::external_body]
#[verifier::reject_recursive_types(T)]
pub struct ExSendError<T>(crossbeam_channel::SendError<T>);

/// The error of a receive on an empty channel whose senders are gone.
#[verifier::external_type_specification]
#[verifier::external_body]
pub struct ExRecvError(crossbeam_channel::RecvError);

/// Relies on crossbeam_channel::bounded: opens a channel that holds at most
/// `cap` messages. It panics when `cap` is so large that its index arithmetic
/// overflows, so only small capacities are admitted.
pub assume_specification<T>[ crossbeam_channel::bounded::<T> ](cap: usize) -> (Sender<T>, Receiver<T>)
    requires
        cap <= 1024,
;

/// Relies on crossbeam_channel::Sender::send: blocks until the message is
/// queued, or fails once every receiver is gone. Which happens depends on
/// other threads, so nothing is promised of the outcome.
pub assume_specification<T>[ crossbeam_channel::Sender::<T>::send ](
    sender: &Sender<T>,
    msg: T,
) -> Result<(), SendError<T>>;

/// Relies on crossbeam_channel::Receiver::recv: blocks until a message
/// arrives, or fails once the channel is empty and every sender is gone.
/// What arrives depends on other threads, so nothing is promised of it.
pub assume_specification<T>[ crossbeam_channel::Receiver::<T>::recv ](
    receiver: &Receiver<T>,
) -> Result<T, RecvError>;

/// The other end of a channel was released before the exchange finished.
#[derive(Debug, Clone, Copy, PartialEq, Eq, Structural)]
pub struct Disconnected;

/// Opens one of the bounded channels of the pool strategy, with capacity
/// `CHANNEL_CAPACITY`, so that a full channel holds back its producers.
pub fn open_channel<M>() -> (r: (Sender<M>, Receiver<M>)) {
    crossbeam_channel::bounded(CHANNEL_CAPACITY)
}

/// The work items of `xs`: each item paired with its position.
pub open spec fn tagged<T>(xs: Seq<T>, items: Seq<(usize, T)>) -> bool {
    &&& items.len() == xs.len()
    &&& forall|i: int| 0 <= i < xs.len() ==> (#[trigger] items[i]).0 == i && items[i].1 == xs[i]
}

/// Pairs each item with its position, in order.
pub fn tag_positions<T>(input: Vec<T>) -> (r: Vec<(usize, T)>)
    ensures
        tagged(input@, r@),
{
    let ghost xs = input@;
    let total: usize = input.len();
    let mut items: Vec<(usize, T)> = Vec::with_capacity(total);
    for x in it: input.into_iter()
        invariant
            it.seq() == xs,
            total == xs.len(),
            items@.len() == it.index(),
            forall|i: int| 0 <= i < it.index() ==> (#[trigger] items@[i]).0 == i && items@[i].1 == xs[i],
    {
        let i: usize = items.len();
        items.push((i, x));
    }
    items
}

/// Tagging dispatches every position of the input exactly once.
pub proof fn lemma_tagged_positions_exact<T>(xs: Seq<T>, items: Seq<(usize, T)>)
    requires
        tagged(xs, items),
    ensures
        indices_exact(items, xs.len()),
{
    assert forall|j1: int, j2: int|
        0 <= j1 < items.len() && 0 <= j2 < items.len() && j1 != j2
            implies (#[trigger] items[j1]).0 != (#[trigger] items[j2]).0 by {
        assert(items[j1].0 == j1 && items[j2].0 == j2);
    }
}

/// `r` is what a worker gives for some work item of `items`: its position,
/// and a result of `f` on its value.
pub open spec fn processed_from<T, R, F: Fn(T) -> R>(f: F, items: Seq<(usize, T)>, r: (usize, R)) -> bool {
    exists|k: int| 0 <= k < items.len() && (#[trigger] items[k]).0 == r.0 && f.ensures((items[k].1,), r.1)
}

/// Results that workers made from the tagged work items, in whatever order
/// they arrive, each carry a position of the input and a result of `f` on
/// the item at that position.
/// That the results arriving on the channel are such results is the premise
/// here: the channel's contents are opaque, and `process_item` states it of
/// each result a worker sends.
pub proof fn lemma_processed_items_are_results<T, R, F: Fn(T) -> R>(
    f: F,
    xs: Seq<T>,
    items: Seq<(usize, T)>,
    arrivals: Seq<(usize, R)>,
)
    requires
        tagged(xs, items),
        forall|j: int| 0 <= j < arrivals.len() ==> processed_from(f, items, #[trigger] arrivals[j]),
    ensures
        results_of(f, xs, arrivals),
{
    assert forall|j: int| 0 <= j < arrivals.len() implies (#[trigger] arrivals[j]).0 < xs.len()
        && f.ensures((xs[arrivals[j].0 as int],), arrivals[j].1) by {
        assert(processed_from(f, items, arrivals[j]));
        let k = choose|k: int| 0 <= k < items.len() && (#[trigger] items[k]).0 == arrivals[j].0
            && f.ensures((items[k].1,), arrivals[j].1);
        assert(items[k].0 == k);
    }
}

/// The feeder: sends the work item `(i, input[i])` for every position `i`, in
/// order. The caller then drops `work`, which tells the workers that no more
/// items come.
pub fn feed_work<T>(input: Vec<T>, work: &Sender<(usize, T)>) -> (r: Result<usize, Disconnected>)
    ensures
        input@.len() == 0 ==> r == Ok::<usize, Disconnected>(0),
        r is Ok ==> r.unwrap() == input@.len(),
{
    let items = tag_positions(input);
    let total: usize = items.len();
    let mut sent: usize = 0;
    for item in it: items.into_iter()
        invariant
            sent == it.index(),
            it.seq().len() == total,
            total == input@.len(),
    {
        if work.send(item).is_err() {
            return Err(Disconnected);
        }
        sent = sent + 1;
    }
    Ok(sent)
}

/// A pool worker: takes work items from `work` until it is closed and
/// drained, or until `limit` items were taken (no more are ever sent), and
/// sends `(i, f(x))` for each `(i, x)` on `results`. Returns how many items
/// it handled.
pub fn run_worker<T, R, F: Fn(T) -> R>(
    work: &Receiver<(usize, T)>,
    results: &Sender<(usize, R)>,
    f: &F,
    limit: usize,
) -> (r: Result<usize, Disconnected>)
    requires
        forall|x: T| f.requires((x,)),
    ensures
        limit == 0 ==> r == Ok::<usize, Disconnected>(0),
        r is Ok ==> r.unwrap() <= limit,
{
    let mut handled: usize = 0;
    while handled < limit
        invariant
            handled <= limit,
            forall|x: T| f.requires((x,)),
        decreases limit - handled,
    {
        match work.recv() {
            Ok(item) => {
                let done = process_item(item, f);
                if results.send(done).is_err() {
                    return Err(Disconnected);
                }
                handled = handled + 1;
            },
            Err(_) => {
                return Ok(handled);
            },
        }
    }
    Ok(handled)
}

/// The collecting side: receives `len` results from `results`, in the order
/// they arrive; `reassemble` then puts them in input order. Fails when the
/// channel closes first.
pub fn receive_results<R>(results: &Receiver<(usize, R)>, len: usize) -> (r: Result<Vec<(usize, R)>, ReassemblyError>)
    ensures
        len == 0 ==> r is Ok && r.unwrap()@.len() == 0,
        r is Ok ==> r.unwrap()@.len() == len,
        r is Err ==> r == Err::<Vec<(usize, R)>, ReassemblyError>(ReassemblyError::Disconnected),
{
    let mut arrivals: Vec<(usize, R)> = Vec::with_capacity(len);
    let mut received: usize = 0;
    while received < len
        invariant
            received <= len,
            arrivals@.len() == received,
        decreases len - received,
    {
        match results.recv() {
            Ok(item) => arrivals.push(item),
            Err(_) => {
                return Err(ReassemblyError::Disconnected);
            },
        }
        received = received + 1;
    }
    Ok(arrivals)
}

} // verus!
