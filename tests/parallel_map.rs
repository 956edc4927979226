use std::cell::Cell;

use parmap::mapping::{concat_in_order, map_in_order, process_item};
use parmap::plan::{count_chunks, runs_sequentially, split_into_chunks, worker_count, THRESHOLD};
use parmap::pool::{feed_work, receive_results, open_channel, run_worker, tag_positions, Disconnected};
use parmap::reassembly::{reassemble, Reassembly, ReassemblyError};

/// The chunked strategy with each chunk mapped in turn on this thread.
fn chunked<T, R, F: Fn(T) -> R>(input: Vec<T>, f: F) -> Vec<R> {
    if runs_sequentially(input.len()) {
        return map_in_order(input, &f);
    }
    let parts: Vec<Vec<R>> = split_into_chunks(input)
        .into_iter()
        .map(|chunk| map_in_order(chunk, &f))
        .collect();
    concat_in_order(parts)
}

/// The pool strategy over real channels, run on this thread: the feeder
/// fills the work channel, one worker drains it, the collector reassembles.
/// Only for inputs that fit in the channels.
fn pooled<T, R, F: Fn(T) -> R>(input: Vec<T>, f: F) -> Vec<R> {
    let len = input.len();
    if runs_sequentially(len) {
        return map_in_order(input, &f);
    }
    let (work_tx, work_rx) = open_channel();
    let (result_tx, result_rx) = open_channel();
    assert_eq!(feed_work(input, &work_tx), Ok(len));
    drop(work_tx);
    assert_eq!(run_worker(&work_rx, &result_tx, &f, len), Ok(len));
    drop(result_tx);
    let arrivals = match receive_results(&result_rx, len) {
        Ok(arrivals) => arrivals,
        Err(e) => panic!("{:?}", e),
    };
    match reassemble(len, arrivals) {
        Ok(out) => out,
        Err(e) => panic!("{:?}", e),
    }
}

const K: u64 = 8;

fn collatz_steps(x: u64) -> u64 {
    if x == 1 {
        return 0;
    }
    let mut n = x;
    for i in 1..=K {
        if n % 2 == 0 {
            n /= 2;
        } else {
            n = n * 3 + 1
        }
        if n == 1 {
            return i;
        }
    }
    n
}

#[test]
fn test_handle_tasks_v1_part_1() {
    let f = |x: i32| -> i32 { x + 1 };
    assert_eq!(chunked(vec![1, 2, 3], f), vec![2, 3, 4]);
    assert_eq!(chunked(vec![], f), Vec::<i32>::new());
    assert_eq!(chunked(vec![1, 2, 3, 4, 5, 6, 7], f), vec![2, 3, 4, 5, 6, 7, 8]);
}

#[test]
fn test_handle_tasks_v2_part_1() {
    let f = |x: i32| -> i32 { x + 1 };
    assert_eq!(pooled(vec![1, 2, 3], f), vec![2, 3, 4]);
    assert_eq!(pooled(vec![], f), Vec::<i32>::new());
    assert_eq!(pooled(vec![1, 2, 3, 4, 5, 6, 7], f), vec![2, 3, 4, 5, 6, 7, 8]);
}

#[test]
fn test_handle_tasks_part_2() {
    assert_eq!(pooled(vec![], collatz_steps), Vec::<u64>::new());
    assert_eq!(pooled(vec![0], collatz_steps), vec![0]);
    assert_eq!(pooled(vec![1, 2, 3, 100], collatz_steps), vec![0, 1, 7, 88]);
}

#[test]
fn collatz_above_threshold_both_strategies() {
    let input: Vec<u64> = vec![1, 2, 3, 100, 6, 7];
    assert_eq!(chunked(input.clone(), collatz_steps), vec![0, 1, 7, 88, 8, 40]);
    assert_eq!(pooled(input, collatz_steps), vec![0, 1, 7, 88, 8, 40]);
}

#[test]
fn threshold_boundary_both_strategies() {
    let f = |x: u32| x * 10;
    let five: Vec<u32> = (0..5).collect();
    let six: Vec<u32> = (0..6).collect();
    assert_eq!(chunked(five.clone(), f), vec![0, 10, 20, 30, 40]);
    assert_eq!(pooled(five, f), vec![0, 10, 20, 30, 40]);
    assert_eq!(chunked(six.clone(), f), vec![0, 10, 20, 30, 40, 50]);
    assert_eq!(pooled(six, f), vec![0, 10, 20, 30, 40, 50]);
}

#[test]
fn strategies_agree_with_sequential_map() {
    let f = |x: i64| x * x - 3;
    for n in 0..10i64 {
        let input: Vec<i64> = (0..n).map(|x| x * 7 - 20).collect();
        let expected: Vec<i64> = input.iter().map(|&x| f(x)).collect();
        assert_eq!(chunked(input.clone(), f), expected);
        assert_eq!(pooled(input.clone(), f), expected);
        assert_eq!(map_in_order(input, &f), expected);
    }
}

#[test]
fn long_input_chunked_keeps_order_and_length() {
    let input: Vec<u32> = (0..1003).collect();
    let out = chunked(input, |x| x + 1);
    assert_eq!(out.len(), 1003);
    assert_eq!(out, (1..1004).collect::<Vec<u32>>());
}

#[test]
fn function_applied_once_per_item() {
    for n in [0usize, 3, 5, 6, 7, 10, 23] {
        let calls = Cell::new(0usize);
        let f = |x: usize| {
            calls.set(calls.get() + 1);
            x
        };
        let input: Vec<usize> = (0..n).collect();
        assert_eq!(chunked(input, f), (0..n).collect::<Vec<usize>>());
        assert_eq!(calls.get(), n);
    }
    for n in [0usize, 4, 6, 10] {
        let calls = Cell::new(0usize);
        let f = |x: usize| {
            calls.set(calls.get() + 1);
            x
        };
        let input: Vec<usize> = (0..n).collect();
        assert_eq!(pooled(input, f), (0..n).collect::<Vec<usize>>());
        assert_eq!(calls.get(), n);
    }
}

#[test]
fn plan_numbers() {
    assert_eq!(THRESHOLD, 5);
    assert!(runs_sequentially(0));
    assert!(runs_sequentially(5));
    assert!(!runs_sequentially(6));
    assert_eq!(worker_count(0), 1);
    assert_eq!(worker_count(6), 2);
    assert_eq!(worker_count(10), 3);
    assert_eq!(count_chunks(0), 0);
    assert_eq!(count_chunks(5), 1);
    assert_eq!(count_chunks(6), 2);
    assert_eq!(count_chunks(10), 2);
    assert_eq!(count_chunks(11), 3);
}

#[test]
fn chunks_are_contiguous_and_last_is_short() {
    let chunks = split_into_chunks((0..11).collect::<Vec<u8>>());
    assert_eq!(chunks, vec![vec![0, 1, 2, 3, 4], vec![5, 6, 7, 8, 9], vec![10]]);
    assert_eq!(split_into_chunks(Vec::<u8>::new()), Vec::<Vec<u8>>::new());
    assert_eq!(split_into_chunks(vec![1u8, 2, 3, 4, 5]), vec![vec![1, 2, 3, 4, 5]]);
}

#[test]
fn concat_keeps_chunk_order() {
    let out = concat_in_order(vec![vec![1, 2], vec![], vec![3], vec![4, 5, 6]]);
    assert_eq!(out, vec![1, 2, 3, 4, 5, 6]);
}

#[test]
fn process_item_keeps_position() {
    assert_eq!(process_item((4, 20), &|x: i32| x / 2), (4, 10));
}

#[test]
fn reassemble_any_arrival_order() {
    let reversed: Vec<(usize, char)> = vec![(3, 'd'), (2, 'c'), (1, 'b'), (0, 'a')];
    assert_eq!(reassemble(4, reversed), Ok(vec!['a', 'b', 'c', 'd']));
    let shuffled: Vec<(usize, char)> = vec![(2, 'c'), (0, 'a'), (3, 'd'), (1, 'b')];
    assert_eq!(reassemble(4, shuffled), Ok(vec!['a', 'b', 'c', 'd']));
    assert_eq!(reassemble(0, Vec::<(usize, char)>::new()), Ok(vec![]));
}

#[test]
fn reassemble_errors() {
    assert_eq!(reassemble(2, vec![(0, 1), (2, 3)]), Err(ReassemblyError::IndexOutOfRange));
    assert_eq!(reassemble(3, vec![(1, 1), (1, 2), (0, 3)]), Err(ReassemblyError::DuplicateIndex));
    assert_eq!(reassemble(3, vec![(1, 1), (0, 3)]), Err(ReassemblyError::Incomplete));
}

#[test]
fn reassembly_slots() {
    let mut buf: Reassembly<u8> = Reassembly::new(2);
    assert_eq!(buf.len(), 2);
    assert!(!buf.is_complete());
    assert_eq!(buf.place(1, 9), Ok(()));
    assert_eq!(buf.place(1, 8), Err(ReassemblyError::DuplicateIndex));
    assert_eq!(buf.place(5, 8), Err(ReassemblyError::IndexOutOfRange));
    assert!(!buf.is_complete());
    assert_eq!(buf.place(0, 7), Ok(()));
    assert!(buf.is_complete());
    assert_eq!(buf.finish(), Ok(vec![7, 9]));
    let empty: Reassembly<u8> = Reassembly::new(0);
    assert!(empty.is_complete());
    assert_eq!(empty.finish(), Ok(vec![]));
    let partial: Reassembly<u8> = Reassembly::new(1);
    assert_eq!(partial.finish(), Err(ReassemblyError::Incomplete));
}

#[test]
fn collect_reports_closed_channel() {
    let (tx, rx) = open_channel::<(usize, u8)>();
    assert!(tx.send((1, 5)).is_ok());
    drop(tx);
    assert_eq!(receive_results(&rx, 3), Err(ReassemblyError::Disconnected));
}

#[test]
fn collect_out_of_order_results() {
    let (tx, rx) = open_channel::<(usize, u8)>();
    for item in [(2, 30u8), (0, 10), (1, 20)] {
        assert!(tx.send(item).is_ok());
    }
    let arrivals = receive_results(&rx, 3).unwrap();
    assert_eq!(arrivals, vec![(2, 30), (0, 10), (1, 20)]);
    assert_eq!(reassemble(3, arrivals), Ok(vec![10, 20, 30]));
}

#[test]
fn empty_work_needs_no_channel_traffic() {
    let (work_tx, work_rx) = open_channel::<(usize, u8)>();
    let (result_tx, result_rx) = open_channel::<(usize, u8)>();
    assert_eq!(feed_work(vec![], &work_tx), Ok(0));
    assert_eq!(run_worker(&work_rx, &result_tx, &|x: u8| x, 0), Ok(0));
    assert_eq!(receive_results(&result_rx, 0), Ok(vec![]));
}

#[test]
fn feed_reports_closed_channel() {
    let (tx, rx) = open_channel::<(usize, u8)>();
    drop(rx);
    assert_eq!(feed_work(vec![1, 2], &tx), Err(Disconnected));
}

#[test]
fn feed_tags_items_with_positions() {
    let (tx, rx) = open_channel::<(usize, char)>();
    assert_eq!(feed_work(vec!['x', 'y'], &tx), Ok(2));
    assert_eq!(rx.recv(), Ok((0, 'x')));
    assert_eq!(rx.recv(), Ok((1, 'y')));
}

#[test]
fn worker_stops_when_work_closes() {
    let (work_tx, work_rx) = open_channel::<(usize, i32)>();
    let (result_tx, result_rx) = open_channel::<(usize, i32)>();
    assert!(work_tx.send((3, 4)).is_ok());
    drop(work_tx);
    assert_eq!(run_worker(&work_rx, &result_tx, &|x: i32| x * 2, 10), Ok(1));
    assert_eq!(result_rx.recv(), Ok((3, 8)));
}

#[test]
fn tag_positions_pairs_items_with_their_index() {
    assert_eq!(tag_positions(vec!['a', 'b', 'c']), vec![(0, 'a'), (1, 'b'), (2, 'c')]);
    assert_eq!(tag_positions(Vec::<char>::new()), vec![]);
}
