use gll::runtime::Runtime;
use gll::span::Span;
use gll::thread::{CallSite, Thread};

const K_S: u32 = 100;
const K_E: u32 = 101;
const K_SUM: u32 = 102;
const K_LEFT: u32 = 103;
const K_A: u32 = 104;

fn starts_with(input: &[u8], rt: &Runtime, pat: &[u8]) -> bool {
    let from = rt.remaining.start;
    let to = rt.remaining.end;
    to - from >= pat.len() && &input[from..from + pat.len()] == pat
}

fn consume(input: &[u8], rt: &mut Runtime, pat: &[u8]) -> bool {
    starts_with(input, rt, pat) && rt.input_consume_left(pat.len())
}

/// Runs every thread to completion; returns the threads in the order run.
fn run(rt: &mut Runtime, input: &[u8], step: fn(&mut Runtime, &[u8])) -> Vec<Thread> {
    let mut ran = Vec::new();
    while rt.next_thread() {
        let t = Thread {
            cont: gll::thread::Continuation { code: rt.current, saved: rt.saved, result: rt.result },
            range: rt.remaining,
        };
        assert_eq!(t.cont.result.end, t.range.start);
        ran.push(t);
        step(rt, input);
    }
    ran
}

fn lengths(rt: &Runtime, callee: u32, start: usize, end: usize) -> Vec<usize> {
    rt.memoizer.lengths_of(&CallSite { callee, range: Span { start, end } })
}

// S -> "a" | "ab"
fn alt_step(rt: &mut Runtime, input: &[u8]) {
    match rt.current {
        0 => {
            rt.spawn(1);
            rt.spawn(2);
        }
        1 => {
            if consume(input, rt, b"a") {
                rt.forest_add_choice(K_S, 0);
                rt.ret();
            }
        }
        2 => {
            if consume(input, rt, b"ab") {
                rt.forest_add_choice(K_S, 1);
                rt.ret();
            }
        }
        _ => unreachable!(),
    }
}

#[test]
fn alt_success() {
    let input = b"ab";
    let mut rt = Runtime::new(vec![0, 0, 0], input.len(), 0);
    run(&mut rt, input, alt_step);
    assert_eq!(lengths(&rt, 0, 0, 2), vec![1, 2]);
    let root = rt.finish(0, input.len(), K_S).unwrap();
    assert_eq!(root.range, Span { start: 0, end: 2 });
    assert_eq!(root.kind, K_S);
    assert_eq!(rt.forest.choices.len(), 2);
    assert!(rt.forest.choices.iter().any(|m| m.node == root && m.value == 1));
    let mut choices: Vec<usize> = rt.forest.choices.iter().map(|m| m.value).collect();
    choices.sort();
    assert_eq!(choices, vec![0, 1]);
}

// E -> E "+" E | "1"
fn sum_step(rt: &mut Runtime, input: &[u8]) {
    match rt.current {
        0 => {
            rt.spawn(1);
            rt.spawn(2);
        }
        1 => {
            if consume(input, rt, b"1") {
                rt.ret();
            }
        }
        2 => rt.call(0, 3),
        3 => {
            rt.save(K_LEFT);
            if consume(input, rt, b"+") {
                rt.call(0, 4);
            }
        }
        4 => {
            let left = rt.take_saved();
            rt.forest_add_split(K_SUM, left);
            rt.ret();
        }
        _ => unreachable!(),
    }
}

#[test]
fn left_recursion() {
    let input = b"1+1+1";
    let mut rt = Runtime::new(vec![0; 5], input.len(), 0);
    let ran = run(&mut rt, input, sum_step);
    let all = lengths(&rt, 0, 0, 5);
    assert!(all.contains(&5));
    assert_eq!(all, vec![1, 3, 5]);
    let root = rt.finish(0, input.len(), K_E).unwrap();
    assert_eq!(root.range, Span { start: 0, end: 5 });
    let mut splits: Vec<usize> = rt
        .forest
        .splits
        .iter()
        .filter(|m| m.node.range == Span { start: 0, end: 5 })
        .map(|m| m.value)
        .collect();
    splits.sort();
    assert_eq!(splits, vec![1, 3]);
    for i in 0..ran.len() {
        for j in i + 1..ran.len() {
            assert_ne!(ran[i], ran[j]);
        }
    }
}

// A -> A "x" | ε
fn hidden_step(rt: &mut Runtime, input: &[u8]) {
    match rt.current {
        0 => {
            rt.spawn(1);
            rt.spawn(2);
        }
        1 => rt.ret(),
        2 => rt.call(0, 3),
        3 => {
            if consume(input, rt, b"x") {
                rt.ret();
            }
        }
        _ => unreachable!(),
    }
}

#[test]
fn hidden_left_recursion() {
    let input = b"xx";
    let mut rt = Runtime::new(vec![0; 4], input.len(), 0);
    run(&mut rt, input, hidden_step);
    assert_eq!(lengths(&rt, 0, 0, 2), vec![0, 1, 2]);
    assert_eq!(rt.finish(0, 2, K_A).unwrap().range, Span { start: 0, end: 2 });
}

// S -> "a"
fn single_step(rt: &mut Runtime, input: &[u8]) {
    if consume(input, rt, b"a") {
        rt.ret();
    }
}

#[test]
fn pure_failure() {
    let input = b"b";
    let mut rt = Runtime::new(vec![0], input.len(), 0);
    let ran = run(&mut rt, input, single_step);
    assert_eq!(ran.len(), 1);
    assert_eq!(rt.finish(0, 1, K_S), None);
    assert_eq!(rt.farthest, 0);
    assert!(lengths(&rt, 0, 0, 1).is_empty());
    assert!(rt.threads.queue.is_empty());
    assert!(rt.threads.seen.is_empty());
}

// S -> A A ; A -> "x" | "x" "x"
fn shared_step(rt: &mut Runtime, input: &[u8]) {
    match rt.current {
        0 => rt.call(10, 1),
        1 => {
            rt.save(K_A);
            rt.call(10, 2);
        }
        2 => {
            let left = rt.take_saved();
            rt.forest_add_split(K_S, left);
            rt.ret();
        }
        10 => {
            rt.spawn(11);
            rt.spawn(12);
        }
        11 => {
            if consume(input, rt, b"x") {
                rt.ret();
            }
        }
        12 => {
            if consume(input, rt, b"xx") {
                rt.ret();
            }
        }
        _ => unreachable!(),
    }
}

fn shared_table() -> Vec<u32> {
    let mut t = vec![0; 13];
    t[10] = 10;
    t[11] = 10;
    t[12] = 10;
    t
}

#[test]
fn deep_shared_sub_parse() {
    let input = b"xxx";
    let mut rt = Runtime::new(shared_table(), input.len(), 0);
    run(&mut rt, input, shared_step);
    assert_eq!(lengths(&rt, 10, 0, 3), vec![1, 2]);
    assert_eq!(lengths(&rt, 10, 1, 3), vec![1, 2]);
    assert_eq!(lengths(&rt, 10, 2, 3), vec![1]);
    assert_eq!(lengths(&rt, 0, 0, 3), vec![2, 3]);
    let mut splits: Vec<usize> = rt
        .forest
        .splits
        .iter()
        .filter(|m| m.node.kind == K_S && m.node.range == Span { start: 0, end: 3 })
        .map(|m| m.value)
        .collect();
    splits.sort();
    assert_eq!(splits, vec![1, 2]);
    assert_eq!(rt.finish(0, 3, K_S).unwrap().range, Span { start: 0, end: 3 });
}

// S -> A "" | A "" (two steps call A with the same continuation) ; A -> "x"
fn dedup_step(rt: &mut Runtime, input: &[u8]) {
    match rt.current {
        0 => {
            rt.spawn(1);
            rt.spawn(2);
        }
        1 | 2 => rt.call(10, 3),
        3 => rt.ret(),
        10 => {
            if consume(input, rt, b"x") {
                rt.ret();
            }
        }
        _ => unreachable!(),
    }
}

#[test]
fn dedup_same_continuation() {
    let input = b"x";
    let mut table = vec![0; 11];
    table[10] = 10;
    let mut rt = Runtime::new(table, input.len(), 0);
    let ran = run(&mut rt, input, dedup_step);
    let call = CallSite { callee: 10, range: Span { start: 0, end: 1 } };
    assert_eq!(rt.gss.waiting_on(&call).len(), 1);
    assert_eq!(ran.iter().filter(|t| t.cont.code == 10).count(), 1);
    assert_eq!(ran.iter().filter(|t| t.cont.code == 3).count(), 1);
    assert_eq!(lengths(&rt, 10, 0, 1), vec![1]);
    assert_eq!(lengths(&rt, 0, 0, 1), vec![1]);
}

#[test]
fn same_input_same_run() {
    let input = b"1+1+1";
    let mut a = Runtime::new(vec![0; 5], input.len(), 0);
    let mut b = Runtime::new(vec![0; 5], input.len(), 0);
    let ran_a = run(&mut a, input, sum_step);
    let ran_b = run(&mut b, input, sum_step);
    assert_eq!(ran_a, ran_b);
    assert_eq!(a.finish(0, 5, K_E), b.finish(0, 5, K_E));
    assert_eq!(a.forest.splits, b.forest.splits);
}
