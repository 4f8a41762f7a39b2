use gll::cursor::{Cursor, Either, FlattenIter, IntoIter, Once, Product};
use gll::forest::Forest;
use gll::gss::GraphStack;
use gll::memo::Memoizer;
use gll::runtime::Runtime;
use gll::sched::Threads;
use gll::span::Span;
use gll::thread::{thread_less, CallSite, Continuation, Node, Thread};

fn sp(start: usize, end: usize) -> Span {
    Span { start, end }
}

fn th(code: u32, start: usize, end: usize) -> Thread {
    Thread { cont: Continuation { code, saved: None, result: sp(start, start) }, range: sp(start, end) }
}

#[test]
fn span_arithmetic() {
    let s = sp(2, 7);
    assert_eq!(s.len(), 5);
    assert_eq!(s.split_at(3), (sp(2, 5), sp(5, 7)));
    assert_eq!(s.split_at(0), (sp(2, 2), sp(2, 7)));
    assert_eq!(s.frontiers(), (sp(2, 2), sp(7, 7)));
    assert_eq!(sp(2, 5).join(&sp(5, 7)), Some(sp(2, 7)));
    assert_eq!(sp(2, 5).join(&sp(6, 7)), None);
    assert!(s.contains(2));
    assert!(s.contains(6));
    assert!(!s.contains(7));
    assert!(!sp(3, 3).contains(3));
    assert!(sp(1, 9).less_than(&sp(2, 3)));
    assert!(sp(2, 3).less_than(&sp(2, 4)));
    assert!(!sp(2, 4).less_than(&sp(2, 4)));
}

#[test]
fn thread_order() {
    // An earlier remaining span runs first.
    assert!(thread_less(&th(0, 3, 5), &th(0, 1, 5)));
    // On equal spans, the greater continuation runs first.
    assert!(thread_less(&th(1, 1, 5), &th(2, 1, 5)));
    assert!(!thread_less(&th(2, 1, 5), &th(2, 1, 5)));
    let a = Continuation { code: 1, saved: None, result: sp(0, 0) };
    let b = Continuation { code: 1, saved: Some(Node { kind: 0, range: sp(0, 0) }), result: sp(0, 0) };
    assert!(gll::thread::cont_less(&a, &b));
}

#[test]
fn scheduler_dedup_and_order() {
    let mut q = Threads::new();
    q.spawn(th(1, 2, 5));
    q.spawn(th(2, 0, 5));
    q.spawn(th(1, 2, 5));
    q.spawn(th(3, 0, 5));
    assert_eq!(q.queue.len(), 3);
    assert_eq!(q.seen.len(), 3);
    assert_eq!(q.steal(), Some(th(3, 0, 5)));
    assert_eq!(q.steal(), Some(th(2, 0, 5)));
    // Seen entries that start before the stolen span are dropped.
    assert_eq!(q.steal(), Some(th(1, 2, 5)));
    assert_eq!(q.seen, vec![th(1, 2, 5)]);
    assert_eq!(q.steal(), None);
    assert!(q.seen.is_empty());
}

#[test]
fn gss_link() {
    let mut g = GraphStack::new();
    let call = CallSite { callee: 4, range: sp(1, 3) };
    let c1 = Continuation { code: 7, saved: None, result: sp(0, 1) };
    let c2 = Continuation { code: 8, saved: None, result: sp(0, 1) };
    assert_eq!(g.link(call, c1), (true, 0));
    assert_eq!(g.link(call, c1), (false, 1));
    assert_eq!(g.link(call, c2), (true, 1));
    assert_eq!(g.waiting_on(&call), vec![c1, c2]);
    assert!(g.waiting_on(&CallSite { callee: 4, range: sp(1, 2) }).is_empty());
}

#[test]
fn memoizer_record() {
    let mut m = Memoizer::new();
    let call = CallSite { callee: 1, range: sp(2, 6) };
    assert_eq!(m.longest_result(&call), None);
    assert!(m.record(call, 3));
    assert!(m.record(call, 0));
    assert!(!m.record(call, 3));
    assert!(m.record(call, 4));
    assert_eq!(m.lengths_of(&call), vec![0, 3, 4]);
    assert_eq!(m.results(&call), vec![sp(2, 2), sp(2, 5), sp(2, 6)]);
    assert_eq!(m.longest_result(&call), Some(sp(2, 6)));
}

#[test]
fn forest_marks() {
    let mut f = Forest::new();
    let n = Node { kind: 3, range: sp(0, 2) };
    f.add_choice(n, 1);
    f.add_choice(n, 1);
    f.add_split(n, 1);
    assert_eq!(f.choices.len(), 1);
    assert_eq!(f.splits.len(), 1);
    assert_eq!(f.splits[0].value, 1);
}

fn put1(v: &Vec<u32>) -> Vec<u32> {
    let mut w = v.clone();
    w.push(1);
    w
}
fn put2(v: &Vec<u32>) -> Vec<u32> {
    let mut w = v.clone();
    w.push(2);
    w
}
fn put3(v: &Vec<u32>) -> Vec<u32> {
    let mut w = v.clone();
    w.push(3);
    w
}

fn collect<C: Cursor<Vec<u32>>>(c: C) -> Vec<Vec<u32>> {
    let mut it = IntoIter::new(c);
    let mut all = Vec::new();
    loop {
        let mut out = Vec::new();
        if !it.next(&mut out) {
            break;
        }
        all.push(out);
    }
    all
}

#[test]
fn cursor_once() {
    let f: fn(&Vec<u32>) -> Vec<u32> = put1;
    assert_eq!(collect(Once::new(f)), vec![vec![1]]);
}

#[test]
fn cursor_flatten_and_either() {
    let fs: Vec<Once<fn(&Vec<u32>) -> Vec<u32>>> = vec![Once::new(put1), Once::new(put2), Once::new(put3)];
    assert_eq!(collect(FlattenIter::new(fs)), vec![vec![1], vec![2], vec![3]]);
    let l: Either<Once<fn(&Vec<u32>) -> Vec<u32>>, Once<fn(&Vec<u32>) -> Vec<u32>>> = Either::Left(Once::new(put1));
    let r: Either<Once<fn(&Vec<u32>) -> Vec<u32>>, Once<fn(&Vec<u32>) -> Vec<u32>>> = Either::Right(Once::new(put2));
    assert_eq!(collect(l), vec![vec![1]]);
    assert_eq!(collect(r), vec![vec![2]]);
}

#[test]
fn cursor_product_counts_pairings() {
    let a: Vec<Once<fn(&Vec<u32>) -> Vec<u32>>> = vec![Once::new(put1), Once::new(put2)];
    let b: Vec<Once<fn(&Vec<u32>) -> Vec<u32>>> = vec![Once::new(put1), Once::new(put2), Once::new(put3)];
    let p = Product::new(FlattenIter::new(a), FlattenIter::new(b));
    let all = collect(p);
    assert_eq!(all.len(), 6);
    assert_eq!(all[0], vec![1, 1]);
    assert_eq!(all[2], vec![1, 3]);
    assert_eq!(all[3], vec![2, 1]);
    assert_eq!(all[5], vec![2, 3]);
}

#[test]
fn cursor_into_iter_matches_new() {
    let fs: Vec<Once<fn(&Vec<u32>) -> Vec<u32>>> = vec![Once::new(put2), Once::new(put3)];
    let mut it = FlattenIter::new(fs).into_iter();
    let mut out = Vec::new();
    assert!(it.next(&mut out));
    assert!(it.next(&mut out));
    assert!(!it.next(&mut out));
    assert_eq!(out, vec![2, 3]);
}

#[test]
fn runtime_view_operations() {
    let mut rt = Runtime::new(vec![0, 0], 6, 0);
    assert!(rt.next_thread());
    assert_eq!(rt.result, sp(0, 0));
    assert_eq!(rt.remaining, sp(0, 6));
    assert!(!rt.input_consume_left(7));
    assert_eq!(rt.remaining, sp(0, 6));
    assert!(rt.input_consume_left(2));
    assert_eq!((rt.result, rt.remaining), (sp(0, 2), sp(2, 6)));
    assert!(rt.input_consume_right(1));
    assert_eq!((rt.result, rt.remaining), (sp(0, 2), sp(2, 5)));
    rt.save(9);
    assert_eq!(rt.saved, Some(Node { kind: 9, range: sp(0, 2) }));
    assert_eq!(rt.result, sp(2, 2));
    assert!(rt.input_consume_left(1));
    let left = rt.take_saved();
    assert_eq!(rt.saved, None);
    rt.forest_add_split(4, left);
    assert_eq!(rt.result, sp(0, 3));
    assert_eq!(rt.forest.splits[0].node, Node { kind: 4, range: sp(0, 3) });
    assert_eq!(rt.forest.splits[0].value, 2);
    rt.spawn(1);
    assert_eq!(rt.threads.queue.len(), 1);
    assert_eq!(rt.threads.queue[0].cont.code, 1);
    assert_eq!(rt.threads.queue[0].range, sp(3, 5));
    rt.ret();
    let call = CallSite { callee: 0, range: sp(0, 5) };
    assert_eq!(rt.memoizer.lengths_of(&call), vec![3]);
    assert_eq!(rt.finish(0, 5, 7), Some(Node { kind: 7, range: sp(0, 3) }));
}

#[test]
fn call_replays_accepted_lengths() {
    let mut rt = Runtime::new(vec![0, 0, 0, 0, 4], 4, 0);
    assert!(rt.next_thread());
    rt.call(4, 1);
    // The first caller enters the callee.
    assert_eq!(rt.threads.queue.len(), 1);
    assert_eq!(rt.threads.queue[0].cont.code, 4);
    // The callee accepts two lengths.
    assert!(rt.next_thread());
    assert!(rt.input_consume_left(1));
    rt.ret();
    assert!(rt.input_consume_left(2));
    rt.ret();
    let call = CallSite { callee: 4, range: sp(0, 4) };
    assert_eq!(rt.memoizer.lengths_of(&call), vec![1, 3]);
    // A second caller is resumed with both, and the callee is not entered again.
    while rt.next_thread() {}
    let mut rt2 = rt;
    rt2.current = 0;
    rt2.saved = None;
    rt2.result = sp(0, 0);
    rt2.remaining = sp(0, 4);
    rt2.call(4, 2);
    let q: Vec<(u32, Span, Span)> =
        rt2.threads.queue.iter().map(|t| (t.cont.code, t.cont.result, t.range)).collect();
    assert_eq!(q, vec![(2, sp(0, 1), sp(1, 4)), (2, sp(0, 3), sp(3, 4))]);
}

#[test]
fn exhausted_iterator_stays_exhausted() {
    let f: fn(&Vec<u32>) -> Vec<u32> = put1;
    let mut it = Once::new(f).into_iter();
    let mut out = Vec::new();
    assert!(it.next(&mut out));
    assert!(!it.next(&mut out));
    assert!(!it.next(&mut out));
    assert_eq!(out, vec![1]);
}

#[test]
fn farthest_position_reached() {
    let mut rt = Runtime::new(vec![0], 5, 0);
    assert_eq!(rt.farthest, 0);
    assert!(rt.next_thread());
    assert!(rt.input_consume_left(3));
    assert_eq!(rt.farthest, 3);
    assert!(!rt.input_consume_left(3));
    assert_eq!(rt.farthest, 3);
    rt.spawn(0);
    assert!(rt.next_thread());
    assert_eq!(rt.remaining, sp(3, 5));
    rt.result = sp(0, 0);
    rt.remaining = sp(0, 5);
    assert!(rt.input_consume_left(1));
    assert_eq!(rt.farthest, 3);
}

#[test]
fn spawn_queues_new_thread_once() {
    let mut rt = Runtime::new(vec![0, 0], 2, 0);
    assert!(rt.next_thread());
    rt.spawn(1);
    rt.spawn(1);
    assert_eq!(rt.threads.queue.len(), 1);
    let mut ts = Threads::new();
    ts.spawn_all(&vec![th(1, 0, 2), th(1, 0, 2), th(2, 0, 2)]);
    assert_eq!(ts.queue, vec![th(1, 0, 2), th(2, 0, 2)]);
}

#[test]
fn try_save_refuses_a_second_node() {
    let mut rt = Runtime::new(vec![0], 3, 0);
    assert!(rt.next_thread());
    assert!(rt.input_consume_left(1));
    assert!(rt.try_save(5));
    assert_eq!(rt.saved, Some(Node { kind: 5, range: sp(0, 1) }));
    assert!(rt.input_consume_left(1));
    assert!(!rt.try_save(6));
    assert_eq!(rt.saved, Some(Node { kind: 5, range: sp(0, 1) }));
    assert_eq!(rt.result, sp(1, 2));
}

#[test]
fn product_read_writes_both_parts() {
    let a: fn(&Vec<u32>) -> Vec<u32> = put2;
    let b: fn(&Vec<u32>) -> Vec<u32> = put3;
    let p = Product::new(Once::new(a), Once::new(b));
    let mut out = vec![7];
    p.read(&mut out);
    assert_eq!(out, vec![7, 2, 3]);
}
