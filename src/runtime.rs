use vstd::prelude::*;

use crate::forest::Forest;
use crate::gss::GraphStack;
use crate::memo::{fits, prefix, Memoizer};
use crate::sched::{is_greatest, Threads};
use crate::span::Span;
use crate::thread::{thread_wf, CallSite, Continuation, Node, Thread};

verus! {

/// The nonterminal that owns the step `code`: its entry in the grammar's
/// table of labels.
pub open spec fn enclosing_of(table: Seq<u32>, code: u32) -> u32
    recommends
        code < table.len(),
{
    table[code as int]
}

/// Each continuation in `s` has consumed input up to where `call` starts.
pub open spec fn linked_ok(s: Seq<Continuation>, call: CallSite) -> bool {
    forall|k: int|
        0 <= k < s.len() ==> (#[trigger] s[k]).result.wf() && s[k].result.end == call.range.start
}

/// `c` resumed after the call on `range` accepted `len` positions.
pub open spec fn resume(c: Continuation, range: Span, len: usize) -> Thread {
    Thread {
        cont: Continuation {
            code: c.code,
            saved: c.saved,
            result: Span { start: c.result.start, end: (range.start + len) as usize },
        },
        range: Span { start: (range.start + len) as usize, end: range.end },
    }
}

/// The thread that enters `callee` at the start of `range`.
pub open spec fn entry_thread(callee: u32, range: Span) -> Thread {
    Thread {
        cont: Continuation {
            code: callee,
            saved: None,
            result: Span { start: range.start, end: range.start },
        },
        range,
    }
}

/// The shared state of one parse, and the view of the thread being run.
pub struct Runtime {
    pub threads: Threads,
    pub gss: GraphStack,
    pub memoizer: Memoizer,
    pub forest: Forest,
    /// For each step label, the label of the nonterminal that owns it.
    pub enclosing: Vec<u32>,
    pub current: u32,
    pub saved: Option<Node>,
    pub result: Span,
    pub remaining: Span,
    /// The farthest input position that any thread has consumed up to: where
    /// a failed parse got stuck.
    pub farthest: usize,
    /// The threads that `call` and `ret` have offered so far.
    pub history: Ghost<Set<Thread>>,
    /// The calls that accepted a length while no continuation waited on
    /// them (the entry call, above all): later callers of these are not
    /// resumed with the lengths accepted before they came.
    pub early: Ghost<Set<CallSite>>,
}

impl Runtime {
    /// The running thread, as the scheduler would hold it.
    pub open spec fn running(&self) -> Thread {
        Thread {
            cont: Continuation { code: self.current, saved: self.saved, result: self.result },
            range: self.remaining,
        }
    }

    /// The continuation that `call` links and `spawn` queues.
    pub open spec fn next_cont(&self, code: u32) -> Continuation {
        Continuation { code, saved: self.saved, result: self.result }
    }

    /// The call of `callee` on the remaining input.
    pub open spec fn call_site(&self, callee: u32) -> CallSite {
        CallSite { callee, range: self.remaining }
    }

    /// The call that the running thread completes by returning: its
    /// nonterminal over the input consumed and the input remaining.
    pub open spec fn ret_site(&self) -> CallSite {
        CallSite {
            callee: enclosing_of(self.enclosing@, self.current),
            range: Span { start: self.result.start, end: self.remaining.end },
        }
    }

    /// The threads that `call(callee, next)` offers to the scheduler.
    pub open spec fn call_offers(&self, callee: u32, next: u32) -> Seq<Thread> {
        let call = self.call_site(callee);
        let cont = self.next_cont(next);
        if self.gss.waiting(call).contains(cont) {
            Seq::empty()
        } else if self.gss.waiting(call).len() > 0 {
            self.memoizer.lengths(call).map_values(|len: usize| resume(cont, call.range, len))
        } else {
            seq![entry_thread(callee, call.range)]
        }
    }

    /// The threads that `ret` offers to the scheduler.
    pub open spec fn ret_offers(&self) -> Seq<Thread> {
        let call = self.ret_site();
        if self.memoizer.lengths(call).contains(self.result.len_spec() as usize) {
            Seq::empty()
        } else {
            self.gss.waiting(call).map_values(
                |c: Continuation| resume(c, call.range, self.result.len_spec() as usize),
            )
        }
    }

    pub open spec fn wf(&self) -> bool {
        &&& self.threads.wf()
        &&& self.gss.wf()
        &&& self.memoizer.wf()
        &&& self.forest.wf()
        &&& thread_wf(self.running())
        &&& forall|j: int|
            0 <= j < self.threads.queue@.len() ==> thread_wf(#[trigger] self.threads.queue@[j])
        &&& forall|c: CallSite| #[trigger] linked_ok(self.gss.waiting(c), c)
        &&& self.callers_met()
    }

    /// Every continuation waiting on a call has been offered resumed with
    /// every length the call accepted, unless the call accepted lengths
    /// before anyone waited on it.
    pub open spec fn callers_met(&self) -> bool {
        &&& forall|c: CallSite, len: usize, k: Continuation|
            !self.early@.contains(c) && #[trigger] self.memoizer.lengths(c).contains(len)
                && #[trigger] self.gss.waiting(c).contains(k) ==> self.history@.contains(
                resume(k, c.range, len),
            )
        &&& forall|c: CallSite|
            !self.early@.contains(c) && #[trigger] self.gss.waiting(c).len() == 0
                ==> self.memoizer.lengths(c).len() == 0
    }

    /// The shared state is unchanged but for the scheduler.
    pub open spec fn same_tables(&self, other: &Runtime) -> bool {
        &&& self.gss == other.gss
        &&& self.memoizer == other.memoizer
        &&& self.forest == other.forest
        &&& self.enclosing == other.enclosing
    }

    /// The scheduler's tables are unchanged, the forest aside.
    pub open spec fn same_tables_but_forest(&self, other: &Runtime) -> bool {
        &&& self.gss == other.gss
        &&& self.memoizer == other.memoizer
        &&& self.enclosing == other.enclosing
    }

    /// The running thread is unchanged.
    pub open spec fn same_view(&self, other: &Runtime) -> bool {
        &&& self.current == other.current
        &&& self.saved == other.saved
        &&& self.result == other.result
        &&& self.remaining == other.remaining
    }

    /// Starts a parse of `input_len` positions at the step `entry`, with
    /// one thread queued: `entry` on the whole input, nothing consumed.
    pub fn new(enclosing: Vec<u32>, input_len: usize, entry: u32) -> (r: Runtime)
        ensures
            r.wf(),
            r.farthest == 0,
            r.enclosing@ == enclosing@,
            r.threads.queue@ == seq![entry_thread(entry, Span { start: 0, end: input_len })],
            r.threads.seen@ == seq![entry_thread(entry, Span { start: 0, end: input_len })],
            r.running() == entry_thread(entry, Span { start: 0, end: input_len }),
            forall|c: CallSite| #[trigger] r.gss.waiting(c) == Seq::<Continuation>::empty(),
            forall|c: CallSite| #[trigger] r.memoizer.lengths(c) == Seq::<usize>::empty(),
    {
        let whole = Span::new(0, input_len);
        let t = Thread {
            cont: Continuation { code: entry, saved: None, result: Span::empty_at(0) },
            range: whole,
        };
        let mut threads = Threads::new();
        threads.spawn(t);
        let r = Runtime {
            threads,
            gss: GraphStack::new(),
            memoizer: Memoizer::new(),
            forest: Forest::new(),
            enclosing,
            current: entry,
            saved: None,
            result: Span::empty_at(0),
            remaining: whole,
            farthest: 0,
            history: Ghost(Set::empty()),
            early: Ghost(Set::empty()),
        };
        assert(r.threads.queue@ =~= seq![t]);
        assert(r.threads.seen@ =~= seq![t]);
        r
    }

    /// Takes the next thread from the scheduler and makes it the running
    /// one; `false` when none is pending.
    pub fn next_thread(&mut self) -> (r: bool)
        requires
            old(self).wf(),
        ensures
            final(self).wf(),
            final(self).farthest == old(self).farthest,
            final(self).same_tables(old(self)),
            r == (old(self).threads.queue@.len() > 0),
            !r ==> final(self).same_view(old(self)) && final(self).threads.queue@.len() == 0
                && final(self).threads.seen@.len() == 0,
            r ==> is_greatest(old(self).threads.queue@, final(self).running()) && exists|i: int|
                0 <= i < old(self).threads.queue@.len() && old(self).threads.queue@[i]
                    == final(self).running() && final(self).threads.queue@
                    == old(self).threads.queue@.remove(i),
            r ==> final(self).threads.seen@.to_set().subset_of(old(self).threads.seen@.to_set()),
            r ==> forall|x: Thread|
                old(self).threads.seen@.contains(x) && !final(self).threads.seen@.contains(x)
                    ==> !final(self).remaining.contains_spec(x.range.start) && forall|y: Thread|
                    #![trigger final(self).threads.seen@.contains(y)]
                    final(self).threads.seen@.contains(y) ==> crate::thread::thread_lt(y, x),
            r ==> forall|x: Thread|
                is_greatest(final(self).threads.seen@, x) ==> final(self).remaining.contains_spec(
                    x.range.start,
                ),
    {
        let ghost q0 = self.threads.queue@;
        match self.threads.steal() {
            None => false,
            Some(t) => {
                self.current = t.cont.code;
                self.saved = t.cont.saved;
                self.result = t.cont.result;
                self.remaining = t.range;
                proof {
                    let i = choose|i: int|
                        0 <= i < q0.len() && q0[i] == t && self.threads.queue@ == q0.remove(i);
                    assert(thread_wf(q0[i]));
                    assert forall|j: int| 0 <= j < self.threads.queue@.len() implies thread_wf(
                        #[trigger] self.threads.queue@[j],
                    ) by {
                        if j < i {
                            assert(self.threads.queue@[j] == q0[j]);
                        } else {
                            assert(self.threads.queue@[j] == q0[j + 1]);
                        }
                    }
                }
                true
            },
        }
    }

    /// Matches `len` positions at the start of the remaining input (the
    /// length a pattern matched there): they move from `remaining` to
    /// `result`. Fails, changing nothing, when fewer remain.
    pub fn input_consume_left(&mut self, len: usize) -> (r: bool)
        requires
            old(self).wf(),
        ensures
            final(self).wf(),
            r ==> final(self).farthest == if old(self).farthest < old(self).result.end + len {
                (old(self).result.end + len) as usize
            } else {
                old(self).farthest
            },
            !r ==> final(self).farthest == old(self).farthest,
            final(self).same_tables(old(self)),
            final(self).threads == old(self).threads,
            r == (len <= old(self).remaining.len_spec()),
            !r ==> final(self).same_view(old(self)),
            r ==> final(self).current == old(self).current && final(self).saved == old(self).saved
                && final(self).result == (Span {
                start: old(self).result.start,
                end: (old(self).result.end + len) as usize,
            }) && final(self).remaining == (Span {
                start: (old(self).remaining.start + len) as usize,
                end: old(self).remaining.end,
            }),
    {
        if len > self.remaining.len() {
            return false;
        }
        let (piece, rest) = self.remaining.split_at(len);
        self.result = Span::new(self.result.start, piece.end);
        self.remaining = rest;
        if self.farthest < piece.end {
            self.farthest = piece.end;
        }
        true
    }

    /// Matches `len` positions at the end of the remaining input: they are
    /// cut from `remaining`, and `result` is left as it is, since the
    /// positions consumed from the right do not follow it. Fails, changing
    /// nothing, when fewer remain.
    pub fn input_consume_right(&mut self, len: usize) -> (r: bool)
        requires
            old(self).wf(),
        ensures
            final(self).wf(),
            final(self).farthest == old(self).farthest,
            final(self).same_tables(old(self)),
            final(self).threads == old(self).threads,
            r == (len <= old(self).remaining.len_spec()),
            !r ==> final(self).same_view(old(self)),
            r ==> final(self).current == old(self).current && final(self).saved == old(self).saved
                && final(self).result == old(self).result && final(self).remaining == (Span {
                start: old(self).remaining.start,
                end: (old(self).remaining.end - len) as usize,
            }),
    {
        if len > self.remaining.len() {
            return false;
        }
        let keep = self.remaining.len() - len;
        let (rest, _) = self.remaining.split_at(keep);
        self.remaining = rest;
        true
    }

    /// Stages the node of `kind` over the input consumed so far, and starts
    /// the consumed span afresh where it ended.
    pub fn save(&mut self, kind: u32)
        requires
            old(self).wf(),
            old(self).saved.is_none(),
        ensures
            final(self).wf(),
            final(self).farthest == old(self).farthest,
            final(self).same_tables(old(self)),
            final(self).threads == old(self).threads,
            final(self).current == old(self).current,
            final(self).remaining == old(self).remaining,
            final(self).saved == Some(Node { kind, range: old(self).result }),
            final(self).result == (Span { start: old(self).result.end, end: old(self).result.end }),
    {
        self.saved = Some(Node { kind, range: self.result });
        self.result = Span::empty_at(self.result.end);
    }

    /// `save`, for step code that has not established that no node is
    /// staged: returns `false`, changing nothing, when one is.
    pub fn try_save(&mut self, kind: u32) -> (r: bool)
        requires
            old(self).wf(),
        ensures
            final(self).wf(),
            final(self).farthest == old(self).farthest,
            r == old(self).saved.is_none(),
            final(self).same_tables(old(self)),
            final(self).threads == old(self).threads,
            final(self).current == old(self).current,
            final(self).remaining == old(self).remaining,
            !r ==> final(self).same_view(old(self)),
            r ==> final(self).saved == Some(Node { kind, range: old(self).result })
                && final(self).result == (Span {
                start: old(self).result.end,
                end: old(self).result.end,
            }),
    {
        if self.saved.is_some() {
            return false;
        }
        self.save(kind);
        true
    }

    /// Removes and returns the staged node.
    pub fn take_saved(&mut self) -> (r: Node)
        requires
            old(self).wf(),
            old(self).saved.is_some(),
        ensures
            final(self).wf(),
            final(self).farthest == old(self).farthest,
            final(self).same_tables(old(self)),
            final(self).threads == old(self).threads,
            r == old(self).saved.unwrap(),
            final(self).saved.is_none(),
            final(self).current == old(self).current,
            final(self).result == old(self).result,
            final(self).remaining == old(self).remaining,
    {
        let r = self.saved.unwrap();
        self.saved = None;
        r
    }

    /// Records that the node of `kind` over the consumed input has the
    /// alternative numbered `choice`.
    pub fn forest_add_choice(&mut self, kind: u32, choice: usize)
        requires
            old(self).wf(),
        ensures
            final(self).wf(),
            final(self).farthest == old(self).farthest,
            final(self).same_view(old(self)),
            final(self).threads == old(self).threads,
            final(self).gss == old(self).gss,
            final(self).memoizer == old(self).memoizer,
            final(self).enclosing == old(self).enclosing,
            final(self).forest.choices@.to_set() == old(self).forest.choices@.to_set().insert(
                crate::forest::Mark { node: Node { kind, range: old(self).result }, value: choice },
            ),
            final(self).forest.splits@ == old(self).forest.splits@,
    {
        self.forest.add_choice(Node { kind, range: self.result }, choice);
    }

    /// Joins the staged node `left` back to the input consumed since, and
    /// records that the node of `kind` over the whole is `left` followed by
    /// the rest.
    pub fn forest_add_split(&mut self, kind: u32, left: Node)
        requires
            old(self).wf(),
            left.range.wf(),
            left.range.end == old(self).result.start,
        ensures
            final(self).wf(),
            final(self).farthest == old(self).farthest,
            final(self).threads == old(self).threads,
            final(self).same_tables_but_forest(old(self)),
            final(self).current == old(self).current,
            final(self).saved == old(self).saved,
            final(self).remaining == old(self).remaining,
            final(self).result == (Span { start: left.range.start, end: old(self).result.end }),
            final(self).forest.splits@.to_set() == old(self).forest.splits@.to_set().insert(
                crate::forest::Mark {
                    node: Node { kind, range: final(self).result },
                    value: left.range.len_spec() as usize,
                },
            ),
            final(self).forest.choices@ == old(self).forest.choices@,
    {
        let n = left.range.len();
        self.result = Span::new(left.range.start, self.result.end);
        self.forest.add_split(Node { kind, range: self.result }, n);
    }

    /// Queues the thread that continues at `next` from where the running
    /// thread stands.
    pub fn spawn(&mut self, next: u32)
        requires
            old(self).wf(),
        ensures
            final(self).wf(),
            final(self).farthest == old(self).farthest,
            final(self).same_tables(old(self)),
            final(self).same_view(old(self)),
            Threads::offered(
                &old(self).threads,
                &final(self).threads,
                seq![Thread { cont: old(self).next_cont(next), range: old(self).remaining }],
            ),
    {
        let t = Thread {
            cont: Continuation { code: next, saved: self.saved, result: self.result },
            range: self.remaining,
        };
        let ts = vec![t];
        assert(ts@ =~= seq![t]);
        self.offer(&ts);
    }

    fn offer(&mut self, ts: &Vec<Thread>)
        requires
            old(self).wf(),
            forall|k: int| 0 <= k < ts@.len() ==> thread_wf(#[trigger] ts@[k]),
        ensures
            final(self).wf(),
            final(self).farthest == old(self).farthest,
            final(self).same_tables(old(self)),
            final(self).same_view(old(self)),
            Threads::offered(&old(self).threads, &final(self).threads, ts@),
    {
        let ghost n0 = self.threads.queue@.len();
        self.threads.spawn_all(ts);
        proof {
            assert forall|j: int| 0 <= j < self.threads.queue@.len() implies thread_wf(
                #[trigger] self.threads.queue@[j],
            ) by {
                if j < n0 {
                    assert(self.threads.queue@[j] == self.threads.queue@.take(n0 as int)[j]);
                } else {
                    assert(ts@.contains(self.threads.queue@[j]));
                }
            }
        }
    }

    /// Calls the nonterminal entered at `callee` on the remaining input,
    /// to resume at `next`. A continuation already waiting on that call is
    /// not linked again. Where others already wait, the callee has been
    /// explored: the new continuation is resumed with every length it has
    /// accepted so far. Else the callee is entered, once.
    pub fn call(&mut self, callee: u32, next: u32)
        requires
            old(self).wf(),
        ensures
            final(self).wf(),
            final(self).farthest == old(self).farthest,
            final(self).same_view(old(self)),
            final(self).memoizer == old(self).memoizer,
            final(self).forest == old(self).forest,
            final(self).enclosing == old(self).enclosing,
            final(self).gss.waiting(old(self).call_site(callee)) == if old(self).gss.waiting(
                old(self).call_site(callee),
            ).contains(old(self).next_cont(next)) {
                old(self).gss.waiting(old(self).call_site(callee))
            } else {
                old(self).gss.waiting(old(self).call_site(callee)).push(old(self).next_cont(next))
            },
            forall|c: CallSite|
                c != old(self).call_site(callee) ==> #[trigger] final(self).gss.waiting(c)
                    == old(self).gss.waiting(c),
            Threads::offered(
                &old(self).threads,
                &final(self).threads,
                old(self).call_offers(callee, next),
            ),
    {
        let call = CallSite { callee, range: self.remaining };
        let cont = Continuation { code: next, saved: self.saved, result: self.result };
        let ghost offers = self.call_offers(callee, next);
        proof {
            self.history@ = self.history@.union(offers.to_set());
        }
        let ghost mid = *self;
        let (fresh, before) = self.gss.link(call, cont);
        proof {
            assert forall|c: CallSite, len: usize, k: Continuation|
                !self.early@.contains(c) && #[trigger] self.memoizer.lengths(c).contains(len)
                    && #[trigger] self.gss.waiting(c).contains(k) implies self.history@.contains(
                    resume(k, c.range, len),
                ) by {
                if c != call || mid.gss.waiting(c).contains(k) {
                    assert(mid.gss.waiting(c).contains(k));
                } else {
                    assert(k == cont);
                    if mid.gss.waiting(c).len() == 0 {
                        assert(mid.memoizer.lengths(c).len() == 0);
                    } else {
                        let i = choose|i: int|
                            0 <= i < mid.memoizer.lengths(c).len() && mid.memoizer.lengths(c)[i] == len;
                        assert(offers[i] == resume(k, c.range, len));
                        assert(offers.to_set().contains(offers[i]));
                    }
                }
            }
            assert forall|c: CallSite|
                !self.early@.contains(c) && #[trigger] self.gss.waiting(c).len() == 0 implies self.memoizer.lengths(c).len() == 0 by {
                if c == call {
                    if !fresh {
                        assert(mid.gss.waiting(c).contains(cont));
                    }
                    assert(self.gss.waiting(c).len() > 0);
                } else {
                    assert(mid.gss.waiting(c).len() == 0);
                }
            }
            assert forall|c: CallSite| #[trigger] linked_ok(self.gss.waiting(c), c) by {
                if c != call {
                    assert(linked_ok(old(self).gss.waiting(c), c));
                } else {
                    assert(linked_ok(old(self).gss.waiting(c), c));
                    let s = self.gss.waiting(c);
                    assert forall|k: int| 0 <= k < s.len() implies (#[trigger] s[k]).result.wf()
                        && s[k].result.end == c.range.start by {
                        if k < old(self).gss.waiting(c).len() {
                            assert(s[k] == old(self).gss.waiting(c)[k]);
                        }
                    }
                }
            }
        }
        let mut ts: Vec<Thread> = Vec::new();
        if fresh {
            if before > 0 {
                let lens = self.memoizer.lengths_of(&call);
                assert(fits(lens@, call.range));
                let mut k: usize = 0;
                while k < lens.len()
                    invariant
                        self.wf(),
                        self.same_view(old(self)),
                        self.remaining == call.range,
                        self.result.end == call.range.start,
                        cont == old(self).next_cont(next),
                        fits(lens@, call.range),
                        k <= lens@.len(),
                        ts@.len() == k,
                        forall|j: int| 0 <= j < k ==> #[trigger] ts@[j] == resume(cont, call.range, lens@[j]),
                    decreases lens@.len() - k,
                {
                    assert(lens@[k as int] <= call.range.len_spec());
                    let (piece, rest) = self.remaining.split_at(lens[k]);
                    ts.push(Thread {
                        cont: Continuation {
                            code: next,
                            saved: self.saved,
                            result: Span::new(self.result.start, piece.end),
                        },
                        range: rest,
                    });
                    k = k + 1;
                }
                assert(ts@ =~= offers);
            } else {
                ts.push(Thread {
                    cont: Continuation {
                        code: callee,
                        saved: None,
                        result: Span::empty_at(self.remaining.start),
                    },
                    range: self.remaining,
                });
                assert(ts@ =~= offers);
            }
        } else {
            assert(ts@ =~= offers);
        }
        self.offer(&ts);
    }

    /// Completes the nonterminal that owns the running step: records the
    /// consumed length for its call and, when that length is new, resumes
    /// every continuation waiting on the call with it.
    pub fn ret(&mut self)
        requires
            old(self).wf(),
            old(self).current < old(self).enclosing@.len(),
        ensures
            final(self).wf(),
            final(self).farthest == old(self).farthest,
            final(self).same_view(old(self)),
            final(self).gss == old(self).gss,
            final(self).forest == old(self).forest,
            final(self).enclosing == old(self).enclosing,
            final(self).memoizer.lengths(old(self).ret_site()).to_set() == old(
                self,
            ).memoizer.lengths(old(self).ret_site()).to_set().insert(
                old(self).result.len_spec() as usize,
            ),
            forall|c: CallSite|
                c != old(self).ret_site() ==> #[trigger] final(self).memoizer.lengths(c)
                    == old(self).memoizer.lengths(c),
            Threads::offered(&old(self).threads, &final(self).threads, old(self).ret_offers()),
    {
        let code = self.current;
        let owner = self.enclosing[code as usize];
        let call = CallSite { callee: owner, range: Span::new(self.result.start, self.remaining.end) };
        let len = self.result.len();
        let ghost offers = self.ret_offers();
        proof {
            self.history@ = self.history@.union(offers.to_set());
            if self.gss.waiting(call).len() == 0 {
                self.early@ = self.early@.insert(call);
            }
        }
        let ghost mid = *self;
        let fresh = self.memoizer.record(call, len);
        proof {
            assert forall|c: CallSite, l: usize, k: Continuation|
                !self.early@.contains(c) && #[trigger] self.memoizer.lengths(c).contains(l)
                    && #[trigger] self.gss.waiting(c).contains(k) implies self.history@.contains(
                    resume(k, c.range, l),
                ) by {
                if c != call {
                    assert(mid.memoizer.lengths(c).contains(l));
                } else {
                    assert(self.memoizer.lengths(c).to_set().contains(l));
                    if mid.memoizer.lengths(c).contains(l) {
                    } else {
                        assert(mid.memoizer.lengths(c).to_set().insert(len).contains(l));
                        assert(l == len);
                        let j = choose|j: int|
                            0 <= j < mid.gss.waiting(c).len() && mid.gss.waiting(c)[j] == k;
                        assert(offers[j] == resume(k, c.range, l));
                        assert(offers.to_set().contains(offers[j]));
                    }
                }
            }
            assert forall|c: CallSite|
                !self.early@.contains(c) && #[trigger] self.gss.waiting(c).len() == 0 implies self.memoizer.lengths(c).len() == 0 by {
                assert(c != call);
                assert(mid.memoizer.lengths(c).len() == 0);
            }
        }
        let mut ts: Vec<Thread> = Vec::new();
        if fresh {
            let conts = self.gss.waiting_on(&call);
            assert(linked_ok(conts@, call));
            let mut k: usize = 0;
            while k < conts.len()
                invariant
                    self.wf(),
                    call == old(self).ret_site(),
                    self.result == old(self).result,
                    self.remaining == old(self).remaining,
                    len == self.result.len_spec(),
                    linked_ok(conts@, call),
                    k <= conts@.len(),
                    ts@.len() == k,
                    forall|j: int| 0 <= j < k ==> #[trigger] ts@[j] == resume(conts@[j], call.range, len),
                decreases conts@.len() - k,
            {
                let c = conts[k];
                assert(c == conts@[k as int]);
                ts.push(Thread {
                    cont: Continuation {
                        code: c.code,
                        saved: c.saved,
                        result: Span::new(c.result.start, self.result.end),
                    },
                    range: self.remaining,
                });
                k = k + 1;
            }
            assert(ts@ =~= offers);
        } else {
            assert(ts@ =~= offers);
        }
        self.offer(&ts);
    }

    /// The root node of `kind` over the longest input that the entry call
    /// accepted, or `None` when it accepted none.
    pub fn finish(&self, entry: u32, input_len: usize, kind: u32) -> (r: Option<Node>)
        requires
            self.wf(),
        ensures
            ({
                let lens = self.memoizer.lengths(CallSite { callee: entry, range: Span { start: 0, end: input_len } });
                &&& r.is_none() <==> lens.len() == 0
                &&& r.is_some() ==> exists|k: int|
                    0 <= k < lens.len() && r == Some(Node { kind, range: Span { start: 0, end: lens[k] } })
                        && forall|j: int| 0 <= j < lens.len() ==> #[trigger] lens[j] <= lens[k]
            }),
    {
        let call = CallSite { callee: entry, range: Span::new(0, input_len) };
        match self.memoizer.longest_result(&call) {
            None => None,
            Some(range) => Some(Node { kind, range }),
        }
    }
}

} // verus!
