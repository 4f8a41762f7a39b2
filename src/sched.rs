use vstd::prelude::*;

use crate::thread::{thread_less, thread_lt, Thread};

verus! {

/// The work queue: pending threads, and the threads enqueued so far in
/// this parse (minus those collected as behind the frontier).
pub struct Threads {
    pub queue: Vec<Thread>,
    pub seen: Vec<Thread>,
}

/// `t` is a greatest element of `s`.
pub open spec fn is_greatest(s: Seq<Thread>, t: Thread) -> bool {
    s.contains(t) && forall|j: int| 0 <= j < s.len() ==> !thread_lt(t, #[trigger] s[j])
}

proof fn lemma_remove_contains(s: Seq<Thread>, k: int, y: Thread)
    requires
        s.no_duplicates(),
        0 <= k < s.len(),
    ensures
        s.remove(k).contains(y) <==> (s.contains(y) && y != s[k]),
        s.remove(k).no_duplicates(),
{
    let r = s.remove(k);
    if r.contains(y) {
        let j = choose|j: int| 0 <= j < r.len() && r[j] == y;
        if j < k {
            assert(s[j] == y);
        } else {
            assert(s[j + 1] == y);
        }
    }
    if s.contains(y) && y != s[k] {
        let j = choose|j: int| 0 <= j < s.len() && s[j] == y;
        if j < k {
            assert(r[j] == y);
        } else {
            assert(r[j - 1] == y);
        }
    }
}

impl Threads {
    /// `new` is `old` after offering each thread of `ts` in turn: each of
    /// them is now seen, and those not seen before were queued after the
    /// threads already pending.
    pub open spec fn offered(old: &Threads, new: &Threads, ts: Seq<Thread>) -> bool {
        &&& forall|k: int| 0 <= k < ts.len() ==> new.seen@.contains(#[trigger] ts[k])
        &&& forall|x: Thread|
            #[trigger] new.seen@.contains(x) ==> old.seen@.contains(x) || ts.contains(x)
        &&& forall|x: Thread| #[trigger] old.seen@.contains(x) ==> new.seen@.contains(x)
        &&& old.queue@.len() <= new.queue@.len()
        &&& new.queue@.take(old.queue@.len() as int) == old.queue@
        &&& forall|j: int|
            old.queue@.len() <= j < new.queue@.len() ==> ts.contains(#[trigger] new.queue@[j])
                && !old.seen@.contains(new.queue@[j])
        &&& forall|x: Thread|
            ts.contains(x) && !old.seen@.contains(x) ==> #[trigger] new.queue@.contains(x)
        &&& new.queue@.subrange(old.queue@.len() as int, new.queue@.len() as int).no_duplicates()
    }

    /// `seen` holds each thread at most once.
    pub open spec fn wf(&self) -> bool {
        self.seen@.no_duplicates()
    }

    pub fn new() -> (r: Threads)
        ensures
            r.wf(),
            r.queue@ == Seq::<Thread>::empty(),
            r.seen@ == Seq::<Thread>::empty(),
    {
        Threads { queue: Vec::new(), seen: Vec::new() }
    }

    fn seen_contains(&self, t: &Thread) -> (r: bool)
        ensures
            r == self.seen@.contains(*t),
    {
        let mut i: usize = 0;
        while i < self.seen.len()
            invariant
                i <= self.seen@.len(),
                forall|j: int| 0 <= j < i ==> self.seen@[j] != *t,
            decreases self.seen@.len() - i,
        {
            if self.seen[i] == *t {
                return true;
            }
            i = i + 1;
        }
        false
    }

    /// Enqueues `t` unless it was enqueued before (and not collected since).
    pub fn spawn(&mut self, t: Thread)
        requires
            old(self).wf(),
        ensures
            final(self).wf(),
            old(self).seen@.contains(t) ==> *final(self) == *old(self),
            !old(self).seen@.contains(t) ==> final(self).seen@ == old(self).seen@.push(t)
                && final(self).queue@ == old(self).queue@.push(t),
    {
        if !self.seen_contains(&t) {
            self.seen.push(t);
            self.queue.push(t);
        }
    }

    /// Offers each thread of `ts` to `spawn`, in order.
    pub fn spawn_all(&mut self, ts: &Vec<Thread>)
        requires
            old(self).wf(),
        ensures
            final(self).wf(),
            Threads::offered(old(self), final(self), ts@),
    {
        let mut k: usize = 0;
        assert(self.queue@.take(self.queue@.len() as int) =~= self.queue@);
        assert(self.queue@.subrange(self.queue@.len() as int, self.queue@.len() as int).len() == 0);
        while k < ts.len()
            invariant
                self.wf(),
                k <= ts@.len(),
                Threads::offered(old(self), self, ts@.take(k as int)),
            decreases ts@.len() - k,
        {
            let ghost prev = *self;
            let t = ts[k];
            self.spawn(t);
            k = k + 1;
            proof {
                let tk = ts@.take(k as int);
                let tp = ts@.take(k - 1);
                assert(tk == tp.push(t));
                assert forall|x: Thread| #[trigger] tk.contains(x) <==> tp.contains(x) || x == t by {
                    if tk.contains(x) {
                        let j = choose|j: int| 0 <= j < tk.len() && tk[j] == x;
                        if j < tp.len() {
                            assert(tp[j] == x);
                        }
                    }
                    if tp.contains(x) {
                        let j = choose|j: int| 0 <= j < tp.len() && tp[j] == x;
                        assert(tk[j] == x);
                    }
                    if x == t {
                        assert(tk[k - 1] == x);
                    }
                }
                assert forall|x: Thread| #[trigger] prev.seen@.contains(x) implies self.seen@.contains(x) by {
                    if !prev.seen@.contains(t) {
                        let j = choose|j: int| 0 <= j < prev.seen@.len() && prev.seen@[j] == x;
                        assert(self.seen@[j] == x);
                    }
                }
                assert forall|i: int| 0 <= i < tk.len() implies self.seen@.contains(#[trigger] tk[i]) by {
                    if i < tp.len() {
                        assert(tk[i] == tp[i]);
                        assert(prev.seen@.contains(tp[i]));
                    } else {
                        if !prev.seen@.contains(t) {
                            assert(self.seen@[prev.seen@.len() as int] == t);
                        }
                    }
                }
                assert forall|x: Thread| #[trigger] self.seen@.contains(x) implies old(self).seen@.contains(x)
                    || tk.contains(x) by {
                    if !prev.seen@.contains(t) {
                        let j = choose|j: int| 0 <= j < self.seen@.len() && self.seen@[j] == x;
                        if j < prev.seen@.len() {
                            assert(prev.seen@[j] == x);
                        } else {
                            assert(x == t);
                        }
                    }
                    if prev.seen@.contains(x) {
                        assert(old(self).seen@.contains(x) || tp.contains(x));
                    }
                }
                let n0 = old(self).queue@.len() as int;
                assert(self.queue@.take(n0) =~= old(self).queue@) by {
                    assert(prev.queue@.take(n0) == old(self).queue@);
                    if !prev.seen@.contains(t) {
                        assert(self.queue@.take(n0) =~= prev.queue@.take(n0));
                    }
                }
                assert forall|j: int| n0 <= j < self.queue@.len() implies tk.contains(
                    #[trigger] self.queue@[j],
                ) && !old(self).seen@.contains(self.queue@[j]) by {
                    if j < prev.queue@.len() {
                        assert(self.queue@[j] == prev.queue@[j]);
                    } else {
                        assert(self.queue@[j] == t);
                        assert(!prev.seen@.contains(t));
                    }
                }
                let n0i = old(self).queue@.len() as int;
                let tail0 = prev.queue@.subrange(n0i, prev.queue@.len() as int);
                let tail1 = self.queue@.subrange(n0i, self.queue@.len() as int);
                if !prev.seen@.contains(t) {
                    assert(tail1 =~= tail0.push(t));
                    assert forall|a: int, b: int| 0 <= a < b < tail1.len() implies tail1[a] != tail1[b] by {
                        if b < tail0.len() {
                            assert(tail1[a] == tail0[a] && tail1[b] == tail0[b]);
                        } else {
                            assert(tail1[a] == prev.queue@[n0i + a]);
                            assert(tp.contains(prev.queue@[n0i + a]));
                            let w = choose|w: int| 0 <= w < tp.len() && tp[w] == prev.queue@[n0i + a];
                            assert(prev.seen@.contains(tp[w]));
                            assert(tail1[b] == t);
                        }
                    }
                } else {
                    assert(tail1 =~= tail0);
                }
                assert forall|x: Thread| tk.contains(x) && !old(self).seen@.contains(x) implies #[trigger] self.queue@.contains(x) by {
                    if tp.contains(x) {
                        assert(prev.queue@.contains(x));
                        let j = choose|j: int| 0 <= j < prev.queue@.len() && prev.queue@[j] == x;
                        if !prev.seen@.contains(t) {
                            assert(self.queue@[j] == x);
                        }
                    } else {
                        assert(x == t);
                        if !prev.seen@.contains(t) {
                            assert(self.queue@[prev.queue@.len() as int] == x);
                        } else {
                            let i = choose|i: int| 0 <= i < tp.len() && tp[i] == t;
                            if prev.seen@.contains(t) && !old(self).seen@.contains(t) {
                                assert(tp.contains(t));
                            }
                        }
                    }
                }
            }
        }
        assert(ts@.take(k as int) =~= ts@);
    }

    /// The index of a greatest element of a non-empty list of threads.
    fn index_of_greatest(v: &Vec<Thread>) -> (r: usize)
        requires
            v@.len() > 0,
        ensures
            r < v@.len(),
            is_greatest(v@, v@[r as int]),
    {
        let mut best: usize = 0;
        let mut i: usize = 1;
        while i < v.len()
            invariant
                0 < i <= v@.len(),
                best < i,
                forall|j: int| 0 <= j < i ==> !thread_lt(v@[best as int], #[trigger] v@[j]),
            decreases v@.len() - i,
        {
            if thread_less(&v[best], &v[i]) {
                proof {
                    assert forall|j: int| 0 <= j < i + 1 implies !thread_lt(
                        v@[i as int],
                        #[trigger] v@[j],
                    ) by {
                        if j < i && thread_lt(v@[i as int], v@[j]) {
                            crate::thread::lemma_thread_lt_transitive(
                                v@[best as int],
                                v@[i as int],
                                v@[j],
                            );
                        }
                    }
                }
                best = i;
            }
            i = i + 1;
        }
        assert(v@.contains(v@[best as int]));
        best
    }

    /// Removes and returns a greatest pending thread, or returns `None` and
    /// clears `seen` when nothing is pending. After a pop, entries of
    /// `seen` are dropped greatest first for as long as the popped thread's
    /// remaining span does not contain their start.
    pub fn steal(&mut self) -> (r: Option<Thread>)
        requires
            old(self).wf(),
        ensures
            final(self).wf(),
            r.is_none() <==> old(self).queue@.len() == 0,
            r.is_none() ==> final(self).queue@.len() == 0 && final(self).seen@.len() == 0,
            r.is_some() ==> {
                let t = r.unwrap();
                &&& is_greatest(old(self).queue@, t)
                &&& exists|i: int|
                    0 <= i < old(self).queue@.len() && old(self).queue@[i] == t
                        && final(self).queue@ == old(self).queue@.remove(i)
                &&& final(self).seen@.to_set().subset_of(old(self).seen@.to_set())
                &&& forall|x: Thread|
                    old(self).seen@.contains(x) && !final(self).seen@.contains(x)
                        ==> !t.range.contains_spec(x.range.start) && forall|y: Thread|
                        #![trigger final(self).seen@.contains(y)]
                        final(self).seen@.contains(y) ==> thread_lt(y, x)
                &&& forall|x: Thread|
                    is_greatest(final(self).seen@, x) ==> t.range.contains_spec(x.range.start)
            },
    {
        if self.queue.len() == 0 {
            self.seen.clear();
            return None;
        }
        let ghost q0 = self.queue@;
        let i = Self::index_of_greatest(&self.queue);
        let t = self.queue.remove(i);
        assert(q0[i as int] == t && self.queue@ == q0.remove(i as int));
        let ghost seen0 = self.seen@;
        loop
            invariant
                self.queue@ == q0.remove(i as int),
                self.seen@.no_duplicates(),
                self.seen@.to_set().subset_of(seen0.to_set()),
                forall|x: Thread|
                    seen0.contains(x) && !self.seen@.contains(x) ==> !t.range.contains_spec(
                        x.range.start,
                    ) && forall|y: Thread|
                        #![trigger self.seen@.contains(y)]
                        self.seen@.contains(y) ==> thread_lt(y, x),
            ensures
                self.queue@ == q0.remove(i as int),
                self.seen@.no_duplicates(),
                self.seen@.to_set().subset_of(seen0.to_set()),
                forall|x: Thread|
                    seen0.contains(x) && !self.seen@.contains(x) ==> !t.range.contains_spec(
                        x.range.start,
                    ) && forall|y: Thread|
                        #![trigger self.seen@.contains(y)]
                        self.seen@.contains(y) ==> thread_lt(y, x),
                forall|x: Thread|
                    is_greatest(self.seen@, x) ==> t.range.contains_spec(x.range.start),
            decreases self.seen@.len(),
        {
            if self.seen.len() == 0 {
                break;
            }
            let k = Self::index_of_greatest(&self.seen);
            if t.range.contains(self.seen[k].range.start) {
                proof {
                    assert forall|x: Thread| is_greatest(self.seen@, x) implies t.range.contains_spec(
                        x.range.start,
                    ) by {
                        if x != self.seen@[k as int] {
                            crate::thread::lemma_thread_lt_total(x, self.seen@[k as int]);
                        }
                    }
                }
                break;
            }
            let ghost before = self.seen@;
            let old_top = self.seen.remove(k);
            proof {
                assert forall|y: Thread| #[trigger] self.seen@.contains(y) implies before.contains(y)
                    && y != old_top by {
                    lemma_remove_contains(before, k as int, y);
                }
                assert forall|x: Thread|
                    seen0.contains(x) && !self.seen@.contains(x) implies !t.range.contains_spec(
                    x.range.start,
                ) && forall|y: Thread|
                    #![trigger self.seen@.contains(y)]
                    self.seen@.contains(y) ==> thread_lt(y, x) by {
                    lemma_remove_contains(before, k as int, x);
                    assert forall|y: Thread| #[trigger] self.seen@.contains(y) implies thread_lt(
                        y,
                        x,
                    ) by {
                        if x == old_top {
                            crate::thread::lemma_thread_lt_total(y, x);
                        }
                    }
                }
                assert forall|y: Thread| #[trigger] self.seen@.to_set().contains(y) implies seen0.to_set().contains(y) by {
                    assert(before.to_set().contains(y));
                }
            }
        }
        Some(t)
    }
}

} // verus!
