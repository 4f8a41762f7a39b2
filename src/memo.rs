use vstd::prelude::*;

use crate::span::Span;
use crate::thread::CallSite;

verus! {

/// The accepted lengths of one call, in ascending order.
pub struct LengthSet {
    pub call: CallSite,
    pub lens: Vec<usize>,
}

/// For each call, the lengths of input it has been shown to accept.
pub struct Memoizer {
    pub entries: Vec<LengthSet>,
    pub model: Ghost<Map<CallSite, Seq<usize>>>,
}

/// Strictly ascending.
pub open spec fn ascending(s: Seq<usize>) -> bool {
    forall|i: int, j: int| 0 <= i < j < s.len() ==> s[i] < s[j]
}

/// The prefix of `range` that is `len` long.
pub open spec fn prefix(range: Span, len: usize) -> Span {
    Span { start: range.start, end: (range.start + len) as usize }
}

/// Every length in `s` is that of a prefix of `range`.
pub open spec fn fits(s: Seq<usize>, range: Span) -> bool {
    forall|k: int| 0 <= k < s.len() ==> range.wf() && #[trigger] s[k] <= range.len_spec()
}

impl Memoizer {
    /// The lengths accepted by `call`, ascending.
    pub open spec fn lengths(&self, call: CallSite) -> Seq<usize> {
        if self.model@.contains_key(call) {
            self.model@[call]
        } else {
            Seq::empty()
        }
    }

    pub open spec fn wf(&self) -> bool {
        &&& forall|i: int, j: int|
            0 <= i < j < self.entries@.len() ==> self.entries@[i].call != self.entries@[j].call
        &&& forall|i: int|
            0 <= i < self.entries@.len() ==> self.model@.contains_key(
                (#[trigger] self.entries@[i]).call,
            ) && self.model@[self.entries@[i].call] == self.entries@[i].lens@
        &&& forall|c: CallSite|
            self.model@.contains_key(c) ==> exists|i: int|
                0 <= i < self.entries@.len() && (#[trigger] self.entries@[i]).call == c
        &&& forall|c: CallSite| #[trigger] ascending(self.lengths(c))
        &&& forall|c: CallSite| #[trigger] fits(self.lengths(c), c.range)
    }

    pub fn new() -> (r: Memoizer)
        ensures
            r.wf(),
            forall|c: CallSite| #[trigger] r.lengths(c) == Seq::<usize>::empty(),
    {
        Memoizer { entries: Vec::new(), model: Ghost(Map::empty()) }
    }

    fn find(&self, call: &CallSite) -> (r: Option<usize>)
        requires
            self.wf(),
        ensures
            r.is_none() ==> !self.model@.contains_key(*call),
            r.is_some() ==> r.unwrap() < self.entries@.len() && self.entries@[r.unwrap() as int].call
                == *call,
    {
        let mut i: usize = 0;
        while i < self.entries.len()
            invariant
                i <= self.entries@.len(),
                forall|j: int| 0 <= j < i ==> self.entries@[j].call != *call,
            decreases self.entries@.len() - i,
        {
            if self.entries[i].call == *call {
                return Some(i);
            }
            i = i + 1;
        }
        None
    }

    /// A copy of the lengths accepted by `call`, ascending.
    pub fn lengths_of(&self, call: &CallSite) -> (r: Vec<usize>)
        requires
            self.wf(),
        ensures
            r@ == self.lengths(*call),
    {
        let mut r: Vec<usize> = Vec::new();
        match self.find(call) {
            None => {},
            Some(i) => {
                let lens = &self.entries[i].lens;
                let mut k: usize = 0;
                while k < lens.len()
                    invariant
                        k <= lens@.len(),
                        r@ == lens@.take(k as int),
                    decreases lens@.len() - k,
                {
                    r.push(lens[k]);
                    k = k + 1;
                    assert(r@ =~= lens@.take(k as int));
                }
                assert(lens@.take(k as int) =~= lens@);
            },
        }
        r
    }

    /// Records that `call` accepts `len`; returns whether that is new.
    pub fn record(&mut self, call: CallSite, len: usize) -> (r: bool)
        requires
            old(self).wf(),
            call.range.wf(),
            len <= call.range.len_spec(),
        ensures
            final(self).wf(),
            r == !old(self).lengths(call).contains(len),
            final(self).lengths(call).to_set() == old(self).lengths(call).to_set().insert(len),
            forall|c: CallSite| c != call ==> #[trigger] final(self).lengths(c) == old(self).lengths(c),
    {
        let ghost before = self.lengths(call);
        assert(ascending(before));
        let mut v: Vec<usize> = match self.find(&call) {
            None => {
                assert(self.entries@ == old(self).entries@);
                Vec::new()
            },
            Some(i) => {
                let e = self.entries.remove(i);
                assert(self.entries@ == old(self).entries@.remove(i as int));
                proof {
                    assert forall|c: CallSite| self.model@.contains_key(c) && c != call implies exists|j: int|
                        0 <= j < self.entries@.len() && (#[trigger] self.entries@[j]).call == c by {
                        let j = choose|j: int| 0 <= j < old(self).entries@.len() && (#[trigger] old(self).entries@[j]).call == c;
                        if j < i {
                            assert(self.entries@[j].call == c);
                        } else {
                            assert(self.entries@[j - 1].call == c);
                        }
                    }
                }
                e.lens
            },
        };
        assert(v@ == before);
        assert(fits(before, call.range));
        let ghost mid = self.entries@;
        assert(forall|j: int| 0 <= j < mid.len() ==> (#[trigger] mid[j]).call != call);
        assert forall|a: int, b: int| 0 <= a < b < mid.len() implies mid[a].call != mid[b].call by {
            if mid.len() < old(self).entries@.len() {
                let i = choose|i: int| 0 <= i < old(self).entries@.len() && mid == old(self).entries@.remove(i);
                let a0 = if a < i { a } else { a + 1 };
                let b0 = if b < i { b } else { b + 1 };
                assert(mid[a] == old(self).entries@[a0] && mid[b] == old(self).entries@[b0]);
            } else {
                assert(mid == old(self).entries@);
            }
        }
        assert(forall|j: int|
            0 <= j < mid.len() ==> self.model@.contains_key((#[trigger] mid[j]).call)
                && self.model@[mid[j].call] == mid[j].lens@);
        assert(forall|c: CallSite|
            self.model@.contains_key(c) && c != call ==> exists|j: int|
                0 <= j < mid.len() && (#[trigger] mid[j]).call == c);
        let mut p: usize = 0;
        while p < v.len() && v[p] < len
            invariant
                v@ == before,
                p <= v@.len(),
                forall|j: int| 0 <= j < p ==> v@[j] < len,
            decreases v@.len() - p,
        {
            p = p + 1;
        }
        let fresh = !(p < v.len() && v[p] == len);
        if fresh {
            v.insert(p, len);
            proof {
                assert forall|j: int| p <= j < before.len() implies len < #[trigger] before[j] by {
                    assert(before[p as int] >= len);
                    assert(before[p as int] != len);
                }
                assert(!before.contains(len)) by {
                    if before.contains(len) {
                        let j = choose|j: int| 0 <= j < before.len() && before[j] == len;
                    }
                }
                assert forall|x: usize| v@.to_set().contains(x) <==> before.to_set().insert(len).contains(x) by {
                    if v@.contains(x) {
                        let j = choose|j: int| 0 <= j < v@.len() && v@[j] == x;
                        if j < p { assert(before[j] == x); } else if j > p { assert(before[j - 1] == x); }
                    }
                    if before.contains(x) {
                        let j = choose|j: int| 0 <= j < before.len() && before[j] == x;
                        if j < p { assert(v@[j] == x); } else { assert(v@[j + 1] == x); }
                    }
                    if x == len { assert(v@[p as int] == x); }
                }
                assert(v@.to_set() =~= before.to_set().insert(len));
                assert forall|a: int, b: int| 0 <= a < b < v@.len() implies v@[a] < v@[b] by {
                    if b < p {
                        assert(v@[a] == before[a] && v@[b] == before[b]);
                    } else if b == p {
                        assert(v@[a] == before[a]);
                    } else if a < p {
                        assert(v@[a] == before[a] && v@[b] == before[b - 1]);
                    } else if a == p {
                        assert(v@[b] == before[b - 1]);
                    } else {
                        assert(v@[a] == before[a - 1] && v@[b] == before[b - 1]);
                    }
                }
                assert forall|k: int| 0 <= k < v@.len() implies v@[k] <= call.range.len_spec() by {
                    if k < p {
                        assert(v@[k] == before[k]);
                    } else if k > p {
                        assert(v@[k] == before[k - 1]);
                    }
                }
            }
        } else {
            proof {
                assert(before[p as int] == len);
                assert(v@.to_set() =~= before.to_set().insert(len));
            }
        }
        assert(ascending(v@));
        assert(forall|k: int| 0 <= k < v@.len() ==> v@[k] <= call.range.len_spec());
        proof {
            self.model@ = self.model@.insert(call, v@);
        }
        self.entries.push(LengthSet { call, lens: v });
        proof {
            assert(forall|c: CallSite| c != call ==> #[trigger] self.lengths(c) == old(self).lengths(c));
            assert(self.lengths(call) == v@);
            assert forall|c: CallSite| self.model@.contains_key(c) implies exists|j: int|
                0 <= j < self.entries@.len() && (#[trigger] self.entries@[j]).call == c by {
                if c == call {
                    assert(self.entries@[self.entries@.len() - 1].call == c);
                } else {
                    let j = choose|j: int| 0 <= j < mid.len() && (#[trigger] mid[j]).call == c;
                    assert(self.entries@[j].call == c);
                }
            }
            assert(self.entries@ == mid.push(LengthSet { call, lens: v }));
            assert forall|a: int, b: int| 0 <= a < b < self.entries@.len() implies self.entries@[a].call != self.entries@[b].call by {
                assert(self.entries@[a] == mid[a]);
                if b < mid.len() {
                    assert(self.entries@[b] == mid[b]);
                }
            }
            assert forall|j: int| 0 <= j < self.entries@.len() implies self.model@.contains_key(
                (#[trigger] self.entries@[j]).call,
            ) && self.model@[self.entries@[j].call] == self.entries@[j].lens@ by {
                if j < mid.len() {
                    assert(self.entries@[j] == mid[j]);
                }
            }
            assert forall|c: CallSite| #[trigger] ascending(self.lengths(c)) by {
                if c != call {
                    assert(ascending(old(self).lengths(c)));
                }
            }
            assert forall|c: CallSite| #[trigger] fits(self.lengths(c), c.range) by {
                if c != call {
                    assert(fits(old(self).lengths(c), c.range));
                }
            }
        }
        fresh
    }

    /// The prefixes of `call.range` that `call` accepts, shortest first.
    pub fn results(&self, call: &CallSite) -> (r: Vec<Span>)
        requires
            self.wf(),
        ensures
            r@.len() == self.lengths(*call).len(),
            forall|k: int|
                0 <= k < r@.len() ==> #[trigger] r@[k] == prefix(call.range, self.lengths(*call)[k]),
    {
        let lens = self.lengths_of(call);
        let mut r: Vec<Span> = Vec::new();
        let mut k: usize = 0;
        while k < lens.len()
            invariant
                self.wf(),
                lens@ == self.lengths(*call),
                k <= lens@.len(),
                r@.len() == k,
                forall|j: int| 0 <= j < k ==> #[trigger] r@[j] == prefix(call.range, lens@[j]),
            decreases lens@.len() - k,
        {
            assert(fits(self.lengths(*call), call.range));
            assert(lens@[k as int] <= call.range.len_spec());
            let (pre, _) = call.range.split_at(lens[k]);
            r.push(pre);
            k = k + 1;
        }
        r
    }

    /// The longest prefix of `call.range` that `call` accepts, if any.
    pub fn longest_result(&self, call: &CallSite) -> (r: Option<Span>)
        requires
            self.wf(),
        ensures
            r.is_none() <==> self.lengths(*call).len() == 0,
            r.is_some() ==> exists|k: int|
                0 <= k < self.lengths(*call).len() && r == Some(prefix(call.range, self.lengths(*call)[k]))
                    && forall|j: int| 0 <= j < self.lengths(*call).len() ==> #[trigger] self.lengths(*call)[j]
                        <= self.lengths(*call)[k],
    {
        let lens = self.lengths_of(call);
        if lens.len() == 0 {
            None
        } else {
            let last = lens[lens.len() - 1];
            assert(ascending(self.lengths(*call)));
            assert(fits(self.lengths(*call), call.range));
            let (pre, _) = call.range.split_at(last);
            Some(pre)
        }
    }
}

} // verus!
