use vstd::prelude::*;

use crate::thread::{CallSite, Continuation};

verus! {

/// The continuations waiting on one call.
pub struct ReturnSet {
    pub call: CallSite,
    pub conts: Vec<Continuation>,
}

/// The graph-structured stack: for each active call, the continuations to
/// resume when it succeeds.
pub struct GraphStack {
    pub entries: Vec<ReturnSet>,
    pub model: Ghost<Map<CallSite, Seq<Continuation>>>,
}

impl GraphStack {
    /// The continuations linked to `call`, in order of linking.
    pub open spec fn waiting(&self, call: CallSite) -> Seq<Continuation> {
        if self.model@.contains_key(call) {
            self.model@[call]
        } else {
            Seq::empty()
        }
    }

    pub open spec fn wf(&self) -> bool {
        &&& forall|i: int, j: int|
            0 <= i < j < self.entries@.len() ==> self.entries@[i].call != self.entries@[j].call
        &&& forall|i: int|
            0 <= i < self.entries@.len() ==> self.model@.contains_key(
                (#[trigger] self.entries@[i]).call,
            ) && self.model@[self.entries@[i].call] == self.entries@[i].conts@
        &&& forall|c: CallSite|
            self.model@.contains_key(c) ==> exists|i: int|
                0 <= i < self.entries@.len() && (#[trigger] self.entries@[i]).call == c
        &&& forall|c: CallSite| #[trigger] self.waiting(c).no_duplicates()
    }

    pub fn new() -> (r: GraphStack)
        ensures
            r.wf(),
            forall|c: CallSite| #[trigger] r.waiting(c) == Seq::<Continuation>::empty(),
    {
        GraphStack { entries: Vec::new(), model: Ghost(Map::empty()) }
    }

    fn find(&self, call: &CallSite) -> (r: Option<usize>)
        requires
            self.wf(),
        ensures
            r.is_none() ==> !self.model@.contains_key(*call),
            r.is_some() ==> r.unwrap() < self.entries@.len() && self.entries@[r.unwrap() as int].call
                == *call,
    {
        let mut i: usize = 0;
        while i < self.entries.len()
            invariant
                i <= self.entries@.len(),
                forall|j: int| 0 <= j < i ==> self.entries@[j].call != *call,
            decreases self.entries@.len() - i,
        {
            if self.entries[i].call == *call {
                return Some(i);
            }
            i = i + 1;
        }
        None
    }

    /// A copy of the continuations linked to `call`.
    pub fn waiting_on(&self, call: &CallSite) -> (r: Vec<Continuation>)
        requires
            self.wf(),
        ensures
            r@ == self.waiting(*call),
    {
        let mut r: Vec<Continuation> = Vec::new();
        match self.find(call) {
            None => {},
            Some(i) => {
                let conts = &self.entries[i].conts;
                let mut k: usize = 0;
                while k < conts.len()
                    invariant
                        k <= conts@.len(),
                        r@ == conts@.take(k as int),
                    decreases conts@.len() - k,
                {
                    r.push(conts[k]);
                    k = k + 1;
                    assert(r@ =~= conts@.take(k as int));
                }
                assert(conts@.take(k as int) =~= conts@);
            },
        }
        r
    }

    /// Links `next` to `call`. Returns whether it was not linked before,
    /// and how many continuations were linked to `call` before.
    pub fn link(&mut self, call: CallSite, next: Continuation) -> (r: (bool, usize))
        requires
            old(self).wf(),
        ensures
            final(self).wf(),
            r.0 == !old(self).waiting(call).contains(next),
            r.1 == old(self).waiting(call).len(),
            final(self).waiting(call) == if r.0 {
                old(self).waiting(call).push(next)
            } else {
                old(self).waiting(call)
            },
            forall|c: CallSite| c != call ==> #[trigger] final(self).waiting(c) == old(self).waiting(c),
    {
        match self.find(&call) {
            None => {
                let mut conts: Vec<Continuation> = Vec::new();
                conts.push(next);
                proof {
                    self.model@ = self.model@.insert(call, conts@);
                }
                self.entries.push(ReturnSet { call, conts });
                proof {
                    assert(forall|c: CallSite| c != call ==> #[trigger] self.waiting(c) == old(self).waiting(c));
                    assert(self.waiting(call).no_duplicates());
                    assert forall|c: CallSite| self.model@.contains_key(c) implies exists|i: int|
                        0 <= i < self.entries@.len() && (#[trigger] self.entries@[i]).call == c by {
                        if c == call {
                            assert(self.entries@[self.entries@.len() - 1].call == c);
                        } else {
                            let i = choose|i: int| 0 <= i < old(self).entries@.len() && (#[trigger] old(self).entries@[i]).call == c;
                            assert(self.entries@[i].call == c);
                        }
                    }
                }
                (true, 0)
            },
            Some(i) => {
                let ghost before = self.model@[call];
                let mut k: usize = 0;
                while k < self.entries[i].conts.len()
                    invariant
                        self.wf(),
                        *self == *old(self),
                        before == old(self).waiting(call),
                        i < self.entries@.len(),
                        self.entries@[i as int].conts@ == before,
                        k <= before.len(),
                        forall|j: int| 0 <= j < k ==> before[j] != next,
                    decreases before.len() - k,
                {
                    if self.entries[i].conts[k] == next {
                        assert(before[k as int] == next);
                        return (false, self.entries[i].conts.len());
                    }
                    k = k + 1;
                }
                let n = self.entries[i].conts.len();
                assert(old(self).waiting(call).no_duplicates());
                assert(!before.contains(next));
                let mut e = self.entries.remove(i);
                e.conts.push(next);
                proof {
                    self.model@ = self.model@.insert(call, e.conts@);
                }
                self.entries.insert(i, e);
                proof {
                    assert(self.entries@ =~= old(self).entries@.update(i as int, e));
                    assert(forall|c: CallSite| c != call ==> #[trigger] self.waiting(c) == old(self).waiting(c));
                    assert(self.waiting(call).no_duplicates());
                    assert forall|c: CallSite| self.model@.contains_key(c) implies exists|j: int|
                        0 <= j < self.entries@.len() && (#[trigger] self.entries@[j]).call == c by {
                        let j = choose|j: int| 0 <= j < old(self).entries@.len() && (#[trigger] old(self).entries@[j]).call == c;
                        assert(self.entries@[j].call == c);
                    }
                }
                (true, n)
            },
        }
    }
}

} // verus!
