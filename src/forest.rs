use vstd::prelude::*;

use crate::thread::Node;

verus! {

/// An annotation of the parse forest: `node` has `choice` among its
/// alternatives (for a choice), or splits after `left_len` positions (for a
/// concatenation).
#[derive(Clone, Copy, Debug, PartialEq, Eq, Structural, Hash)]
pub struct Mark {
    pub node: Node,
    pub value: usize,
}

/// The parse forest as the set of its choice and split annotations.
pub struct Forest {
    pub choices: Vec<Mark>,
    pub splits: Vec<Mark>,
}

fn add_mark(v: &mut Vec<Mark>, m: Mark)
    requires
        old(v)@.no_duplicates(),
    ensures
        final(v)@.no_duplicates(),
        final(v)@.to_set() == old(v)@.to_set().insert(m),
        old(v)@.contains(m) ==> final(v)@ == old(v)@,
        !old(v)@.contains(m) ==> final(v)@ == old(v)@.push(m),
{
    let mut i: usize = 0;
    while i < v.len()
        invariant
            v@ == old(v)@,
            v@.no_duplicates(),
            i <= v@.len(),
            forall|j: int| 0 <= j < i ==> v@[j] != m,
        decreases v@.len() - i,
    {
        if v[i] == m {
            assert(v@.to_set() =~= v@.to_set().insert(m));
            return;
        }
        i = i + 1;
    }
    let ghost before = v@;
    v.push(m);
    proof {
        assert forall|a: int, b: int| 0 <= a < b < v@.len() implies v@[a] != v@[b] by {
            if b < before.len() {
                assert(v@[a] == before[a] && v@[b] == before[b]);
            } else {
                assert(v@[a] == before[a] && v@[b] == m);
                assert(before[a] != m);
            }
        }
        assert(v@.to_set() =~= old(v)@.to_set().insert(m)) by {
            old(v)@.lemma_push_to_set_commute(m);
        }
    }
}

impl Forest {
    pub open spec fn wf(&self) -> bool {
        self.choices@.no_duplicates() && self.splits@.no_duplicates()
    }

    pub fn new() -> (r: Forest)
        ensures
            r.wf(),
            r.choices@.len() == 0,
            r.splits@.len() == 0,
    {
        Forest { choices: Vec::new(), splits: Vec::new() }
    }

    /// Notes that `node` has the alternative numbered `choice`.
    pub fn add_choice(&mut self, node: Node, choice: usize)
        requires
            old(self).wf(),
        ensures
            final(self).wf(),
            final(self).choices@.to_set() == old(self).choices@.to_set().insert(
                Mark { node, value: choice },
            ),
            final(self).splits@ == old(self).splits@,
    {
        add_mark(&mut self.choices, Mark { node, value: choice });
    }

    /// Notes that `node` is the concatenation of a piece `left_len` long
    /// and the rest.
    pub fn add_split(&mut self, node: Node, left_len: usize)
        requires
            old(self).wf(),
        ensures
            final(self).wf(),
            final(self).splits@.to_set() == old(self).splits@.to_set().insert(
                Mark { node, value: left_len },
            ),
            final(self).choices@ == old(self).choices@,
    {
        add_mark(&mut self.splits, Mark { node, value: left_len });
    }
}

} // verus!
