//! Properties of the scheduler, the driver and the cursors that relate
//! several operations or several states.
use vstd::prelude::*;

use crate::cursor::{Cursor, Product};
use crate::runtime::{entry_thread, linked_ok, resume, Runtime};
use crate::sched::is_greatest;
use crate::thread::{lemma_thread_lt_total, thread_wf, CallSite, Continuation, Thread};

verus! {

/// The scheduler's choice is determined: a list of pending threads has at
/// most one greatest thread, so two schedulers holding the same pending
/// threads run the same one next.
pub proof fn lemma_next_thread_determined(s: Seq<Thread>, a: Thread, b: Thread)
    requires
        is_greatest(s, a),
        is_greatest(s, b),
    ensures
        a == b,
{
    if a != b {
        lemma_thread_lt_total(a, b);
        let i = choose|i: int| 0 <= i < s.len() && s[i] == b;
        let j = choose|j: int| 0 <= j < s.len() && s[j] == a;
        assert(!crate::thread::thread_lt(a, s[i]));
        assert(!crate::thread::thread_lt(b, s[j]));
    }
}

/// A continuation that newly joins the callers of an explored call is
/// resumed with every length that the call has accepted so far.
pub proof fn lemma_call_replays_lengths(rt: Runtime, callee: u32, next: u32, k: int)
    requires
        rt.wf(),
        !rt.gss.waiting(rt.call_site(callee)).contains(rt.next_cont(next)),
        rt.gss.waiting(rt.call_site(callee)).len() > 0,
        0 <= k < rt.memoizer.lengths(rt.call_site(callee)).len(),
    ensures
        rt.call_offers(callee, next).contains(
            resume(
                rt.next_cont(next),
                rt.call_site(callee).range,
                rt.memoizer.lengths(rt.call_site(callee))[k],
            ),
        ),
{
    assert(rt.call_offers(callee, next)[k] == resume(
        rt.next_cont(next),
        rt.call_site(callee).range,
        rt.memoizer.lengths(rt.call_site(callee))[k],
    ));
}

/// Every continuation ever linked to a call is offered resumed with every
/// length the call accepts, whichever of the two came first; the only
/// calls left out are those that accepted a length while nobody waited on
/// them (the entry call of a parse).
pub proof fn lemma_callers_meet_lengths(rt: Runtime, c: CallSite, len: usize, k: Continuation)
    requires
        rt.wf(),
        !rt.early@.contains(c),
        rt.memoizer.lengths(c).contains(len),
        rt.gss.waiting(c).contains(k),
    ensures
        rt.history@.contains(resume(k, c.range, len)),
{
}

/// Two steps that call the same nonterminal on the same input with the same
/// continuation: the first caller enters the callee with a single thread,
/// and once its continuation waits on the call (as `call` leaves it), the
/// second call offers nothing.
pub proof fn lemma_same_call_twice(rt1: Runtime, rt2: Runtime, callee: u32, next: u32)
    requires
        rt1.gss.waiting(rt1.call_site(callee)).len() == 0,
        rt2.call_site(callee) == rt1.call_site(callee),
        rt2.next_cont(next) == rt1.next_cont(next),
        rt2.gss.waiting(rt2.call_site(callee)) == rt1.gss.waiting(rt1.call_site(callee)).push(
            rt1.next_cont(next),
        ),
    ensures
        rt1.call_offers(callee, next) == seq![entry_thread(callee, rt1.remaining)],
        rt2.gss.waiting(rt2.call_site(callee)) == seq![rt1.next_cont(next)],
        rt2.call_offers(callee, next).len() == 0,
{
    assert(rt2.gss.waiting(rt2.call_site(callee))[0] == rt2.next_cont(next));
    assert(rt2.gss.waiting(rt2.call_site(callee)) =~= seq![rt1.next_cont(next)]);
}

/// A newly accepted length of a call is handed to every continuation
/// waiting on that call.
pub proof fn lemma_ret_resumes_callers(rt: Runtime, k: int)
    requires
        rt.wf(),
        !rt.memoizer.lengths(rt.ret_site()).contains(rt.result.len_spec() as usize),
        0 <= k < rt.gss.waiting(rt.ret_site()).len(),
    ensures
        rt.ret_offers().contains(
            resume(
                rt.gss.waiting(rt.ret_site())[k],
                rt.ret_site().range,
                rt.result.len_spec() as usize,
            ),
        ),
{
    assert(rt.ret_offers()[k] == resume(
        rt.gss.waiting(rt.ret_site())[k],
        rt.ret_site().range,
        rt.result.len_spec() as usize,
    ));
}

/// A length already accepted by a call resumes nobody again.
pub proof fn lemma_ret_fans_out_once(rt: Runtime)
    requires
        rt.memoizer.lengths(rt.ret_site()).contains(rt.result.len_spec() as usize),
    ensures
        rt.ret_offers().len() == 0,
{
}

/// Every thread that `call` or `ret` offers has consumed input up to where
/// its remaining input starts.
pub proof fn lemma_offers_adjacent(rt: Runtime, callee: u32, next: u32)
    requires
        rt.wf(),
    ensures
        forall|k: int|
            0 <= k < rt.call_offers(callee, next).len() ==> thread_wf(
                #[trigger] rt.call_offers(callee, next)[k],
            ),
        forall|k: int| 0 <= k < rt.ret_offers().len() ==> thread_wf(#[trigger] rt.ret_offers()[k]),
{
    let call = rt.call_site(callee);
    assert(crate::memo::fits(rt.memoizer.lengths(call), call.range));
    let rs = rt.ret_site();
    assert(linked_ok(rt.gss.waiting(rs), rs));
}

/// Work never moves backwards: every thread that `call` or `ret` offers
/// has its remaining input start no earlier than the running thread's.
pub proof fn lemma_offers_not_behind(rt: Runtime, callee: u32, next: u32)
    requires
        rt.wf(),
    ensures
        forall|k: int|
            0 <= k < rt.call_offers(callee, next).len() ==> (#[trigger] rt.call_offers(
                callee,
                next,
            )[k]).range.start >= rt.remaining.start,
        forall|k: int|
            0 <= k < rt.ret_offers().len() ==> (#[trigger] rt.ret_offers()[k]).range.start
                >= rt.remaining.start,
{
    let call = rt.call_site(callee);
    assert(crate::memo::fits(rt.memoizer.lengths(call), call.range));
    let rs = rt.ret_site();
    assert(linked_ok(rt.gss.waiting(rs), rs));
}

/// A product enumerates each pairing of its factors' derivations once:
/// while its second factor stands at its start, it holds the product of
/// their counts.
pub proof fn lemma_product_count<T, A: Cursor<T>, B: Cursor<T> + Clone>(p: Product<A, B>)
    requires
        p.b.pending() == p.b0.pending(),
    ensures
        p.pending() + 1 == (p.a.pending() + 1) * (p.b0.pending() + 1),
{
    let x = p.a.pending();
    let y = p.b0.pending();
    assert(x * (y + 1) + y + 1 == (x + 1) * (y + 1)) by (nonlinear_arith);
}

} // verus!
