//! Lazy enumeration of derivations: cursors that write one derivation at a
//! time into a caller's slot, combined by concatenation, choice and product.
use vstd::pervasive::{cloned, strictly_cloned};
use vstd::prelude::*;

verus! {

/// A lazy sequence of derivations: `read` writes the current one into a
/// caller's slot, and `advance` moves to the next, if there is one.
pub trait Cursor<T>: Sized {
    /// Whether the cursor may be read and advanced.
    spec fn ready(&self) -> bool;

    /// How many more times `advance` succeeds.
    spec fn pending(&self) -> nat;

    /// Whether reading the current derivation may turn the slot `before`
    /// into `after`.
    spec fn writes(&self, before: T, after: T) -> bool;

    /// Writes the current derivation into `out`.
    fn read(&self, out: &mut T)
        requires
            self.ready(),
        ensures
            self.writes(*old(out), *final(out)),
    ;

    fn advance(&mut self) -> (r: bool)
        requires
            old(self).ready(),
        ensures
            r == (old(self).pending() > 0),
            r ==> final(self).ready() && final(self).pending() == old(self).pending() - 1,
    ;

    /// All the derivations of this cursor, starting with its current one.
    fn into_iter(self) -> (r: IntoIter<Self>)
        ensures
            r.cur == Some(self),
    {
        IntoIter { cur: Some(self) }
    }
}

/// The derivations of a cursor, one per call of `next`.
pub struct IntoIter<C> {
    pub cur: Option<C>,
}

impl<C> IntoIter<C> {
    /// How many derivations are left.
    pub open spec fn left<T>(&self) -> nat where C: Cursor<T> {
        match self.cur {
            Some(c) => c.pending() + 1,
            None => 0,
        }
    }

    pub open spec fn ready<T>(&self) -> bool where C: Cursor<T> {
        match self.cur {
            Some(c) => c.ready(),
            None => true,
        }
    }

    /// All the derivations of `cur`, starting with its current one.
    pub fn new<T>(cur: C) -> (r: IntoIter<C>) where C: Cursor<T>
        ensures
            r.cur == Some(cur),
            r.left::<T>() == cur.pending() + 1,
    {
        IntoIter { cur: Some(cur) }
    }

    /// Writes the next derivation into `out`; `false`, leaving `out` and
    /// the exhausted iterator as they were, when none is left.
    pub fn next<T>(&mut self, out: &mut T) -> (r: bool) where C: Cursor<T>
        requires
            old(self).ready::<T>(),
        ensures
            r == (old(self).left::<T>() > 0),
            final(self).ready::<T>(),
            r ==> final(self).left::<T>() == old(self).left::<T>() - 1,
            r ==> old(self).cur.unwrap().writes(*old(out), *final(out)),
            !r ==> final(self).left::<T>() == 0 && *final(out) == *old(out),
    {
        match self.cur.take() {
            None => false,
            Some(mut c) => {
                c.read(out);
                if c.advance() {
                    self.cur = Some(c);
                }
                true
            },
        }
    }
}

/// The cursor of a single derivation: `F` maps the slot as it stands to
/// the slot with the derivation written in.
#[derive(Clone)]
pub struct Once<F>(pub F);

impl<F> Once<F> {
    pub fn new(f: F) -> (r: Self)
        ensures
            r.0 == f,
    {
        Once(f)
    }
}

impl<F: Fn(&T) -> T, T> Cursor<T> for Once<F> {
    open spec fn ready(&self) -> bool {
        forall|o: &T| #[trigger] self.0.requires((o,))
    }

    open spec fn pending(&self) -> nat {
        0
    }

    /// The slot is what `F` returns for it.
    open spec fn writes(&self, before: T, after: T) -> bool {
        self.0.ensures((&before,), after)
    }

    fn read(&self, out: &mut T) {
        let v = (self.0)(&*out);
        *out = v;
    }

    fn advance(&mut self) -> (r: bool) {
        false
    }
}

/// The derivations of `s`'s cursors, one after the other, counted.
pub open spec fn total<T, C: Cursor<T>>(s: Seq<C>) -> nat
    decreases s.len(),
{
    if s.len() == 0 {
        0
    } else {
        s[0].pending() + 1 + total::<T, C>(s.subrange(1, s.len() as int))
    }
}

/// The derivations of several cursors, one cursor after the other.
#[derive(Clone)]
pub struct FlattenIter<C> {
    pub cur: C,
    pub rest: Vec<C>,
}

impl<C> FlattenIter<C> {
    /// Starts at the first of `items`, which must not be empty.
    pub fn new<T>(items: Vec<C>) -> (r: Self) where C: Cursor<T>
        requires
            items@.len() > 0,
        ensures
            r.cur == items@[0],
            r.rest@ == items@.subrange(1, items@.len() as int),
    {
        let mut items = items;
        let cur = items.remove(0);
        FlattenIter { cur, rest: items }
    }
}

impl<C: Cursor<T>, T> Cursor<T> for FlattenIter<C> {
    open spec fn ready(&self) -> bool {
        self.cur.ready() && forall|i: int| 0 <= i < self.rest@.len() ==> (#[trigger] self.rest@[i]).ready()
    }

    open spec fn pending(&self) -> nat {
        self.cur.pending() + total::<T, C>(self.rest@)
    }

    /// The current cursor writes.
    open spec fn writes(&self, before: T, after: T) -> bool {
        self.cur.writes(before, after)
    }

    fn read(&self, out: &mut T) {
        self.cur.read(out);
    }

    /// Advances the current cursor, or moves to the next one when the
    /// current one is done.
    fn advance(&mut self) -> (r: bool)
        ensures
            old(self).cur.pending() > 0 ==> final(self).rest == old(self).rest,
            old(self).cur.pending() == 0 && old(self).rest@.len() > 0 ==> final(self).cur
                == old(self).rest@[0] && final(self).rest@ == old(self).rest@.subrange(
                1,
                old(self).rest@.len() as int,
            ),
    {
        if self.cur.advance() {
            true
        } else if self.rest.len() > 0 {
            let ghost rest0 = self.rest@;
            self.cur = self.rest.remove(0);
            assert(self.rest@ =~= rest0.subrange(1, rest0.len() as int));
            assert(rest0[0].ready());
            assert forall|i: int| 0 <= i < self.rest@.len() implies (#[trigger] self.rest@[i]).ready() by {
                assert(self.rest@[i] == rest0[i + 1]);
            }
            true
        } else {
            false
        }
    }
}

/// One of two cursors.
#[derive(Clone)]
pub enum Either<A, B> {
    Left(A),
    Right(B),
}

impl<A: Cursor<T>, B: Cursor<T>, T> Cursor<T> for Either<A, B> {
    open spec fn ready(&self) -> bool {
        match self {
            Either::Left(a) => a.ready(),
            Either::Right(b) => b.ready(),
        }
    }

    open spec fn pending(&self) -> nat {
        match self {
            Either::Left(a) => a.pending(),
            Either::Right(b) => b.pending(),
        }
    }

    /// The cursor on the side this is writes.
    open spec fn writes(&self, before: T, after: T) -> bool {
        match self {
            Either::Left(a) => a.writes(before, after),
            Either::Right(b) => b.writes(before, after),
        }
    }

    fn read(&self, out: &mut T) {
        match self {
            Either::Left(a) => a.read(out),
            Either::Right(b) => b.read(out),
        }
    }

    /// Advances whichever cursor this is; the side stays the same.
    fn advance(&mut self) -> (r: bool)
        ensures
            (*old(self) is Left) <==> (*final(self) is Left),
    {
        match self {
            Either::Left(a) => a.advance(),
            Either::Right(b) => b.advance(),
        }
    }
}

/// Every clone of a ready cursor of type `B` is ready, with as many
/// derivations pending.
pub open spec fn clone_keeps<T, B: Cursor<T> + Clone>() -> bool {
    forall|x: B, c: B|
        #[trigger] strictly_cloned(x, c) ==> (x.ready() ==> c.ready()) && c.pending() == x.pending()
}

/// Each derivation of `a` followed by each derivation of `b`, `b` varying
/// fastest. `b0` keeps `b` as it started, to restart it.
#[derive(Clone)]
pub struct Product<A, B> {
    pub a: A,
    pub b0: B,
    pub b: B,
}

impl<A, B: Clone> Product<A, B> {
    pub fn new(a: A, b: B) -> (r: Self)
        ensures
            r.a == a,
            r.b == b,
            cloned(b, r.b0),
    {
        Product { a, b0: b.clone(), b }
    }
}

impl<A: Cursor<T>, B: Cursor<T> + Clone, T> Cursor<T> for Product<A, B> {
    open spec fn ready(&self) -> bool {
        &&& self.a.ready()
        &&& self.b.ready()
        &&& self.b0.ready()
        &&& clone_keeps::<T, B>()
    }

    open spec fn pending(&self) -> nat {
        self.a.pending() * (self.b0.pending() + 1) + self.b.pending()
    }

    /// `a` writes its part, then `b` writes its part over it.
    open spec fn writes(&self, before: T, after: T) -> bool {
        exists|m: T| #[trigger] self.a.writes(before, m) && self.b.writes(m, after)
    }

    fn read(&self, out: &mut T) {
        self.a.read(out);
        let ghost m = *out;
        self.b.read(out);
        assert(self.a.writes(*old(out), m));
    }

    /// Advances `b`; when `b` is done, restarts it from a clone of `b0` and
    /// advances `a`.
    fn advance(&mut self) -> (r: bool)
        ensures
            final(self).b0 == old(self).b0,
            old(self).b.pending() > 0 ==> final(self).a == old(self).a,
            old(self).b.pending() == 0 ==> strictly_cloned(old(self).b0, final(self).b),
    {
        if self.b.advance() {
            true
        } else {
            let fresh = self.b0.clone();
            assert(strictly_cloned(self.b0, fresh));
            self.b = fresh;
            let ghost pa = self.a.pending();
            let ghost pb = self.b0.pending();
            let r = self.a.advance();
            proof {
                if pa > 0 {
                    assert(pa * (pb + 1) > 0) by (nonlinear_arith)
                        requires
                            pa > 0,
                    ;
                    assert((pa - 1) * (pb + 1) + pb == pa * (pb + 1) - 1) by (nonlinear_arith);
                } else {
                    assert(pa * (pb + 1) == 0) by (nonlinear_arith)
                        requires
                            pa == 0,
                    ;
                }
            }
            r
        }
    }
}

} // verus!
