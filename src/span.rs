use vstd::prelude::*;

verus! {

/// A half-open interval `[start, end)` of input positions.
#[derive(Clone, Copy, Debug, PartialEq, Eq, Structural, Hash)]
pub struct Span {
    pub start: usize,
    pub end: usize,
}

impl Span {
    /// A span is well formed when it does not run backwards.
    pub open spec fn wf(self) -> bool {
        self.start <= self.end
    }

    pub open spec fn len_spec(self) -> nat {
        (self.end - self.start) as nat
    }

    /// Whether `point` lies in the half-open interval `[start, end)`.
    pub open spec fn contains_spec(self, point: usize) -> bool {
        self.start <= point < self.end
    }

    /// Lexicographic order on `(start, end)`.
    pub open spec fn lt(self, other: Span) -> bool {
        self.start < other.start || (self.start == other.start && self.end < other.end)
    }

    pub fn new(start: usize, end: usize) -> (r: Span)
        requires
            start <= end,
        ensures
            r == (Span { start, end }),
            r.wf(),
    {
        Span { start, end }
    }

    /// The empty span at `at`.
    pub fn empty_at(at: usize) -> (r: Span)
        ensures
            r == (Span { start: at, end: at }),
    {
        Span { start: at, end: at }
    }

    pub fn len(&self) -> (r: usize)
        requires
            self.wf(),
        ensures
            r == self.len_spec(),
    {
        self.end - self.start
    }

    /// The two empty spans at the start and at the end of this one.
    pub fn frontiers(&self) -> (r: (Span, Span))
        ensures
            r.0 == (Span { start: self.start, end: self.start }),
            r.1 == (Span { start: self.end, end: self.end }),
    {
        (Span::empty_at(self.start), Span::empty_at(self.end))
    }

    /// Cuts the span after `len` positions: the prefix of that length and
    /// the rest.
    pub fn split_at(&self, len: usize) -> (r: (Span, Span))
        requires
            self.wf(),
            len <= self.len_spec(),
        ensures
            r.0 == (Span { start: self.start, end: (self.start + len) as usize }),
            r.1 == (Span { start: (self.start + len) as usize, end: self.end }),
            r.0.wf(),
            r.1.wf(),
    {
        let mid = self.start + len;
        (Span { start: self.start, end: mid }, Span { start: mid, end: self.end })
    }

    /// Joins two adjacent spans; `None` when `self` does not end where
    /// `other` starts.
    pub fn join(&self, other: &Span) -> (r: Option<Span>)
        ensures
            self.end == other.start <==> r.is_some(),
            r.is_some() ==> r == Some(Span { start: self.start, end: other.end }),
    {
        if self.end == other.start {
            Some(Span { start: self.start, end: other.end })
        } else {
            None
        }
    }

    /// Whether `point` lies within the span.
    pub fn contains(&self, point: usize) -> (r: bool)
        ensures
            r == self.contains_spec(point),
    {
        self.start <= point && point < self.end
    }

    /// Compares two spans by `(start, end)`.
    pub fn less_than(&self, other: &Span) -> (r: bool)
        ensures
            r == self.lt(*other),
    {
        self.start < other.start || (self.start == other.start && self.end < other.end)
    }
}

} // verus!
