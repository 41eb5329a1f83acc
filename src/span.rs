use vstd::prelude::*;

verus! {

/// A half-open byte range `[start, end)` of the source text. Never empty.
#[derive(Debug, Clone, Copy, PartialEq, Eq, Structural)]
pub struct Span {
    pub start: usize,
    pub end: usize,
}

impl Span {
    /// A span is well formed when it covers at least one byte.
    pub open spec fn wf(self) -> bool {
        self.start < self.end
    }

    pub fn new(start: usize, end: usize) -> (r: Span)
        requires
            start < end,
        ensures
            r.start == start,
            r.end == end,
    {
        Span { start, end }
    }

    /// The span from the start of `self` to the end of `right`; `self` must lie
    /// entirely before `right`.
    pub fn join(self, right: Span) -> (r: Span)
        requires
            self.wf(),
            right.wf(),
            self.end <= right.start,
        ensures
            r.start == self.start,
            r.end == right.end,
            r.wf(),
    {
        Span::new(self.start, right.end)
    }
}

/// A value together with the span of source text it came from.
#[derive(Debug, Clone, Copy, PartialEq, Eq)]
pub struct Spanned<T> {
    pub value: T,
    pub span: Span,
}

impl<T> Spanned<T> {
    pub fn new(value: T, span: Span) -> (r: Spanned<T>)
        ensures
            r.value == value,
            r.span == span,
    {
        Spanned { value, span }
    }
}

/// Pairs a value with the span it came from.
pub trait IntoSpanned: Sized {
    fn into_spanned(self, span: Span) -> (r: Spanned<Self>)
        ensures
            r.value == self,
            r.span == span,
    ;
}

impl<T> IntoSpanned for T {
    fn into_spanned(self, span: Span) -> (r: Spanned<T>) {
        Spanned::new(self, span)
    }
}

} // verus!
