use vstd::prelude::*;

verus! {

/// A half-open range `[lo, hi)` of byte offsets into a source buffer.
#[derive(Debug, Clone, Copy, PartialEq, Eq, Structural)]
pub struct Span {
    pub lo: usize,
    pub hi: usize,
}

impl vstd::std_specs::ops::BitOrSpecImpl<Span> for Span {
    open spec fn obeys_bitor_spec() -> bool {
        true
    }

    open spec fn bitor_req(self, rhs: Span) -> bool {
        true
    }

    open spec fn bitor_spec(self, rhs: Span) -> Span {
        Span { lo: self.lo, hi: rhs.hi }
    }
}

impl std::ops::BitOr<Span> for Span {
    type Output = Span;

    /// The span that starts where `self` starts and ends where `rhs` ends.
    fn bitor(self, rhs: Span) -> (res: Span) {
        Span { lo: self.lo, hi: rhs.hi }
    }
}

} // verus!
