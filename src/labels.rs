use vstd::prelude::*;

verus! {

/// An equality test between a query label and a data label.
pub trait LabelEq {
    /// The test may be run on any pair of labels.
    spec fn ready(&self) -> bool;

    /// The labels `a` (query side) and `b` (data side) pass the test.
    spec fn accepts(&self, a: u64, b: u64) -> bool;

    /// The test always gives the same answer on the same labels.
    spec fn decisive(&self) -> bool;

    /// Runs the test on `a` (query side) and `b` (data side).
    fn label_eq(&self, a: u64, b: u64) -> (r: bool)
        requires
            self.ready(),
        ensures
            r ==> self.accepts(a, b),
            self.decisive() ==> r == self.accepts(a, b),
    ;
}

/// The labels' own equality: labels pass when they are equal.
#[derive(Copy, Clone, Debug, Eq, PartialEq, Structural)]
pub struct NativeEq;

impl LabelEq for NativeEq {
    open spec fn ready(&self) -> bool {
        true
    }

    open spec fn accepts(&self, a: u64, b: u64) -> bool {
        a == b
    }

    open spec fn decisive(&self) -> bool {
        true
    }

    fn label_eq(&self, a: u64, b: u64) -> (r: bool) {
        a == b
    }
}

/// A caller's function used as the test: labels pass when it returns `true`.
#[derive(Clone, Copy, Debug)]
pub struct EqFn<F> {
    pub f: F,
}

impl<F: Fn(u64, u64) -> bool> LabelEq for EqFn<F> {
    open spec fn ready(&self) -> bool {
        forall|a: u64, b: u64| #[trigger] self.f.requires((a, b))
    }

    open spec fn accepts(&self, a: u64, b: u64) -> bool {
        self.f.ensures((a, b), true)
    }

    open spec fn decisive(&self) -> bool {
        forall|a: u64, b: u64, r: bool| #[trigger]
            self.f.ensures((a, b), r) ==> r == self.f.ensures((a, b), true)
    }

    fn label_eq(&self, a: u64, b: u64) -> (r: bool) {
        (self.f)(a, b)
    }
}

} // verus!
