use vstd::prelude::*;

verus! {

/// A 64-bit integer known to be positive.
#[derive(Clone, Copy, Debug, PartialEq, Eq, Structural)]
pub struct NonZeroU64 {
    value: u64,
}

impl NonZeroU64 {
    pub closed spec fn spec_get(&self) -> u64 {
        self.value
    }

    pub closed spec fn wf(&self) -> bool {
        self.value != 0
    }

    /// Wraps `value` if it is positive.
    pub fn new(value: u64) -> (r: Option<NonZeroU64>)
        ensures
            r is Some <==> value != 0,
            r matches Some(n) ==> n.wf() && n.spec_get() == value,
    {
        if value == 0 {
            None
        } else {
            Some(NonZeroU64 { value })
        }
    }

    /// The wrapped value; positive by construction.
    pub fn get(&self) -> (r: u64)
        requires
            self.wf(),
        ensures
            r == self.spec_get(),
            r != 0,
    {
        self.value
    }
}

/// Addition on positive 64-bit integers: checked against overflow, with the
/// result positive whenever the sum fits.
pub trait NonZeroU64Ext: Sized {
    spec fn spec_value(&self) -> u64;

    spec fn spec_wf(&self) -> bool;

    /// Adds `other`, or reports that the sum does not fit.
    fn checked_add(self, other: u64) -> (r: Option<NonZeroU64>)
        requires
            self.spec_wf(),
        ensures
            r is Some <==> self.spec_value() + other <= u64::MAX,
            r matches Some(n) ==> n.wf() && n.spec_get() == self.spec_value() + other,
    ;
}

impl NonZeroU64Ext for NonZeroU64 {
    open spec fn spec_value(&self) -> u64 {
        self.spec_get()
    }

    open spec fn spec_wf(&self) -> bool {
        self.wf()
    }

    fn checked_add(self, other: u64) -> (r: Option<NonZeroU64>) {
        match self.value.checked_add(other) {
            Some(sum) => Some(NonZeroU64 { value: sum }),
            None => None,
        }
    }
}

} // verus!
