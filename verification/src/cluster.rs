//! Cluster pointers.
//!
//! A cluster is one sector of the underlying device, identified by a strictly
//! positive 64-bit index.  Zero is reserved as the null pointer, and the
//! pointer type makes a null value impossible to hold at rest.

use vstd::prelude::*;

verus! {

/// The size in bytes of an on-disk cluster pointer.
pub const POINTER_SIZE: usize = 8;

/// A pointer to some cluster: a non-zero 64-bit sector index.
#[derive(Clone, Copy, PartialEq, Eq, Structural, Hash, PartialOrd, Ord, Debug)]
pub struct Pointer {
    value: u64,
}

impl Pointer {
    /// The raw sector index carried by the pointer; never zero.
    pub closed spec fn spec_val(self) -> u64 {
        self.value
    }

    #[verifier::type_invariant]
    pub closed spec fn wf(self) -> bool {
        self.value != 0
    }

    /// The pointer holding index `x`, or `None` when `x` is zero (null).
    pub closed spec fn spec_new(x: u64) -> Option<Pointer> {
        if x == 0 {
            None
        } else {
            Some(Pointer { value: x })
        }
    }

    /// Create a pointer to the `x`'th cluster.
    ///
    /// This returns `None` if `x` is `0`, the reserved null value.
    pub fn new(x: u64) -> (r: Option<Pointer>)
        ensures
            r == Pointer::spec_new(x),
            x == 0 <==> r is None,
            x != 0 ==> (r matches Some(p) && p.spec_val() == x && p.wf()),
    {
        if x == 0 {
            None
        } else {
            Some(Pointer { value: x })
        }
    }

    /// The raw sector index of the pointer.
    pub fn get(self) -> (r: u64)
        ensures
            r == self.spec_val(),
            r != 0,
            self.wf(),
    {
        proof {
            use_type_invariant(self);
        }
        self.value
    }
}

/// The index a pointer-or-null stores on disk: the pointer's index, or zero.
pub open spec fn ptr_word(p: Option<Pointer>) -> u64 {
    match p {
        Some(q) => q.spec_val(),
        None => 0,
    }
}

/// A pointer-or-null is well formed when the pointer it holds, if any, is.
pub open spec fn opt_wf(p: Option<Pointer>) -> bool {
    p matches Some(q) ==> q.wf()
}

/// What `spec_new` yields: null for zero, and otherwise a well-formed
/// pointer carrying exactly the given index.
pub proof fn lemma_spec_new(x: u64)
    ensures
        x == 0 <==> Pointer::spec_new(x) is None,
        x != 0 ==> (Pointer::spec_new(x) matches Some(p) && p.spec_val() == x && p.wf()),
{
}

/// A well-formed pointer is non-null.
pub proof fn lemma_wf_nonzero(p: Pointer)
    requires
        p.wf(),
    ensures
        p.spec_val() != 0,
{
}

/// `spec_new` and `ptr_word` are inverse to one another on well-formed
/// pointers.
pub proof fn lemma_ptr_word_new(p: Option<Pointer>)
    requires
        opt_wf(p),
    ensures
        Pointer::spec_new(ptr_word(p)) == p,
        p matches Some(q) ==> ptr_word(p) == q.spec_val() && ptr_word(p) != 0,
        p is None ==> ptr_word(p) == 0,
{
}

} // verus!
