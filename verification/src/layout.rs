//! Allocation layouts: a byte size paired with a power-of-two alignment.
//!
//! The counterpart of the layout value every allocate and free call
//! carries. Keeping the alignment a power of two is the one invariant of
//! the type; both allocators rely on it.

use vstd::prelude::*;

verus! {

use vstd::arithmetic::power2::{
    is_pow2, pow2, is_pow2_equiv, lemma_pow2_pos, lemma_pow2_strictly_increases, lemma_pow2_adds,
};

#[derive(Clone, Copy, Debug, PartialEq, Eq, Structural)]
pub struct Layout {
    size: u64,
    align: u64,
}

impl Layout {
    pub closed spec fn spec_size(self) -> int {
        self.size as int
    }

    pub closed spec fn spec_align(self) -> int {
        self.align as int
    }

    /// The alignment is a power of two (hence at least 1).
    pub open spec fn wf(self) -> bool {
        &&& is_pow2(self.spec_align())
        &&& 0 <= self.spec_size()
    }

    /// Build a layout; refused when the alignment is not a power of two.
    pub fn from_size_align(size: u64, align: u64) -> (r: Option<Layout>)
        ensures
            match r {
                Some(l) => {
                    &&& l.wf()
                    &&& l.spec_size() == size
                    &&& l.spec_align() == align
                },
                None => !is_pow2(align as int),
            },
    {
        if is_power_of_two(align) {
            Some(Layout { size, align })
        } else {
            None
        }
    }

    pub fn size(&self) -> (r: u64)
        ensures
            r == self.spec_size(),
    {
        self.size
    }

    pub fn align(&self) -> (r: u64)
        ensures
            r == self.spec_align(),
    {
        self.align
    }
}

/// A value aligned to one power of two is aligned to every smaller one.
pub proof fn lemma_pow2_mod_trans(x: int, small: int, big: int)
    requires
        is_pow2(small),
        is_pow2(big),
        small <= big,
        x % big == 0,
    ensures
        x % small == 0,
        big % small == 0,
{
    is_pow2_equiv(small);
    is_pow2_equiv(big);
    let js = choose|j: nat| vstd::arithmetic::power::pow(2, j) == small;
    let jb = choose|j: nat| vstd::arithmetic::power::pow(2, j) == big;
    vstd::arithmetic::power::lemma_pow_positive(2, js);
    vstd::arithmetic::power::lemma_pow_positive(2, jb);
    assert(pow2(js) == small && pow2(jb) == big);
    lemma_pow2_pos(js);
    lemma_pow2_pos(jb);
    if js > jb {
        lemma_pow2_strictly_increases(jb, js);
    }
    lemma_pow2_adds(js, (jb - js) as nat);
    let m = pow2((jb - js) as nat) as int;
    lemma_pow2_pos((jb - js) as nat);
    assert(big == small * m);
    vstd::arithmetic::div_mod::lemma_mod_mod(x, small, m);
    vstd::arithmetic::div_mod::lemma_mod_multiples_basic(m, small);
    assert(m * small == small * m) by (nonlinear_arith);
}

/// Two layouts with the same size and alignment are the same layout.
pub proof fn lemma_layout_ext(a: Layout, b: Layout)
    requires
        a.spec_size() == b.spec_size(),
        a.spec_align() == b.spec_align(),
    ensures
        a == b,
{
}

/// Build a layout from parts already known to be a valid class.
pub fn with_size_align(size: u64, align: u64) -> (r: Layout)
    requires
        is_pow2(align as int),
    ensures
        r.wf(),
        r.spec_size() == size,
        r.spec_align() == align,
{
    Layout { size, align }
}

/// Run-time power-of-two test, equivalent to the recursive specification.
pub fn is_power_of_two(v: u64) -> (r: bool)
    ensures
        r == is_pow2(v as int),
{
    proof {
        reveal(is_pow2);
    }
    if v == 0 {
        return false;
    }
    let mut x: u64 = v;
    while x > 1 && x % 2 == 0
        invariant
            x >= 1,
            is_pow2(v as int) == is_pow2(x as int),
        decreases x,
    {
        proof {
            reveal(is_pow2);
        }
        x = x / 2;
    }
    proof {
        reveal(is_pow2);
    }
    x == 1
}

} // verus!
