//! Shared memory constants and address arithmetic.

use vstd::prelude::*;

verus! {

/// The size of a physical or virtual memory page, in bytes.
pub const PAGE_SIZE: usize = 4096;

/// Rounds `addr` up to the next multiple of `align`.
pub open spec fn align_up_spec(addr: int, align: int) -> int
    recommends
        align > 0,
{
    if addr % align == 0 {
        addr
    } else {
        addr + (align - addr % align)
    }
}

/// `align_up_spec` yields the smallest multiple of `align` that is at
/// least `addr`.
pub proof fn lemma_align_up_props(addr: int, align: int)
    requires
        align > 0,
        addr >= 0,
    ensures
        align_up_spec(addr, align) % align == 0,
        addr <= align_up_spec(addr, align) < addr + align,
{
    let r = align_up_spec(addr, align);
    vstd::arithmetic::div_mod::lemma_fundamental_div_mod(addr, align);
    vstd::arithmetic::div_mod::lemma_mod_bound(addr, align);
    if addr % align != 0 {
        assert(r == align * (addr / align + 1)) by (nonlinear_arith)
            requires
                addr == align * (addr / align) + addr % align,
                r == addr + (align - addr % align),
        ;
        vstd::arithmetic::div_mod::lemma_mod_multiples_basic(addr / align + 1, align);
    }
}

/// A positive multiple of `align` is at least `align`.
pub proof fn lemma_positive_multiple(x: int, align: int)
    requires
        align > 0,
        x % align == 0,
        x > 0,
    ensures
        x >= align,
{
    vstd::arithmetic::div_mod::lemma_fundamental_div_mod(x, align);
    let q = x / align;
    assert(q >= 1 ==> x >= align) by (nonlinear_arith)
        requires
            x == align * q,
            align > 0,
    ;
    assert(q >= 1) by (nonlinear_arith)
        requires
            x == align * q,
            x > 0,
            align > 0,
    ;
}

/// `align_up_spec(addr)` is at most any multiple of `align` that is at
/// least `addr`.
pub proof fn lemma_align_up_le_multiple(addr: int, align: int, m: int)
    requires
        align > 0,
        addr >= 0,
        m % align == 0,
        addr <= m,
    ensures
        align_up_spec(addr, align) <= m,
{
    lemma_align_up_props(addr, align);
    let r = align_up_spec(addr, align);
    if r > m {
        vstd::arithmetic::div_mod::lemma_sub_mod_noop(r, m, align);
        vstd::arithmetic::div_mod::lemma_small_mod(0nat, align as nat);
        assert((r - m) % align == 0);
        lemma_positive_multiple(r - m, align);
        assert(r >= m + align);
        assert(false);
    }
}

/// Rounds `addr` up to the next multiple of `align`.
pub fn align_up(addr: usize, align: usize) -> (r: usize)
    requires
        align > 0,
        align_up_spec(addr as int, align as int) <= usize::MAX,
    ensures
        r == align_up_spec(addr as int, align as int),
        r % align == 0,
        addr <= r < addr + align,
{
    proof {
        lemma_align_up_props(addr as int, align as int);
    }
    let rem = addr % align;
    if rem == 0 {
        addr
    } else {
        addr + (align - rem)
    }
}

} // verus!
