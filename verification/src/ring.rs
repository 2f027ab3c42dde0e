//! Shared building blocks for the ring-buffer cores: slot storage as a
//! vector of optional cells, and the arithmetic fact that positions of one
//! lap window map to distinct slots.

use vstd::prelude::*;

verus! {

use vstd::arithmetic::div_mod::lemma_fundamental_div_mod;

/// Two positions that lie in one window of `cap` consecutive positions and
/// share a slot (`p % cap`) are the same position.
pub(crate) proof fn lemma_slot_injective(a: int, b: int, lo: int, cap: int)
    requires
        0 < cap,
        lo <= a < lo + cap,
        lo <= b < lo + cap,
        a % cap == b % cap,
    ensures
        a == b,
{
    lemma_fundamental_div_mod(a, cap);
    lemma_fundamental_div_mod(b, cap);
    let d = a / cap - b / cap;
    assert(a - b == cap * d) by (nonlinear_arith)
        requires
            a == cap * (a / cap) + a % cap,
            b == cap * (b / cap) + b % cap,
            a % cap == b % cap,
            d == a / cap - b / cap,
    ;
    assert(d == 0) by (nonlinear_arith)
        requires
            a - b == cap * d,
            -cap < a - b < cap,
            0 < cap,
    ;
}

/// Whether `n` is a positive power of two.
pub open spec fn is_pow2(n: nat) -> bool
    decreases n,
{
    if n == 0 {
        false
    } else if n == 1 {
        true
    } else {
        n % 2 == 0 && is_pow2(n / 2)
    }
}

/// A fresh slot array: `n` empty cells.
pub(crate) fn empty_cells<T>(n: usize) -> (r: Vec<Option<T>>)
    ensures
        r@.len() == n,
        forall|i: int| 0 <= i < n ==> r@[i] is None,
{
    let mut v: Vec<Option<T>> = Vec::new();
    let mut i: usize = 0;
    while i < n
        invariant
            i <= n,
            v@.len() == i,
            forall|j: int| 0 <= j < i ==> v@[j] is None,
        decreases n - i,
    {
        v.push(None);
        i = i + 1;
    }
    v
}

/// Moves the value out of cell `i`, leaving the cell empty.
pub(crate) fn take_cell<T>(buf: &mut Vec<Option<T>>, i: usize) -> (r: Option<T>)
    requires
        i < old(buf).len(),
    ensures
        final(buf)@ == old(buf)@.update(i as int, None::<T>),
        r == old(buf)@[i as int],
{
    let r = buf.remove(i);
    buf.insert(i, None);
    proof {
        assert(buf@ =~= old(buf)@.update(i as int, None::<T>));
    }
    r
}

} // verus!
