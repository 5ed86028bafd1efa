//! Divisors of the text length, which bound the plausible grid widths of a
//! columnar transposition.
use vstd::prelude::*;

verus! {

/// `d` divides `n` and is positive.
pub open spec fn is_divisor(d: int, n: int) -> bool {
    1 <= d && n % d == 0
}

/// Every divisor of `n` in increasing order; for `n == 0`, just `[1]`.
pub fn compute_factors(n: usize) -> (r: Vec<usize>)
    ensures
        n == 0 ==> r@ == seq![1usize],
        n > 0 ==> forall|i: int, j: int| 0 <= i < j < r.len() ==> #[trigger] r[i] < #[trigger] r[j],
        n > 0 ==> forall|i: int| 0 <= i < r.len() ==> #[trigger] is_divisor(r[i] as int, n as int),
        n > 0 ==> forall|d: int| #[trigger] is_divisor(d, n as int) ==> r@.contains(d as usize),
{
    let mut r: Vec<usize> = Vec::new();
    if n == 0 {
        r.push(1);
        assert(r@ =~= seq![1usize]);
        return r;
    }
    for d in 1..n
        invariant
            n > 0,
            forall|i: int, j: int| 0 <= i < j < r.len() ==> #[trigger] r[i] < #[trigger] r[j],
            forall|i: int| 0 <= i < r.len() ==> #[trigger] is_divisor(r[i] as int, n as int),
            forall|i: int| 0 <= i < r.len() ==> #[trigger] r[i] < d,
            forall|e: int| 1 <= e < d && #[trigger] is_divisor(e, n as int) ==> r@.contains(e as usize),
    {
        let ghost before = r@;
        if n % d == 0 {
            r.push(d);
        }
        proof {
            assert forall|e: int| 1 <= e < d + 1 && #[trigger] is_divisor(e, n as int) implies r@.contains(
                e as usize,
            ) by {
                if e == d {
                    assert(r[r.len() - 1] == d);
                } else {
                    assert(before.contains(e as usize));
                    let k = choose|k: int| 0 <= k < before.len() && before[k] == e as usize;
                    assert(r[k] == e);
                }
            }
            assert forall|i: int, j: int| 0 <= i < j < r.len() implies #[trigger] r[i] < #[trigger] r[j] by {
                if j == before.len() {
                    assert(before[i] < d);
                } else {
                    assert(before[i] < before[j]);
                }
            }
            assert forall|i: int| 0 <= i < r.len() implies #[trigger] is_divisor(r[i] as int, n as int) by {
                if i < before.len() {
                    assert(r[i] == before[i]);
                }
            }
            assert forall|i: int| 0 <= i < r.len() implies #[trigger] r[i] < d + 1 by {
                if i < before.len() {
                    assert(r[i] == before[i]);
                }
            }
        }
    }
    let ghost before = r@;
    r.push(n);
    proof {
        vstd::arithmetic::div_mod::lemma_mod_self_0(n as int);
        assert(r[r.len() - 1] == n);
        assert forall|i: int, j: int| 0 <= i < j < r.len() implies #[trigger] r[i] < #[trigger] r[j] by {
            if j == before.len() {
                assert(before[i] < n);
            } else {
                assert(before[i] < before[j]);
            }
        }
        assert forall|i: int| 0 <= i < r.len() implies #[trigger] is_divisor(r[i] as int, n as int) by {
            if i < before.len() {
                assert(r[i] == before[i]);
            }
        }
        assert forall|e: int| #[trigger] is_divisor(e, n as int) implies r@.contains(e as usize) by {
            if e > n {
                vstd::arithmetic::div_mod::lemma_small_mod(n as nat, e as nat);
            } else if e < n {
                assert(before.contains(e as usize));
                let k = choose|k: int| 0 <= k < before.len() && before[k] == e as usize;
                assert(r[k] == e);
            }
        }
    }
    r
}

} // verus!
