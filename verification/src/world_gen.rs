//! Integer helpers of terrain generation.
use vstd::prelude::*;
use vstd::arithmetic::div_mod::lemma_fundamental_div_mod_converse;

verus! {

/// Length of the half-open range `from..to` (0 when it is empty).
pub open spec fn range_len(from: int, to: int) -> int {
    if to > from {
        to - from
    } else {
        0
    }
}

/// All pairs of `from1..to1` with `from2..to2`, the first component varying
/// slowest.
pub open spec fn spec_range_2d(from1: usize, to1: usize, from2: usize, to2: usize) -> Seq<
    (usize, usize),
> {
    let n2 = range_len(from2 as int, to2 as int);
    Seq::new(
        (range_len(from1 as int, to1 as int) * n2) as nat,
        |k: int| ((from1 + k / n2) as usize, (from2 + k % n2) as usize),
    )
}

/// All pairs `(a, b)` with `a` in `from1..to1` and `b` in `from2..to2`, in
/// row-major order.
pub fn gen_2d_range(from1: usize, to1: usize, from2: usize, to2: usize) -> (r: Vec<(usize, usize)>)
    requires
        range_len(from1 as int, to1 as int) * range_len(from2 as int, to2 as int) <= usize::MAX,
    ensures
        r@ == spec_range_2d(from1, to1, from2, to2),
{
    let ghost n2 = range_len(from2 as int, to2 as int);
    let ghost n1 = range_len(from1 as int, to1 as int);
    let mut r: Vec<(usize, usize)> = Vec::new();
    let mut a = from1;
    while a < to1
        invariant
            from1 <= a,
            a < to1 ==> a <= to1,
            to1 > from1 ==> a <= to1,
            to1 <= from1 ==> a == from1,
            n2 == range_len(from2 as int, to2 as int),
            n1 == range_len(from1 as int, to1 as int),
            n1 * n2 <= usize::MAX,
            r@.len() == (a - from1) * n2,
            forall|k: int|
                0 <= k < r@.len() ==> #[trigger] r@[k] == ((from1 + k / n2) as usize, (from2 + k
                    % n2) as usize),
        decreases to1 - a,
    {
        let mut b = from2;
        proof {
            assert((a - from1 + 1) * n2 <= n1 * n2) by (nonlinear_arith)
                requires
                    a - from1 + 1 <= n1,
                    n2 >= 0,
            ;
            assert((a - from1 + 1) * n2 == (a - from1) * n2 + n2) by (nonlinear_arith);
        }
        while b < to2
            invariant
                from1 <= a < to1,
                from2 <= b,
                to2 > from2 ==> b <= to2,
                to2 <= from2 ==> b == from2,
                n2 == range_len(from2 as int, to2 as int),
                (a - from1) * n2 + n2 <= usize::MAX,
                r@.len() == (a - from1) * n2 + (b - from2),
                forall|k: int|
                    0 <= k < r@.len() ==> #[trigger] r@[k] == ((from1 + k / n2) as usize, (from2 + k
                        % n2) as usize),
            decreases to2 - b,
        {
            proof {
                let k = (a - from1) * n2 + (b - from2);
                lemma_fundamental_div_mod_converse(k, n2, a - from1, b - from2);
            }
            r.push((a, b));
            b += 1;
        }
        proof {
            assert((a + 1 - from1) * n2 == (a - from1) * n2 + n2) by (nonlinear_arith);
        }
        a += 1;
    }
    proof {
        if to1 <= from1 {
            assert(n1 == 0);
        }
        assert(r@.len() == n1 * n2);
    }
    assert(r@ =~= spec_range_2d(from1, to1, from2, to2));
    r
}

/// The grid condition of layered ridged noise: the cell width is positive and
/// divides the chunk width.
pub fn ridged_grid_ok(gradient_spacing: u32, chunk_width: u32) -> (r: bool)
    ensures
        r == (gradient_spacing > 0 && chunk_width % gradient_spacing == 0),
{
    gradient_spacing > 0 && chunk_width % gradient_spacing == 0
}

} // verus!
