//! Which texel a texture lookup lands on outside `0..n`: glTF's three
//! sampler wrap modes.
use vstd::prelude::*;

verus! {

/// How a texture repeats past its edge.
#[derive(Debug, Clone, Copy, PartialEq, Eq, Structural)]
pub enum Wrap {
    /// Tile it.
    Repeat,
    /// Stretch the edge texels.
    Clamp,
    /// Tile it, every other copy mirrored.
    Mirror,
}

/// The texel index `i` wraps to in a row of `n` texels.
pub open spec fn wrapped(i: int, n: int, wrap: Wrap) -> int {
    match wrap {
        Wrap::Repeat => i % n,
        Wrap::Clamp => if i < 0 {
            0
        } else if i > n - 1 {
            n - 1
        } else {
            i
        },
        Wrap::Mirror => {
            let k = i % (2 * n);
            if k < n {
                k
            } else {
                2 * n - 1 - k
            }
        },
    }
}

/// `i.rem_euclid(n)`: the remainder that is never negative.
fn rem_euclid(i: i64, n: i64) -> (res: i64)
    requires
        n >= 1,
    ensures
        res == i % n,
{
    if i >= 0 {
        let r = ((i as u64) % (n as u64)) as i64;
        assert(r == i % n);
        r
    } else {
        // i = -(j + 1) with j >= 0, and (-(j + 1)) mod n = n - 1 - (j mod n).
        let j = (-(i + 1)) as u64;
        let m = (j % (n as u64)) as i64;
        let res = n - 1 - m;
        proof {
            let (jj, nn) = (j as int, n as int);
            vstd::arithmetic::div_mod::lemma_fundamental_div_mod(jj, nn);
            vstd::arithmetic::div_mod::lemma_mod_pos_bound(jj, nn);
            let q = jj / nn;
            assert(i == nn * (-(q + 1)) + res) by (nonlinear_arith)
                requires
                    jj == nn * q + jj % nn,
                    m == jj % nn,
                    jj == -(i + 1),
                    res == nn - 1 - m,
            ;
            vstd::arithmetic::div_mod::lemma_mod_multiples_vanish(-(q + 1), res as int, nn);
            vstd::arithmetic::div_mod::lemma_small_mod(res as nat, nn as nat);
        }
        res
    }
}

/// The texel index `i` wraps to in a row of `n` texels; always in
/// `0..n`.
pub fn wrap_index(i: i64, n: i64, wrap: Wrap) -> (res: i64)
    requires
        n >= 1,
        wrap == Wrap::Mirror ==> n <= i64::MAX / 2,
    ensures
        res == wrapped(i as int, n as int, wrap),
        0 <= res < n,
{
    match wrap {
        Wrap::Repeat => rem_euclid(i, n),
        Wrap::Clamp => if i < 0 {
            0
        } else if i > n - 1 {
            n - 1
        } else {
            i
        },
        Wrap::Mirror => {
            let k = rem_euclid(i, 2 * n);
            if k < n {
                k
            } else {
                2 * n - 1 - k
            }
        },
    }
}

} // verus!
