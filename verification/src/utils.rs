//! The squared l2 norm of decoded (signed) coefficient slices.

use vstd::prelude::*;

verus! {

/// The sum of squares of the first `k` signed values.
pub open spec fn signed_sq_sum(s: Seq<i16>, k: int) -> nat
    decreases k,
{
    if k <= 0 {
        0
    } else {
        (signed_sq_sum(s, k - 1) + s[k - 1] * s[k - 1]) as nat
    }
}

/// The squared l2 norm of two signed coefficient vectors together,
/// truncated to 32 bits as the reference arithmetic does.
pub fn l2_norm(input1: &Vec<i16>, input2: &Vec<i16>) -> (r: u32)
    requires
        input1@.len() <= 1024,
        input2@.len() <= 1024,
    ensures
        r == (signed_sq_sum(input1@, input1@.len() as int) + signed_sq_sum(
            input2@,
            input2@.len() as int,
        )) % 0x1_0000_0000,
{
    let mut res: u64 = 0;
    let mut i: usize = 0;
    let n1 = input1.len();
    while i < n1
        invariant
            n1 == input1@.len(),
            n1 <= 1024,
            i <= n1,
            res == signed_sq_sum(input1@, i as int),
            res <= i * (32768 * 32768),
        decreases n1 - i,
    {
        let e = input1[i] as i32;
        proof {
            assert(e * e <= 32768 * 32768) by (nonlinear_arith)
                requires
                    -32768 <= e <= 32767,
            ;
            assert(e * e >= 0) by (nonlinear_arith);
            assert(i * (32768 * 32768) + 32768 * 32768 == (i + 1) * (32768 * 32768))
                by (nonlinear_arith);
        }
        let sq: u64 = (e * e) as u64;
        res = res + sq;
        i = i + 1;
    }
    let ghost mid = res;
    proof {
        assert(n1 * (32768 * 32768) <= 1024 * (32768 * 32768)) by (nonlinear_arith)
            requires
                n1 <= 1024,
        ;
    }
    let mut j: usize = 0;
    let n2 = input2.len();
    while j < n2
        invariant
            n2 == input2@.len(),
            n2 <= 1024,
            j <= n2,
            res == mid + signed_sq_sum(input2@, j as int),
            res <= mid + j * (32768 * 32768),
            mid <= 1024 * (32768 * 32768),
        decreases n2 - j,
    {
        let e = input2[j] as i32;
        proof {
            assert(e * e <= 32768 * 32768) by (nonlinear_arith)
                requires
                    -32768 <= e <= 32767,
            ;
            assert(e * e >= 0) by (nonlinear_arith);
            assert(j * (32768 * 32768) + 32768 * 32768 == (j + 1) * (32768 * 32768))
                by (nonlinear_arith);
        }
        let sq: u64 = (e * e) as u64;
        res = res + sq;
        j = j + 1;
    }
    proof {
        vstd::arithmetic::div_mod::lemma_fundamental_div_mod(res as int, 0x1_0000_0000);
        vstd::arithmetic::div_mod::lemma_mod_division_less_than_divisor(
            res as int,
            0x1_0000_0000,
        );
    }
    (res % 0x1_0000_0000) as u32
}

} // verus!
