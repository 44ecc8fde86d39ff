use vstd::prelude::*;
use crate::records::sum_u64s;
use crate::records::lemma_sum_u64s_nonneg;

verus! {

/// Whether a denomination is a power of two, as the mint's key sets demand.
pub open spec fn is_denomination(d: u64) -> bool {
    exists|k: u64| k < 64 && d == (1u64 << k)
}

/// Splits an amount into the denominations the mint can sign: the powers of
/// two of its binary representation, in ascending order. The crypto engine is
/// asked for one blinded message per returned denomination.
pub fn split_amount(amount: u64) -> (r: Vec<u64>)
    ensures
        sum_u64s(r@) == amount,
        forall|i: int| 0 <= i < r@.len() ==> #[trigger] is_denomination(r@[i]),
{
    let mut out: Vec<u64> = Vec::new();
    let mut rest: u64 = amount;
    let mut bit: u64 = 1;
    let ghost mut k: u64 = 0;
    proof {
        assert(1u64 == (1u64 << 0)) by (bit_vector);
    }
    while rest > 0
        invariant
            sum_u64s(out@) + rest * bit == amount,
            k < 64,
            bit == (1u64 << k),
            forall|i: int| 0 <= i < out@.len() ==> #[trigger] is_denomination(out@[i]),
        decreases rest,
    {
        proof {
            assert(bit >= 1) by (bit_vector)
                requires
                    bit == (1u64 << k),
                    k < 64,
            ;
        }
        let low = rest & 1;
        let half = rest >> 1;
        let ghost out0 = out@;
        let ghost b0 = bit as int;
        if low == 1 {
            out.push(bit);
            proof {
                assert(out@.drop_last() =~= out0);
                assert(is_denomination(bit)) by {
                    assert(k < 64 && bit == (1u64 << k));
                }
            }
        }
        proof {
            assert(rest == 2 * half + low) by (bit_vector)
                requires
                    half == rest >> 1,
                    low == rest & 1,
            ;
            assert(low <= 1) by (bit_vector)
                requires
                    low == rest & 1,
            ;
            assert(half < rest) by (bit_vector)
                requires
                    half == rest >> 1,
                    rest > 0,
            ;
            assert(sum_u64s(out@) == sum_u64s(out0) + low * b0) by (nonlinear_arith)
                requires
                    low <= 1,
                    low == 1 ==> sum_u64s(out@) == sum_u64s(out0) + b0,
                    low != 1 ==> low == 0 && sum_u64s(out@) == sum_u64s(out0),
            ;
            assert(rest * b0 == half * (2 * b0) + low * b0) by (nonlinear_arith)
                requires
                    rest == 2 * half + low,
            ;
            assert(sum_u64s(out@) + half * (2 * b0) == amount);
            lemma_sum_u64s_nonneg(out@);
        }
        if half > 0 {
            proof {
                assert(half * (2 * b0) >= 2 * b0) by (nonlinear_arith)
                    requires
                        half >= 1,
                        b0 >= 1,
                ;
                assert(k <= 62) by {
                    assert(k == 63 ==> bit == 0x8000_0000_0000_0000u64) by (bit_vector)
                        requires
                            bit == (1u64 << k),
                    ;
                }
                assert((1u64 << (k + 1) as u64) == 2 * (1u64 << k)) by (bit_vector)
                    requires
                        k <= 62,
                ;
                k = (k + 1) as u64;
            }
            bit = bit * 2;
            proof {
                assert(sum_u64s(out@) + half * bit == amount);
            }
        }
        proof {
            assert(half == 0 ==> sum_u64s(out@) + half * bit == amount);
            assert(half > 0 ==> sum_u64s(out@) + half * bit == amount);
        }
        rest = half;
    }
    out
}

} // verus!
