//! Little-endian arrays of twelve 64-bit limbs and the natural numbers they stand for.

use vstd::prelude::*;

verus! {

/// Base of the positional system: one limb holds a digit below this bound.
pub open spec fn limb_base() -> nat {
    0x1_0000_0000_0000_0000nat
}

/// The number written with the digits `limbs`, least significant first.
pub open spec fn limbs_value(limbs: Seq<u64>) -> nat
    decreases limbs.len(),
{
    if limbs.len() == 0 {
        0
    } else {
        limbs[0] as nat + limb_base() * limbs_value(limbs.drop_first())
    }
}

/// The value of twelve limbs, spelled out digit by digit.
pub proof fn lemma_value_of_twelve(a: Seq<u64>)
    requires
        a.len() == 12,
    ensures
        limbs_value(a) == a[0] + limb_base() * (a[1] + limb_base() * (a[2] + limb_base() * (a[3]
            + limb_base() * (a[4] + limb_base() * (a[5] + limb_base() * (a[6] + limb_base() * (a[7]
            + limb_base() * (a[8] + limb_base() * (a[9] + limb_base() * (a[10] + limb_base()
            * a[11])))))))))),
{
    reveal_with_fuel(limbs_value, 13);
    let d1 = a.drop_first();
    let d2 = d1.drop_first();
    let d3 = d2.drop_first();
    let d4 = d3.drop_first();
    let d5 = d4.drop_first();
    let d6 = d5.drop_first();
    let d7 = d6.drop_first();
    let d8 = d7.drop_first();
    let d9 = d8.drop_first();
    let d10 = d9.drop_first();
    let d11 = d10.drop_first();
    assert(limbs_value(d11) == a[11]);
    assert(limbs_value(d10) == a[10] + limb_base() * limbs_value(d11));
    assert(limbs_value(d9) == a[9] + limb_base() * limbs_value(d10));
    assert(limbs_value(d8) == a[8] + limb_base() * limbs_value(d9));
    assert(limbs_value(d7) == a[7] + limb_base() * limbs_value(d8));
    assert(limbs_value(d6) == a[6] + limb_base() * limbs_value(d7));
    assert(limbs_value(d5) == a[5] + limb_base() * limbs_value(d6));
    assert(limbs_value(d4) == a[4] + limb_base() * limbs_value(d5));
    assert(limbs_value(d3) == a[3] + limb_base() * limbs_value(d4));
    assert(limbs_value(d2) == a[2] + limb_base() * limbs_value(d3));
    assert(limbs_value(d1) == a[1] + limb_base() * limbs_value(d2));
}

/// Two digit sequences that agree above position `k` and differ there are
/// ordered as the digits at `k`.
proof fn lemma_order_by_top_difference(a: Seq<u64>, b: Seq<u64>, k: int)
    requires
        a.len() == b.len(),
        0 <= k < a.len(),
        forall|j: int| k < j < a.len() ==> a[j] == b[j],
        a[k] < b[k],
    ensures
        limbs_value(a) < limbs_value(b),
    decreases a.len(),
{
    let ra = a.drop_first();
    let rb = b.drop_first();
    if k == 0 {
        assert(ra =~= rb);
    } else {
        lemma_order_by_top_difference(ra, rb, k - 1);
    }
}

/// Equal limbs have equal values and different limbs have different values.
pub proof fn lemma_value_determines_limbs(a: Seq<u64>, b: Seq<u64>)
    requires
        a.len() == b.len(),
    ensures
        limbs_value(a) == limbs_value(b) <==> a == b,
    decreases a.len(),
{
    if a.len() == 0 {
        assert(a =~= b);
    } else {
        lemma_value_determines_limbs(a.drop_first(), b.drop_first());
        if limbs_value(a) == limbs_value(b) {
            assert(a.drop_first() =~= b.drop_first());
            assert(a =~= b) by {
                assert forall|j: int| 0 <= j < a.len() implies a[j] == b[j] by {
                    if j > 0 {
                        assert(a[j] == a.drop_first()[j - 1]);
                        assert(b[j] == b.drop_first()[j - 1]);
                    }
                }
            }
        }
    }
}

/// Whether two limb arrays stand for the same number.
pub fn limbs_equal(a: &[u64; 12], b: &[u64; 12]) -> (r: bool)
    ensures
        r == (limbs_value(a@) == limbs_value(b@)),
        r == (a@ == b@),
{
    proof {
        lemma_value_determines_limbs(a@, b@);
    }
    let mut i: usize = 0;
    while i < 12
        invariant
            i <= 12,
            forall|j: int| 0 <= j < i ==> a@[j] == b@[j],
            limbs_value(a@) == limbs_value(b@) <==> a@ == b@,
        decreases 12 - i,
    {
        if a[i] != b[i] {
            return false;
        }
        i += 1;
    }
    assert(a@ =~= b@);
    true
}

/// Whether the number written by `a` is below the one written by `b`.
pub fn limbs_less(a: &[u64; 12], b: &[u64; 12]) -> (r: bool)
    ensures
        r == (limbs_value(a@) < limbs_value(b@)),
{
    let mut i: usize = 12;
    while i > 0
        invariant
            i <= 12,
            forall|j: int| i <= j < 12 ==> a@[j] == b@[j],
        decreases i,
    {
        i -= 1;
        if a[i] < b[i] {
            proof {
                lemma_order_by_top_difference(a@, b@, i as int);
            }
            return true;
        }
        if b[i] < a[i] {
            proof {
                lemma_order_by_top_difference(b@, a@, i as int);
            }
            return false;
        }
    }
    assert(a@ =~= b@);
    false
}

} // verus!
