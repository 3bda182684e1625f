//! The mathematical model of the codec: a wire value is a sequence of bits,
//! built by concatenating the binary representations (most-significant bit
//! first) of a series of fixed-width unsigned integers.
use vstd::prelude::*;

verus! {

use vstd::arithmetic::power2::pow2;
use vstd::arithmetic::power2::lemma_pow2_unfold;
use vstd::arithmetic::power2::lemma_pow2_adds;
use vstd::arithmetic::power2::lemma_pow2_pos;
use vstd::arithmetic::div_mod::lemma_div_denominator;
use vstd::arithmetic::div_mod::lemma_breakdown;
use vstd::arithmetic::div_mod::lemma_small_mod;

/// The `w` low-order bits of `v`, most-significant bit first.
pub open spec fn bits_of(v: nat, w: nat) -> Seq<bool> {
    Seq::new(w, |j: int| (v / pow2((w - 1 - j) as nat)) % 2 == 1)
}

/// The unsigned integer value of a bit sequence, most-significant bit first.
pub open spec fn val_of(s: Seq<bool>) -> nat
    decreases s.len(),
{
    if s.len() == 0 {
        0
    } else {
        2 * val_of(s.drop_last()) + (if s.last() {
            1nat
        } else {
            0nat
        })
    }
}

pub proof fn lemma_val_of_bound(s: Seq<bool>)
    ensures
        val_of(s) < pow2(s.len()),
    decreases s.len(),
{
    if s.len() == 0 {
        assert(pow2(0) == 1) by {
            lemma_pow2_unfold(1);
            lemma_pow2_pos(0);
            vstd::arithmetic::power2::lemma2_to64();
        }
    } else {
        lemma_val_of_bound(s.drop_last());
        lemma_pow2_unfold(s.len());
    }
}

/// Splitting off the final (least significant) bit of `bits_of`.
pub proof fn lemma_bits_of_drop_last(v: nat, w: nat)
    requires
        w > 0,
    ensures
        bits_of(v, w).drop_last() =~= bits_of(v / 2, (w - 1) as nat),
        bits_of(v, w).last() == (v % 2 == 1),
{
    assert forall|j: int| 0 <= j < w - 1 implies bits_of(v, w).drop_last()[j] == bits_of(
        v / 2,
        (w - 1) as nat,
    )[j] by {
        let e = (w - 2 - j) as nat;
        lemma_pow2_pos(e);
        lemma_pow2_unfold((e + 1) as nat);
        lemma_div_denominator(v as int, 2, pow2(e) as int);
        assert(v / 2 / pow2(e) == v / pow2((e + 1) as nat));
    }
    assert(bits_of(v, w).last() == ((v / pow2(0)) % 2 == 1));
    assert(pow2(0) == 1) by {
        vstd::arithmetic::power2::lemma2_to64();
    }
}

/// Reading back a value that was written in `w` bits yields it modulo `2^w`.
pub proof fn lemma_val_of_bits_of(v: nat, w: nat)
    ensures
        val_of(bits_of(v, w)) == v % pow2(w),
    decreases w,
{
    if w == 0 {
        assert(pow2(0) == 1) by {
            vstd::arithmetic::power2::lemma2_to64();
        }
        assert(v % 1 == 0) by {
            lemma_small_mod(0, 1);
            assert((v as int) % 1 == 0) by (nonlinear_arith);
        }
    } else {
        lemma_bits_of_drop_last(v, w);
        lemma_val_of_bits_of(v / 2, (w - 1) as nat);
        lemma_pow2_pos((w - 1) as nat);
        lemma_breakdown(v as int, 2, pow2((w - 1) as nat) as int);
        lemma_pow2_unfold(w);
        assert(val_of(bits_of(v, w)) == 2 * ((v / 2) % pow2((w - 1) as nat)) + v % 2);
    }
}

/// A bit sequence is recovered exactly from its value and its length.
pub proof fn lemma_bits_of_val_of(s: Seq<bool>)
    ensures
        bits_of(val_of(s), s.len()) =~= s,
    decreases s.len(),
{
    if s.len() > 0 {
        let a = val_of(s.drop_last());
        let b: nat = if s.last() {
            1
        } else {
            0
        };
        lemma_bits_of_drop_last(val_of(s), s.len());
        assert((2 * a + b) / 2 == a && (2 * a + b) % 2 == b) by (nonlinear_arith)
            requires
                b < 2,
        ;
        lemma_bits_of_val_of(s.drop_last());
        assert(bits_of(val_of(s), s.len()).drop_last() =~= s.drop_last());
        assert(bits_of(val_of(s), s.len()).last() == s.last());
        assert(bits_of(val_of(s), s.len()) =~= bits_of(val_of(s), s.len()).drop_last().push(
            bits_of(val_of(s), s.len()).last(),
        ));
    }
}

/// The value of a concatenation: the left part is shifted past the right part.
pub proof fn lemma_val_of_concat(s1: Seq<bool>, s2: Seq<bool>)
    ensures
        val_of(s1 + s2) == val_of(s1) * pow2(s2.len()) + val_of(s2),
    decreases s2.len(),
{
    if s2.len() == 0 {
        assert(s1 + s2 =~= s1);
        assert(pow2(0) == 1) by {
            vstd::arithmetic::power2::lemma2_to64();
        }
    } else {
        assert((s1 + s2).drop_last() =~= s1 + s2.drop_last());
        lemma_val_of_concat(s1, s2.drop_last());
        lemma_pow2_unfold(s2.len());
        let b: nat = if s2.last() {
            1
        } else {
            0
        };
        let p = pow2((s2.len() - 1) as nat);
        assert(val_of(s1 + s2) == 2 * (val_of(s1) * p + val_of(s2.drop_last())) + b);
        assert(2 * (val_of(s1) * p + val_of(s2.drop_last())) + b == val_of(s1) * (2 * p) + (2
            * val_of(s2.drop_last()) + b)) by (nonlinear_arith);
    }
}

/// Appending one bit to a value accumulated most-significant bit first.
pub proof fn lemma_bits_of_append_bit(a: nat, w: nat, b: nat)
    requires
        b < 2,
    ensures
        bits_of(2 * a + b, w + 1) =~= bits_of(a, w).push(b == 1),
{
    lemma_bits_of_drop_last(2 * a + b, w + 1);
    assert((2 * a + b) / 2 == a && (2 * a + b) % 2 == b) by (nonlinear_arith)
        requires
            b < 2,
    ;
    assert(bits_of(2 * a + b, w + 1).drop_last() =~= bits_of(a, w));
    assert(bits_of(2 * a + b, w + 1) =~= bits_of(2 * a + b, w + 1).drop_last().push(
        bits_of(2 * a + b, w + 1).last(),
    ));
}

/// Zero-padding a value on the low end multiplies it by a power of two.
pub proof fn lemma_bits_of_shift(a: nat, w: nat, z: nat)
    requires
        a < pow2(w),
    ensures
        bits_of(a * pow2(z), w + z) =~= bits_of(a, w) + bits_of(0, z),
{
    let zeros = bits_of(0, z);
    assert forall|j: int| 0 <= j < z implies !zeros[j] by {
        lemma_pow2_pos((z - 1 - j) as nat);
        assert(0nat / pow2((z - 1 - j) as nat) == 0);
    }
    assert(val_of(zeros) == 0) by {
        lemma_val_of_bits_of(0, z);
        lemma_pow2_pos(z);
        lemma_small_mod(0, pow2(z));
    }
    let x = bits_of(a, w) + zeros;
    assert(val_of(x) == a * pow2(z)) by {
        lemma_val_of_concat(bits_of(a, w), zeros);
        lemma_val_of_bits_of(a, w);
        lemma_small_mod(a, pow2(w));
    }
    assert(bits_of(val_of(x), x.len()) =~= x) by {
        lemma_bits_of_val_of(x);
    }
}

} // verus!
