//! Mathematical model of fixed-width big-endian bit fields, together with the
//! executable operations that write such fields into and read them out of a
//! bit vector.

use vstd::prelude::*;
use vstd::arithmetic::div_mod::{lemma_fundamental_div_mod, lemma_fundamental_div_mod_converse};
use vstd::arithmetic::power2::{pow2, lemma_pow2_unfold, lemma_pow2_pos};

verus! {

/// The `w`-bit binary representation of `v`, most significant bit first.
/// High bits beyond `w` are dropped.
pub open spec fn bits_of(v: nat, w: nat) -> Seq<bool>
    decreases w,
{
    if w == 0 {
        Seq::empty()
    } else {
        bits_of(v / 2, (w - 1) as nat).push(v % 2 == 1)
    }
}

/// The numeric value of a bit sequence read most significant bit first.
pub open spec fn value_of(bits: Seq<bool>) -> nat
    decreases bits.len(),
{
    if bits.len() == 0 {
        0
    } else {
        value_of(bits.drop_last()) * 2 + (if bits.last() {
            1nat
        } else {
            0nat
        })
    }
}

pub proof fn lemma_bits_of_len(v: nat, w: nat)
    ensures
        bits_of(v, w).len() == w,
    decreases w,
{
    if w > 0 {
        lemma_bits_of_len(v / 2, (w - 1) as nat);
    }
}

/// Reading back a written field recovers the value, as long as it fit.
pub proof fn lemma_value_of_bits_of(v: nat, w: nat)
    requires
        v < pow2(w),
    ensures
        value_of(bits_of(v, w)) == v,
    decreases w,
{
    if w == 0 {
        assert(pow2(0) == 1) by {
            vstd::arithmetic::power2::lemma2_to64();
        }
    } else {
        lemma_pow2_unfold(w);
        lemma_fundamental_div_mod(v as int, 2);
        lemma_value_of_bits_of(v / 2, (w - 1) as nat);
        let prefix = bits_of(v / 2, (w - 1) as nat);
        let whole = bits_of(v, w);
        assert(whole.drop_last() =~= prefix);
    }
}

/// A `w`-bit field can only hold values below `pow2(w)`.
pub proof fn lemma_value_of_bound(bits: Seq<bool>)
    ensures
        value_of(bits) < pow2(bits.len()),
    decreases bits.len(),
{
    if bits.len() == 0 {
        assert(pow2(0) == 1) by {
            vstd::arithmetic::power2::lemma2_to64();
        }
    } else {
        lemma_value_of_bound(bits.drop_last());
        lemma_pow2_unfold(bits.len());
    }
}

/// Re-encoding the value of a bit sequence at its own length gives the
/// sequence back.
pub proof fn lemma_bits_of_value_of(bits: Seq<bool>)
    ensures
        bits_of(value_of(bits), bits.len()) == bits,
    decreases bits.len(),
{
    if bits.len() > 0 {
        let prefix = bits.drop_last();
        let v = value_of(bits);
        let r: int = if bits.last() {
            1
        } else {
            0
        };
        lemma_fundamental_div_mod_converse(v as int, 2, value_of(prefix) as int, r);
        lemma_bits_of_value_of(prefix);
        assert(bits_of(v, bits.len()) =~= bits);
    }
}

/// Appends the `w`-bit big-endian representation of `v` to `bits`.
pub fn push_bits(bits: &mut Vec<bool>, v: u16, w: u16)
    ensures
        final(bits)@ == old(bits)@ + bits_of(v as nat, w as nat),
    decreases w,
{
    if w == 0 {
        assert(bits@ =~= bits@ + bits_of(v as nat, 0));
    } else {
        push_bits(bits, v / 2, w - 1);
        bits.push(v % 2 == 1);
        assert(bits@ =~= old(bits)@ + bits_of(v as nat, w as nat));
    }
}

/// Reads the value of the `w`-bit big-endian field at `start`.
pub fn read_value(bits: &Vec<bool>, start: usize, w: usize) -> (r: u16)
    requires
        start + w <= bits@.len(),
        w <= 10,
    ensures
        r as nat == value_of(bits@.subrange(start as int, (start + w) as int)),
        r < pow2(w as nat),
{
    let mut acc: u16 = 0;
    let mut i: usize = 0;
    let n = bits.len();
    proof {
        assert(bits@.subrange(start as int, start as int) =~= Seq::empty());
        assert(pow2(0) == 1) by {
            vstd::arithmetic::power2::lemma2_to64();
        }
    }
    while i < w
        invariant
            i <= w,
            w <= 10,
            n == bits@.len(),
            start + w <= n,
            acc as nat == value_of(bits@.subrange(start as int, (start + i) as int)),
            acc < pow2(i as nat),
        decreases w - i,
    {
        proof {
            assert(pow2(10) == 1024) by {
                vstd::arithmetic::power2::lemma2_to64();
            }
            if (i as nat) < 10 {
                vstd::arithmetic::power2::lemma_pow2_strictly_increases(i as nat, 10);
            }
            lemma_pow2_unfold((i + 1) as nat);
            let before = bits@.subrange(start as int, (start + i) as int);
            let after = bits@.subrange(start as int, (start + i + 1) as int);
            assert(after.drop_last() =~= before);
            assert(after.last() == bits@[start + i]);
        }
        let b = bits[start + i];
        acc = acc * 2 + (if b {
            1
        } else {
            0
        });
        i = i + 1;
    }
    proof {
        if (w as nat) < 10 {
            vstd::arithmetic::power2::lemma_pow2_strictly_increases(w as nat, 10);
        }
    }
    acc
}

} // verus!
