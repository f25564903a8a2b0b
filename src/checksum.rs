//! The Internet checksum of RFC 1071 over a byte sequence.

use vstd::prelude::*;
use vstd::arithmetic::div_mod::{lemma_fundamental_div_mod, lemma_mod_multiples_vanish};

verus! {

/// Sum of the big-endian 16-bit words of `s`; an odd trailing byte is
/// padded with a zero low byte.
pub open spec fn word_sum(s: Seq<u8>) -> nat
    decreases s.len(),
{
    if s.len() == 0 {
        0
    } else if s.len() == 1 {
        (s[0] as nat) * 256
    } else {
        (s[0] as nat) * 256 + (s[1] as nat) + word_sum(s.subrange(2, s.len() as int))
    }
}

/// Folds the carries above bit 16 back into the low 16 bits until none remain.
pub open spec fn fold_carries(x: nat) -> nat
    decreases x,
    via fold_carries_decreases
{
    if x < 0x10000 {
        x
    } else {
        fold_carries(x / 0x10000 + x % 0x10000)
    }
}

#[via_fn]
proof fn fold_carries_decreases(x: nat) {
    if x >= 0x10000 {
        lemma_fundamental_div_mod(x as int, 0x10000);
        assert(x / 0x10000 >= 1);
        assert(x / 0x10000 + x % 0x10000 < x) by (nonlinear_arith)
            requires
                x == 0x10000 * (x / 0x10000) + x % 0x10000,
                x / 0x10000 >= 1,
        ;
    }
}

/// The one's-complement checksum of `s`: the complement of its folded word sum.
pub open spec fn checksum_of(s: Seq<u8>) -> nat {
    (0xFFFF - fold_carries(word_sum(s))) as nat
}

/// Residue of `x` in one's-complement arithmetic: zero stays zero, every
/// other value lands in `1..=0xFFFF` with the same remainder modulo 0xFFFF.
pub open spec fn ones_residue(x: nat) -> nat {
    if x == 0 {
        0
    } else {
        ((x - 1) as nat % 0xFFFF) + 1
    }
}

/// Folding carries computes the one's-complement residue.
pub proof fn lemma_fold_residue(x: nat)
    ensures
        fold_carries(x) == ones_residue(x),
        fold_carries(x) <= 0xFFFF,
    decreases x,
{
    if x >= 0x10000 {
        let q = x / 0x10000;
        let r = x % 0x10000;
        lemma_fundamental_div_mod(x as int, 0x10000);
        let y = q + r;
        assert(q >= 1);
        assert(x == 0x10000 * q + r);
        assert(y < x);
        assert((x - 1) as int == 0xFFFF * q + (y - 1)) by (nonlinear_arith)
            requires
                x == 0x10000 * q + r,
                y == q + r,
        ;
        lemma_mod_multiples_vanish(q as int, (y - 1) as int, 0xFFFF);
        lemma_fold_residue(y);
    }
}

/// Adding a multiple of 0xFFFF to a positive value keeps its residue.
proof fn lemma_residue_shift(a: nat, k: nat)
    requires
        a > 0,
    ensures
        ones_residue(a + 0xFFFF * k) == ones_residue(a),
{
    assert((a + 0xFFFF * k - 1) as int == 0xFFFF * (k as int) + (a - 1)) by (nonlinear_arith)
        requires
            a > 0,
    ;
    lemma_mod_multiples_vanish(k as int, (a - 1) as int, 0xFFFF);
}

/// Splits the first word off the suffix of `s` that starts at `i`.
proof fn lemma_word_sum_step(s: Seq<u8>, i: int)
    requires
        0 <= i < s.len(),
    ensures
        i + 1 < s.len() ==> word_sum(s.subrange(i, s.len() as int)) == (s[i] as nat) * 256
            + (s[i + 1] as nat) + word_sum(s.subrange(i + 2, s.len() as int)),
        i + 1 == s.len() ==> word_sum(s.subrange(i, s.len() as int)) == (s[i] as nat) * 256,
{
    let t = s.subrange(i, s.len() as int);
    if i + 1 < s.len() {
        assert(t.subrange(2, t.len() as int) =~= s.subrange(i + 2, s.len() as int));
    }
}

/// Computes the RFC 1071 checksum of `data`.
pub fn checksum(data: &[u8]) -> (r: u16)
    ensures
        r as nat == checksum_of(data@),
{
    let n = data.len();
    let mut acc: u32 = 0;
    let mut i: usize = 0;
    assert(data@.subrange(0, n as int) =~= data@);
    while i < n
        invariant
            i <= n,
            n == data@.len(),
            acc <= 0xFFFF,
            ones_residue(acc as nat + word_sum(data@.subrange(i as int, n as int)))
                == ones_residue(word_sum(data@)),
        decreases n - i,
    {
        proof {
            lemma_word_sum_step(data@, i as int);
        }
        let hi = data[i] as u32;
        let lo: u32 = if i + 1 < n {
            data[i + 1] as u32
        } else {
            0
        };
        let next: usize = if i + 1 < n {
            i + 2
        } else {
            n
        };
        assert(data@.subrange(n as int, n as int).len() == 0);
        let ghost rest = word_sum(data@.subrange(next as int, n as int));
        let sum = acc + hi * 256 + lo;
        if sum > 0xFFFF {
            proof {
                lemma_residue_shift((sum - 0xFFFF) as nat + rest, 1);
            }
            acc = sum - 0xFFFF;
        } else {
            acc = sum;
        }
        i = next;
    }
    proof {
        assert(data@.subrange(n as int, n as int).len() == 0);
        lemma_fold_residue(word_sum(data@));
        lemma_fold_residue(acc as nat);
    }
    (0xFFFF - acc) as u16
}

} // verus!
