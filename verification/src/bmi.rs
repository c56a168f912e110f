//! Parallel bit extract and deposit (the BMI2 `pext` and `pdep` instructions).
//!
//! `pext(a, m)` gathers the bits of `a` at the positions set in `m` into the
//! low bits of the result, lowest position first; `pdep(a, m)` spreads the low
//! bits of `a` over the positions set in `m`, lowest position first.
use vstd::prelude::*;
use vstd::arithmetic::div_mod::{
    lemma_div_denominator, lemma_fundamental_div_mod_converse, lemma_mod_breakdown, lemma_small_mod,
};
use vstd::arithmetic::mul::{lemma_mul_is_associative, lemma_mul_is_commutative};
use vstd::arithmetic::power2::{
    lemma2_to64, lemma_pow2_adds, lemma_pow2_pos, lemma_pow2_strictly_increases, lemma_pow2_unfold,
    pow2,
};

use crate::lanes::{
    lane16, lemma_popcnt_bound, lemma_popcnt_complement, lemma_popcnt_unfold, lemma_u64_halves, popcnt,
};

verus! {

/// Bits of `a` at the positions set in `m`, packed into the low bits.
pub open spec fn pext_spec(a: nat, m: nat) -> nat
    decreases m,
{
    if m == 0 {
        0
    } else if m % 2 == 1 {
        a % 2 + 2 * pext_spec(a / 2, m / 2)
    } else {
        pext_spec(a / 2, m / 2)
    }
}

/// Low bits of `a`, deposited in order at the positions set in `m`.
pub open spec fn pdep_spec(a: nat, m: nat) -> nat
    decreases m,
{
    if m == 0 {
        0
    } else if m % 2 == 1 {
        a % 2 + 2 * pdep_spec(a / 2, m / 2)
    } else {
        2 * pdep_spec(a, m / 2)
    }
}

/// An extract never exceeds its mask.
pub proof fn lemma_pext_le_mask(a: nat, m: nat)
    ensures
        pext_spec(a, m) <= m,
    decreases m,
{
    if m != 0 {
        lemma_pext_le_mask(a / 2, m / 2);
    }
}

/// A deposit never exceeds its mask.
pub proof fn lemma_pdep_le_mask(a: nat, m: nat)
    ensures
        pdep_spec(a, m) <= m,
    decreases m,
{
    if m != 0 {
        if m % 2 == 1 {
            lemma_pdep_le_mask(a / 2, m / 2);
        } else {
            lemma_pdep_le_mask(a, m / 2);
        }
    }
}

/// Depositing what was extracted with the same mask gives back the bits of
/// `a` under the mask: `pdep(pext(a, m), m) == a & m`.
pub proof fn lemma_pdep_pext(a: u64, m: u64)
    ensures
        pdep_spec(pext_spec(a as nat, m as nat), m as nat) == (a & m) as nat,
    decreases m,
{
    lemma_u64_halves(a, m, 0);
    if m != 0 {
        lemma_pdep_pext(a / 2, m / 2);
        let p = pext_spec((a / 2) as nat, (m / 2) as nat);
        if m % 2 == 0 {
            lemma_pdep_unfold(p, m as nat);
        }
    }
}

/// One step of `pext`, a zero mask included.
pub proof fn lemma_pext_unfold(a: nat, m: nat)
    ensures
        pext_spec(a, m) == if m % 2 == 1 {
            a % 2 + 2 * pext_spec(a / 2, m / 2)
        } else {
            pext_spec(a / 2, m / 2)
        },
{
    if m == 0 {
        assert(pext_spec(a / 2, 0) == 0);
    }
}

/// One step of `pdep`, a zero mask included.
pub proof fn lemma_pdep_unfold(a: nat, m: nat)
    ensures
        pdep_spec(a, m) == if m % 2 == 1 {
            a % 2 + 2 * pdep_spec(a / 2, m / 2)
        } else {
            2 * pdep_spec(a, m / 2)
        },
{
    if m == 0 {
        assert(pdep_spec(a, 0) == 0);
    }
}

/// Extracting what was deposited with the same mask gives back the low
/// `popcnt(m)` bits of `a`: `pext(pdep(a, m), m) == a % 2^popcnt(m)`.
pub proof fn lemma_pext_pdep(a: nat, m: nat)
    ensures
        pext_spec(pdep_spec(a, m), m) == a % pow2(popcnt(m)),
    decreases m,
{
    if m == 0 {
        lemma2_to64();
    } else if m % 2 == 1 {
        lemma_pext_pdep(a / 2, m / 2);
        let c = popcnt(m / 2);
        lemma_pow2_unfold(c + 1);
        lemma_pow2_pos(c);
        lemma_mod_breakdown(a as int, 2, pow2(c) as int);
    } else {
        lemma_pext_pdep(a, m / 2);
    }
}

/// An extract has at most as many bits as its mask sets.
pub proof fn lemma_pext_bound(a: nat, m: nat)
    ensures
        pext_spec(a, m) < pow2(popcnt(m)),
    decreases m,
{
    if m == 0 {
        lemma2_to64();
    } else {
        lemma_pext_bound(a / 2, m / 2);
        if m % 2 == 1 {
            lemma_pow2_unfold(popcnt(m));
        }
    }
}

/// Depositing under the mask of the low `c` bits keeps the low `c` bits.
pub proof fn lemma_pdep_low_mask(a: nat, c: nat)
    ensures
        pow2(c) >= 1,
        pdep_spec(a, (pow2(c) - 1) as nat) == a % pow2(c),
    decreases c,
{
    lemma_pow2_pos(c);
    if c == 0 {
        lemma2_to64();
    } else {
        let p = pow2((c - 1) as nat);
        lemma_pow2_unfold(c);
        lemma_pow2_pos((c - 1) as nat);
        lemma_pdep_low_mask(a / 2, (c - 1) as nat);
        assert(((pow2(c) - 1) as nat) / 2 == (p - 1) as nat);
        lemma_mod_breakdown(a as int, 2, p as int);
    }
}

/// An extract splits at bit `s`: the part from the bits below `s`, then the
/// part from the bits at and above `s`, above it.
pub proof fn lemma_pext_split(a: nat, m: nat, s: nat)
    ensures
        pow2(s) > 0,
        pext_spec(a, m) == pext_spec(a % pow2(s), m % pow2(s)) + pow2(popcnt(m % pow2(s)))
            * pext_spec(a / pow2(s), m / pow2(s)),
    decreases s,
{
    lemma_pow2_pos(s);
    if s == 0 {
        lemma2_to64();
        assert(pext_spec(0, 0) == 0);
        assert(popcnt(0) == 0);
        assert(a / 1 == a && m / 1 == m && a % 1 == 0 && m % 1 == 0);
    } else {
        let p = pow2((s - 1) as nat);
        let q = popcnt((m / 2) % p);
        let x = pext_spec((a / 2) / p, (m / 2) / p);
        let y = pext_spec((a / 2) % p, (m / 2) % p);
        lemma_pow2_unfold(s);
        lemma_pow2_pos((s - 1) as nat);
        lemma_pext_split(a / 2, m / 2, (s - 1) as nat);
        lemma_pext_unfold(a, m);
        lemma_pext_unfold(a % pow2(s), m % pow2(s));
        lemma_popcnt_unfold(m % pow2(s));
        lemma_mod_breakdown(a as int, 2, p as int);
        lemma_mod_breakdown(m as int, 2, p as int);
        lemma_div_denominator(a as int, 2, p as int);
        lemma_div_denominator(m as int, 2, p as int);
        assert((a % pow2(s)) / 2 == (a / 2) % p && (a % pow2(s)) % 2 == a % 2);
        assert((m % pow2(s)) / 2 == (m / 2) % p && (m % pow2(s)) % 2 == m % 2);
        lemma_pow2_pos(q);
        assert(a / pow2(s) == (a / 2) / p && m / pow2(s) == (m / 2) / p);
        assert(pext_spec(a / pow2(s), m / pow2(s)) == x);
        if m % 2 == 1 {
            assert(popcnt(m % pow2(s)) == q + 1);
            assert(pext_spec(a % pow2(s), m % pow2(s)) == a % 2 + 2 * y);
            lemma_pow2_unfold(q + 1);
            lemma_mul_is_associative(2, pow2(q) as int, x as int);
        } else {
            assert(popcnt(m % pow2(s)) == q);
            assert(pext_spec(a % pow2(s), m % pow2(s)) == y);
        }
    }
}

/// A deposit splits at bit `s` of the mask: the low bits of `a` go below
/// `s`, as many as the mask sets there, and the rest at and above `s`.
pub proof fn lemma_pdep_split(a: nat, m: nat, s: nat)
    ensures
        pow2(s) > 0,
        pow2(popcnt(m % pow2(s))) > 0,
        pdep_spec(a, m) == pdep_spec(a % pow2(popcnt(m % pow2(s))), m % pow2(s)) + pow2(s)
            * pdep_spec(a / pow2(popcnt(m % pow2(s))), m / pow2(s)),
    decreases s,
{
    lemma_pow2_pos(s);
    lemma_pow2_pos(popcnt(m % pow2(s)));
    if s == 0 {
        lemma2_to64();
        assert(pdep_spec(0, 0) == 0);
    } else {
        let p = pow2((s - 1) as nat);
        let c = popcnt(m % pow2(s));
        lemma_pow2_unfold(s);
        lemma_pow2_pos((s - 1) as nat);
        lemma_pdep_unfold(a, m);
        lemma_pdep_unfold(a % pow2(c), m % pow2(s));
        lemma_popcnt_unfold(m % pow2(s));
        lemma_mod_breakdown(m as int, 2, p as int);
        lemma_div_denominator(m as int, 2, p as int);
        assert((m % pow2(s)) / 2 == (m / 2) % p && (m % pow2(s)) % 2 == m % 2);
        if m % 2 == 1 {
            let q = popcnt((m / 2) % p);
            assert(c == q + 1);
            lemma_pdep_split(a / 2, m / 2, (s - 1) as nat);
            lemma_pow2_unfold(c);
            lemma_pow2_pos(q);
            lemma_mod_breakdown(a as int, 2, pow2(q) as int);
            lemma_div_denominator(a as int, 2, pow2(q) as int);
            assert((a % pow2(c)) / 2 == (a / 2) % pow2(q) && (a % pow2(c)) % 2 == a % 2);
            lemma_mul_is_associative(
                2,
                p as int,
                pdep_spec((a / 2) / pow2(q), (m / 2) / p) as int,
            );
        } else {
            assert(c == popcnt((m / 2) % p));
            lemma_pdep_split(a, m / 2, (s - 1) as nat);
            lemma_mul_is_associative(2, p as int, pdep_spec(a / pow2(c), (m / 2) / p) as int);
        }
    }
}

/// Field `k` of `x`: the 16 bits from bit `16 * k` on.
pub open spec fn field16(x: nat, k: nat) -> nat {
    (x / pow2(16 * k)) % pow2(16)
}

/// Field 0 is the low 16 bits, and the fields of `x / 2^16` are those of `x`
/// from field 1 on.
pub proof fn lemma_field16_shift(x: nat, k: nat)
    ensures
        pow2(16) > 0,
        field16(x, 0) == x % pow2(16),
        field16(x / pow2(16), k) == field16(x, k + 1),
{
    lemma_pow2_pos(16);
    lemma_pow2_pos(16 * k);
    lemma2_to64();
    assert(x / 1 == x);
    lemma_pow2_adds(16, 16 * k);
    assert(16 * (k + 1) == 16 + 16 * k);
    lemma_div_denominator(x as int, pow2(16) as int, pow2(16 * k) as int);
}

/// Extracting with a mask that keeps, in each 16-bit field, some of its
/// bits, then depositing under a mask that holds, in each field, as many low
/// bits as were kept there, moves the kept bits of each field down to the
/// bottom of that field, in order: field `k` of the result is
/// `pext(field k of w, field k of keep)`.
pub proof fn lemma_pext_pdep_by_fields(w: nat, keep: nat, low: nat, n: nat)
    requires
        forall|k: nat| k < n ==> #[trigger] field16(low, k) == pow2(popcnt(field16(keep, k))) - 1,
    ensures
        forall|k: nat|
            k < n ==> #[trigger] field16(pdep_spec(pext_spec(w, keep), low), k) == pext_spec(
                field16(w, k),
                field16(keep, k),
            ),
    decreases n,
{
    if n > 0 {
        let d = pow2(16);
        lemma_pow2_pos(16);
        let e0 = pext_spec(w % d, keep % d);
        let c0 = popcnt(keep % d);
        let e1 = pext_spec(w / d, keep / d);
        let e = pext_spec(w, keep);
        lemma_field16_shift(w, 0);
        lemma_field16_shift(keep, 0);
        lemma_field16_shift(low, 0);
        assert(field16(low, 0) == pow2(popcnt(field16(keep, 0))) - 1);
        assert(low % d == pow2(c0) - 1);
        // the extract, split at field 1
        lemma_pext_split(w, keep, 16);
        lemma_pext_bound(w % d, keep % d);
        lemma_pow2_pos(c0);
        lemma_mul_is_commutative(pow2(c0) as int, e1 as int);
        lemma_fundamental_div_mod_converse(e as int, pow2(c0) as int, e1 as int, e0 as int);
        // the deposit, split at field 1
        lemma_popcnt_complement(0, c0);
        assert(popcnt(0) == 0);
        assert(popcnt(low % d) == c0);
        lemma_pdep_split(e, low, 16);
        lemma_pdep_low_mask(e0, c0);
        lemma_small_mod(e0, pow2(c0));
        let r1 = pdep_spec(e1, low / d);
        let r = pdep_spec(e, low);
        assert(e % pow2(c0) == e0 && e / pow2(c0) == e1);
        assert(pdep_spec(e0, low % d) == e0);
        assert(r == e0 + d * r1);
        // the low field of the result
        lemma_popcnt_bound(keep % d, 16);
        if c0 < 16 {
            lemma_pow2_strictly_increases(c0, 16);
        }
        assert(e0 < d);
        lemma_mul_is_commutative(d as int, r1 as int);
        lemma_fundamental_div_mod_converse(r as int, d as int, r1 as int, e0 as int);
        lemma_field16_shift(r, 0);
        // the higher fields, by induction
        assert forall|k: nat| k < (n - 1) as nat implies #[trigger] field16(low / d, k) == pow2(
            popcnt(field16(keep / d, k)),
        ) - 1 by {
            lemma_field16_shift(low, k);
            lemma_field16_shift(keep, k);
            assert(field16(low, k + 1) == pow2(popcnt(field16(keep, k + 1))) - 1);
        }
        lemma_pext_pdep_by_fields(w / d, keep / d, low / d, (n - 1) as nat);
        assert forall|k: nat| k < n implies #[trigger] field16(r, k) == pext_spec(
            field16(w, k),
            field16(keep, k),
        ) by {
            if k > 0 {
                let j = (k - 1) as nat;
                lemma_field16_shift(r, j);
                lemma_field16_shift(w, j);
                lemma_field16_shift(keep, j);
                assert(field16(r1, j) == pext_spec(field16(w / d, j), field16(keep / d, j)));
            }
        }
    }
}

/// The 16-bit lanes of a word are its fields.
pub proof fn lemma_lane16_is_field16(w: u64)
    ensures
        forall|k: nat| k < 4 ==> #[trigger] field16(w as nat, k) == lane16(w, k as int) as nat,
{
    lemma2_to64();
    lemma_pow2_adds(16, 32);
    assert(pow2(48) == 0x1_0000_0000_0000);
    assert((w & 0xFFFF) == w % 0x10000 && ((w >> 16u64) & 0xFFFF) == (w / 0x10000) % 0x10000 && ((w
        >> 32u64) & 0xFFFF) == (w / 0x1_0000_0000) % 0x10000 && ((w >> 48u64) & 0xFFFF) == (w
        / 0x1_0000_0000_0000) % 0x10000) by (bit_vector);
    assert forall|k: nat| k < 4 implies #[trigger] field16(w as nat, k) == lane16(w, k as int) as nat by {
        if k == 0 {
            assert(w as nat / 1 == w as nat);
        } else if k == 1 {
            assert(16 * k == 16);
        } else if k == 2 {
            assert(16 * k == 32);
        } else {
            assert(16 * k == 48);
        }
    }
}

} // verus!
