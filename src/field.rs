//! Elements of the prime field of order `2^448 - 2^224 - 1`, held as eight
//! limbs of 56 bits and always fully reduced.

use vstd::prelude::*;
use vstd::arithmetic::div_mod::{
    lemma_add_mod_noop,
    lemma_fundamental_div_mod_converse_mod,
    lemma_mod_twice,
    lemma_mul_mod_noop_left,
    lemma_small_mod,
};
use subtle::ConditionallySelectable;

verus! {

/// The weight of one limb: `2^56`.
pub const RADIX: u64 = 0x100_0000_0000_0000;

/// `RADIX` as a number.
pub open spec fn radix() -> nat {
    0x100_0000_0000_0000
}

/// `radix()` to the power `i`.
pub open spec fn radix_pow(i: nat) -> nat
    decreases i,
{
    if i == 0 {
        1
    } else {
        radix() * radix_pow((i - 1) as nat)
    }
}

/// The field's prime, `2^448 - 2^224 - 1`.
pub open spec fn modulus() -> nat {
    (radix_pow(8) - radix_pow(4) - 1) as nat
}

/// Addition in the field.
pub open spec fn fadd(a: nat, b: nat) -> nat {
    (a + b) % modulus()
}

/// Subtraction in the field.
pub open spec fn fsub(a: nat, b: nat) -> nat {
    ((a - b) % (modulus() as int)) as nat
}

/// Negation in the field.
pub open spec fn fneg(a: nat) -> nat {
    fsub(0, a)
}

/// Multiplication in the field.
pub open spec fn fmul(a: nat, b: nat) -> nat {
    (a * b) % modulus()
}

/// The value of the first `n` limbs of `s`, least significant first.
spec fn limbs_val(s: Seq<u64>, n: nat) -> nat
    decreases n,
{
    if n == 0 || n > s.len() {
        0
    } else {
        limbs_val(s, (n - 1) as nat) + (s[n - 1] as nat) * radix_pow((n - 1) as nat)
    }
}

/// Eight limbs of 56 bits each.
spec fn limbs_bounded(s: Seq<u64>) -> bool {
    s.len() == 8 && forall|i: int| 0 <= i < 8 ==> #[trigger] s[i] < radix()
}

/// The powers of the radix and the prime as numbers.
proof fn lemma_radix_pow_values()
    ensures
        radix_pow(0) == 0x1,
        radix_pow(1) == 0x100000000000000,
        radix_pow(2) == 0x10000000000000000000000000000,
        radix_pow(3) == 0x1000000000000000000000000000000000000000000,
        radix_pow(4) == 0x100000000000000000000000000000000000000000000000000000000,
        radix_pow(5) == 0x10000000000000000000000000000000000000000000000000000000000000000000000,
        radix_pow(6) == 0x1000000000000000000000000000000000000000000000000000000000000000000000000000000000000,
        radix_pow(7) == 0x100000000000000000000000000000000000000000000000000000000000000000000000000000000000000000000000000,
        radix_pow(8) == 0x10000000000000000000000000000000000000000000000000000000000000000000000000000000000000000000000000000000000000000,
        modulus() == 0xfffffffffffffffffffffffffffffffffffffffffffffffffffffffeffffffffffffffffffffffffffffffffffffffffffffffffffffffff,
{
    assert(radix_pow(0) == 1);
    assert(radix_pow(1) == 0x100000000000000);
    assert(radix_pow(2) == 0x10000000000000000000000000000);
    assert(radix_pow(3) == 0x1000000000000000000000000000000000000000000);
    assert(radix_pow(4) == 0x100000000000000000000000000000000000000000000000000000000);
    assert(radix_pow(5) == 0x10000000000000000000000000000000000000000000000000000000000000000000000);
    assert(radix_pow(6) == 0x1000000000000000000000000000000000000000000000000000000000000000000000000000000000000);
    assert(radix_pow(7) == 0x100000000000000000000000000000000000000000000000000000000000000000000000000000000000000000000000000);
    assert(radix_pow(8) == 0x10000000000000000000000000000000000000000000000000000000000000000000000000000000000000000000000000000000000000000);
}

/// The value of a prefix depends on that prefix alone.
proof fn lemma_limbs_val_prefix(s1: Seq<u64>, s2: Seq<u64>, n: nat)
    requires
        n <= s1.len(),
        n <= s2.len(),
        forall|j: int| 0 <= j < n ==> s1[j] == s2[j],
    ensures
        limbs_val(s1, n) == limbs_val(s2, n),
    decreases n,
{
    if n > 0 {
        lemma_limbs_val_prefix(s1, s2, (n - 1) as nat);
    }
}

/// `n` limbs of 56 bits stay below `radix_pow(n)`.
proof fn lemma_limbs_val_bound(s: Seq<u64>, n: nat)
    requires
        n <= s.len(),
        forall|j: int| 0 <= j < n ==> #[trigger] s[j] < radix(),
    ensures
        limbs_val(s, n) < radix_pow(n),
    decreases n,
{
    if n > 0 {
        let k = (n - 1) as nat;
        lemma_limbs_val_bound(s, k);
        let v = limbs_val(s, k);
        let d = s[k as int];
        let p = radix_pow(k);
        assert(v + d * p < radix() * p) by (nonlinear_arith)
            requires
                v < p,
                d < radix(),
                radix() == 0x100_0000_0000_0000,
        ;
    }
}

/// The value of eight limbs, written out.
proof fn lemma_limbs_val_8(s: Seq<u64>)
    requires
        s.len() == 8,
    ensures
        limbs_val(s, 8) == s[0] + s[1] * 0x100000000000000 + s[2] * 0x10000000000000000000000000000 + s[3] * 0x1000000000000000000000000000000000000000000 + s[4] * 0x100000000000000000000000000000000000000000000000000000000 + s[5] * 0x10000000000000000000000000000000000000000000000000000000000000000000000 + s[6] * 0x1000000000000000000000000000000000000000000000000000000000000000000000000000000000000 + s[7] * 0x100000000000000000000000000000000000000000000000000000000000000000000000000000000000000000000000000,
{
    lemma_radix_pow_values();
    reveal_with_fuel(limbs_val, 9);
    assert(s[1] * radix_pow(1) == s[1] * 0x100000000000000) by (nonlinear_arith)
        requires
            radix_pow(1) == 0x100000000000000,
    ;
    assert(s[2] * radix_pow(2) == s[2] * 0x10000000000000000000000000000) by (nonlinear_arith)
        requires
            radix_pow(2) == 0x10000000000000000000000000000,
    ;
    assert(s[3] * radix_pow(3) == s[3] * 0x1000000000000000000000000000000000000000000) by (nonlinear_arith)
        requires
            radix_pow(3) == 0x1000000000000000000000000000000000000000000,
    ;
    assert(s[4] * radix_pow(4) == s[4] * 0x100000000000000000000000000000000000000000000000000000000) by (nonlinear_arith)
        requires
            radix_pow(4) == 0x100000000000000000000000000000000000000000000000000000000,
    ;
    assert(s[5] * radix_pow(5) == s[5] * 0x10000000000000000000000000000000000000000000000000000000000000000000000) by (nonlinear_arith)
        requires
            radix_pow(5) == 0x10000000000000000000000000000000000000000000000000000000000000000000000,
    ;
    assert(s[6] * radix_pow(6) == s[6] * 0x1000000000000000000000000000000000000000000000000000000000000000000000000000000000000) by (nonlinear_arith)
        requires
            radix_pow(6) == 0x1000000000000000000000000000000000000000000000000000000000000000000000000000000000000,
    ;
    assert(s[7] * radix_pow(7) == s[7] * 0x100000000000000000000000000000000000000000000000000000000000000000000000000000000000000000000000000) by (nonlinear_arith)
        requires
            radix_pow(7) == 0x100000000000000000000000000000000000000000000000000000000000000000000000000000000000000000000000000,
    ;
}

/// One step of a carry chain: the value of `n + 1` limbs.
proof fn lemma_limbs_val_step(s: Seq<u64>, n: nat)
    requires
        n < s.len(),
    ensures
        limbs_val(s, n + 1) == limbs_val(s, n) + s[n as int] * radix_pow(n),
        radix_pow(n + 1) == radix() * radix_pow(n),
{
}

/// Adds two limb arrays with carries: the sum is `r.0 + r.1 * 2^448`.
fn add_limbs(a: &[u64; 8], b: &[u64; 8]) -> (r: ([u64; 8], u64))
    requires
        limbs_bounded(a@),
        limbs_bounded(b@),
    ensures
        limbs_bounded(r.0@),
        r.1 <= 1,
        limbs_val(r.0@, 8) + r.1 * radix_pow(8) == limbs_val(a@, 8) + limbs_val(b@, 8),
{
    let mut out: [u64; 8] = [0u64; 8];
    let mut carry: u64 = 0;
    let mut i: usize = 0;
    while i < 8
        invariant
            i <= 8,
            carry <= 1,
            limbs_bounded(a@),
            limbs_bounded(b@),
            out@.len() == 8,
            forall|j: int| 0 <= j < i ==> #[trigger] out@[j] < radix(),
            limbs_val(out@, i as nat) + carry * radix_pow(i as nat) == limbs_val(a@, i as nat)
                + limbs_val(b@, i as nat),
        decreases 8 - i,
    {
        let s: u64 = a[i] + b[i] + carry;
        let ghost prev = out@;
        out[i] = s % RADIX;
        let next: u64 = s / RADIX;
        proof {
            lemma_limbs_val_prefix(prev, out@, i as nat);
            lemma_limbs_val_step(out@, i as nat);
            lemma_limbs_val_step(a@, i as nat);
            lemma_limbs_val_step(b@, i as nat);
            let p = radix_pow(i as nat);
            assert(s == (s % RADIX) + next * RADIX);
            assert((s % RADIX) * p + next * (radix() * p) == (a[i as int] + b[i as int] + carry) * p)
                by (nonlinear_arith)
                requires
                    s == (s % RADIX) + next * RADIX,
                    s == a[i as int] + b[i as int] + carry,
                    radix() == RADIX,
            ;
            assert((a[i as int] + b[i as int] + carry) * p == a[i as int] * p + b[i as int] * p + carry * p)
                by (nonlinear_arith);
        }
        carry = next;
        i = i + 1;
    }
    (out, carry)
}

/// Subtracts two limb arrays with borrows: the difference is `r.0 - r.1 * 2^448`.
fn sub_limbs(a: &[u64; 8], b: &[u64; 8]) -> (r: ([u64; 8], u64))
    requires
        limbs_bounded(a@),
        limbs_bounded(b@),
    ensures
        limbs_bounded(r.0@),
        r.1 <= 1,
        limbs_val(r.0@, 8) - r.1 * radix_pow(8) == limbs_val(a@, 8) - limbs_val(b@, 8),
{
    let mut out: [u64; 8] = [0u64; 8];
    let mut borrow: u64 = 0;
    let mut i: usize = 0;
    while i < 8
        invariant
            i <= 8,
            borrow <= 1,
            limbs_bounded(a@),
            limbs_bounded(b@),
            out@.len() == 8,
            forall|j: int| 0 <= j < i ==> #[trigger] out@[j] < radix(),
            limbs_val(out@, i as nat) - borrow * radix_pow(i as nat) == limbs_val(a@, i as nat)
                - limbs_val(b@, i as nat),
        decreases 8 - i,
    {
        let d: u64 = a[i] + RADIX - b[i] - borrow;
        let ghost prev = out@;
        out[i] = d % RADIX;
        let next: u64 = 1 - d / RADIX;
        proof {
            lemma_limbs_val_prefix(prev, out@, i as nat);
            lemma_limbs_val_step(out@, i as nat);
            lemma_limbs_val_step(a@, i as nat);
            lemma_limbs_val_step(b@, i as nat);
            let p = radix_pow(i as nat);
            assert(d == (d % RADIX) + (1 - next) * RADIX);
            assert((d % RADIX) * p - next * (radix() * p) == (a[i as int] - b[i as int] - borrow) * p)
                by (nonlinear_arith)
                requires
                    d == (d % RADIX) + (1 - next) * RADIX,
                    d == a[i as int] + RADIX - b[i as int] - borrow,
                    radix() == RADIX,
            ;
            assert((a[i as int] - b[i as int] - borrow) * p == a[i as int] * p - b[i as int] * p - borrow * p)
                by (nonlinear_arith);
        }
        borrow = next;
        i = i + 1;
    }
    (out, borrow)
}

/// Relies on subtle's `ConditionallySelectable::conditional_select` for `u64`:
/// it returns `b` when the choice is 1 and `a` when it is 0, through a mask
/// rather than a branch.
#[verifier::external_body]
fn ct_select_u64(a: u64, b: u64, choice: bool) -> (r: u64)
    ensures
        r == if choice { b } else { a },
{
    u64::conditional_select(&a, &b, subtle::Choice::from(choice as u8))
}

/// Relies on subtle's `ConditionallySelectable::conditional_swap` for `u64`:
/// it exchanges the two values when the choice is 1 and leaves them when it
/// is 0, through a mask rather than a branch.
#[verifier::external_body]
fn ct_swap_u64(a: &mut u64, b: &mut u64, choice: bool)
    ensures
        *final(a) == if choice { *old(b) } else { *old(a) },
        *final(b) == if choice { *old(a) } else { *old(b) },
{
    u64::conditional_swap(a, b, subtle::Choice::from(choice as u8))
}

/// Picks `b` when `choice` holds and `a` otherwise, limb by limb in constant time.
fn select_limbs(a: &[u64; 8], b: &[u64; 8], choice: bool) -> (r: [u64; 8])
    ensures
        r == if choice { *b } else { *a },
{
    let mut out: [u64; 8] = [0u64; 8];
    let mut i: usize = 0;
    while i < 8
        invariant
            i <= 8,
            out@.len() == 8,
            forall|j: int| 0 <= j < i ==> #[trigger] out@[j] == if choice { b@[j] } else { a@[j] },
        decreases 8 - i,
    {
        out[i] = ct_select_u64(a[i], b[i], choice);
        i = i + 1;
    }
    assert(out =~= if choice { *b } else { *a });
    out
}

/// The limbs of the prime.
fn modulus_limbs() -> (r: [u64; 8])
    ensures
        limbs_bounded(r@),
        limbs_val(r@, 8) == modulus(),
{
    let m: u64 = RADIX - 1;
    let r: [u64; 8] = [m, m, m, m, m - 1, m, m, m];
    proof {
        lemma_radix_pow_values();
        lemma_limbs_val_8(r@);
    }
    r
}

/// Limbs of 56 bits are determined by their value.
proof fn lemma_limbs_val_injective(s1: Seq<u64>, s2: Seq<u64>, n: nat)
    requires
        n <= s1.len(),
        n <= s2.len(),
        forall|j: int| 0 <= j < n ==> #[trigger] s1[j] < radix(),
        forall|j: int| 0 <= j < n ==> #[trigger] s2[j] < radix(),
        limbs_val(s1, n) == limbs_val(s2, n),
    ensures
        forall|j: int| 0 <= j < n ==> s1[j] == s2[j],
    decreases n,
{
    if n > 0 {
        let k = (n - 1) as nat;
        lemma_limbs_val_bound(s1, k);
        lemma_limbs_val_bound(s2, k);
        let v1 = limbs_val(s1, k) as int;
        let v2 = limbs_val(s2, k) as int;
        let d1 = s1[k as int] as int;
        let d2 = s2[k as int] as int;
        let p = radix_pow(k) as int;
        assert(d1 == d2) by (nonlinear_arith)
            requires
                v1 + d1 * p == v2 + d2 * p,
                0 <= v1 < p,
                0 <= v2 < p,
                0 <= d1,
                0 <= d2,
        ;
        lemma_limbs_val_injective(s1, s2, k);
    }
}

/// Reducing the terms of `u + v * y` first does not change the result.
proof fn lemma_mod_mul_add(u: int, v: int, y: int, m: int)
    requires
        m > 0,
    ensures
        ((u % m) + (v % m) * y) % m == (u + v * y) % m,
{
    lemma_mul_mod_noop_left(v, y, m);
    lemma_add_mod_noop(u, v * y, m);
    lemma_add_mod_noop(u % m, (v % m) * y, m);
    lemma_mod_twice(u, m);
}

/// The value of a little-endian byte string.
pub open spec fn le_bytes_val(s: Seq<u8>) -> nat
    decreases s.len(),
{
    if s.len() == 0 {
        0
    } else {
        (s[0] as nat) + 256 * le_bytes_val(s.skip(1))
    }
}

/// Negating twice gives back a reduced value.
pub proof fn lemma_fneg_involutive(x: nat)
    requires
        x < modulus(),
    ensures
        fneg(fneg(x)) == x,
{
    lemma_radix_pow_values();
    let m = modulus() as int;
    if x == 0 {
        lemma_fundamental_div_mod_converse_mod(0, m, 0, 0);
    } else {
        lemma_fundamental_div_mod_converse_mod(-x, m, -1, m - x);
        lemma_fundamental_div_mod_converse_mod(x - m, m, -1, x as int);
    }
}

/// An element of the field, fully reduced.
#[derive(Clone, Copy, Debug, PartialEq, Eq)]
pub struct FieldElement {
    limbs: [u64; 8],
}

impl View for FieldElement {
    type V = nat;

    /// The element as a number in `0 .. modulus()`.
    closed spec fn view(&self) -> nat {
        limbs_val(self.limbs@, 8)
    }
}

impl FieldElement {
    /// Every limb holds 56 bits and the value is below the prime.
    pub closed spec fn wf(&self) -> bool {
        limbs_bounded(self.limbs@) && limbs_val(self.limbs@, 8) < modulus()
    }

    /// Two well-formed elements with one value are the same element.
    pub proof fn lemma_value_determines(a: FieldElement, b: FieldElement)
        requires
            a.wf(),
            b.wf(),
            a@ == b@,
        ensures
            a == b,
    {
        lemma_limbs_val_injective(a.limbs@, b.limbs@, 8);
        assert(a.limbs =~= b.limbs);
    }

    /// The prime is above two.
    pub proof fn lemma_modulus_positive()
        ensures
            modulus() > 2,
    {
        lemma_radix_pow_values();
    }

    /// A well-formed element lies below the prime.
    pub proof fn lemma_bound(&self)
        requires
            self.wf(),
        ensures
            self@ < modulus(),
    {
    }

    /// The additive identity.
    pub fn zero() -> (r: FieldElement)
        ensures
            r.wf(),
            r@ == 0,
    {
        let limbs: [u64; 8] = [0u64, 0, 0, 0, 0, 0, 0, 0];
        proof {
            lemma_radix_pow_values();
            lemma_limbs_val_8(limbs@);
        }
        FieldElement { limbs }
    }

    /// The multiplicative identity.
    pub fn one() -> (r: FieldElement)
        ensures
            r.wf(),
            r@ == 1,
    {
        let limbs: [u64; 8] = [1u64, 0, 0, 0, 0, 0, 0, 0];
        proof {
            lemma_radix_pow_values();
            lemma_limbs_val_8(limbs@);
        }
        FieldElement { limbs }
    }

    /// The sum modulo the prime.
    pub fn add(&self, rhs: &FieldElement) -> (r: FieldElement)
        requires
            self.wf(),
            rhs.wf(),
        ensures
            r.wf(),
            r@ == fadd(self@, rhs@),
    {
        let m = modulus_limbs();
        let (s, carry) = add_limbs(&self.limbs, &rhs.limbs);
        let (t, borrow) = sub_limbs(&s, &m);
        let reduce: bool = (carry | (borrow ^ 1)) == 1;
        let limbs = select_limbs(&s, &t, reduce);
        proof {
            lemma_radix_pow_values();
            lemma_limbs_val_bound(s@, 8);
            lemma_limbs_val_bound(t@, 8);
            assert(carry == 0 || carry == 1);
            assert(borrow == 0 || borrow == 1);
            assert(reduce == (carry == 1 || borrow == 0)) by (bit_vector)
                requires
                    carry <= 1,
                    borrow <= 1,
                    reduce == ((carry | (borrow ^ 1)) == 1),
            ;
            let x = self@ + rhs@;
            if carry == 1 {
                assert(carry * radix_pow(8) == radix_pow(8)) by (nonlinear_arith) requires carry == 1;
            } else {
                assert(carry * radix_pow(8) == 0) by (nonlinear_arith) requires carry == 0;
            }
            if borrow == 1 {
                assert(borrow * radix_pow(8) == radix_pow(8)) by (nonlinear_arith) requires borrow == 1;
            } else {
                assert(borrow * radix_pow(8) == 0) by (nonlinear_arith) requires borrow == 0;
            }
            if reduce {
                lemma_fundamental_div_mod_converse_mod(x as int, modulus() as int, 1, limbs_val(t@, 8) as int);
            } else {
                lemma_small_mod(x, modulus());
            }
        }
        FieldElement { limbs }
    }

    /// The difference modulo the prime.
    pub fn sub(&self, rhs: &FieldElement) -> (r: FieldElement)
        requires
            self.wf(),
            rhs.wf(),
        ensures
            r.wf(),
            r@ == fsub(self@, rhs@),
    {
        let m = modulus_limbs();
        let (t, borrow) = sub_limbs(&self.limbs, &rhs.limbs);
        let (u, carry) = add_limbs(&t, &m);
        let limbs = select_limbs(&t, &u, borrow == 1);
        proof {
            lemma_radix_pow_values();
            lemma_limbs_val_bound(t@, 8);
            lemma_limbs_val_bound(u@, 8);
            let x = self@ - rhs@;
            if carry == 1 {
                assert(carry * radix_pow(8) == radix_pow(8)) by (nonlinear_arith) requires carry == 1;
            } else {
                assert(carry * radix_pow(8) == 0) by (nonlinear_arith) requires carry == 0;
            }
            if borrow == 1 {
                assert(borrow * radix_pow(8) == radix_pow(8)) by (nonlinear_arith) requires borrow == 1;
            } else {
                assert(borrow * radix_pow(8) == 0) by (nonlinear_arith) requires borrow == 0;
            }
            if borrow == 1 {
                lemma_fundamental_div_mod_converse_mod(x, modulus() as int, -1, limbs_val(u@, 8) as int);
            } else {
                lemma_fundamental_div_mod_converse_mod(x, modulus() as int, 0, limbs_val(t@, 8) as int);
            }
        }
        FieldElement { limbs }
    }

    /// The additive inverse.
    pub fn negate(&self) -> (r: FieldElement)
        requires
            self.wf(),
        ensures
            r.wf(),
            r@ == fneg(self@),
    {
        FieldElement::zero().sub(self)
    }

    /// The element whose value is `b`, for `b` below one limb.
    fn from_small(b: u64) -> (r: FieldElement)
        requires
            b < RADIX,
        ensures
            r.wf(),
            r@ == b,
    {
        let limbs: [u64; 8] = [b, 0, 0, 0, 0, 0, 0, 0];
        proof {
            lemma_radix_pow_values();
            lemma_limbs_val_8(limbs@);
        }
        FieldElement { limbs }
    }

    /// Picks `b` when `choice` holds and `a` otherwise, without branching
    /// on `choice`.
    pub fn conditional_select(a: &FieldElement, b: &FieldElement, choice: bool) -> (r: FieldElement)
        ensures
            r == if choice { *b } else { *a },
    {
        FieldElement { limbs: select_limbs(&a.limbs, &b.limbs, choice) }
    }

    /// Exchanges `a` and `b` when `choice` holds and leaves them otherwise,
    /// without branching on `choice`.
    pub fn conditional_swap(a: &mut FieldElement, b: &mut FieldElement, choice: bool)
        ensures
            *final(a) == if choice { *old(b) } else { *old(a) },
            *final(b) == if choice { *old(a) } else { *old(b) },
    {
        let mut x: [u64; 8] = a.limbs;
        let mut y: [u64; 8] = b.limbs;
        let mut i: usize = 0;
        while i < 8
            invariant
                i <= 8,
                x@.len() == 8,
                y@.len() == 8,
                forall|j: int| 0 <= j < i ==> #[trigger] x@[j] == if choice { old(b).limbs@[j] } else { old(a).limbs@[j] },
                forall|j: int| 0 <= j < i ==> #[trigger] y@[j] == if choice { old(a).limbs@[j] } else { old(b).limbs@[j] },
                forall|j: int| i <= j < 8 ==> #[trigger] x@[j] == old(a).limbs@[j],
                forall|j: int| i <= j < 8 ==> #[trigger] y@[j] == old(b).limbs@[j],
                *a == *old(a),
                *b == *old(b),
            decreases 8 - i,
        {
            let mut u: u64 = x[i];
            let mut v: u64 = y[i];
            ct_swap_u64(&mut u, &mut v, choice);
            x[i] = u;
            y[i] = v;
            i = i + 1;
        }
        assert(x =~= if choice { old(b).limbs } else { old(a).limbs });
        assert(y =~= if choice { old(a).limbs } else { old(b).limbs });
        a.limbs = x;
        b.limbs = y;
    }

    /// Replaces the element by its negation when `choice` holds, without
    /// branching on `choice`.
    pub fn conditional_negate(&mut self, choice: bool)
        requires
            old(self).wf(),
        ensures
            final(self).wf(),
            final(self)@ == if choice { fneg(old(self)@) } else { old(self)@ },
            !choice ==> *final(self) == *old(self),
    {
        let negated = self.negate();
        *self = FieldElement::conditional_select(self, &negated, choice);
    }

    /// The product with a small integer, modulo the prime.
    fn mul_small(&self, k: u64) -> (r: FieldElement)
        requires
            self.wf(),
            k <= RADIX,
        ensures
            r.wf(),
            r@ == (self@ * (k as nat)) % modulus(),
    {
        proof {
            lemma_radix_pow_values();
        }
        let mut acc = FieldElement::zero();
        let mut pw = *self;
        let mut x: u64 = k;
        let mut i: u64 = 0;
        proof {
            assert(x <= (0x1ff_ffff_ffff_ffff_u64 >> 0u64)) by (bit_vector)
                requires
                    x <= 0x100_0000_0000_0000,
            ;
        }
        while i < 57
            invariant
                i <= 57,
                x <= (0x1ff_ffff_ffff_ffff_u64 >> i),
                acc.wf(),
                pw.wf(),
                self.wf(),
                modulus() > 1,
                (acc@ + pw@ * (x as nat)) % modulus() == (self@ * (k as nat)) % modulus(),
            decreases 57 - i,
        {
            let bit: bool = (x & 1) == 1;
            let t = acc.add(&pw);
            let next_acc = FieldElement::conditional_select(&acc, &t, bit);
            let next_pw = pw.add(&pw);
            let next_x: u64 = x >> 1;
            proof {
                assert(next_x <= (0x1ff_ffff_ffff_ffff_u64 >> (i + 1) as u64)) by (bit_vector)
                    requires
                        x <= (0x1ff_ffff_ffff_ffff_u64 >> i),
                        next_x == x >> 1,
                        i < 57,
                ;
                let m = modulus() as int;
                assert((x & 1) == x % 2 && (x >> 1) == x / 2) by (bit_vector);
                let b: int = if bit { 1 } else { 0 };
                if !bit {
                    lemma_small_mod(acc@, modulus());
                }
                assert(next_acc@ == (acc@ as int + b * pw@) % m);
                assert(next_pw@ == (2 * pw@ as int) % m);
                lemma_mod_mul_add(acc@ as int + b * pw@, 2 * pw@ as int, next_x as int, m);
                assert(acc@ + b * pw@ + 2 * pw@ * next_x == acc@ + pw@ * x) by (nonlinear_arith)
                    requires
                        x == 2 * next_x + b,
                ;
            }
            acc = next_acc;
            pw = next_pw;
            x = next_x;
            i = i + 1;
        }
        proof {
            assert(x == 0) by (bit_vector)
                requires
                    x <= (0x1ff_ffff_ffff_ffff_u64 >> i),
                    i == 57,
            ;
            assert(pw@ * x == 0) by (nonlinear_arith)
                requires
                    x == 0,
            ;
            lemma_small_mod(acc@, modulus());
        }
        acc
    }

    /// The product modulo the prime.
    pub fn mul(&self, rhs: &FieldElement) -> (r: FieldElement)
        requires
            self.wf(),
            rhs.wf(),
        ensures
            r.wf(),
            r@ == fmul(self@, rhs@),
    {
        proof {
            lemma_radix_pow_values();
        }
        let mut acc = FieldElement::zero();
        let mut pw = *self;
        let mut i: usize = 0;
        proof {
            assert(limbs_val(rhs.limbs@, 0) == 0);
            assert(self@ * limbs_val(rhs.limbs@, 0) == 0);
            assert(self@ * radix_pow(0) == self@);
            lemma_small_mod(0, modulus());
            lemma_small_mod(self@, modulus());
        }
        while i < 8
            invariant
                i <= 8,
                acc.wf(),
                pw.wf(),
                self.wf(),
                rhs.wf(),
                modulus() > 1,
                acc@ == (self@ * limbs_val(rhs.limbs@, i as nat)) % modulus(),
                pw@ == (self@ * radix_pow(i as nat)) % modulus(),
            decreases 8 - i,
        {
            let term = pw.mul_small(rhs.limbs[i]);
            let next_acc = acc.add(&term);
            let next_pw = pw.mul_small(RADIX);
            proof {
                let m = modulus() as int;
                let a = self@ as int;
                let l = limbs_val(rhs.limbs@, i as nat) as int;
                let p = radix_pow(i as nat) as int;
                let d = rhs.limbs@[i as int] as int;
                lemma_limbs_val_step(rhs.limbs@, i as nat);
                lemma_mul_mod_noop_left(a * p, d, m);
                lemma_add_mod_noop(a * l, a * p * d, m);
                lemma_mod_twice(a * l, m);
                lemma_mod_twice(a * p * d, m);
                assert(a * l + a * p * d == a * (l + d * p)) by (nonlinear_arith);
                lemma_mul_mod_noop_left(a * p, radix() as int, m);
                assert(a * p * radix() == a * (radix() * p)) by (nonlinear_arith);
            }
            acc = next_acc;
            pw = next_pw;
            i = i + 1;
        }
        acc
    }

    /// The square modulo the prime.
    pub fn square(&self) -> (r: FieldElement)
        requires
            self.wf(),
        ensures
            r.wf(),
            r@ == fmul(self@, self@),
    {
        self.mul(self)
    }

    /// Reads 56 little-endian bytes and reduces them modulo the prime.
    pub fn from_bytes(bytes: &[u8; 56]) -> (r: FieldElement)
        ensures
            r.wf(),
            r@ == le_bytes_val(bytes@) % modulus(),
    {
        proof {
            lemma_radix_pow_values();
        }
        let mut acc = FieldElement::zero();
        let mut k: usize = 56;
        while k > 0
            invariant
                k <= 56,
                acc.wf(),
                modulus() > 1,
                acc@ == le_bytes_val(bytes@.skip(k as int)) % modulus(),
            decreases k,
        {
            k = k - 1;
            let byte = FieldElement::from_small(bytes[k] as u64);
            let shifted = acc.mul_small(256);
            let next = shifted.add(&byte);
            proof {
                let m = modulus() as int;
                let rest = le_bytes_val(bytes@.skip(k + 1)) as int;
                let b = bytes@[k as int] as int;
                assert(bytes@.skip(k as int).skip(1) =~= bytes@.skip(k + 1));
                assert(le_bytes_val(bytes@.skip(k as int)) == b + 256 * rest);
                lemma_mul_mod_noop_left(rest, 256, m);
                lemma_small_mod(b as nat, modulus());
                lemma_add_mod_noop(rest * 256, b, m);
                lemma_mod_twice(rest * 256, m);
            }
            acc = next;
        }
        proof {
            assert(bytes@.skip(0) =~= bytes@);
        }
        acc
    }
}

} // verus!
