//! Arbitrary-precision natural numbers, little-endian in base `2^32`, with exactly
//! the operations exact `m * 2^k` decimal conversion needs. Every operation that
//! can grow a value is fallible: growth beyond the limb cap and a refused
//! reservation are both reported as [`FormatError::AllocationFailed`].
use vstd::arithmetic::power2::{lemma2_to64, lemma_pow2_adds, lemma_pow2_pos, pow2};
use vstd::prelude::*;
use vstd::std_specs::cmp::PartialOrdSpecImpl;

use core::cmp::Ordering;

use crate::limits::FormatError;

verus! {

/// Upper bound on the limbs a single value may occupy.
pub const MAX_LIMBS: usize = 256;

/// `2^(32 k)`.
pub open spec fn bpow(k: nat) -> nat
    decreases k,
{
    if k == 0 {
        1
    } else {
        4294967296 * bpow((k - 1) as nat)
    }
}

/// The number little-endian limbs spell.
pub open spec fn value_of(s: Seq<u32>) -> nat
    decreases s.len(),
{
    if s.len() == 0 {
        0
    } else {
        value_of(s.drop_last()) + bpow((s.len() - 1) as nat) * (s.last() as nat)
    }
}

/// `10^e`.
pub open spec fn pow10(e: nat) -> nat
    decreases e,
{
    if e == 0 {
        1
    } else {
        10 * pow10((e - 1) as nat)
    }
}

pub proof fn lemma_pow10_add(a: nat, b: nat)
    ensures
        pow10(a + b) == pow10(a) * pow10(b),
    decreases b,
{
    if b == 0 {
        assert(a + b == a);
        assert(pow10(a) * 1 == pow10(a));
    } else {
        lemma_pow10_add(a, (b - 1) as nat);
        let x = pow10(a);
        let y = pow10((b - 1) as nat);
        assert((a + (b - 1) as nat) as nat == (a + b - 1) as nat);
        assert(pow10((a + b - 1) as nat) == x * y);
        assert(pow10(b) == 10 * y);
        assert(10 * (x * y) == x * (10 * y)) by (nonlinear_arith);
    }
}

/// Normalized (no zero limb on top) and within the limb cap.
pub open spec fn limbs_wf(s: Seq<u32>) -> bool {
    &&& s.len() <= MAX_LIMBS
    &&& (s.len() == 0 || s.last() != 0)
}

// ---------------------------------------------------------------------------
// Lemmas about limbs
// ---------------------------------------------------------------------------

pub proof fn lemma_bpow_pos(k: nat)
    ensures
        bpow(k) >= 1,
    decreases k,
{
    if k > 0 {
        lemma_bpow_pos((k - 1) as nat);
    }
}

pub proof fn lemma_bpow_add(a: nat, b: nat)
    ensures
        bpow(a + b) == bpow(a) * bpow(b),
    decreases b,
{
    if b == 0 {
        assert(bpow(0) == 1);
        assert(a + b == a);
        assert(bpow(a) * 1 == bpow(a));
    } else {
        lemma_bpow_add(a, (b - 1) as nat);
        let x = bpow(a);
        let y = bpow((b - 1) as nat);
        assert((a + (b - 1) as nat) as nat == (a + b - 1) as nat);
        assert(bpow((a + b - 1) as nat) == x * y);
        assert(bpow(a + b) == 4294967296 * bpow((a + b - 1) as nat));
        assert(bpow(b) == 4294967296 * y);
        assert(4294967296 * (x * y) == x * (4294967296 * y)) by (nonlinear_arith);
    }
}

pub proof fn lemma_bpow_pow2(k: nat)
    ensures
        bpow(k) == pow2(32 * k),
    decreases k,
{
    if k == 0 {
        lemma2_to64();
    } else {
        lemma_bpow_pow2((k - 1) as nat);
        lemma_pow2_adds(32 * (k - 1) as nat, 32);
        lemma2_to64();
        assert(32 * (k - 1) as nat + 32 == 32 * k);
    }
}

proof fn lemma_value_push(s: Seq<u32>, x: u32)
    ensures
        value_of(s.push(x)) == value_of(s) + bpow(s.len()) * (x as nat),
{
    assert(s.push(x).drop_last() =~= s);
}

proof fn lemma_value_bound(s: Seq<u32>)
    ensures
        value_of(s) < bpow(s.len()),
    decreases s.len(),
{
    if s.len() > 0 {
        let d = s.drop_last();
        lemma_value_bound(d);
        let p = bpow(d.len());
        let v = value_of(d);
        let x = s.last() as nat;
        assert(v + p * x < p * 4294967296) by (nonlinear_arith)
            requires
                v < p,
                x <= 4294967295,
        ;
        assert(bpow(s.len()) == 4294967296 * p);
    }
}

proof fn lemma_value_top(s: Seq<u32>)
    requires
        s.len() > 0,
        s.last() != 0,
    ensures
        value_of(s) >= bpow((s.len() - 1) as nat),
{
    let p = bpow((s.len() - 1) as nat);
    let x = s.last() as nat;
    assert(p * x >= p) by (nonlinear_arith)
        requires
            x >= 1,
    ;
}

proof fn lemma_value_concat(a: Seq<u32>, b: Seq<u32>)
    ensures
        value_of(a + b) == value_of(a) + bpow(a.len()) * value_of(b),
    decreases b.len(),
{
    if b.len() == 0 {
        assert(a + b =~= a);
        assert(value_of(b) == 0);
        assert(bpow(a.len()) * 0 == 0);
    } else {
        let d = b.drop_last();
        lemma_value_concat(a, d);
        assert((a + b).drop_last() =~= a + d);
        assert((a + b).last() == b.last());
        lemma_bpow_add(a.len(), d.len());
        let pa = bpow(a.len());
        let pd = bpow(d.len());
        let x = b.last() as nat;
        let vd = value_of(d);
        assert((a + b).len() - 1 == a.len() + d.len());
        assert(value_of(a + b) == value_of(a + d) + bpow((a.len() + d.len()) as nat) * x);
        assert(value_of(b) == vd + pd * x);
        assert(pa * (vd + pd * x) == pa * vd + (pa * pd) * x) by (nonlinear_arith);
    }
}

proof fn lemma_value_take(s: Seq<u32>, i: int)
    requires
        0 <= i < s.len(),
    ensures
        value_of(s.take(i + 1)) == value_of(s.take(i)) + bpow(i as nat) * (s[i] as nat),
{
    assert(s.take(i + 1) =~= s.take(i).push(s[i]));
    lemma_value_push(s.take(i), s[i]);
}

proof fn lemma_value_skip(s: Seq<u32>, i: int)
    requires
        0 <= i < s.len(),
    ensures
        value_of(s.skip(i)) == (s[i] as nat) + 4294967296 * value_of(s.skip(i + 1)),
{
    assert(s.skip(i) =~= seq![s[i]] + s.skip(i + 1));
    lemma_value_concat(seq![s[i]], s.skip(i + 1));
    lemma_value_single(s[i]);
    reveal_with_fuel(bpow, 2);
    assert(bpow(1) == 4294967296);
}

proof fn lemma_value_single(x: u32)
    ensures
        value_of(seq![x]) == x as nat,
{
    let one = seq![x];
    assert(one.drop_last() =~= Seq::<u32>::empty());
    assert(value_of(one.drop_last()) == 0);
    assert(bpow(0) == 1);
    assert(one.last() == x);
    assert(value_of(one) == value_of(one.drop_last()) + bpow(0) * (x as nat));
}

proof fn lemma_value_three(lo: u32, mid: u32, hi: u32)
    ensures
        value_of(seq![lo, mid, hi]) == lo as nat + 4294967296 * (mid as nat) + 18446744073709551616
            * (hi as nat),
{
    let three = seq![lo, mid, hi];
    let two = seq![lo, mid];
    assert(three.drop_last() =~= two);
    assert(two.drop_last() =~= seq![lo]);
    lemma_value_single(lo);
    reveal_with_fuel(bpow, 3);
    assert(value_of(two) == value_of(seq![lo]) + bpow(1) * (mid as nat));
    assert(value_of(three) == value_of(two) + bpow(2) * (hi as nat));
}

/// Replacing one limb changes the value by that limb's weight times the change.
proof fn lemma_value_update(s: Seq<u32>, i: int, x: u32)
    requires
        0 <= i < s.len(),
    ensures
        value_of(s.update(i, x)) + bpow(i as nat) * (s[i] as nat) == value_of(s) + bpow(i as nat)
            * (x as nat),
{
    let t = s.update(i, x);
    lemma_value_split(s, i);
    lemma_value_split(t, i);
    lemma_value_skip(s, i);
    lemma_value_skip(t, i);
    assert(t.take(i) =~= s.take(i));
    assert(t.skip(i + 1) =~= s.skip(i + 1));
    let p = bpow(i as nat);
    let v = value_of(s.skip(i + 1));
    assert(p * ((x as nat) + 4294967296 * v) + p * (s[i] as nat) == p * ((s[i] as nat) + 4294967296
        * v) + p * (x as nat)) by (nonlinear_arith);
}

/// Limbs that are all zero spell zero.
proof fn lemma_value_all_zero(s: Seq<u32>)
    requires
        forall|k: int| 0 <= k < s.len() ==> s[k] == 0,
    ensures
        value_of(s) == 0,
{
    assert(s =~= Seq::new(s.len(), |i: int| 0u32));
    lemma_value_zeros(s.len());
}

proof fn lemma_value_split(s: Seq<u32>, i: int)
    requires
        0 <= i <= s.len(),
    ensures
        value_of(s) == value_of(s.take(i)) + bpow(i as nat) * value_of(s.skip(i)),
{
    assert(s =~= s.take(i) + s.skip(i));
    lemma_value_concat(s.take(i), s.skip(i));
}

proof fn lemma_value_zeros(k: nat)
    ensures
        value_of(Seq::new(k, |i: int| 0u32)) == 0,
    decreases k,
{
    let z = Seq::new(k, |i: int| 0u32);
    if k > 0 {
        assert(z.drop_last() =~= Seq::new((k - 1) as nat, |i: int| 0u32));
        lemma_value_zeros((k - 1) as nat);
        assert(z.last() == 0);
        assert(bpow((k - 1) as nat) * 0 == 0);
    } else {
        assert(z.len() == 0);
    }
}

/// A normalized value is zero exactly when it has no limbs.
proof fn lemma_wf_zero(s: Seq<u32>)
    requires
        limbs_wf(s),
    ensures
        value_of(s) == 0 <==> s.len() == 0,
{
    if s.len() > 0 {
        lemma_value_top(s);
        lemma_bpow_pos((s.len() - 1) as nat);
    }
}

/// A normalized value with fewer limbs is smaller.
proof fn lemma_wf_len_order(a: Seq<u32>, b: Seq<u32>)
    requires
        limbs_wf(a),
        limbs_wf(b),
        a.len() < b.len(),
    ensures
        value_of(a) < value_of(b),
{
    lemma_value_bound(a);
    lemma_value_top(b);
    if a.len() < b.len() - 1 {
        lemma_bpow_add(a.len(), (b.len() - 1 - a.len()) as nat);
        lemma_bpow_pos((b.len() - 1 - a.len()) as nat);
        let x = bpow(a.len());
        let y = bpow((b.len() - 1 - a.len()) as nat);
        assert(x * y >= x) by (nonlinear_arith)
            requires
                y >= 1,
        ;
        assert(a.len() + (b.len() - 1 - a.len()) as nat == (b.len() - 1) as nat);
    }
}

/// How two numbers compare.
#[derive(Debug, Clone, Copy, PartialEq, Eq, Structural)]
pub enum Comparison {
    Less,
    Equal,
    Greater,
}

pub open spec fn compare_values(a: nat, b: nat) -> Comparison {
    if a < b {
        Comparison::Less
    } else if a == b {
        Comparison::Equal
    } else {
        Comparison::Greater
    }
}

/// The first difference between the limbs below position `i`, from the top.
pub open spec fn top_order(a: Seq<u32>, b: Seq<u32>, i: int) -> Comparison
    decreases i,
{
    if i <= 0 {
        Comparison::Equal
    } else if a[i - 1] < b[i - 1] {
        Comparison::Less
    } else if a[i - 1] > b[i - 1] {
        Comparison::Greater
    } else {
        top_order(a, b, i - 1)
    }
}

/// The order on representations: fewer limbs first, then the first differing limb
/// from the top.
pub open spec fn limb_order(a: Seq<u32>, b: Seq<u32>) -> Comparison {
    if a.len() < b.len() {
        Comparison::Less
    } else if a.len() > b.len() {
        Comparison::Greater
    } else {
        top_order(a, b, a.len() as int)
    }
}

proof fn lemma_first_difference(a: Seq<u32>, b: Seq<u32>, j: int)
    requires
        a.len() == b.len(),
        0 <= j < a.len(),
        a.skip(j + 1) == b.skip(j + 1),
        a[j] < b[j],
    ensures
        value_of(a) < value_of(b),
{
    lemma_value_split(a, j);
    lemma_value_split(b, j);
    lemma_value_skip(a, j);
    lemma_value_skip(b, j);
    lemma_value_bound(a.take(j));
    let p = bpow(j as nat);
    let ta = value_of(a.take(j));
    let tb = value_of(b.take(j));
    let v = value_of(a.skip(j + 1));
    let x = a[j] as nat;
    let y = b[j] as nat;
    assert(ta + p * (x + 4294967296 * v) < tb + p * (y + 4294967296 * v)) by (nonlinear_arith)
        requires
            ta < p,
            x < y,
            tb >= 0,
    ;
}

proof fn lemma_top_order_values(a: Seq<u32>, b: Seq<u32>, i: int)
    requires
        a.len() == b.len(),
        0 <= i <= a.len(),
        a.skip(i) == b.skip(i),
    ensures
        top_order(a, b, i) == compare_values(value_of(a), value_of(b)),
    decreases i,
{
    if i == 0 {
        assert(a =~= a.skip(0));
        assert(b =~= b.skip(0));
    } else {
        let k = i - 1;
        if a[k] < b[k] {
            lemma_first_difference(a, b, k);
        } else if a[k] > b[k] {
            lemma_first_difference(b, a, k);
        } else {
            assert(a.skip(k) =~= seq![a[k]] + a.skip(i));
            assert(b.skip(k) =~= seq![b[k]] + b.skip(i));
            lemma_top_order_values(a, b, k);
        }
    }
}

/// On normalized values the order on representations is the order on magnitudes.
pub proof fn lemma_limb_order_is_magnitude(a: Seq<u32>, b: Seq<u32>)
    requires
        limbs_wf(a),
        limbs_wf(b),
    ensures
        limb_order(a, b) == compare_values(value_of(a), value_of(b)),
{
    if a.len() < b.len() {
        lemma_wf_len_order(a, b);
    } else if a.len() > b.len() {
        lemma_wf_len_order(b, a);
    } else {
        assert(a.skip(a.len() as int) =~= b.skip(b.len() as int));
        lemma_top_order_values(a, b, a.len() as int);
    }
}

/// Compares two limb sequences: fewer limbs first, then from the top.
fn compare_limbs(a: &Vec<u32>, b: &Vec<u32>) -> (c: Comparison)
    ensures
        c == limb_order(a@, b@),
{
    if a.len() < b.len() {
        return Comparison::Less;
    }
    if a.len() > b.len() {
        return Comparison::Greater;
    }
    let n = a.len();
    let mut i = n;
    while i > 0
        invariant
            i <= n,
            n == a@.len(),
            n == b@.len(),
            top_order(a@, b@, n as int) == top_order(a@, b@, i as int),
        decreases i,
    {
        let k = i - 1;
        if a[k] < b[k] {
            return Comparison::Less;
        }
        if a[k] > b[k] {
            return Comparison::Greater;
        }
        i = k;
    }
    Comparison::Equal
}

/// Grows the reservation of `limbs` by `additional`, refusing to pass the limb cap.
fn reserve(limbs: &mut Vec<u32>, additional: usize) -> (r: Result<(), FormatError>)
    ensures
        final(limbs)@ == old(limbs)@,
        r is Ok ==> old(limbs)@.len() + additional <= MAX_LIMBS,
        old(limbs)@.len() + additional > MAX_LIMBS ==> r == Err::<(), FormatError>(
            FormatError::AllocationFailed,
        ),
        r matches Err(e) ==> e == FormatError::AllocationFailed,
{
    let total = match limbs.len().checked_add(additional) {
        Some(t) => t,
        None => {
            return Err(FormatError::AllocationFailed);
        },
    };
    if total > MAX_LIMBS {
        return Err(FormatError::AllocationFailed);
    }
    match limbs.try_reserve(additional) {
        Ok(()) => Ok(()),
        Err(_) => Err(FormatError::AllocationFailed),
    }
}

/// Removes zero limbs from the top.
fn trim_limbs(limbs: &mut Vec<u32>)
    requires
        old(limbs)@.len() <= MAX_LIMBS,
    ensures
        value_of(final(limbs)@) == value_of(old(limbs)@),
        limbs_wf(final(limbs)@),
{
    while limbs.len() > 0 && limbs[limbs.len() - 1] == 0
        invariant
            value_of(limbs@) == value_of(old(limbs)@),
            limbs@.len() <= MAX_LIMBS,
        decreases limbs@.len(),
    {
        let ghost before = limbs@;
        assert(before.last() == 0);
        limbs.pop();
        assert(limbs@ =~= before.drop_last());
    }
}

/// A natural number, little-endian in base `2^32`, normalized so the top limb is
/// never zero.
#[derive(Debug, PartialEq, Eq)]
pub struct BigNat {
    limbs: Vec<u32>,
}

impl View for BigNat {
    type V = nat;

    closed spec fn view(&self) -> nat {
        value_of(self.limbs@)
    }
}

impl Clone for BigNat {
    /// The same number, limb for limb.
    fn clone(&self) -> (c: BigNat)
        ensures
            c@ == self@,
            c.wf() == self.wf(),
            c.limb_count() == self.limb_count(),
    {
        let mut limbs: Vec<u32> = Vec::new();
        let mut i: usize = 0;
        while i < self.limbs.len()
            invariant
                i <= self.limbs@.len(),
                limbs@ == self.limbs@.take(i as int),
            decreases self.limbs@.len() - i,
        {
            limbs.push(self.limbs[i]);
            assert(self.limbs@.take(i + 1) =~= self.limbs@.take(i as int).push(self.limbs@[i as int]));
            i = i + 1;
        }
        assert(self.limbs@.take(self.limbs@.len() as int) =~= self.limbs@);
        BigNat { limbs }
    }
}

impl BigNat {
    /// Whether the representation is normalized and within the limb cap.
    pub closed spec fn wf(&self) -> bool {
        limbs_wf(self.limbs@)
    }

    /// The number of limbs.
    pub closed spec fn limb_count(&self) -> nat {
        self.limbs@.len()
    }

    /// The number zero, holding no allocation.
    pub fn zero() -> (z: BigNat)
        ensures
            z.wf(),
            z@ == 0,
    {
        BigNat { limbs: Vec::new() }
    }

    /// `value * 2^shift`.
    pub fn try_from_u64_shl(value: u64, shift: u32) -> (r: Result<BigNat, FormatError>)
        ensures
            match r {
                Ok(b) => b.wf() && b@ == value * pow2(shift as nat),
                Err(e) => e == FormatError::AllocationFailed && value != 0,
            },
            value == 0 ==> r is Ok,
            value != 0 && shift / 32 + 3 > MAX_LIMBS ==> r is Err,
    {
        let mut out = BigNat { limbs: Vec::new() };
        if value == 0 {
            return Ok(out);
        }
        let limb_shift = (shift / 32) as usize;
        reserve(&mut out.limbs, limb_shift + 3)?;
        assert(out.limbs@ =~= Seq::new(0, |k: int| 0u32));
        let mut i: usize = 0;
        while i < limb_shift
            invariant
                i <= limb_shift,
                limb_shift + 3 <= MAX_LIMBS,
                out.limbs@ == Seq::new(i as nat, |k: int| 0u32),
            decreases limb_shift - i,
        {
            out.limbs.push(0);
            assert(out.limbs@ =~= Seq::new((i + 1) as nat, |k: int| 0u32));
            i = i + 1;
        }
        let bit_shift = shift % 32;
        proof {
            lemma2_to64();
        }
        let mut p: u128 = 1;
        let mut k: u32 = 0;
        while k < bit_shift
            invariant
                k <= bit_shift,
                bit_shift < 32,
                p == pow2(k as nat),
            decreases bit_shift - k,
        {
            proof {
                vstd::arithmetic::power2::lemma_pow2_unfold((k + 1) as nat);
                vstd::arithmetic::power2::lemma_pow2_strictly_increases(k as nat, 32);
                lemma2_to64();
            }
            p = p * 2;
            k = k + 1;
        }
        proof {
            lemma_pow2_pos(bit_shift as nat);
            if bit_shift < 31 {
                vstd::arithmetic::power2::lemma_pow2_strictly_increases(bit_shift as nat, 31);
            }
            lemma2_to64();
        }
        assert(value * p <= 0xFFFF_FFFF_FFFF_FFFF * 0x8000_0000) by (nonlinear_arith)
            requires
                p <= 0x8000_0000,
                value <= 0xFFFF_FFFF_FFFF_FFFF,
        ;
        let widened: u128 = (value as u128) * p;
        let lo = (widened % 4294967296) as u32;
        let mid = ((widened / 4294967296) % 4294967296) as u32;
        let hi = (widened / 18446744073709551616) as u32;
        let ghost zeros = out.limbs@;
        out.limbs.push(lo);
        out.limbs.push(mid);
        out.limbs.push(hi);
        proof {
            let three = seq![lo, mid, hi];
            assert(out.limbs@ =~= zeros + three);
            lemma_value_three(lo, mid, hi);
            let w = widened as int;
            vstd::arithmetic::div_mod::lemma_fundamental_div_mod(w, 4294967296);
            vstd::arithmetic::div_mod::lemma_fundamental_div_mod(w / 4294967296, 4294967296);
            vstd::arithmetic::div_mod::lemma_div_denominator(w, 4294967296, 4294967296);
            assert(lo as int == w % 4294967296);
            assert(mid as int == (w / 4294967296) % 4294967296);
            assert(hi as int == w / 18446744073709551616);
            lemma_value_concat(zeros, three);
            lemma_value_zeros(limb_shift as nat);
            assert(three.drop_last() =~= seq![lo, mid]);
            assert(seq![lo, mid].drop_last() =~= seq![lo]);
            assert(seq![lo].drop_last() =~= Seq::<u32>::empty());
            reveal_with_fuel(bpow, 3);
            assert(value_of(three) == widened);
            lemma_bpow_pow2(limb_shift as nat);
            lemma_pow2_adds(32 * limb_shift as nat, bit_shift as nat);
            assert(32 * limb_shift as nat + bit_shift as nat == shift as nat);
            let a = bpow(limb_shift as nat);
            assert(a * (value * p) == value * (a * p)) by (nonlinear_arith);
        }
        trim_limbs(&mut out.limbs);
        Ok(out)
    }

    /// `1 << shift`.
    pub fn try_pow2(shift: u32) -> (r: Result<BigNat, FormatError>)
        ensures
            match r {
                Ok(b) => b.wf() && b@ == pow2(shift as nat),
                Err(e) => e == FormatError::AllocationFailed,
            },
            shift / 32 + 3 > MAX_LIMBS ==> r is Err,
    {
        BigNat::try_from_u64_shl(1, shift)
    }

    /// Whether this is zero.
    pub fn is_zero(&self) -> (b: bool)
        requires
            self.wf(),
        ensures
            b == (self@ == 0),
    {
        proof {
            lemma_wf_zero(self.limbs@);
        }
        self.limbs.len() == 0
    }

    /// Number of significant bits; zero has none.
    pub fn bit_len(&self) -> (n: u32)
        requires
            self.wf(),
        ensures
            self@ == 0 ==> n == 0,
            self@ > 0 ==> pow2((n - 1) as nat) <= self@ < pow2(n as nat),
    {
        let len = self.limbs.len();
        if len == 0 {
            return 0;
        }
        let top = self.limbs[len - 1];
        proof {
            lemma2_to64();
            lemma_wf_zero(self.limbs@);
        }
        let mut t = top;
        let mut bits: u32 = 0;
        while t > 0
            invariant
                bits <= 32,
                t as nat == top as nat / pow2(bits as nat),
                t > 0 ==> bits < 32,
                bits > 0 ==> top as nat / pow2((bits - 1) as nat) >= 1,
            decreases t,
        {
            proof {
                vstd::arithmetic::power2::lemma_pow2_unfold((bits + 1) as nat);
                lemma_pow2_pos(bits as nat);
                vstd::arithmetic::div_mod::lemma_div_denominator(top as int, pow2(bits as nat) as int, 2);
                if bits == 31 {
                    lemma2_to64();
                    assert(top as nat / 2147483648 <= 1) by (nonlinear_arith)
                        requires
                            top < 4294967296,
                    ;
                }
            }
            t = t / 2;
            bits = bits + 1;
        }
        proof {
            self.top_bits(top, bits);
        }
        ((len - 1) as u32) * 32 + bits
    }

    proof fn top_bits(&self, top: u32, bits: u32)
        requires
            self.wf(),
            self.limbs@.len() > 0,
            top == self.limbs@.last(),
            bits <= 32,
            top as nat / pow2(bits as nat) == 0,
            bits > 0 ==> top as nat / pow2((bits - 1) as nat) >= 1,
        ensures
            pow2(((self.limbs@.len() - 1) * 32 + bits - 1) as nat) <= self@ < pow2(
                ((self.limbs@.len() - 1) * 32 + bits) as nat,
            ),
    {
        let s = self.limbs@;
        let n = s.len();
        let d = s.drop_last();
        lemma_value_bound(d);
        lemma_bpow_pow2((n - 1) as nat);
        let p = bpow((n - 1) as nat);
        let vd = value_of(d);
        let t = top as nat;
        lemma_pow2_pos(bits as nat);
        let hi = pow2(bits as nat);
        vstd::arithmetic::div_mod::lemma_fundamental_div_mod(t as int, hi as int);
        assert(t < hi);
        assert(bits > 0) by {
            if bits == 0 {
                lemma2_to64();
            }
        }
        let lo = pow2((bits - 1) as nat);
        lemma_pow2_pos((bits - 1) as nat);
        vstd::arithmetic::div_mod::lemma_fundamental_div_mod(t as int, lo as int);
        assert(t >= lo) by (nonlinear_arith)
            requires
                t == lo * (t / lo) + t % lo,
                t / lo >= 1,
                t % lo >= 0,
                lo > 0,
        ;
        assert(self@ == vd + p * t);
        assert(vd + p * t >= p * lo && vd + p * t < p * hi) by (nonlinear_arith)
            requires
                vd < p,
                lo <= t,
                t < hi,
                t + 1 <= hi,
                vd >= 0,
        ;
        lemma_pow2_adds(32 * (n - 1) as nat, (bits - 1) as nat);
        lemma_pow2_adds(32 * (n - 1) as nat, bits as nat);
        assert(((n - 1) * 32 + bits - 1) as nat == 32 * (n - 1) as nat + (bits - 1) as nat);
        assert(((n - 1) * 32 + bits) as nat == 32 * (n - 1) as nat + bits as nat);
    }

    /// Copies `other` into `self`, reusing whatever capacity `self` already has.
    pub fn try_clone_from(&mut self, other: &BigNat) -> (r: Result<(), FormatError>)
        requires
            other.wf(),
        ensures
            match r {
                Ok(()) => final(self).wf() && final(self)@ == other@,
                Err(e) => e == FormatError::AllocationFailed && final(self)@ == 0 && final(self).wf(),
            },
    {
        self.limbs.clear();
        reserve(&mut self.limbs, other.limbs.len())?;
        let mut i: usize = 0;
        while i < other.limbs.len()
            invariant
                i <= other.limbs@.len(),
                self.limbs@ == other.limbs@.take(i as int),
            decreases other.limbs@.len() - i,
        {
            self.limbs.push(other.limbs[i]);
            assert(other.limbs@.take(i + 1) =~= other.limbs@.take(i as int).push(other.limbs@[i as int]));
            i = i + 1;
        }
        assert(other.limbs@.take(i as int) =~= other.limbs@);
        Ok(())
    }

    /// `self *= factor`, for a factor that fits in one limb.
    pub fn try_mul_small(&mut self, factor: u32) -> (r: Result<(), FormatError>)
        requires
            old(self).wf(),
        ensures
            match r {
                Ok(()) => final(self).wf() && final(self)@ == old(self)@ * factor,
                Err(e) => e == FormatError::AllocationFailed && old(self)@ * factor >= bpow(
                    old(self).limb_count(),
                ) && final(self)@ == (old(self)@ * factor) % (bpow(old(self).limb_count()) as int),
            },
    {
        if factor == 0 {
            self.limbs.clear();
            assert(self.limbs@.len() == 0);
            proof {
                let v = value_of(old(self).limbs@);
                assert(v * 0 == 0) by (nonlinear_arith);
            }
            return Ok(());
        }
        if factor == 1 || self.limbs.len() == 0 {
            proof {
                lemma_wf_zero(self.limbs@);
                let v = value_of(self.limbs@);
                assert(v * factor == v) by (nonlinear_arith)
                    requires
                        factor == 1 || v == 0,
                ;
            }
            return Ok(());
        }
        let n = self.limbs.len();
        let ghost start = self.limbs@;
        let mut carry: u64 = 0;
        let mut i: usize = 0;
        proof {
            assert(self.limbs@.take(0) =~= Seq::<u32>::empty());
            assert(start.take(0) =~= Seq::<u32>::empty());
            assert(value_of(Seq::<u32>::empty()) == 0);
            assert((factor as nat) * 0 == 0);
            assert(0 * bpow(0) == 0);
            assert(self.limbs@.skip(0) =~= start.skip(0));
        }
        while i < n
            invariant
                i <= n,
                n == self.limbs@.len(),
                n == start.len(),
                self.limbs@.skip(i as int) == start.skip(i as int),
                value_of(self.limbs@.take(i as int)) + carry * bpow(i as nat) == (factor as nat)
                    * value_of(start.take(i as int)),
                carry < 4294967296,
            decreases n - i,
        {
            let limb = self.limbs[i];
            assert(limb == start[i as int]) by {
                assert(self.limbs@.skip(i as int)[0] == start.skip(i as int)[0]);
            }
            assert((limb as u64) * (factor as u64) <= 0xFFFF_FFFE_0000_0001) by (nonlinear_arith)
                requires
                    limb <= 0xFFFF_FFFF,
                    factor <= 0xFFFF_FFFF,
            ;
            let product: u64 = (limb as u64) * (factor as u64) + carry;
            let low = (product % 4294967296) as u32;
            let next = product / 4294967296;
            let ghost before = self.limbs@;
            self.limbs.set(i, low);
            proof {
                assert(self.limbs@.take(i as int) =~= before.take(i as int));
                assert(self.limbs@.skip(i + 1) =~= start.skip(i + 1)) by {
                    assert(before.skip(i as int).skip(1) =~= before.skip(i + 1));
                    assert(start.skip(i as int).skip(1) =~= start.skip(i + 1));
                }
                lemma_value_take(self.limbs@, i as int);
                lemma_value_take(start, i as int);
                let p = bpow(i as nat);
                assert(bpow((i + 1) as nat) == 4294967296 * p);
                let vt = value_of(before.take(i as int));
                let vs = value_of(start.take(i as int));
                vstd::arithmetic::div_mod::lemma_fundamental_div_mod(product as int, 4294967296);
                assert(vt + p * low + next * (4294967296 * p) == (factor as nat) * (vs + p * limb))
                    by (nonlinear_arith)
                    requires
                        vt + carry * p == factor * vs,
                        product == limb * factor + carry,
                        product == 4294967296 * next + low,
                ;
                assert(next < 4294967296) by (nonlinear_arith)
                    requires
                        limb < 4294967296,
                        factor < 4294967296,
                        carry < 4294967296,
                        product == limb * factor + carry,
                        next == product / 4294967296,
                ;
            }
            carry = next;
            i = i + 1;
        }
        assert(self.limbs@.take(n as int) =~= self.limbs@);
        assert(start.take(n as int) =~= start);
        proof {
            lemma_value_bound(self.limbs@);
            lemma_value_top(start);
            assert(self.limbs@.len() == start.len());
            let v0 = value_of(start);
            assert(v0 * factor == (factor as nat) * v0) by (nonlinear_arith);
        }
        if carry != 0 {
            let ghost before = self.limbs@;
            match reserve(&mut self.limbs, 1) {
                Ok(()) => {},
                Err(e) => {
                    proof {
                        let p = bpow(n as nat);
                        let v = value_of(before);
                        assert(v + carry * p >= p) by (nonlinear_arith)
                            requires
                                carry >= 1,
                                v >= 0,
                        ;
                        vstd::arithmetic::div_mod::lemma_fundamental_div_mod_converse(
                            (v + carry * p) as int,
                            p as int,
                            carry as int,
                            v as int,
                        );
                    }
                    return Err(e);
                },
            }
            self.limbs.push(carry as u32);
            proof {
                lemma_value_push(before, carry as u32);
                let p = bpow(n as nat);
                assert(p * ((carry as u32) as nat) == carry * p) by (nonlinear_arith)
                    requires
                        (carry as u32) as nat == carry,
                ;
                assert(value_of(self.limbs@) == value_of(old(self).limbs@) * factor);
                assert(self.limbs@.last() != 0);
            }
        } else {
            proof {
                let d = self.limbs@.drop_last();
                lemma_value_bound(d);
                let top = bpow((n - 1) as nat);
                assert((factor as nat) * value_of(start) >= value_of(start)) by (nonlinear_arith)
                    requires
                        factor >= 1,
                ;
                assert(carry * bpow(n as nat) == 0);
                assert(value_of(self.limbs@) == (factor as nat) * value_of(start));
                assert(value_of(self.limbs@) == value_of(old(self).limbs@) * factor);
                if self.limbs@.last() == 0 {
                    assert(top * 0 == 0);
                    assert(value_of(self.limbs@) == value_of(d) + top * 0);
                    assert(false);
                }
            }
        }
        Ok(())
    }

    /// `self *= 10^exponent`.
    pub fn try_mul_pow10(&mut self, exponent: u32) -> (r: Result<(), FormatError>)
        requires
            old(self).wf(),
        ensures
            match r {
                Ok(()) => final(self).wf() && final(self)@ == old(self)@
                    * pow10(exponent as nat),
                Err(e) => e == FormatError::AllocationFailed,
            },
    {
        if self.limbs.len() == 0 {
            proof {
                lemma_wf_zero(self.limbs@);
                let q = pow10(exponent as nat);
                assert(0 * q == 0) by (nonlinear_arith);
            }
            return Ok(());
        }
        let ghost start = self@;
        let mut e = exponent;
        while e >= 9
            invariant
                self.wf(),
                e <= exponent,
                self@ * pow10(e as nat) == start
                    * pow10(exponent as nat),
            decreases e,
        {
            let ghost before = self@;
            self.try_mul_small(1_000_000_000)?;
            proof {
                lemma_pow10_add(9, (e - 9) as nat);
                reveal_with_fuel(pow10, 10);
                assert(pow10(9) == 1_000_000_000);
                let q = pow10((e - 9) as nat);
                assert((before * 1_000_000_000) * q == before * (1_000_000_000 * q))
                    by (nonlinear_arith);
                assert((9 + (e - 9) as nat) as nat == e as nat);
            }
            e = e - 9;
        }
        if e > 0 {
            let ghost before = self@;
            let factor = pow10_small(e);
            self.try_mul_small(factor)?;
            assert(self@ == before * pow10(e as nat));
        } else {
            assert(pow10(0) == 1);
            let ghost v = self@;
            assert(v * 1 == v) by (nonlinear_arith);
        }
        Ok(())
    }

    /// `self += other`.
    #[verifier::spinoff_prover]
    #[verifier::rlimit(40)]
    pub fn try_add_assign(&mut self, other: &BigNat) -> (r: Result<(), FormatError>)
        requires
            old(self).wf(),
            other.wf(),
        ensures
            match r {
                Ok(()) => final(self).wf() && final(self)@ == old(self)@ + other@,
                Err(e) => e == FormatError::AllocationFailed,
            },
            other@ == 0 ==> r is Ok && final(self)@ == old(self)@,
    {
        proof {
            lemma_wf_zero(other.limbs@);
        }
        if other.limbs.len() == 0 {
            proof {
                lemma_wf_zero(other.limbs@);
            }
            return Ok(());
        }
        let extra = if other.limbs.len() > self.limbs.len() {
            other.limbs.len() - self.limbs.len()
        } else {
            0
        };
        if extra != 0 {
            reserve(&mut self.limbs, extra)?;
            let ghost before = self.limbs@;
            while self.limbs.len() < other.limbs.len()
                invariant
                    before.len() <= self.limbs@.len() <= other.limbs@.len(),
                    self.limbs@ == before + Seq::new((self.limbs@.len() - before.len()) as nat, |k: int| 0u32),
                decreases other.limbs@.len() - self.limbs@.len(),
            {
                let ghost k = (self.limbs@.len() - before.len()) as nat;
                self.limbs.push(0);
                assert(self.limbs@ =~= before + Seq::new(k + 1, |j: int| 0u32));
            }
            proof {
                let z = Seq::new((self.limbs@.len() - before.len()) as nat, |k: int| 0u32);
                lemma_value_concat(before, z);
                lemma_value_zeros(z.len());
                assert(bpow(before.len()) * 0 == 0);
            }
        }
        let n = self.limbs.len();
        let m = other.limbs.len();
        let ghost start = self.limbs@;
        let ghost oe = other.limbs@ + Seq::new((n - m) as nat, |k: int| 0u32);
        proof {
            lemma_value_concat(other.limbs@, Seq::new((n - m) as nat, |k: int| 0u32));
            lemma_value_zeros((n - m) as nat);
            assert(bpow(m as nat) * 0 == 0);
            assert(oe.take(0) =~= Seq::<u32>::empty());
            assert(self.limbs@.skip(0) == start.skip(0));
        }
        let mut carry: u64 = 0;
        let mut index: usize = 0;
        let mut done = false;
        while index < n && !done
            invariant
                index <= n,
                m <= n,
                n == self.limbs@.len(),
                n == start.len(),
                n <= MAX_LIMBS,
                m == other.limbs@.len(),
                oe == other.limbs@ + Seq::new((n - m) as nat, |k: int| 0u32),
                value_of(oe) == value_of(other.limbs@),
                carry <= 1,
                self.limbs@.skip(index as int) == start.skip(index as int),
                !done ==> value_of(self.limbs@) + carry * bpow(index as nat) == value_of(start)
                    + value_of(oe.take(index as int)),
                done ==> value_of(self.limbs@) == value_of(start) + value_of(oe) && carry == 0,
            decreases n - index, if done { 0int } else { 1int },
        {
            let limb = self.limbs[index];
            assert(limb == start[index as int]) by {
                assert(self.limbs@.skip(index as int)[0] == start.skip(index as int)[0]);
            }
            let addend: u64 = if index < m {
                other.limbs[index] as u64
            } else {
                0
            };
            assert(addend == oe[index as int]);
            let sum: u64 = (limb as u64) + addend + carry;
            let low = (sum % 4294967296) as u32;
            let next = sum / 4294967296;
            let ghost before = self.limbs@;
            self.limbs.set(index, low);
            proof {
                lemma_value_update(before, index as int, low);
                lemma_value_take(oe, index as int);
                let p = bpow(index as nat);
                assert(bpow((index + 1) as nat) == 4294967296 * p);
                vstd::arithmetic::div_mod::lemma_fundamental_div_mod(sum as int, 4294967296);
                assert(p * low + next * (4294967296 * p) == p * limb + p * addend + p * carry)
                    by (nonlinear_arith)
                    requires
                        sum == limb + addend + carry,
                        sum == 4294967296 * next + low,
                ;
                assert(self.limbs@.skip(index + 1) =~= start.skip(index + 1)) by {
                    assert(before.skip(index as int).skip(1) =~= before.skip(index + 1));
                    assert(start.skip(index as int).skip(1) =~= start.skip(index + 1));
                }
            }
            carry = next;
            if carry == 0 && index >= m {
                proof {
                    let rest = oe.skip(index + 1);
                    assert forall|k: int| 0 <= k < rest.len() implies rest[k] == 0 by {
                        assert(rest[k] == oe[index + 1 + k]);
                    }
                    lemma_value_all_zero(rest);
                    lemma_value_split(oe, index + 1);
                    assert(bpow((index + 1) as nat) * 0 == 0);
                    assert(0 * bpow((index + 1) as nat) == 0);
                }
                done = true;
            }
            index = index + 1;
        }
        if !done {
            assert(oe.take(n as int) =~= oe);
        }
        proof {
            lemma_value_bound(self.limbs@);
            assert(value_of(start) == value_of(old(self).limbs@));
        }
        if carry != 0 {
            let ghost before = self.limbs@;
            reserve(&mut self.limbs, 1)?;
            self.limbs.push(carry as u32);
            proof {
                lemma_value_push(before, carry as u32);
                assert(bpow(n as nat) * 1 == bpow(n as nat));
            }
        } else {
            proof {
                let d = self.limbs@.drop_last();
                lemma_value_bound(d);
                assert(carry * bpow(n as nat) == 0) by (nonlinear_arith)
                    requires
                        carry == 0,
                ;
                if m == n {
                    lemma_value_top(other.limbs@);
                } else {
                    lemma_value_top(old(self).limbs@);
                }
                if self.limbs@.last() == 0 {
                    assert(bpow((n - 1) as nat) * 0 == 0);
                    assert(false);
                }
            }
        }
        Ok(())
    }

    /// `self -= other`, clamping to zero when `other` is the larger.
    pub fn sub_assign(&mut self, other: &BigNat)
        requires
            old(self).wf(),
            other.wf(),
        ensures
            final(self).wf(),
            final(self)@ == (if old(self)@ < other@ {
                0
            } else {
                (old(self)@ - other@) as nat
            }),
    {
        if other.limbs.len() == 0 {
            proof {
                lemma_wf_zero(other.limbs@);
            }
            return;
        }
        proof {
            lemma_limb_order_is_magnitude(self.limbs@, other.limbs@);
        }
        if compare_limbs(&self.limbs, &other.limbs) == Comparison::Less {
            self.limbs.clear();
            assert(self.limbs@.len() == 0);
            return;
        }
        proof {
            if self.limbs@.len() < other.limbs@.len() {
                lemma_wf_len_order(self.limbs@, other.limbs@);
            }
        }
        let n = self.limbs.len();
        let m = other.limbs.len();
        let ghost start = self.limbs@;
        let ghost oe = other.limbs@ + Seq::new((n - m) as nat, |k: int| 0u32);
        proof {
            lemma_value_concat(other.limbs@, Seq::new((n - m) as nat, |k: int| 0u32));
            lemma_value_zeros((n - m) as nat);
            assert(bpow(m as nat) * 0 == 0);
            assert(oe.take(0) =~= Seq::<u32>::empty());
            assert(self.limbs@.skip(0) == start.skip(0));
        }
        let mut borrow: i64 = 0;
        let mut index: usize = 0;
        let mut done = false;
        while index < n && !done
            invariant
                index <= n,
                m <= n,
                n == self.limbs@.len(),
                n == start.len(),
                m == other.limbs@.len(),
                oe == other.limbs@ + Seq::new((n - m) as nat, |k: int| 0u32),
                value_of(oe) == value_of(other.limbs@),
                0 <= borrow <= 1,
                self.limbs@.skip(index as int) == start.skip(index as int),
                !done ==> value_of(self.limbs@) + value_of(oe.take(index as int)) == value_of(start)
                    + borrow * bpow(index as nat),
                done ==> value_of(self.limbs@) + value_of(oe) == value_of(start) && borrow == 0,
            decreases n - index, if done { 0int } else { 1int },
        {
            let limb = self.limbs[index];
            assert(limb == start[index as int]) by {
                assert(self.limbs@.skip(index as int)[0] == start.skip(index as int)[0]);
            }
            let subtrahend: i64 = if index < m {
                other.limbs[index] as i64
            } else {
                0
            };
            assert(subtrahend == oe[index as int]);
            let difference: i64 = (limb as i64) - subtrahend - borrow;
            let low: u32;
            let next: i64;
            if difference < 0 {
                low = (difference + 4294967296) as u32;
                next = 1;
            } else {
                low = difference as u32;
                next = 0;
            }
            let ghost before = self.limbs@;
            self.limbs.set(index, low);
            proof {
                lemma_value_update(before, index as int, low);
                lemma_value_take(oe, index as int);
                let p = bpow(index as nat);
                assert(bpow((index + 1) as nat) == 4294967296 * p);
                assert(p * low - p * limb + p * subtrahend == next * (4294967296 * p) - p * borrow)
                    by (nonlinear_arith)
                    requires
                        low - 4294967296 * next == limb - subtrahend - borrow,
                ;
                assert(self.limbs@.skip(index + 1) =~= start.skip(index + 1)) by {
                    assert(before.skip(index as int).skip(1) =~= before.skip(index + 1));
                    assert(start.skip(index as int).skip(1) =~= start.skip(index + 1));
                }
            }
            borrow = next;
            if borrow == 0 && index >= m {
                proof {
                    let rest = oe.skip(index + 1);
                    assert forall|k: int| 0 <= k < rest.len() implies rest[k] == 0 by {
                        assert(rest[k] == oe[index + 1 + k]);
                    }
                    lemma_value_all_zero(rest);
                    lemma_value_split(oe, index + 1);
                    assert(bpow((index + 1) as nat) * 0 == 0);
                    assert(0 * bpow((index + 1) as nat) == 0);
                }
                done = true;
            }
            index = index + 1;
        }
        proof {
            if !done {
                assert(oe.take(n as int) =~= oe);
                lemma_value_bound(self.limbs@);
                if borrow == 1 {
                    assert(1 * bpow(n as nat) == bpow(n as nat));
                }
            }
            assert(value_of(start) == value_of(old(self).limbs@));
        }
        trim_limbs(&mut self.limbs);
    }

    /// `self /= divisor`, returning the remainder; a zero divisor leaves `self`
    /// alone and returns zero.
    pub fn divmod_small(&mut self, divisor: u32) -> (rem: u32)
        requires
            old(self).wf(),
        ensures
            final(self).wf(),
            divisor == 0 ==> rem == 0 && final(self)@ == old(self)@,
            divisor > 0 ==> final(self)@ == old(self)@ / (divisor as nat) && rem == old(self)@
                % (divisor as nat),
    {
        if divisor == 0 || self.limbs.len() == 0 {
            proof {
                lemma_wf_zero(self.limbs@);
                if divisor > 0 {
                    vstd::arithmetic::div_mod::lemma_small_mod(0, divisor as nat);
                    assert(0nat / (divisor as nat) == 0) by (nonlinear_arith)
                        requires
                            divisor > 0,
                    ;
                }
            }
            return 0;
        }
        let n = self.limbs.len();
        let ghost start = self.limbs@;
        let d = divisor as u64;
        let mut remainder: u64 = 0;
        let mut i: usize = n;
        proof {
            assert(start.skip(n as int) =~= Seq::<u32>::empty());
            assert(self.limbs@.skip(n as int) =~= Seq::<u32>::empty());
            assert(d * 0 == 0);
        }
        while i > 0
            invariant
                i <= n,
                n == self.limbs@.len(),
                n == start.len(),
                n <= MAX_LIMBS,
                d == divisor,
                d > 0,
                remainder < d,
                self.limbs@.take(i as int) == start.take(i as int),
                value_of(start.skip(i as int)) == d * value_of(self.limbs@.skip(i as int)) + remainder,
            decreases i,
        {
            let k = i - 1;
            let limb = self.limbs[k];
            assert(limb == start[k as int]) by {
                assert(self.limbs@.take(i as int)[k as int] == start.take(i as int)[k as int]);
            }
            assert(remainder * 4294967296 + limb < d * 4294967296) by (nonlinear_arith)
                requires
                    remainder < d,
                    limb < 4294967296,
            ;
            let current: u64 = remainder * 4294967296 + (limb as u64);
            let q = current / d;
            let r = current % d;
            assert(q < 4294967296) by (nonlinear_arith)
                requires
                    current < d * 4294967296,
                    q == current / d,
                    d > 0,
            ;
            let ghost before = self.limbs@;
            self.limbs.set(k, q as u32);
            proof {
                let now = self.limbs@;
                assert(now.take(k as int) =~= start.take(k as int)) by {
                    assert(before.take(i as int).take(k as int) =~= before.take(k as int));
                    assert(start.take(i as int).take(k as int) =~= start.take(k as int));
                }
                assert(now.skip(i as int) =~= before.skip(i as int));
                lemma_value_skip(now, k as int);
                lemma_value_skip(start, k as int);
                vstd::arithmetic::div_mod::lemma_fundamental_div_mod(current as int, d as int);
                let vs = value_of(before.skip(i as int));
                assert(limb + 4294967296 * (d * vs + remainder) == d * (q + 4294967296 * vs) + r)
                    by (nonlinear_arith)
                    requires
                        current == remainder * 4294967296 + limb,
                        current == d * q + r,
                ;
            }
            remainder = r;
            i = k;
        }
        proof {
            assert(start.skip(0) =~= start);
            assert(self.limbs@.skip(0) =~= self.limbs@);
            let vq = value_of(self.limbs@);
            assert(d * vq == vq * d) by (nonlinear_arith);
            vstd::arithmetic::div_mod::lemma_fundamental_div_mod_converse(
                value_of(start) as int,
                d as int,
                value_of(self.limbs@) as int,
                remainder as int,
            );
        }
        trim_limbs(&mut self.limbs);
        remainder as u32
    }

    /// The low `bits` bits (all 32 of the lowest limb from 32 up).
    pub fn low_bits(&self, bits: u32) -> (r: u32)
        requires
            self.wf(),
        ensures
            r == self@ % pow2(if bits >= 32 {
                32nat
            } else {
                bits as nat
            }),
    {
        let ghost b: nat = if bits >= 32 {
            32nat
        } else {
            bits as nat
        };
        proof {
            lemma_pow2_pos(b);
            lemma2_to64();
            if self.limbs@.len() > 0 {
                lemma_value_skip(self.limbs@, 0);
                assert(self.limbs@.skip(0) =~= self.limbs@);
                let rest = value_of(self.limbs@.skip(1));
                let low = self.limbs@[0] as nat;
                let pb = pow2(b);
                lemma_pow2_adds(b, (32 - b) as nat);
                assert(b + (32 - b) as nat == 32);
                let pc = pow2((32 - b) as nat);
                assert(4294967296 * rest == pb * (pc * rest)) by (nonlinear_arith)
                    requires
                        pb * pc == 4294967296,
                ;
                vstd::arithmetic::div_mod::lemma_mod_multiples_vanish((pc * rest) as int, low as int, pb as int);
            } else {
                lemma_wf_zero(self.limbs@);
                vstd::arithmetic::div_mod::lemma_small_mod(0, pow2(b));
            }
        }
        let mask: u32 = if bits >= 32 {
            u32::MAX
        } else {
            proof {
                vstd::bits::lemma_u32_shl_is_mul(1, bits);
                vstd::arithmetic::power2::lemma_pow2_strictly_increases(bits as nat, 32);
            }
            (1u32 << bits) - 1
        };
        if self.limbs.len() == 0 {
            0
        } else {
            let low = self.limbs[0];
            proof {
                if bits >= 32 {
                    assert(low & 0xFFFF_FFFF == low) by (bit_vector);
                    vstd::arithmetic::div_mod::lemma_small_mod(low as nat, pow2(32));
                } else {
                    vstd::bits::lemma_u32_low_bits_mask_is_mod(low, bits as nat);
                    vstd::bits::lemma_low_bits_mask_values();
                    assert(vstd::bits::low_bits_mask(bits as nat) == pow2(bits as nat) - 1);
                }
            }
            low & mask
        }
    }

    /// `self >>= bits`.
    pub fn shr_assign(&mut self, bits: u32)
        requires
            old(self).wf(),
        ensures
            final(self).wf(),
            final(self)@ == old(self)@ / pow2(bits as nat),
    {
        proof {
            lemma_pow2_pos(bits as nat);
        }
        if bits == 0 || self.limbs.len() == 0 {
            proof {
                lemma_wf_zero(self.limbs@);
                lemma2_to64();
                let v = value_of(self.limbs@);
                assert(v / pow2(bits as nat) == v) by (nonlinear_arith)
                    requires
                        bits == 0 ==> pow2(bits as nat) == 1,
                        bits != 0 ==> v == 0,
                        pow2(bits as nat) > 0,
                ;
            }
            return;
        }
        let limb_shift = (bits / 32) as usize;
        let ghost start = self.limbs@;
        let ghost bs: nat = (bits % 32) as nat;
        proof {
            lemma_bpow_pow2(limb_shift as nat);
            lemma_pow2_adds(32 * limb_shift as nat, bs);
            assert(32 * limb_shift as nat + bs == bits as nat);
            lemma_pow2_pos(bs);
            lemma_bpow_pos(limb_shift as nat);
        }
        if limb_shift >= self.limbs.len() {
            self.limbs.clear();
            proof {
                lemma_value_bound(start);
                let n = start.len();
                if (n as nat) < limb_shift as nat {
                    lemma_bpow_add(n as nat, (limb_shift - n) as nat);
                    lemma_bpow_pos((limb_shift - n) as nat);
                    let x = bpow(n as nat);
                    let y = bpow((limb_shift - n) as nat);
                    assert(x * y >= x) by (nonlinear_arith)
                        requires
                            y >= 1,
                    ;
                }
                let v = value_of(start);
                let pb = pow2(bits as nat);
                let a = bpow(limb_shift as nat);
                let c = pow2(bs);
                assert(a * c >= a) by (nonlinear_arith)
                    requires
                        c >= 1,
                ;
                vstd::arithmetic::div_mod::lemma_small_div_converse(v as int, pb as int);
                assert(v / pb == 0) by (nonlinear_arith)
                    requires
                        v < pb,
                        pb > 0,
                ;
                assert(self.limbs@.len() == 0);
            }
            return;
        }
        if limb_shift != 0 {
            let n = self.limbs.len();
            let mut tail: Vec<u32> = Vec::new();
            let mut k = limb_shift;
            while k < n
                invariant
                    limb_shift <= k <= n,
                    n == self.limbs@.len(),
                    self.limbs@ == start,
                    tail@ == start.subrange(limb_shift as int, k as int),
                decreases n - k,
            {
                tail.push(self.limbs[k]);
                assert(start.subrange(limb_shift as int, k + 1) =~= start.subrange(
                    limb_shift as int,
                    k as int,
                ).push(start[k as int]));
                k = k + 1;
            }
            assert(tail@ =~= start.skip(limb_shift as int));
            self.limbs = tail;
        } else {
            assert(start.skip(0) =~= start);
        }
        proof {
            lemma_value_split(start, limb_shift as int);
            lemma_value_bound(start.take(limb_shift as int));
            let a = bpow(limb_shift as nat);
            let vk = value_of(start.skip(limb_shift as int));
            assert(a * vk == vk * a) by (nonlinear_arith);
            vstd::arithmetic::div_mod::lemma_fundamental_div_mod_converse(
                value_of(start) as int,
                bpow(limb_shift as nat) as int,
                value_of(start.skip(limb_shift as int)) as int,
                value_of(start.take(limb_shift as int)) as int,
            );
        }
        let ghost tail = self.limbs@;
        let bit_shift = bits % 32;
        if bit_shift != 0 {
            proof {
                vstd::arithmetic::power2::lemma_pow2_strictly_increases(bit_shift as nat, 32);
                vstd::arithmetic::power2::lemma_pow2_strictly_increases((32 - bit_shift) as nat, 64);
                lemma2_to64();
                assert(1 * pow2(bit_shift as nat) == pow2(bit_shift as nat));
                assert(1 * pow2((32 - bit_shift) as nat) == pow2((32 - bit_shift) as nat));
                vstd::bits::lemma_u32_shl_is_mul(1, bit_shift);
                vstd::bits::lemma_u64_shl_is_mul(1, (32 - bit_shift) as u64);
                lemma_pow2_adds(bit_shift as nat, (32 - bit_shift) as nat);
                assert(bit_shift as nat + (32 - bit_shift) as nat == 32);
            }
            let p: u32 = 1u32 << bit_shift;
            let q: u64 = 1u64 << ((32 - bit_shift) as u64);
            assert(p as nat * q as nat == 4294967296);
            let n = self.limbs.len();
            let mut carry: u32 = 0;
            let ghost mut low: nat = 0;
            let mut i = n;
            proof {
                assert(tail.skip(n as int) =~= Seq::<u32>::empty());
                assert(self.limbs@.skip(n as int) =~= Seq::<u32>::empty());
                assert(0 * p == 0);
            }
            while i > 0
                invariant
                    i <= n,
                    n == self.limbs@.len(),
                    n == tail.len(),
                    n <= MAX_LIMBS,
                    p > 0,
                    p as nat * q as nat == 4294967296,
                    low < p,
                    carry as nat == low * q,
                    self.limbs@.take(i as int) == tail.take(i as int),
                    value_of(self.limbs@.skip(i as int)) * p + low == value_of(tail.skip(i as int)),
                decreases i,
            {
                let k = i - 1;
                let value = self.limbs[k];
                assert(value == tail[k as int]) by {
                    assert(self.limbs@.take(i as int)[k as int] == tail.take(i as int)[k as int]);
                }
                let hi = value / p;
                let rem = value % p;
                assert(hi as nat * p + rem == value) by {
                    vstd::arithmetic::div_mod::lemma_fundamental_div_mod(value as int, p as int);
                }
                assert(hi + carry < 4294967296) by (nonlinear_arith)
                    requires
                        hi * p + rem == value,
                        value < 4294967296,
                        rem >= 0,
                        carry == low * q,
                        low < p,
                        p * q == 4294967296,
                        p > 0,
                ;
                let new_limb: u32 = hi + carry;
                assert(rem as nat * q < 4294967296) by (nonlinear_arith)
                    requires
                        rem < p,
                        p * q == 4294967296,
                ;
                let next: u32 = ((rem as u64) * q) as u32;
                let ghost before = self.limbs@;
                self.limbs.set(k, new_limb);
                proof {
                    let now = self.limbs@;
                    assert(now.take(k as int) =~= tail.take(k as int)) by {
                        assert(before.take(i as int).take(k as int) =~= before.take(k as int));
                        assert(tail.take(i as int).take(k as int) =~= tail.take(k as int));
                    }
                    assert(now.skip(i as int) =~= before.skip(i as int));
                    lemma_value_skip(now, k as int);
                    lemma_value_skip(tail, k as int);
                    let vs = value_of(before.skip(i as int));
                    let vt = value_of(tail.skip(i as int));
                    assert((new_limb + 4294967296 * vs) * p + rem == value + 4294967296 * vt)
                        by (nonlinear_arith)
                        requires
                            new_limb == hi + low * q,
                            hi * p + rem == value,
                            vs * p + low == vt,
                            p * q == 4294967296,
                    ;
                    low = rem as nat;
                }
                carry = next;
                i = k;
            }
            proof {
                assert(tail.skip(0) =~= tail);
                assert(self.limbs@.skip(0) =~= self.limbs@);
                vstd::arithmetic::div_mod::lemma_fundamental_div_mod_converse(
                    value_of(tail) as int,
                    p as int,
                    value_of(self.limbs@) as int,
                    low as int,
                );
            }
        } else {
            proof {
                lemma2_to64();
                let v = value_of(tail);
                assert(v / 1 == v);
            }
        }
        proof {
            vstd::arithmetic::div_mod::lemma_div_denominator(
                value_of(start) as int,
                bpow(limb_shift as nat) as int,
                pow2(bs) as int,
            );
        }
        trim_limbs(&mut self.limbs);
    }

    /// Representation order: fewer limbs first, then the first differing limb
    /// from the top.
    pub closed spec fn order_with(&self, other: BigNat) -> Comparison {
        limb_order(self.limbs@, other.limbs@)
    }

    /// On normalized values the representation order is the order of magnitudes.
    pub proof fn lemma_order_is_magnitude(&self, other: BigNat)
        requires
            self.wf(),
            other.wf(),
        ensures
            self.order_with(other) == compare_values(self@, other@),
    {
        lemma_limb_order_is_magnitude(self.limbs@, other.limbs@);
    }

    /// How the magnitudes of two normalized values compare.
    pub fn compare(&self, other: &BigNat) -> (c: Comparison)
        requires
            self.wf(),
            other.wf(),
        ensures
            c == compare_values(self@, other@),
    {
        proof {
            lemma_limb_order_is_magnitude(self.limbs@, other.limbs@);
        }
        compare_limbs(&self.limbs, &other.limbs)
    }

    /// A normalized value is below `2^(32 MAX_LIMBS)`.
    pub proof fn lemma_wf_bound(&self)
        requires
            self.wf(),
        ensures
            self@ < pow2(32 * MAX_LIMBS as nat),
    {
        lemma_value_bound(self.limbs@);
        lemma_bpow_pow2(self.limbs@.len());
        lemma_bpow_pow2(MAX_LIMBS as nat);
        if self.limbs@.len() < MAX_LIMBS {
            vstd::arithmetic::power2::lemma_pow2_strictly_increases(
                32 * self.limbs@.len(),
                32 * MAX_LIMBS as nat,
            );
        }
    }

    /// Compares by magnitude (for normalized values): fewer limbs first, then
    /// from the top.
    pub fn cmp(&self, other: &BigNat) -> (o: Ordering)
        ensures
            o == ordering_from(self.order_with(*other)),
    {
        let c = compare_limbs(&self.limbs, &other.limbs);
        ordering_of(c)
    }
}

/// `10^e` for `e` below ten.
fn pow10_small(e: u32) -> (p: u32)
    requires
        e < 10,
    ensures
        p == pow10(e as nat),
{
    proof {
        reveal_with_fuel(pow10, 10);
    }
    if e == 0 {
        1
    } else if e == 1 {
        10
    } else if e == 2 {
        100
    } else if e == 3 {
        1000
    } else if e == 4 {
        10000
    } else if e == 5 {
        100000
    } else if e == 6 {
        1000000
    } else if e == 7 {
        10000000
    } else if e == 8 {
        100000000
    } else {
        1000000000
    }
}

pub open spec fn ordering_from(c: Comparison) -> Ordering {
    match c {
        Comparison::Less => Ordering::Less,
        Comparison::Equal => Ordering::Equal,
        Comparison::Greater => Ordering::Greater,
    }
}

fn ordering_of(c: Comparison) -> (o: Ordering)
    ensures
        o == ordering_from(c),
{
    match c {
        Comparison::Less => Ordering::Less,
        Comparison::Equal => Ordering::Equal,
        Comparison::Greater => Ordering::Greater,
    }
}

impl PartialOrd for BigNat {
    fn partial_cmp(&self, other: &BigNat) -> (r: Option<Ordering>) {
        Some(self.cmp(other))
    }
}

impl PartialOrdSpecImpl for BigNat {
    open spec fn obeys_partial_cmp_spec() -> bool {
        true
    }

    open spec fn partial_cmp_spec(&self, other: &BigNat) -> Option<Ordering> {
        Some(ordering_from(self.order_with(*other)))
    }
}

} // verus!
