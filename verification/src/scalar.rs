//! Arbitrary-precision unsigned integers, the canonical form of one target
//! coordinate.
//!
//! The chain-construction strategies only ever ask a coefficient whether it
//! is zero or odd, halve it, subtract a smaller coefficient from it, and
//! compare two coefficients; the replay check also adds two coefficients.
//! All of those operations are implemented and verified here against the
//! mathematical value of the limb sequence.

use vstd::prelude::*;
use vstd::arithmetic::div_mod::lemma_mod_multiples_vanish;

verus! {

/// Value of one limb position: the limbs are little endian, base `2^64`.
pub open spec fn pow64(e: nat) -> nat
    decreases e,
{
    if e == 0 {
        1nat
    } else {
        0x1_0000_0000_0000_0000 * pow64((e - 1) as nat)
    }
}

/// The number that a little-endian limb sequence denotes.
pub open spec fn limbs_val(s: Seq<u64>) -> nat
    decreases s.len(),
{
    if s.len() == 0 {
        0nat
    } else {
        (s[0] as nat) + 0x1_0000_0000_0000_0000nat * limbs_val(s.subrange(1, s.len() as int))
    }
}

/// An arbitrary-precision unsigned integer: little-endian `u64` limbs with no
/// trailing zero limb, so that zero is the empty sequence and the
/// representation of every number is unique.
pub struct Scalar {
    limbs: Vec<u64>,
}

impl View for Scalar {
    type V = nat;

    closed spec fn view(&self) -> nat {
        limbs_val(self.limbs@)
    }
}

/// Three-way comparison result.
pub enum Cmp {
    Less,
    Equal,
    Greater,
}

pub proof fn lemma_pow64_pos(e: nat)
    ensures
        pow64(e) >= 1,
    decreases e,
{
    if e > 0 {
        lemma_pow64_pos((e - 1) as nat);
    }
}

pub proof fn lemma_pow64_increases(e1: nat, e2: nat)
    requires
        e1 <= e2,
    ensures
        pow64(e1) <= pow64(e2),
    decreases e2,
{
    if e1 < e2 {
        lemma_pow64_increases(e1, (e2 - 1) as nat);
        lemma_pow64_pos((e2 - 1) as nat);
        assert(pow64(e2) == 0x1_0000_0000_0000_0000 * pow64((e2 - 1) as nat));
        assert(pow64((e2 - 1) as nat) <= 0x1_0000_0000_0000_0000 * pow64((e2 - 1) as nat))
            by (nonlinear_arith)
            requires pow64((e2 - 1) as nat) >= 1,
        ;
    }
}

/// Appending a limb on the most-significant end adds its value scaled by the
/// base power of the old length.
pub proof fn lemma_val_snoc(s: Seq<u64>, x: u64)
    ensures
        limbs_val(s.push(x)) == limbs_val(s) + x * pow64(s.len()),
    decreases s.len(),
{
    if s.len() == 0 {
        assert(s.push(x).len() == 1);
        assert(s.push(x)[0] == x);
        assert(s.push(x).subrange(1, 1) =~= Seq::<u64>::empty());
        assert(limbs_val(s.push(x)) == x + 0x1_0000_0000_0000_0000nat * limbs_val(
            Seq::<u64>::empty(),
        ));
        assert(x * pow64(0) == x) by (nonlinear_arith)
            requires pow64(0) == 1,
        ;
    } else {
        let t = s.subrange(1, s.len() as int);
        assert(s.push(x).subrange(1, s.push(x).len() as int) =~= t.push(x));
        lemma_val_snoc(t, x);
        let b: nat = 0x1_0000_0000_0000_0000;
        assert(limbs_val(s.push(x)) == s[0] + b * (limbs_val(t) + x * pow64(t.len())));
        assert(b * (limbs_val(t) + x * pow64(t.len())) == b * limbs_val(t) + b * (x * pow64(
            t.len(),
        ))) by (nonlinear_arith);
        assert(b * (x * pow64(t.len())) == x * (b * pow64(t.len()))) by (nonlinear_arith);
        assert(pow64(s.len()) == b * pow64(t.len()));
    }
}

/// Upper bound: a sequence of `n` limbs denotes less than `2^(64 n)`.
pub proof fn lemma_val_upper(s: Seq<u64>)
    ensures
        limbs_val(s) < pow64(s.len()),
    decreases s.len(),
{
    if s.len() == 0 {
    } else {
        let t = s.subrange(1, s.len() as int);
        lemma_val_upper(t);
        let b: nat = 0x1_0000_0000_0000_0000;
        assert(b * limbs_val(t) <= b * (pow64(t.len()) - 1)) by (nonlinear_arith)
            requires limbs_val(t) <= pow64(t.len()) - 1,
        ;
        assert(limbs_val(s) <= b - 1 + b * pow64(t.len()) - b);
        assert(pow64(s.len()) == b * pow64(t.len()));
    }
}

/// Lower bound: with a nonzero most-significant limb, a sequence of `n`
/// limbs denotes at least `2^(64 (n - 1))`.
pub proof fn lemma_val_lower(s: Seq<u64>)
    requires
        s.len() > 0,
        s.last() != 0,
    ensures
        limbs_val(s) >= pow64((s.len() - 1) as nat),
{
    let d = s.drop_last();
    assert(d.push(s.last()) =~= s);
    lemma_val_snoc(d, s.last());
    assert(s.last() * pow64(d.len()) >= pow64(d.len())) by (nonlinear_arith)
        requires s.last() >= 1, pow64(d.len()) >= 0,
    ;
}

/// Dropping a zero most-significant limb does not change the value.
pub proof fn lemma_val_zero_tail(s: Seq<u64>)
    requires
        s.len() > 0,
        s.last() == 0,
    ensures
        limbs_val(s) == limbs_val(s.drop_last()),
{
    let d = s.drop_last();
    assert(d.push(s.last()) =~= s);
    lemma_val_snoc(d, s.last());
}

/// Splitting a limb sequence at `k` splits its value.
pub proof fn lemma_val_split(s: Seq<u64>, k: int)
    requires
        0 <= k <= s.len(),
    ensures
        limbs_val(s) == limbs_val(s.subrange(0, k)) + pow64(k as nat) * limbs_val(
            s.subrange(k, s.len() as int),
        ),
    decreases s.len() - k,
{
    let b: nat = 0x1_0000_0000_0000_0000;
    if k == s.len() {
        assert(s.subrange(0, k) =~= s);
        assert(s.subrange(k, s.len() as int) =~= Seq::<u64>::empty());
        assert(pow64(k as nat) * 0nat == 0) by (nonlinear_arith);
    } else {
        lemma_val_split(s, k + 1);
        assert(s.subrange(0, k + 1) =~= s.subrange(0, k).push(s[k]));
        lemma_val_snoc(s.subrange(0, k), s[k]);
        let hi = s.subrange(k, s.len() as int);
        let hi1 = s.subrange(k + 1, s.len() as int);
        assert(hi.len() > 0);
        assert(hi[0] == s[k]);
        assert(hi.subrange(1, hi.len() as int) =~= hi1);
        assert(limbs_val(hi) == s[k] + b * limbs_val(hi1));
        assert(pow64((k + 1) as nat) == b * pow64(k as nat));
        assert(pow64(k as nat) * ((s[k] as nat) + b * limbs_val(hi1)) == s[k] * pow64(k as nat) + (
        b * pow64(k as nat)) * limbs_val(hi1)) by (nonlinear_arith);
    }
}

/// If two equally long sequences agree strictly above position `j` and differ
/// at `j`, the one with the larger limb at `j` denotes the larger number.
pub proof fn lemma_val_high_limb_dominates(s: Seq<u64>, t: Seq<u64>, j: int)
    requires
        s.len() == t.len(),
        0 <= j < s.len(),
        s.subrange(j + 1, s.len() as int) == t.subrange(j + 1, t.len() as int),
        s[j] > t[j],
    ensures
        limbs_val(s) > limbs_val(t),
{
    let n = s.len() as int;
    let b: nat = 0x1_0000_0000_0000_0000;
    lemma_val_split(s, j);
    lemma_val_split(t, j);
    let shi = s.subrange(j, n);
    let thi = t.subrange(j, n);
    assert(shi.subrange(1, shi.len() as int) =~= s.subrange(j + 1, n));
    assert(thi.subrange(1, thi.len() as int) =~= t.subrange(j + 1, n));
    assert(limbs_val(shi) == s[j] + b * limbs_val(s.subrange(j + 1, n)));
    assert(limbs_val(thi) == t[j] + b * limbs_val(t.subrange(j + 1, n)));
    assert(limbs_val(shi) >= limbs_val(thi) + 1);
    lemma_val_upper(t.subrange(0, j));
    lemma_val_upper(s.subrange(0, j));
    assert(pow64(j as nat) * limbs_val(shi) >= pow64(j as nat) * limbs_val(thi) + pow64(j as nat))
        by (nonlinear_arith)
        requires limbs_val(shi) >= limbs_val(thi) + 1, pow64(j as nat) >= 0,
    ;
}

/// The parity of the value is the parity of the low limb.
pub proof fn lemma_val_parity(s: Seq<u64>)
    requires
        s.len() > 0,
    ensures
        limbs_val(s) % 2 == s[0] % 2,
{
    let r = limbs_val(s.subrange(1, s.len() as int));
    assert(limbs_val(s) == (s[0] as nat) + 0x1_0000_0000_0000_0000nat * r);
    assert(0x1_0000_0000_0000_0000nat * r == 2 * (0x8000_0000_0000_0000nat * r))
        by (nonlinear_arith);
    lemma_mod_multiples_vanish((0x8000_0000_0000_0000nat * r) as int, s[0] as int, 2);
}

/// Value at position `i`, padding with zero limbs beyond the end.
pub open spec fn limb_at(s: Seq<u64>, i: int) -> u64 {
    if 0 <= i < s.len() {
        s[i]
    } else {
        0u64
    }
}

/// Value of the first `k` limbs, padding with zero limbs beyond the end.
pub open spec fn val_prefix(s: Seq<u64>, k: int) -> nat {
    if k <= s.len() {
        limbs_val(s.subrange(0, if k < 0 { 0 } else { k }))
    } else {
        limbs_val(s)
    }
}

pub proof fn lemma_val_prefix_snoc(s: Seq<u64>, k: int)
    requires
        0 <= k,
    ensures
        val_prefix(s, k + 1) == val_prefix(s, k) + limb_at(s, k) * pow64(k as nat),
{
    if k < s.len() {
        assert(s.subrange(0, k + 1) =~= s.subrange(0, k).push(s[k]));
        lemma_val_snoc(s.subrange(0, k), s[k]);
    } else {
        if k == s.len() {
            assert(s.subrange(0, k) =~= s);
        }
        assert(limb_at(s, k) == 0);
        assert((0u64 as nat) * pow64(k as nat) == 0) by (nonlinear_arith);
    }
}

impl Scalar {
    /// No trailing zero limb: the representation is canonical.
    pub closed spec fn wf(&self) -> bool {
        self.limbs@.len() == 0 || self.limbs@.last() != 0
    }

    /// The zero scalar.
    pub fn zero() -> (r: Scalar)
        ensures
            r.wf(),
            r@ == 0,
    {
        Scalar { limbs: Vec::new() }
    }

    /// The scalar with the given `u64` value.
    pub fn from_u64(x: u64) -> (r: Scalar)
        ensures
            r.wf(),
            r@ == x,
    {
        let mut limbs: Vec<u64> = Vec::new();
        if x != 0 {
            limbs.push(x);
        }
        proof {
            if x != 0 {
                assert(limbs@ =~= Seq::<u64>::empty().push(x));
                lemma_val_snoc(Seq::<u64>::empty(), x);
                assert(x * pow64(0) == x) by (nonlinear_arith)
                    requires pow64(0) == 1,
                ;
            }
        }
        Scalar { limbs }
    }

    /// The scalar denoted by a little-endian limb sequence (trailing zero
    /// limbs allowed; they are trimmed).
    pub fn from_limbs(limbs: Vec<u64>) -> (r: Scalar)
        ensures
            r.wf(),
            r@ == limbs_val(limbs@),
    {
        let mut v = limbs;
        trim_limbs(&mut v);
        Scalar { limbs: v }
    }

    /// An identical copy.
    pub fn duplicate(&self) -> (r: Scalar)
        requires
            self.wf(),
        ensures
            r.wf(),
            r@ == self@,
    {
        let n = self.limbs.len();
        let mut limbs: Vec<u64> = Vec::new();
        let mut i: usize = 0;
        while i < n
            invariant
                i <= n,
                n == self.limbs@.len(),
                limbs@ == self.limbs@.subrange(0, i as int),
            decreases n - i,
        {
            limbs.push(self.limbs[i]);
            proof {
                assert(limbs@ =~= self.limbs@.subrange(0, i + 1));
            }
            i = i + 1;
        }
        proof {
            assert(limbs@ =~= self.limbs@);
        }
        Scalar { limbs }
    }

    /// Whether the value is zero.
    pub fn is_zero(&self) -> (r: bool)
        requires
            self.wf(),
        ensures
            r == (self@ == 0),
    {
        proof {
            if self.limbs@.len() > 0 {
                lemma_val_lower(self.limbs@);
                lemma_pow64_pos((self.limbs@.len() - 1) as nat);
            }
        }
        self.limbs.len() == 0
    }

    /// Whether the value is odd.
    pub fn is_odd(&self) -> (r: bool)
        requires
            self.wf(),
        ensures
            r == (self@ % 2 == 1),
    {
        if self.limbs.len() == 0 {
            false
        } else {
            proof {
                lemma_val_parity(self.limbs@);
            }
            self.limbs[0] % 2 == 1
        }
    }

    /// Three-way comparison by value.
    pub fn cmp_val(&self, other: &Scalar) -> (c: Cmp)
        requires
            self.wf(),
            other.wf(),
        ensures
            match c {
                Cmp::Less => self@ < other@,
                Cmp::Equal => self@ == other@,
                Cmp::Greater => self@ > other@,
            },
    {
        let la = self.limbs.len();
        let lb = other.limbs.len();
        if la < lb {
            proof {
                lemma_val_upper(self.limbs@);
                lemma_val_lower(other.limbs@);
                lemma_pow64_increases(la as nat, (lb - 1) as nat);
            }
            return Cmp::Less;
        }
        if la > lb {
            proof {
                lemma_val_upper(other.limbs@);
                lemma_val_lower(self.limbs@);
                lemma_pow64_increases(lb as nat, (la - 1) as nat);
            }
            return Cmp::Greater;
        }
        let mut i = la;
        while i > 0
            invariant
                i <= la,
                la == lb,
                la == self.limbs@.len(),
                lb == other.limbs@.len(),
                self.limbs@.subrange(i as int, la as int) == other.limbs@.subrange(
                    i as int,
                    lb as int,
                ),
            decreases i,
        {
            i = i - 1;
            let a = self.limbs[i];
            let b = other.limbs[i];
            if a < b {
                proof {
                    lemma_val_high_limb_dominates(other.limbs@, self.limbs@, i as int);
                }
                return Cmp::Less;
            }
            if a > b {
                proof {
                    lemma_val_high_limb_dominates(self.limbs@, other.limbs@, i as int);
                }
                return Cmp::Greater;
            }
            proof {
                let s = self.limbs@;
                let t = other.limbs@;
                assert forall|k: int| 0 <= k < la - i implies #[trigger] s.subrange(
                    i as int,
                    la as int,
                )[k] == t.subrange(i as int, lb as int)[k] by {
                    if k == 0 {
                        assert(s[i as int] == t[i as int]);
                    } else {
                        assert(s.subrange(i as int + 1, la as int)[k - 1] == t.subrange(
                            i as int + 1,
                            lb as int,
                        )[k - 1]);
                    }
                }
                assert(s.subrange(i as int, la as int) =~= t.subrange(i as int, lb as int));
            }
        }
        proof {
            assert(self.limbs@ =~= self.limbs@.subrange(0, la as int));
            assert(other.limbs@ =~= other.limbs@.subrange(0, lb as int));
        }
        Cmp::Equal
    }

    /// In-place floor division by two.
    pub fn div2(&mut self)
        requires
            old(self).wf(),
        ensures
            final(self).wf(),
            final(self)@ == old(self)@ / 2,
    {
        let ghost a = self.limbs@;
        let n = self.limbs.len();
        if n == 0 {
            return ;
        }
        proof {
            assert(((a[0] % 2) as nat) * pow64(0) == (a[0] % 2) as nat) by (nonlinear_arith)
                requires pow64(0) == 1,
            ;
        }
        let mut i: usize = 0;
        while i < n
            invariant
                i <= n,
                n >= 1,
                n == self.limbs@.len(),
                a.len() == n,
                self.limbs@.subrange(i as int, n as int) == a.subrange(i as int, n as int),
                2 * limbs_val(self.limbs@.subrange(0, i as int)) + ((a[0] % 2) as nat)
                    == limbs_val(a.subrange(0, i as int)) + ((limb_at(a, i as int) % 2) as nat)
                    * pow64(i as nat),
            decreases n - i,
        {
            let ghost pre = self.limbs@;
            let cur = self.limbs[i];
            let next: u64 = if i + 1 < n {
                self.limbs[i + 1]
            } else {
                0
            };
            let nl: u64 = (cur >> 1u64) | ((next & 1u64) << 63u64);
            self.limbs[i] = nl;
            proof {
                let p = pow64(i as nat);
                // bridge the reads to the original sequence
                assert(pre.subrange(i as int, n as int)[0] == a.subrange(i as int, n as int)[0]);
                assert(cur == a[i as int]);
                if i + 1 < n {
                    assert(pre.subrange(i as int, n as int)[1] == a.subrange(
                        i as int,
                        n as int,
                    )[1]);
                }
                assert(next == limb_at(a, i as int + 1));
                // per-limb identity for the shifted limb
                assert(2 * (nl as u128) == ((cur as u128) - ((cur % 2u64) as u128)) + ((next
                    % 2u64) as u128) * 0x1_0000_0000_0000_0000u128) by (bit_vector)
                    requires nl == (cur >> 1u64) | ((next & 1u64) << 63u64),
                ;
                assert(2 * (nl as nat) == ((cur - cur % 2) as nat) + ((next % 2) as nat)
                    * 0x1_0000_0000_0000_0000nat);
                // the new prefix extends the old one by the new limb
                assert(self.limbs@.subrange(0, i as int + 1) =~= pre.subrange(0, i as int).push(
                    nl,
                ));
                assert(pre.subrange(0, i as int) =~= self.limbs@.subrange(0, i as int));
                lemma_val_snoc(self.limbs@.subrange(0, i as int), nl);
                assert(a.subrange(0, i as int + 1) =~= a.subrange(0, i as int).push(a[i as int]));
                lemma_val_snoc(a.subrange(0, i as int), a[i as int]);
                // the suffix above i + 1 is still the original
                assert forall|k: int| 0 <= k < n - i - 1 implies #[trigger] self.limbs@.subrange(
                    i as int + 1,
                    n as int,
                )[k] == a.subrange(i as int + 1, n as int)[k] by {
                    assert(pre.subrange(i as int, n as int)[k + 1] == a.subrange(
                        i as int,
                        n as int,
                    )[k + 1]);
                }
                assert(self.limbs@.subrange(i as int + 1, n as int) =~= a.subrange(
                    i as int + 1,
                    n as int,
                ));
                // scale the per-limb identity by the base power
                assert(2 * ((nl as nat) * p) == ((cur - cur % 2) as nat) * p + ((next % 2) as nat)
                    * (0x1_0000_0000_0000_0000nat * p)) by (nonlinear_arith)
                    requires 2 * (nl as nat) == ((cur - cur % 2) as nat) + ((next % 2) as nat)
                        * 0x1_0000_0000_0000_0000nat,
                ;
                assert(((cur - cur % 2) as nat) * p == (cur as nat) * p - ((cur % 2) as nat) * p)
                    by (nonlinear_arith);
                assert(pow64((i + 1) as nat) == 0x1_0000_0000_0000_0000nat * pow64(i as nat));
            }
            i = i + 1;
        }
        proof {
            assert(self.limbs@.subrange(0, n as int) =~= self.limbs@);
            assert(a.subrange(0, n as int) =~= a);
            assert(limb_at(a, n as int) == 0);
            assert(((0u64 % 2) as nat) * pow64(n as nat) == 0) by (nonlinear_arith);
            assert(2 * limbs_val(self.limbs@) + ((a[0] % 2) as nat) == limbs_val(a));
            lemma_val_parity(a);
            assert(limbs_val(self.limbs@) == limbs_val(a) / 2) by (nonlinear_arith)
                requires 2 * limbs_val(self.limbs@) + (limbs_val(a) % 2) == limbs_val(a),
            ;
        }
        trim_limbs(&mut self.limbs);
    }

    /// In-place subtraction; the subtrahend must not exceed the minuend.
    pub fn sub_noborrow(&mut self, other: &Scalar)
        requires
            old(self).wf(),
            other.wf(),
            other@ <= old(self)@,
        ensures
            final(self).wf(),
            final(self)@ == old(self)@ - other@,
    {
        let ghost a = self.limbs@;
        let ghost bs = other.limbs@;
        let n = self.limbs.len();
        proof {
            if bs.len() > n {
                lemma_val_upper(a);
                lemma_val_lower(bs);
                lemma_pow64_increases(n as nat, (bs.len() - 1) as nat);
            }
        }
        let mut res: Vec<u64> = Vec::new();
        let mut borrow: u64 = 0;
        let mut i: usize = 0;
        while i < n
            invariant
                i <= n,
                n == a.len(),
                self.limbs@ == a,
                other.limbs@ == bs,
                bs.len() <= n,
                borrow == 0 || borrow == 1,
                res@.len() == i,
                limbs_val(res@) + val_prefix(bs, i as int) == val_prefix(a, i as int) + (
                borrow as nat) * pow64(i as nat),
            decreases n - i,
        {
            let av = self.limbs[i];
            let bv: u64 = if i < other.limbs.len() {
                other.limbs[i]
            } else {
                0
            };
            let diff: u128 = 0x1_0000_0000_0000_0000u128 + (av as u128) - (bv as u128) - (
            borrow as u128);
            let limb: u64 = (diff % 0x1_0000_0000_0000_0000u128) as u64;
            let new_borrow: u64 = if diff < 0x1_0000_0000_0000_0000u128 {
                1
            } else {
                0
            };
            let ghost r0 = res@;
            res.push(limb);
            proof {
                let b: int = 0x1_0000_0000_0000_0000;
                let p = pow64(i as nat);
                assert(av == limb_at(a, i as int));
                assert(bv == limb_at(bs, i as int));
                assert(diff == b + av - bv - borrow);
                assert(limb == diff as int % b);
                // limb == av - bv - borrow + new_borrow * base
                assert(limb == av - bv - borrow + (new_borrow as int) * b) by {
                    if diff < 0x1_0000_0000_0000_0000u128 {
                        assert(diff as int % b == diff as int) by (nonlinear_arith)
                            requires 0 <= (diff as int), (diff as int) < b,
                        ;
                    } else {
                        assert(diff as int % b == diff as int - b) by (nonlinear_arith)
                            requires b <= (diff as int), (diff as int) < 2 * b,
                        ;
                    }
                };
                lemma_val_prefix_snoc(a, i as int);
                lemma_val_prefix_snoc(bs, i as int);
                assert(res@ == r0.push(limb));
                lemma_val_snoc(r0, limb);
                assert(pow64((i + 1) as nat) == 0x1_0000_0000_0000_0000nat * pow64(i as nat));
                // scale the limb identity by the base power
                assert((limb as int) * p == (av as int) * p - (bv as int) * p - (borrow as int)
                    * p + (new_borrow as int) * (b * p)) by (nonlinear_arith)
                    requires limb == av - bv - borrow + (new_borrow as int) * b, p >= 0,
                ;
            }
            borrow = new_borrow;
            i = i + 1;
        }
        proof {
            assert(val_prefix(a, n as int) == limbs_val(a)) by {
                assert(a.subrange(0, n as int) =~= a);
            };
            assert(val_prefix(bs, n as int) == limbs_val(bs)) by {
                if bs.len() == n {
                    assert(bs.subrange(0, n as int) =~= bs);
                }
            };
            if borrow == 1 {
                lemma_val_upper(res@);
                lemma_pow64_pos(n as nat);
                assert(false);
            }
        }
        self.limbs = res;
        trim_limbs(&mut self.limbs);
    }

    /// The pointwise sum of two scalars.
    pub fn add_scalar(&self, other: &Scalar) -> (r: Scalar)
        requires
            self.wf(),
            other.wf(),
        ensures
            r.wf(),
            r@ == self@ + other@,
    {
        let (long, short): (&Scalar, &Scalar) = if self.limbs.len() >= other.limbs.len() {
            (self, other)
        } else {
            (other, self)
        };
        let ghost a = long.limbs@;
        let ghost bs = short.limbs@;
        let n = long.limbs.len();
        let mut res: Vec<u64> = Vec::new();
        let mut carry: u64 = 0;
        let mut i: usize = 0;
        while i < n
            invariant
                i <= n,
                n == a.len(),
                long.limbs@ == a,
                short.limbs@ == bs,
                bs.len() <= n,
                carry == 0 || carry == 1,
                res@.len() == i,
                limbs_val(res@) + (carry as nat) * pow64(i as nat) == val_prefix(a, i as int)
                    + val_prefix(bs, i as int),
            decreases n - i,
        {
            let av = long.limbs[i];
            let bv: u64 = if i < short.limbs.len() {
                short.limbs[i]
            } else {
                0
            };
            let sum: u128 = (av as u128) + (bv as u128) + (carry as u128);
            let limb: u64 = (sum % 0x1_0000_0000_0000_0000u128) as u64;
            let new_carry: u64 = if sum >= 0x1_0000_0000_0000_0000u128 {
                1
            } else {
                0
            };
            let ghost r0 = res@;
            res.push(limb);
            proof {
                let b: int = 0x1_0000_0000_0000_0000;
                let p = pow64(i as nat);
                assert(av == limb_at(a, i as int));
                assert(bv == limb_at(bs, i as int));
                assert(sum == av + bv + carry);
                assert(limb == sum as int % b);
                assert(limb == av + bv + carry - (new_carry as int) * b) by {
                    if sum >= 0x1_0000_0000_0000_0000u128 {
                        assert(sum as int % b == sum as int - b) by (nonlinear_arith)
                            requires b <= (sum as int), (sum as int) < 2 * b,
                        ;
                    } else {
                        assert(sum as int % b == sum as int) by (nonlinear_arith)
                            requires 0 <= (sum as int), (sum as int) < b,
                        ;
                    }
                };
                lemma_val_prefix_snoc(a, i as int);
                lemma_val_prefix_snoc(bs, i as int);
                assert(res@ == r0.push(limb));
                lemma_val_snoc(r0, limb);
                assert(pow64((i + 1) as nat) == 0x1_0000_0000_0000_0000nat * pow64(i as nat));
                assert((limb as int) * p == (av as int) * p + (bv as int) * p + (carry as int) * p
                    - (new_carry as int) * (b * p)) by (nonlinear_arith)
                    requires limb == av + bv + carry - (new_carry as int) * b, p >= 0,
                ;
            }
            carry = new_carry;
            i = i + 1;
        }
        let ghost rn = res@;
        if carry == 1 {
            res.push(1);
            proof {
                assert(res@ == rn.push(1u64));
                lemma_val_snoc(rn, 1u64);
                assert((1u64 as nat) * pow64(n as nat) == pow64(n as nat)) by (nonlinear_arith);
            }
        }
        proof {
            assert(val_prefix(a, n as int) == limbs_val(a)) by {
                assert(a.subrange(0, n as int) =~= a);
            };
            assert(val_prefix(bs, n as int) == limbs_val(bs)) by {
                if bs.len() == n {
                    assert(bs.subrange(0, n as int) =~= bs);
                }
            };
        }
        let mut out = res;
        trim_limbs(&mut out);
        Scalar { limbs: out }
    }
}

/// Removes trailing zero limbs, canonicalizing the sequence without changing
/// its value.
fn trim_limbs(v: &mut Vec<u64>)
    ensures
        limbs_val(final(v)@) == limbs_val(old(v)@),
        final(v)@.len() == 0 || final(v)@.last() != 0,
{
    while v.len() > 0 && *(&v[v.len() - 1]) == 0
        invariant
            limbs_val(v@) == limbs_val(old(v)@),
        decreases v@.len(),
    {
        proof {
            lemma_val_zero_tail(v@);
        }
        v.pop();
    }
}

} // verus!
