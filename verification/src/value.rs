//! The machine's working domain: arbitrary-precision non-negative integers,
//! held as little-endian 64-bit limbs with no leading zero limb.

use vstd::prelude::*;

verus! {

use vstd::arithmetic::power::{pow, lemma_pow1, lemma_pow_increases};

/// Radix of the limb representation: one limb carries 64 bits.
pub open spec fn limb_base() -> nat {
    0x1_0000_0000_0000_0000
}

/// Numeric value of a little-endian limb sequence.
pub open spec fn limbs_as_nat(s: Seq<u64>) -> nat
    decreases s.len(),
{
    if s.len() == 0 {
        0
    } else {
        s[0] as nat + limb_base() * limbs_as_nat(s.drop_first())
    }
}

/// A limb sequence is normalized when it carries no leading zero limb, so
/// that each number has exactly one representation.
pub open spec fn limbs_normalized(s: Seq<u64>) -> bool {
    s.len() > 0 ==> s.last() != 0
}

/// A limb sequence denotes less than the radix raised to its length.
pub proof fn lemma_limbs_bound(s: Seq<u64>)
    ensures
        limbs_as_nat(s) < pow(limb_base() as int, s.len()),
    decreases s.len(),
{
    reveal(pow);
    let b = limb_base() as int;
    if s.len() == 0 {
        assert(pow(b, 0) == 1);
    } else {
        let rest = s.drop_first();
        lemma_limbs_bound(rest);
        let s0 = s[0] as int;
        let r = limbs_as_nat(rest) as int;
        let p = pow(b, (s.len() - 1) as nat);
        assert(pow(b, s.len()) == b * p);
        assert(s0 + b * r < b * p) by (nonlinear_arith)
            requires
                s0 < b,
                0 <= r < p,
                b == 0x1_0000_0000_0000_0000,
        ;
        assert(limbs_as_nat(s) == s0 + b * r);
    }
}

/// A normalized, non-empty limb sequence denotes at least the radix raised
/// to one less than its length.
pub proof fn lemma_limbs_norm_lower(s: Seq<u64>)
    requires
        s.len() > 0,
        s.last() != 0,
    ensures
        limbs_as_nat(s) >= pow(limb_base() as int, (s.len() - 1) as nat),
    decreases s.len(),
{
    reveal(pow);
    let b = limb_base() as int;
    if s.len() == 1 {
        assert(pow(b, 0) == 1);
        assert(s.drop_first().len() == 0);
        assert(limbs_as_nat(s.drop_first()) == 0);
    } else {
        let rest = s.drop_first();
        assert(rest.last() == s.last());
        lemma_limbs_norm_lower(rest);
        let r = limbs_as_nat(rest) as int;
        let p = pow(b, (s.len() - 2) as nat);
        assert(pow(b, (s.len() - 1) as nat) == b * p);
        let s0 = s[0] as int;
        assert(s0 + b * r >= b * p) by (nonlinear_arith)
            requires
                r >= p,
                s0 >= 0,
                b > 0,
        ;
        assert(limbs_as_nat(s) == s0 + b * r);
    }
}

/// Two limb sequences of one length order by their highest differing limb.
pub proof fn lemma_limbs_lt(lo: Seq<u64>, hi: Seq<u64>, k: int)
    requires
        lo.len() == hi.len(),
        0 <= k < lo.len(),
        forall|t: int| k < t < lo.len() ==> lo[t] == hi[t],
        lo[k] < hi[k],
    ensures
        limbs_as_nat(lo) < limbs_as_nat(hi),
    decreases lo.len(),
{
    let b = limb_base() as int;
    let rl = limbs_as_nat(lo.drop_first()) as int;
    let rh = limbs_as_nat(hi.drop_first()) as int;
    if k == 0 {
        assert(lo.drop_first() =~= hi.drop_first());
        assert(limbs_as_nat(lo) == lo[0] + b * rl);
        assert(limbs_as_nat(hi) == hi[0] + b * rh);
    } else {
        assert forall|t: int| k - 1 < t < lo.drop_first().len() implies lo.drop_first()[t]
            == hi.drop_first()[t] by {
            assert(lo[t + 1] == hi[t + 1]);
        }
        assert(lo.drop_first()[k - 1] == lo[k]);
        assert(hi.drop_first()[k - 1] == hi[k]);
        lemma_limbs_lt(lo.drop_first(), hi.drop_first(), k - 1);
        let l0 = lo[0] as int;
        let h0 = hi[0] as int;
        assert(l0 + b * rl < h0 + b * rh) by (nonlinear_arith)
            requires
                rl < rh,
                0 <= l0 < b,
                h0 >= 0,
                b == 0x1_0000_0000_0000_0000,
        ;
        assert(limbs_as_nat(lo) == l0 + b * rl);
        assert(limbs_as_nat(hi) == h0 + b * rh);
    }
}

/// Of two normalized limb sequences, the shorter denotes the smaller number.
pub proof fn lemma_limbs_shorter_lt(lo: Seq<u64>, hi: Seq<u64>)
    requires
        limbs_normalized(lo),
        limbs_normalized(hi),
        lo.len() < hi.len(),
    ensures
        limbs_as_nat(lo) < limbs_as_nat(hi),
{
    lemma_limbs_bound(lo);
    lemma_limbs_norm_lower(hi);
    lemma_pow_increases(limb_base(), lo.len(), (hi.len() - 1) as nat);
}

/// A trailing zero limb does not change the denoted number.
pub proof fn lemma_limbs_drop_trailing_zero(s: Seq<u64>)
    requires
        s.len() > 0,
        s.last() == 0,
    ensures
        limbs_as_nat(s) == limbs_as_nat(s.drop_last()),
    decreases s.len(),
{
    if s.len() == 1 {
        assert(s.drop_last().len() == 0);
        assert(limbs_as_nat(s) == s[0] + limb_base() * limbs_as_nat(s.drop_first()));
        assert(s.drop_first().len() == 0);
    } else {
        let rest = s.drop_first();
        assert(rest.last() == s.last());
        lemma_limbs_drop_trailing_zero(rest);
        assert(rest.drop_last() =~= s.drop_last().drop_first());
        assert(limbs_as_nat(s) == s[0] + limb_base() * limbs_as_nat(rest));
        assert(s.drop_last()[0] == s[0]);
        assert(limbs_as_nat(s.drop_last()) == s[0] + limb_base() * limbs_as_nat(
            s.drop_last().drop_first(),
        ));
    }
}

/// Outcome of comparing two values.
#[derive(Clone, Copy, PartialEq, Eq, Structural, Debug)]
pub enum ValueOrder {
    Less,
    Equal,
    Greater,
}

/// An arbitrary-precision non-negative integer of the machine's working
/// domain. Its mathematical view is the natural number it denotes.
#[derive(Debug)]
pub struct Value {
    limbs: Vec<u64>,
}

impl View for Value {
    type V = nat;

    closed spec fn view(&self) -> nat {
        limbs_as_nat(self.limbs@)
    }
}

impl Value {
    /// The little-endian limb sequence behind the value.
    pub closed spec fn limb_seq(&self) -> Seq<u64> {
        self.limbs@
    }

    /// The representation invariant: limbs are normalized.
    pub closed spec fn wf(&self) -> bool {
        limbs_normalized(self.limbs@)
    }

    /// A value that fits one machine word.
    pub fn from_u64(v: u64) -> (r: Value)
        ensures
            r.wf(),
            r@ == v,
    {
        let mut limbs: Vec<u64> = Vec::new();
        if v != 0 {
            limbs.push(v);
        }
        proof {
            if v != 0 {
                assert(limbs@.drop_first().len() == 0);
                assert(limbs_as_nat(limbs@.drop_first()) == 0);
                assert(limbs@[0] == v);
            }
        }
        Value { limbs }
    }

    /// A value from an arbitrary little-endian limb sequence; leading zero
    /// limbs are stripped to restore the canonical form.
    pub fn from_limbs(limbs: Vec<u64>) -> (r: Value)
        ensures
            r.wf(),
            r@ == limbs_as_nat(limbs@),
    {
        let mut ls = limbs;
        while ls.len() > 0 && ls[ls.len() - 1] == 0
            invariant
                limbs_as_nat(ls@) == limbs_as_nat(limbs@),
            decreases ls.len(),
        {
            proof {
                lemma_limbs_drop_trailing_zero(ls@);
            }
            ls.pop();
        }
        Value { limbs: ls }
    }

    /// The word the value denotes, where it fits one; `None` exactly on
    /// values of at least the radix.
    pub fn to_u64(&self) -> (r: Option<u64>)
        requires
            self.wf(),
        ensures
            r is Some <==> self@ < limb_base(),
            r matches Some(u) ==> u == self@,
    {
        if self.limbs.len() == 0 {
            Some(0)
        } else if self.limbs.len() == 1 {
            proof {
                assert(self.limbs@.drop_first().len() == 0);
                assert(limbs_as_nat(self.limbs@.drop_first()) == 0);
            }
            Some(self.limbs[0])
        } else {
            proof {
                let b = limb_base() as int;
                lemma_limbs_norm_lower(self.limbs@);
                lemma_pow1(b);
                lemma_pow_increases(limb_base(), 1, (self.limbs@.len() - 1) as nat);
            }
            None
        }
    }

    /// The limb sequence, for callers that serialize the value.
    pub fn limbs(&self) -> (r: &Vec<u64>)
        ensures
            r@ == self.limb_seq(),
    {
        &self.limbs
    }

    /// A value carried in from the machine's big-integer domain. The digit
    /// sequence is whatever the big-integer crate hands out; it is
    /// canonical, so the value is well formed.
    pub fn from_biguint(b: &num_bigint::BigUint) -> (r: Value)
        ensures
            r.wf(),
    {
        Value { limbs: biguint_digits(b) }
    }
}

#[verifier::external_type_specification]
#[verifier::external_body]
pub struct ExBigUint(num_bigint::BigUint);

/// Relies on num_bigint::BigUint::to_u64_digits: the 64-bit digits of the
/// number, least significant first, with no trailing zero digit.
#[verifier::external_body]
fn biguint_digits(b: &num_bigint::BigUint) -> (r: Vec<u64>)
    ensures
        r@.len() > 0 ==> r@.last() != 0,
{
    b.to_u64_digits()
}

/// Total order of two values, decided limbwise from the most significant
/// end; it agrees with the order of the denoted numbers.
pub fn value_cmp(a: &Value, b: &Value) -> (r: ValueOrder)
    requires
        a.wf(),
        b.wf(),
    ensures
        r == ValueOrder::Less <==> a@ < b@,
        r == ValueOrder::Equal <==> a@ == b@,
        r == ValueOrder::Greater <==> a@ > b@,
{
    let alen = a.limbs.len();
    let blen = b.limbs.len();
    if alen < blen {
        proof {
            lemma_limbs_shorter_lt(a.limbs@, b.limbs@);
        }
        ValueOrder::Less
    } else if blen < alen {
        proof {
            lemma_limbs_shorter_lt(b.limbs@, a.limbs@);
        }
        ValueOrder::Greater
    } else {
        let mut j: usize = alen;
        while j > 0
            invariant
                j <= alen,
                alen == a.limbs@.len(),
                alen == b.limbs@.len(),
                forall|t: int| j <= t < alen ==> a.limbs@[t] == b.limbs@[t],
            decreases j,
        {
            let aj = a.limbs[j - 1];
            let bj = b.limbs[j - 1];
            if aj < bj {
                proof {
                    lemma_limbs_lt(a.limbs@, b.limbs@, j - 1);
                }
                return ValueOrder::Less;
            }
            if bj < aj {
                proof {
                    lemma_limbs_lt(b.limbs@, a.limbs@, j - 1);
                }
                return ValueOrder::Greater;
            }
            j -= 1;
        }
        proof {
            assert(a.limbs@ =~= b.limbs@);
        }
        ValueOrder::Equal
    }
}

impl Clone for Value {
    /// The clone denotes the same number, limb for limb.
    fn clone(&self) -> (r: Self)
        ensures
            r.limb_seq() == self.limb_seq(),
            r@ == self@,
            r.wf() == self.wf(),
    {
        Value { limbs: self.limbs.clone() }
    }
}

impl PartialEq for Value {
    fn eq(&self, other: &Value) -> (r: bool) {
        if self.limbs.len() != other.limbs.len() {
            return false;
        }
        let mut j: usize = 0;
        while j < self.limbs.len()
            invariant
                j <= self.limbs@.len(),
                self.limbs@.len() == other.limbs@.len(),
                forall|t: int| 0 <= t < j ==> self.limbs@[t] == other.limbs@[t],
            decreases self.limbs@.len() - j,
        {
            if self.limbs[j] != other.limbs[j] {
                return false;
            }
            j += 1;
        }
        proof {
            assert(self.limbs@ =~= other.limbs@);
        }
        true
    }
}

impl vstd::std_specs::cmp::PartialEqSpecImpl for Value {
    open spec fn obeys_eq_spec() -> bool {
        true
    }

    open spec fn eq_spec(&self, other: &Value) -> bool {
        self.limb_seq() == other.limb_seq()
    }
}

} // verus!
