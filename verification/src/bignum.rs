//! Arbitrary-precision addition on decimal digit vectors, the small
//! digits first: `[1, 2, 3]` stands for three hundred and twenty-one.

use vstd::prelude::*;

verus! {

/// Every element is a decimal digit.
pub open spec fn all_base10(digits: Seq<i32>) -> bool {
    forall|i: int| 0 <= i < digits.len() ==> 0 <= #[trigger] digits[i] <= 9
}

/// The number a digit vector stands for, the small digits first.
pub open spec fn digits_value(digits: Seq<i32>) -> int
    decreases digits.len(),
{
    if digits.len() == 0 {
        0
    } else {
        digits[0] + 10 * digits_value(digits.skip(1))
    }
}

/// Ten to the given power.
pub open spec fn pow10(n: nat) -> int
    decreases n,
{
    if n == 0 {
        1
    } else {
        10 * pow10((n - 1) as nat)
    }
}

proof fn lemma_pow10_pos(n: nat)
    ensures
        pow10(n) >= 1,
    decreases n,
{
    if n > 0 {
        lemma_pow10_pos((n - 1) as nat);
    }
}

/// One more digit at position `k` adds its value times ten to the `k`.
proof fn lemma_digits_value_take(s: Seq<i32>, k: int)
    requires
        0 <= k < s.len(),
    ensures
        digits_value(s.take(k + 1)) == digits_value(s.take(k)) + s[k] * pow10(k as nat),
    decreases k,
{
    if k == 0 {
        assert(s.take(1).skip(1) =~= Seq::<i32>::empty());
        assert(s.take(0) =~= Seq::<i32>::empty());
        assert(digits_value(s.take(1)) == s[0] + 10 * digits_value(Seq::<i32>::empty()));
    } else {
        let t = s.skip(1);
        assert(s.take(k + 1).skip(1) =~= t.take(k));
        assert(s.take(k).skip(1) =~= t.take(k - 1));
        assert(s.take(k + 1)[0] == s[0]);
        assert(s.take(k)[0] == s[0]);
        lemma_digits_value_take(t, k - 1);
        assert(t[k - 1] == s[k]);
        assert(digits_value(s.take(k + 1)) == s[0] + 10 * digits_value(t.take(k)));
        assert(digits_value(s.take(k)) == s[0] + 10 * digits_value(t.take(k - 1)));
        assert(digits_value(t.take(k)) == digits_value(t.take(k - 1)) + s[k] * pow10(
            (k - 1) as nat,
        ));
        assert(10 * (digits_value(t.take(k - 1)) + s[k] * pow10((k - 1) as nat)) == 10
            * digits_value(t.take(k - 1)) + s[k] * (10 * pow10((k - 1) as nat)))
            by (nonlinear_arith);
    }
}

/// Trailing zero digits do not change the value.
proof fn lemma_digits_value_padded(s: Seq<i32>, padded: Seq<i32>)
    requires
        s.len() <= padded.len(),
        forall|j: int| 0 <= j < s.len() ==> #[trigger] padded[j] == s[j],
        forall|j: int| s.len() <= j < padded.len() ==> #[trigger] padded[j] == 0,
    ensures
        digits_value(padded) == digits_value(s),
    decreases padded.len(),
{
    if padded.len() == 0 {
    } else if s.len() == 0 {
        assert(padded[0] == 0);
        lemma_digits_value_padded(s, padded.skip(1));
    } else {
        assert(padded[0] == s[0]);
        lemma_digits_value_padded(s.skip(1), padded.skip(1));
    }
}

/// A number in base-ten digit form, the small digits first.
pub struct BigNum {
    pub v: Vec<i32>,
}

impl BigNum {
    /// Wraps a digit vector.
    pub fn new(v: Vec<i32>) -> (r: BigNum)
        ensures
            r.v == v,
    {
        BigNum { v }
    }

    /// The sum of two numbers: digit-by-digit addition with carry.  The
    /// result's digits are again decimal, and its value is the sum of
    /// the two values.
    #[verifier::loop_isolation(false)]
    pub fn add(&self, b: &BigNum) -> (r: BigNum)
        requires
            all_base10(self.v@),
            all_base10(b.v@),
        ensures
            all_base10(r.v@),
            digits_value(r.v@) == digits_value(self.v@) + digits_value(b.v@),
    {
        let mut v: Vec<i32> = Vec::new();
        let n = self.v.len();
        let m = b.v.len();
        let p = if n > m {
            n
        } else {
            m
        };
        let ghost ap = self.v@.add(Seq::new((p - n) as nat, |i: int| 0i32));
        let ghost bp = b.v@.add(Seq::new((p - m) as nat, |i: int| 0i32));
        let mut carry: i32 = 0;
        let mut i: usize = 0;
        while i < p
            invariant
                0 <= i <= p,
                v@.len() == i,
                0 <= carry <= 1,
                all_base10(v@),
                digits_value(v@) + carry * pow10(i as nat) == digits_value(ap.take(i as int))
                    + digits_value(bp.take(i as int)),
            decreases p - i,
        {
            let mut t: i32 = carry;
            if i < n {
                t = t + *vstd::std_specs::vec::vec_index(&self.v, i);
            }
            if i < m {
                t = t + *vstd::std_specs::vec::vec_index(&b.v, i);
            }
            proof {
                assert(ap[i as int] == (if i < n {
                    self.v@[i as int]
                } else {
                    0
                }));
                assert(bp[i as int] == (if i < m {
                    b.v@[i as int]
                } else {
                    0
                }));
                assert(0 <= t <= 19);
            }
            let digit = t % 10;
            let new_carry = t / 10;
            let ghost v_old = v@;
            v.push(digit);
            proof {
                assert(v@.take(i as int) =~= v_old);
                lemma_digits_value_take(v@, i as int);
                assert(v@.take(i + 1) =~= v@);
                lemma_digits_value_take(ap, i as int);
                lemma_digits_value_take(bp, i as int);
                lemma_pow10_pos(i as nat);
                assert(digit + 10 * new_carry == t);
                assert((digit + new_carry * 10) * pow10(i as nat) == digit * pow10(i as nat)
                    + new_carry * (10 * pow10(i as nat))) by (nonlinear_arith);
                assert(carry * pow10(i as nat) + (ap[i as int] + bp[i as int]) * pow10(i as nat)
                    == t * pow10(i as nat)) by (nonlinear_arith)
                    requires
                        t == carry + ap[i as int] + bp[i as int],
                ;
                assert(ap[i as int] * pow10(i as nat) + bp[i as int] * pow10(i as nat) == (
                ap[i as int] + bp[i as int]) * pow10(i as nat)) by (nonlinear_arith);
            }
            carry = new_carry;
            i = i + 1;
        }
        if carry > 0 {
            let ghost v_old = v@;
            v.push(1);
            proof {
                assert(v@.take(p as int) =~= v_old);
                lemma_digits_value_take(v@, p as int);
                assert(v@.take(p + 1) =~= v@);
                assert(v@[p as int] == 1);
                assert(digits_value(v@) == digits_value(v_old) + 1 * pow10(p as nat));
                assert(carry == 1);
                assert(digits_value(v@) == digits_value(v_old) + carry * pow10(p as nat));
                lemma_digits_value_padded(self.v@, ap);
                lemma_digits_value_padded(b.v@, bp);
                assert(ap.take(p as int) =~= ap);
                assert(bp.take(p as int) =~= bp);
                assert(digits_value(v@) == digits_value(self.v@) + digits_value(b.v@));
            }
        } else {
            proof {
                assert(carry == 0);
                assert(carry * pow10(p as nat) == 0) by (nonlinear_arith)
                    requires
                        carry == 0,
                ;
                lemma_digits_value_padded(self.v@, ap);
                lemma_digits_value_padded(b.v@, bp);
                assert(ap.take(p as int) =~= ap);
                assert(bp.take(p as int) =~= bp);
                assert(digits_value(v@) == digits_value(self.v@) + digits_value(b.v@));
            }
        }
        BigNum::new(v)
    }
}

} // verus!
