//! Arithmetic on natural numbers held as little-endian sequences of decimal
//! digits: the least significant digit stands first.

use vstd::arithmetic::power::{lemma_pow0, lemma_pow_positive, pow};
use vstd::prelude::*;

verus! {

/// `10` raised to the power `e`.
pub open spec fn pow10(e: nat) -> nat {
    pow(10, e) as nat
}

/// Every element is a decimal digit.
pub open spec fn all_digits(d: Seq<u8>) -> bool {
    forall|i: int| 0 <= i < d.len() ==> #[trigger] d[i] < 10
}

/// The number that the little-endian digits `d` stand for.
pub open spec fn magnitude(d: Seq<u8>) -> nat
    decreases d.len(),
{
    if d.len() == 0 {
        0
    } else {
        d[0] as nat + 10 * magnitude(d.drop_first())
    }
}

/// Powers of ten are positive, and each is ten times the one before.
pub proof fn lemma_pow10_unfold(e: nat)
    ensures
        pow10(0) == 1,
        pow10(e) > 0,
        pow10(e + 1) == 10 * pow10(e),
{
    lemma_pow0(10);
    lemma_pow_positive(10, e);
    lemma_pow_positive(10, e + 1);
    assert(pow(10, e + 1) == 10 * pow(10, e)) by {
        reveal(pow);
    }
}

/// Putting a digit in front multiplies the rest by ten.
pub proof fn lemma_magnitude_cons(low: u8, rest: Seq<u8>)
    ensures
        magnitude(seq![low] + rest) == low as nat + 10 * magnitude(rest),
{
    let s = seq![low] + rest;
    assert(s.drop_first() =~= rest);
}

/// Appending a digit adds it at the weight of its position.
pub proof fn lemma_magnitude_push(d: Seq<u8>, high: u8)
    ensures
        magnitude(d.push(high)) == magnitude(d) + high as nat * pow10(d.len()),
    decreases d.len(),
{
    lemma_pow10_unfold(0);
    if d.len() == 0 {
        assert(d.push(high).drop_first() =~= Seq::<u8>::empty());
        assert(magnitude(d.push(high).drop_first()) == 0);
    } else {
        let rest = d.drop_first();
        assert(d.push(high).drop_first() =~= rest.push(high));
        lemma_magnitude_push(rest, high);
        lemma_pow10_unfold(rest.len());
        assert(high as nat * pow10(d.len()) == 10 * (high as nat * pow10(rest.len())))
            by (nonlinear_arith)
            requires
                pow10(d.len()) == 10 * pow10(rest.len()),
        ;
    }
}

/// A sequence of `n` digits stands for a number below `10^n`.
pub proof fn lemma_magnitude_bound(d: Seq<u8>)
    requires
        all_digits(d),
    ensures
        magnitude(d) < pow10(d.len()),
    decreases d.len(),
{
    lemma_pow10_unfold(0);
    if d.len() > 0 {
        let rest = d.drop_first();
        assert(all_digits(rest)) by {
            assert forall|i: int| 0 <= i < rest.len() implies #[trigger] rest[i] < 10 by {
                assert(rest[i] == d[i + 1]);
            }
        }
        lemma_magnitude_bound(rest);
        lemma_pow10_unfold(rest.len());
    }
}

/// The digits below position `k` and those from `k` on make up the number.
pub proof fn lemma_magnitude_split(d: Seq<u8>, k: int)
    requires
        0 <= k <= d.len(),
    ensures
        magnitude(d) == magnitude(d.take(k)) + pow10(k as nat) * magnitude(d.skip(k)),
    decreases k,
{
    lemma_pow10_unfold(0);
    if k == 0 {
        assert(d.take(0) =~= Seq::<u8>::empty());
        assert(d.skip(0) =~= d);
        assert(magnitude(d.take(0)) == 0);
        assert(pow10(0) * magnitude(d) == magnitude(d)) by (nonlinear_arith)
            requires
                pow10(0) == 1,
        ;
    } else {
        let rest = d.drop_first();
        lemma_magnitude_split(rest, k - 1);
        assert(d.take(k).drop_first() =~= rest.take(k - 1));
        assert(d.skip(k) =~= rest.skip(k - 1));
        assert(d.take(k)[0] == d[0]);
        lemma_pow10_unfold((k - 1) as nat);
        let hi = magnitude(d.skip(k));
        let p = pow10((k - 1) as nat);
        assert(pow10(k as nat) == 10 * p);
        let q = pow10(k as nat);
        assert(q * hi == 10 * (p * hi)) by (nonlinear_arith)
            requires
                q == 10 * p,
        ;
        assert(magnitude(d) == d[0] as nat + 10 * magnitude(rest));
        assert(magnitude(d.take(k)) == d[0] as nat + 10 * magnitude(rest.take(k - 1)));
        assert(magnitude(rest) == magnitude(rest.take(k - 1)) + p * hi);
    }
}

/// The digit of `d` at position `i`, zero beyond its length.
pub open spec fn digit_at(d: Seq<u8>, i: int) -> nat {
    if 0 <= i < d.len() {
        d[i] as nat
    } else {
        0
    }
}

/// The digits of `d` below position `i`.
pub open spec fn low_part(d: Seq<u8>, i: int) -> Seq<u8> {
    if i <= d.len() {
        d.take(i)
    } else {
        d
    }
}

/// Taking one more position adds the digit there at its weight.
pub proof fn lemma_low_part_step(d: Seq<u8>, i: int)
    requires
        0 <= i,
    ensures
        magnitude(low_part(d, i + 1)) == magnitude(low_part(d, i)) + digit_at(d, i) * pow10(
            i as nat,
        ),
{
    if i < d.len() {
        assert(d.take(i + 1) =~= d.take(i).push(d[i]));
        lemma_magnitude_push(d.take(i), d[i]);
    } else if i == d.len() {
        assert(d.take(i) =~= d);
    }
}

/// The digits of `d` multiplied by the single digit `m`.
pub(crate) fn scale_by_digit(d: &Vec<u8>, m: u8) -> (out: Vec<u8>)
    requires
        all_digits(d@),
        m < 10,
    ensures
        all_digits(out@),
        magnitude(out@) == magnitude(d@) * m,
{
    let mut out: Vec<u8> = Vec::new();
    let mut carry: u8 = 0;
    let mut i: usize = 0;
    proof {
        lemma_pow10_unfold(0);
        assert(d@.take(0) =~= Seq::<u8>::empty());
        assert(magnitude(d@.take(0)) * m == 0) by (nonlinear_arith)
            requires
                magnitude(d@.take(0)) == 0,
        ;
        assert(carry * pow10(0) == 0) by (nonlinear_arith)
            requires
                carry == 0,
        ;
    }
    while i < d.len()
        invariant
            i <= d.len(),
            all_digits(d@),
            m < 10,
            carry < 10,
            all_digits(out@),
            out@.len() == i,
            magnitude(out@) + carry * pow10(i as nat) == magnitude(d@.take(i as int)) * m,
        decreases d.len() - i,
    {
        let digit: u8 = d[i];
        assert(digit * m <= 81) by (nonlinear_arith)
            requires
                digit < 10,
                m < 10,
        ;
        let t: u8 = digit * m + carry;
        proof {
            let p = pow10(i as nat);
            let lo = magnitude(d@.take(i as int));
            lemma_pow10_unfold(i as nat);
            lemma_magnitude_push(out@, t % 10);
            assert(d@.take(i + 1) =~= d@.take(i as int).push(digit));
            lemma_magnitude_push(d@.take(i as int), digit);
            assert(magnitude(out@) + (t % 10) * p + (t / 10) * (10 * p) == (lo + digit * p) * m)
                by (nonlinear_arith)
                requires
                    magnitude(out@) + carry * p == lo * m,
                    t == digit * m + carry,
                    t == 10 * (t / 10) + t % 10,
            ;
        }
        out.push(t % 10);
        carry = t / 10;
        i += 1;
    }
    proof {
        assert(d@.take(i as int) =~= d@);
    }
    if carry > 0 {
        proof {
            lemma_magnitude_push(out@, carry);
        }
        out.push(carry);
    } else {
        assert(carry * pow10(i as nat) == 0) by (nonlinear_arith)
            requires
                carry == 0,
        ;
    }
    out
}

/// The sum of two digit sequences.
pub(crate) fn sum(x: &Vec<u8>, y: &Vec<u8>) -> (out: Vec<u8>)
    requires
        all_digits(x@),
        all_digits(y@),
    ensures
        all_digits(out@),
        magnitude(out@) == magnitude(x@) + magnitude(y@),
{
    let mut out: Vec<u8> = Vec::new();
    let mut carry: u8 = 0;
    let mut i: usize = 0;
    proof {
        lemma_pow10_unfold(0);
        assert(x@.take(0) =~= Seq::<u8>::empty());
        assert(y@.take(0) =~= Seq::<u8>::empty());
        assert(carry * pow10(0) == 0) by (nonlinear_arith)
            requires
                carry == 0,
        ;
    }
    while i < x.len() || i < y.len()
        invariant
            all_digits(x@),
            all_digits(y@),
            carry < 2,
            all_digits(out@),
            out@.len() == i,
            magnitude(out@) + carry * pow10(i as nat) == magnitude(low_part(x@, i as int))
                + magnitude(low_part(y@, i as int)),
        decreases
            (if x.len() > y.len() {
                x.len()
            } else {
                y.len()
            }) - i,
    {
        let a: u8 = if i < x.len() {
            x[i]
        } else {
            0
        };
        let b: u8 = if i < y.len() {
            y[i]
        } else {
            0
        };
        let t: u8 = a + b + carry;
        proof {
            let p = pow10(i as nat);
            lemma_pow10_unfold(i as nat);
            lemma_magnitude_push(out@, t % 10);
            lemma_low_part_step(x@, i as int);
            lemma_low_part_step(y@, i as int);
            assert(a == digit_at(x@, i as int));
            assert(b == digit_at(y@, i as int));
            assert((t % 10) * p + (t / 10) * (10 * p) == a * p + b * p + carry * p)
                by (nonlinear_arith)
                requires
                    t == a + b + carry,
                    t == 10 * (t / 10) + t % 10,
            ;
        }
        out.push(t % 10);
        carry = t / 10;
        i += 1;
    }
    proof {
        assert(low_part(x@, i as int) =~= x@);
        assert(low_part(y@, i as int) =~= y@);
    }
    if carry > 0 {
        proof {
            lemma_magnitude_push(out@, carry);
        }
        out.push(carry);
    } else {
        assert(carry * pow10(i as nat) == 0) by (nonlinear_arith)
            requires
                carry == 0,
        ;
    }
    out
}

/// The product of two digit sequences.
pub(crate) fn product(a: &Vec<u8>, b: &Vec<u8>) -> (out: Vec<u8>)
    requires
        all_digits(a@),
        all_digits(b@),
    ensures
        all_digits(out@),
        magnitude(out@) == magnitude(a@) * magnitude(b@),
{
    let mut acc: Vec<u8> = Vec::new();
    let mut i: usize = a.len();
    proof {
        assert(a@.skip(i as int) =~= Seq::<u8>::empty());
        assert(magnitude(a@.skip(i as int)) * magnitude(b@) == 0) by (nonlinear_arith)
            requires
                magnitude(a@.skip(i as int)) == 0,
        ;
    }
    while i > 0
        invariant
            i <= a.len(),
            all_digits(a@),
            all_digits(b@),
            all_digits(acc@),
            magnitude(acc@) == magnitude(a@.skip(i as int)) * magnitude(b@),
        decreases i,
    {
        i -= 1;
        let part = scale_by_digit(b, a[i]);
        proof {
            lemma_magnitude_cons(0, acc@);
            assert(acc@.insert(0, 0u8) =~= seq![0u8] + acc@);
            let tail = a@.skip(i + 1);
            assert(a@.skip(i as int).drop_first() =~= tail);
            assert(magnitude(a@.skip(i as int)) == a@[i as int] as nat + 10 * magnitude(tail));
            assert(10 * (magnitude(tail) * magnitude(b@)) + magnitude(b@) * a@[i as int] == (
            a@[i as int] as nat + 10 * magnitude(tail)) * magnitude(b@)) by (nonlinear_arith);
        }
        acc.insert(0, 0);
        acc = sum(&acc, &part);
    }
    proof {
        assert(a@.skip(0) =~= a@);
    }
    acc
}

} // verus!
