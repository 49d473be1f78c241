//! Exact decimal numbers of unbounded size: an integer and the number of its
//! digits that stand after the decimal point.

use crate::digits::{
    all_digits, lemma_magnitude_bound, lemma_magnitude_push, lemma_magnitude_split,
    lemma_pow10_unfold, magnitude, pow10, product,
};
use vstd::arithmetic::div_mod::{
    lemma_fundamental_div_mod, lemma_fundamental_div_mod_converse, lemma_mod_breakdown,
};
use vstd::prelude::*;
use vstd::string::StringExecFns;

verus! {

/// What a [`Decimal`] stands for: the number `unscaled / 10^scale`, written
/// with exactly `scale` digits after the decimal point.
pub struct DecimalView {
    pub unscaled: int,
    pub scale: nat,
}

impl DecimalView {
    /// The exact product: the integers are multiplied, the scales added.
    pub open spec fn times(self, other: DecimalView) -> DecimalView {
        DecimalView { unscaled: self.unscaled * other.unscaled, scale: self.scale + other.scale }
    }

    /// Both stand for the same number, whatever their scales.
    pub open spec fn same_value(self, other: DecimalView) -> bool {
        self.unscaled * pow10(other.scale) == other.unscaled * pow10(self.scale)
    }
}

/// Multiplying by `1.0` keeps the number, at one more digit of scale.
pub proof fn lemma_times_one(a: DecimalView)
    ensures
        a.times(one_view()).same_value(a),
        a.times(one_view()).scale == a.scale + 1,
{
    lemma_pow10_unfold(a.scale);
    let p = pow10(a.scale) as int;
    assert((a.unscaled * 10) * p == a.unscaled * (10 * p)) by (nonlinear_arith);
}

/// The view of the fallback price, `1.0`.
pub open spec fn one_view() -> DecimalView {
    DecimalView { unscaled: 10, scale: 1 }
}

/// The view of an absent amount, `0.0`.
pub open spec fn zero_view() -> DecimalView {
    DecimalView { unscaled: 0, scale: 1 }
}

/// The character of the decimal digit `d`.
pub open spec fn digit_char(d: nat) -> char {
    (48 + d) as char
}

/// The `width` lowest decimal digits of `n`, most significant first.
pub open spec fn fixed_digits(n: nat, width: nat) -> Seq<char>
    decreases width,
{
    if width == 0 {
        Seq::empty()
    } else {
        fixed_digits(n / 10, (width - 1) as nat).push(digit_char(n % 10))
    }
}

/// The decimal digits of `n` without a leading zero; `0` for zero.
pub open spec fn natural_text(n: nat) -> Seq<char>
    decreases n,
{
    if n < 10 {
        seq![digit_char(n)]
    } else {
        natural_text(n / 10).push(digit_char(n % 10))
    }
}

/// How a number without sign is written at a scale: the whole part, and,
/// where the scale is not zero, a point and exactly `scale` digits.
pub open spec fn unsigned_text(m: nat, scale: nat) -> Seq<char> {
    let whole = natural_text(m / pow10(scale));
    if scale == 0 {
        whole
    } else {
        whole + seq!['.'] + fixed_digits(m % pow10(scale), scale)
    }
}

/// How a decimal is written: a minus sign if it is below zero, the whole
/// part, and, where the scale is not zero, a point and exactly `scale`
/// digits.
pub open spec fn decimal_text(v: DecimalView) -> Seq<char> {
    if v.unscaled < 0 {
        seq!['-'] + unsigned_text((-v.unscaled) as nat, v.scale)
    } else {
        unsigned_text(v.unscaled as nat, v.scale)
    }
}

/// Whether `c` is one of the characters `0` to `9`.
pub open spec fn is_digit(c: char) -> bool {
    '0' <= c && c <= '9'
}

/// The digit that the character `c` writes.
pub open spec fn digit_value(c: char) -> nat {
    (c as int - 48) as nat
}

/// The number that digit characters write, most significant first.
pub open spec fn digits_value(s: Seq<char>) -> nat
    decreases s.len(),
{
    if s.len() == 0 {
        0
    } else {
        digits_value(s.drop_last()) * 10 + digit_value(s.last())
    }
}

/// Every character is a digit.
pub open spec fn all_digit_chars(s: Seq<char>) -> bool {
    forall|i: int| 0 <= i < s.len() ==> is_digit(#[trigger] s[i])
}

/// The length of the longest prefix of `s` made of digits.
pub open spec fn leading_digits(s: Seq<char>) -> nat
    decreases s.len(),
{
    if s.len() == 0 || !is_digit(s[0]) {
        0
    } else {
        1 + leading_digits(s.drop_first())
    }
}

/// The largest exponent, in magnitude, that a text may carry.
pub const MAX_EXPONENT: usize = 65535;

/// What the end of a decimal text means as an exponent: nothing means
/// zero; else it is `e` or `E`, an optional sign, and digits, at least one,
/// that write no more than [`MAX_EXPONENT`].
pub open spec fn parse_exponent(tail: Seq<char>) -> Option<int> {
    if tail.len() == 0 {
        Some(0)
    } else if tail[0] == 'e' || tail[0] == 'E' {
        let rest = tail.drop_first();
        let signed = rest.len() > 0 && (rest[0] == '-' || rest[0] == '+');
        let negative = rest.len() > 0 && rest[0] == '-';
        let digits = if signed {
            rest.drop_first()
        } else {
            rest
        };
        if digits.len() > 0 && all_digit_chars(digits) && digits_value(digits) <= MAX_EXPONENT {
            Some(
                if negative {
                    -(digits_value(digits) as int)
                } else {
                    digits_value(digits) as int
                },
            )
        } else {
            None
        }
    } else {
        None
    }
}

/// The decimal `± mantissa × 10^(exponent − fraction_len)`: the exponent
/// first uses up digits after the point, and what is left of it multiplies
/// the mantissa.
pub open spec fn scaled(negative: bool, mantissa: nat, fraction_len: nat, exponent: int)
    -> DecimalView {
    let value = (if exponent > fraction_len {
        mantissa * pow10((exponent - fraction_len) as nat)
    } else {
        mantissa
    }) as int;
    DecimalView {
        unscaled: if negative {
            -value
        } else {
            value
        },
        scale: if exponent > fraction_len {
            0
        } else {
            (fraction_len - exponent) as nat
        },
    }
}

/// What a text without sign means as a decimal, if it is one: digits,
/// optionally a point followed by digits, with at least one digit so far,
/// and optionally an exponent.
pub open spec fn parse_unsigned(negative: bool, body: Seq<char>) -> Option<DecimalView> {
    let w = leading_digits(body) as int;
    let whole = body.take(w);
    let pointed = w < body.len() && body[w] == '.';
    let rest = if pointed {
        body.skip(w + 1)
    } else {
        body.skip(w)
    };
    let f = if pointed {
        leading_digits(rest) as int
    } else {
        0
    };
    let fraction = rest.take(f);
    match parse_exponent(rest.skip(f)) {
        Some(exponent) => if whole.len() + fraction.len() > 0 {
            Some(scaled(negative, digits_value(whole + fraction), fraction.len(), exponent))
        } else {
            None
        },
        None => None,
    }
}

/// What a text means as a decimal, if it is one: an optional sign, digits,
/// optionally a point followed by digits, with at least one digit so far,
/// and optionally an exponent. Without an exponent the scale is the number
/// of digits after the point.
pub open spec fn parse_decimal(text: Seq<char>) -> Option<DecimalView> {
    let signed = text.len() > 0 && (text[0] == '-' || text[0] == '+');
    let negative = text.len() > 0 && text[0] == '-';
    parse_unsigned(
        negative,
        if signed {
            text.drop_first()
        } else {
            text
        },
    )
}

/// Digits that follow never make the number written so far smaller.
pub proof fn lemma_digits_value_grows(s: Seq<char>, k: int)
    requires
        0 <= k <= s.len(),
    ensures
        digits_value(s.take(k)) <= digits_value(s),
    decreases s.len() - k,
{
    if k < s.len() {
        lemma_digits_value_grows(s, k + 1);
        assert(s.take(k + 1).drop_last() =~= s.take(k));
    } else {
        assert(s.take(k) =~= s);
    }
}

/// Digits written one after the other: the first ones weigh as much more as
/// the later ones are long.
pub proof fn lemma_digits_value_concat(a: Seq<char>, b: Seq<char>)
    ensures
        digits_value(a + b) == digits_value(a) * pow10(b.len()) + digits_value(b),
    decreases b.len(),
{
    lemma_pow10_unfold(0);
    if b.len() == 0 {
        assert(a + b =~= a);
        assert(digits_value(a) * pow10(0) == digits_value(a)) by (nonlinear_arith)
            requires
                pow10(0) == 1,
        ;
    } else {
        let front = b.drop_last();
        lemma_digits_value_concat(a, front);
        assert((a + b).drop_last() =~= a + front);
        assert((a + b).last() == b.last());
        lemma_pow10_unfold(front.len());
        let p = pow10(front.len());
        let q = pow10(b.len());
        let x = digits_value(a);
        let y = digits_value(front);
        assert((x * p + y) * 10 == x * q + y * 10) by (nonlinear_arith)
            requires
                q == 10 * p,
        ;
    }
}

/// The text of a natural number is made of digits and writes that number.
pub proof fn lemma_natural_text_reads_back(n: nat)
    ensures
        natural_text(n).len() >= 1,
        all_digit_chars(natural_text(n)),
        digits_value(natural_text(n)) == n,
    decreases n,
{
    let s = natural_text(n);
    if n < 10 {
        assert(s.drop_last() =~= Seq::<char>::empty());
        assert(digits_value(s.drop_last()) == 0);
        assert(s.last() == digit_char(n));
    } else {
        lemma_natural_text_reads_back(n / 10);
        let front = natural_text(n / 10);
        assert(s.drop_last() =~= front);
        assert(s.last() == digit_char(n % 10));
        assert forall|i: int| 0 <= i < s.len() implies is_digit(#[trigger] s[i]) by {
            if i < front.len() {
                assert(s[i] == front[i]);
            }
        }
    }
}

/// Digits at a fixed width are that many digits and write the number up to
/// that width.
pub proof fn lemma_fixed_digits_read_back(n: nat, width: nat)
    ensures
        fixed_digits(n, width).len() == width,
        all_digit_chars(fixed_digits(n, width)),
        digits_value(fixed_digits(n, width)) == n % pow10(width),
    decreases width,
{
    lemma_pow10_unfold(0);
    let s = fixed_digits(n, width);
    if width > 0 {
        let less = (width - 1) as nat;
        lemma_fixed_digits_read_back(n / 10, less);
        let front = fixed_digits(n / 10, less);
        assert(s.drop_last() =~= front);
        assert(s.last() == digit_char(n % 10));
        assert forall|i: int| 0 <= i < s.len() implies is_digit(#[trigger] s[i]) by {
            if i < front.len() {
                assert(s[i] == front[i]);
            }
        }
        lemma_pow10_unfold(less);
        lemma_mod_breakdown(n as int, 10, pow10(less) as int);
        assert(pow10(width) == 10 * pow10(less));
    }
}

/// Where digits are followed by the end, or by something that is no digit,
/// the leading digits are exactly those.
pub proof fn lemma_leading_digits_stop(a: Seq<char>, rest: Seq<char>)
    requires
        all_digit_chars(a),
        rest.len() == 0 || !is_digit(rest[0]),
    ensures
        leading_digits(a + rest) == a.len(),
    decreases a.len(),
{
    if a.len() == 0 {
        assert(a + rest =~= rest);
    } else {
        let tail = a.drop_first();
        assert((a + rest).drop_first() =~= tail + rest);
        assert((a + rest)[0] == a[0]);
        assert forall|i: int| 0 <= i < tail.len() implies is_digit(#[trigger] tail[i]) by {
            assert(tail[i] == a[i + 1]);
        }
        lemma_leading_digits_stop(tail, rest);
    }
}

/// Reading a number written without a point gives it back at scale zero.
proof fn lemma_whole_reads_back(negative: bool, m: nat)
    ensures
        parse_unsigned(negative, unsigned_text(m, 0)) == Some(scaled(negative, m, 0, 0)),
        is_digit(unsigned_text(m, 0)[0]),
{
    lemma_pow10_unfold(0);
    let p = pow10(0);
    assert(m / p == m) by (nonlinear_arith)
        requires
            p == 1,
    ;
    let whole = natural_text(m);
    lemma_natural_text_reads_back(m);
    let none = Seq::<char>::empty();
    let w = whole.len() as int;
    lemma_leading_digits_stop(whole, none);
    assert(whole + none =~= whole);
    assert(whole.take(w) =~= whole);
    assert(whole.skip(w) =~= none);
    assert(none.take(0) =~= none);
    assert(none.skip(0) =~= none);
}

/// Reading a number written with a point gives it back at its scale.
proof fn lemma_pointed_reads_back(negative: bool, m: nat, scale: nat)
    requires
        scale > 0,
    ensures
        parse_unsigned(negative, unsigned_text(m, scale)) == Some(scaled(negative, m, scale, 0)),
        is_digit(unsigned_text(m, scale)[0]),
{
    let p = pow10(scale);
    lemma_pow10_unfold(scale);
    let whole = natural_text(m / p);
    let fraction = fixed_digits(m % p, scale);
    lemma_natural_text_reads_back(m / p);
    lemma_fixed_digits_read_back(m % p, scale);
    let body = whole + seq!['.'] + fraction;
    let none = Seq::<char>::empty();
    let w = whole.len() as int;
    let rest = seq!['.'] + fraction;
    assert(body =~= whole + rest);
    assert(body[0] == whole[0]);
    assert(rest[0] == '.');
    lemma_leading_digits_stop(whole, rest);
    assert(body.take(w) =~= whole);
    assert(body[w] == '.');
    assert(body.skip(w + 1) =~= fraction);
    lemma_leading_digits_stop(fraction, none);
    assert(fraction + none =~= fraction);
    assert(fraction.take(fraction.len() as int) =~= fraction);
    assert(fraction.skip(fraction.len() as int) =~= none);
    lemma_digits_value_concat(whole, fraction);
    lemma_fundamental_div_mod(m as int, p as int);
    assert((m % p) % p == m % p) by {
        vstd::arithmetic::div_mod::lemma_mod_twice(m as int, p as int);
    }
    assert((m / p) * p + m % p == m) by (nonlinear_arith)
        requires
            m == p * (m / p) + m % p,
    ;
}

/// Reading the text of a decimal gives the decimal back, scale included.
pub proof fn lemma_text_reads_back(v: DecimalView)
    ensures
        parse_decimal(decimal_text(v)) == Some(v),
{
    let m = (if v.unscaled < 0 {
        -v.unscaled
    } else {
        v.unscaled
    }) as nat;
    let negative = v.unscaled < 0;
    let body = unsigned_text(m, v.scale);
    if v.scale == 0 {
        lemma_whole_reads_back(negative, m);
    } else {
        lemma_pointed_reads_back(negative, m, v.scale);
    }
    let text = decimal_text(v);
    if negative {
        assert(text[0] == '-');
        assert(text.drop_first() =~= body);
    } else {
        assert(text =~= body);
    }
}

/// The digit that `c` writes, if it is a digit.
fn digit_of(c: char) -> (r: Option<u8>)
    ensures
        match r {
            Some(d) => is_digit(c) && d == digit_value(c) && d < 10,
            None => !is_digit(c),
        },
{
    match c {
        '0' => Some(0),
        '1' => Some(1),
        '2' => Some(2),
        '3' => Some(3),
        '4' => Some(4),
        '5' => Some(5),
        '6' => Some(6),
        '7' => Some(7),
        '8' => Some(8),
        '9' => Some(9),
        _ => None,
    }
}

/// The characters of little-endian digits, most significant first.
spec fn written(d: Seq<u8>) -> Seq<char>
    decreases d.len(),
{
    if d.len() == 0 {
        Seq::empty()
    } else {
        written(d.drop_first()).push(digit_char(d[0] as nat))
    }
}

proof fn lemma_written_fixed(d: Seq<u8>)
    requires
        all_digits(d),
    ensures
        fixed_digits(magnitude(d), d.len()) == written(d),
    decreases d.len(),
{
    if d.len() > 0 {
        let rest = d.drop_first();
        assert(all_digits(rest)) by {
            assert forall|i: int| 0 <= i < rest.len() implies #[trigger] rest[i] < 10 by {
                assert(rest[i] == d[i + 1]);
            }
        }
        lemma_written_fixed(rest);
        assert(d[0] < 10);
        assert(magnitude(d) == d[0] as nat + 10 * magnitude(rest));
        assert(magnitude(d) / 10 == magnitude(rest));
        assert(magnitude(d) % 10 == d[0] as nat);
    }
}

proof fn lemma_written_natural(d: Seq<u8>)
    requires
        all_digits(d),
        d.len() > 0,
        d.len() == 1 || d.last() != 0,
    ensures
        natural_text(magnitude(d)) == written(d),
    decreases d.len(),
{
    let rest = d.drop_first();
    assert(d[0] < 10);
    assert(magnitude(d) == d[0] as nat + 10 * magnitude(rest));
    if d.len() == 1 {
        assert(rest =~= Seq::<u8>::empty());
        assert(magnitude(rest) == 0);
        assert(written(rest) =~= Seq::<char>::empty());
        assert(written(d) =~= seq![digit_char(d[0] as nat)]);
    } else {
        assert(all_digits(rest)) by {
            assert forall|i: int| 0 <= i < rest.len() implies #[trigger] rest[i] < 10 by {
                assert(rest[i] == d[i + 1]);
            }
        }
        assert(rest.last() == d.last());
        lemma_written_natural(rest);
        assert(magnitude(rest) > 0) by {
            lemma_magnitude_zero(rest);
            if magnitude(rest) == 0 {
                assert(rest[rest.len() - 1] == 0);
            }
        }
        assert(magnitude(d) >= 10);
        assert(magnitude(d) / 10 == magnitude(rest));
        assert(magnitude(d) % 10 == d[0] as nat);
    }
}

/// The one-character string of a digit.
fn digit_str(d: u8) -> (r: &'static str)
    requires
        d < 10,
    ensures
        r@ == seq![digit_char(d as nat)],
{
    proof {
        reveal_strlit("0");
        reveal_strlit("1");
        reveal_strlit("2");
        reveal_strlit("3");
        reveal_strlit("4");
        reveal_strlit("5");
        reveal_strlit("6");
        reveal_strlit("7");
        reveal_strlit("8");
        reveal_strlit("9");
    }
    let r = match d {
        0 => "0",
        1 => "1",
        2 => "2",
        3 => "3",
        4 => "4",
        5 => "5",
        6 => "6",
        7 => "7",
        8 => "8",
        _ => "9",
    };
    assert(r@ =~= seq![digit_char(d as nat)]);
    r
}

/// An exact decimal number.
#[derive(Debug)]
pub struct Decimal {
    negative: bool,
    /// Digits of the absolute unscaled value, least significant first.
    digits: Vec<u8>,
    scale: usize,
}

impl View for Decimal {
    type V = DecimalView;

    closed spec fn view(&self) -> DecimalView {
        DecimalView {
            unscaled: if self.negative {
                -(magnitude(self.digits@) as int)
            } else {
                magnitude(self.digits@) as int
            },
            scale: self.scale as nat,
        }
    }
}

/// All digits of `d` are zero exactly when it stands for zero.
proof fn lemma_magnitude_zero(d: Seq<u8>)
    ensures
        magnitude(d) == 0 <==> (forall|i: int| 0 <= i < d.len() ==> #[trigger] d[i] == 0),
    decreases d.len(),
{
    if d.len() > 0 {
        let rest = d.drop_first();
        lemma_magnitude_zero(rest);
        if magnitude(d) == 0 {
            assert forall|i: int| 0 <= i < d.len() implies #[trigger] d[i] == 0 by {
                if i > 0 {
                    assert(rest[i - 1] == d[i]);
                }
            }
        }
        if forall|i: int| 0 <= i < d.len() ==> #[trigger] d[i] == 0 {
            assert(d[0] == 0);
            assert forall|i: int| 0 <= i < rest.len() implies #[trigger] rest[i] == 0 by {
                assert(rest[i] == d[i + 1]);
            }
        }
    }
}

/// Whether the digits stand for zero.
fn stands_for_zero(d: &Vec<u8>) -> (r: bool)
    ensures
        r == (magnitude(d@) == 0),
{
    let mut i: usize = 0;
    while i < d.len()
        invariant
            i <= d.len(),
            forall|j: int| 0 <= j < i ==> #[trigger] d@[j] == 0,
        decreases d.len() - i,
    {
        if d[i] != 0 {
            proof {
                lemma_magnitude_zero(d@);
            }
            return false;
        }
        i += 1;
    }
    proof {
        lemma_magnitude_zero(d@);
    }
    true
}

/// Zeros put below the digits of a number multiply it by ten for each.
proof fn lemma_magnitude_shift(zeros: Seq<u8>, d: Seq<u8>)
    requires
        forall|i: int| 0 <= i < zeros.len() ==> #[trigger] zeros[i] == 0,
    ensures
        magnitude(zeros + d) == magnitude(d) * pow10(zeros.len()),
{
    let k = zeros.len() as int;
    lemma_magnitude_split(zeros + d, k);
    assert((zeros + d).take(k) =~= zeros);
    assert((zeros + d).skip(k) =~= d);
    lemma_magnitude_zero(zeros);
    assert(pow10(zeros.len()) * magnitude(d) == magnitude(d) * pow10(zeros.len()))
        by (nonlinear_arith);
}

/// Reads the digits of `text` from position `from` up to the first
/// character that is none, and puts them below the digits read before.
fn read_digits(text: &str, n: usize, from: usize, digits: &mut Vec<u8>) -> (to: usize)
    requires
        n == text@.len(),
        from <= n,
        all_digits(old(digits)@),
    ensures
        from <= to <= n,
        to - from == leading_digits(text@.skip(from as int)),
        all_digits(final(digits)@),
        final(digits)@.len() == old(digits)@.len() + (to - from),
        magnitude(final(digits)@) == magnitude(old(digits)@) * pow10((to - from) as nat)
            + digits_value(text@.skip(from as int).take(to - from)),
{
    let ghost run = text@.skip(from as int);
    let ghost before = magnitude(digits@);
    let ghost len_before = digits@.len();
    let mut i: usize = from;
    proof {
        lemma_pow10_unfold(0);
        assert(run.take(0) =~= Seq::<char>::empty());
        assert(run.skip(0) =~= run);
        assert(before * pow10(0) == before) by (nonlinear_arith)
            requires
                pow10(0) == 1,
        ;
    }
    loop
        invariant_except_break
            leading_digits(run) == (i - from) + leading_digits(run.skip(i - from)),
        invariant
            from <= i <= n,
            n == text@.len(),
            run == text@.skip(from as int),
            all_digits(digits@),
            digits@.len() == len_before + (i - from),
            magnitude(digits@) == before * pow10((i - from) as nat) + digits_value(
                run.take(i - from),
            ),
        ensures
            leading_digits(run) == i - from,
        decreases n - i,
    {
        if i >= n {
            assert(run.skip(i - from) =~= Seq::<char>::empty());
            break ;
        }
        let c = text.get_char(i);
        assert(run.skip(i - from)[0] == c);
        let d = match digit_of(c) {
            Some(d) => d,
            None => {
                break ;
            },
        };
        proof {
            let k = i - from;
            assert(run.skip(k).drop_first() =~= run.skip(k + 1));
            assert(run.take(k + 1).drop_last() =~= run.take(k));
            assert(run.take(k + 1).last() == c);
            assert(digits@.insert(0, d) =~= seq![d] + digits@);
            crate::digits::lemma_magnitude_cons(d, digits@);
            lemma_pow10_unfold(k as nat);
            let p = pow10(k as nat);
            let q = pow10((k + 1) as nat);
            let v = digits_value(run.take(k));
            assert(d + 10 * (before * p + v) == before * q + (v * 10 + d)) by (nonlinear_arith)
                requires
                    q == 10 * p,
            ;
        }
        digits.insert(0, d);
        i += 1;
    }
    i
}

/// An exponent as it was read: its sign and its size.
struct Exponent {
    negative: bool,
    size: usize,
}

impl Exponent {
    spec fn value(self) -> int {
        if self.negative {
            -(self.size as int)
        } else {
            self.size as int
        }
    }
}

/// Reads the exponent that `text` carries from position `from` on.
#[verifier::loop_isolation(false)]
fn read_exponent(text: &str, n: usize, from: usize) -> (r: Option<Exponent>)
    requires
        n == text@.len(),
        from <= n,
    ensures
        match r {
            Some(e) => e.size <= MAX_EXPONENT && parse_exponent(text@.skip(from as int)) == Some(
                e.value(),
            ),
            None => parse_exponent(text@.skip(from as int)) is None,
        },
{
    let ghost tail = text@.skip(from as int);
    if from >= n {
        return Some(Exponent { negative: false, size: 0 });
    }
    let c = text.get_char(from);
    assert(tail[0] == c);
    if c != 'e' && c != 'E' {
        return None;
    }
    let ghost rest = tail.drop_first();
    assert(rest =~= text@.skip(from + 1));
    let mut j: usize = from + 1;
    let mut negative = false;
    if j < n {
        let c = text.get_char(j);
        assert(rest[0] == c);
        if c == '-' {
            negative = true;
            j += 1;
        } else if c == '+' {
            j += 1;
        }
    }
    let first = j;
    let ghost written = text@.skip(first as int);
    proof {
        if first == from + 2 {
            assert(written =~= rest.drop_first());
        } else {
            assert(written =~= rest);
        }
        assert(written.take(0) =~= Seq::<char>::empty());
    }
    if j >= n {
        return None;
    }
    let mut value: usize = 0;
    while j < n
        invariant
            first <= j <= n,
            n == text@.len(),
            written == text@.skip(first as int),
            value <= MAX_EXPONENT,
            value == digits_value(written.take(j - first)),
            all_digit_chars(written.take(j - first)),
        decreases n - j,
    {
        let c = text.get_char(j);
        assert(written[j - first] == c);
        let d = match digit_of(c) {
            Some(d) => d,
            None => {
                return None;
            },
        };
        proof {
            let k = j - first;
            assert(written.take(k + 1).drop_last() =~= written.take(k));
            assert(written.take(k + 1).last() == c);
            assert forall|x: int| 0 <= x < k + 1 implies is_digit(
                #[trigger] written.take(k + 1)[x],
            ) by {
                if x < k {
                    assert(written.take(k)[x] == written[x]);
                }
            }
            lemma_digits_value_grows(written, k + 1);
        }
        value = value * 10 + d as usize;
        if value > MAX_EXPONENT {
            return None;
        }
        j += 1;
    }
    proof {
        assert(written.take(j - first) =~= written);
    }
    Some(Exponent { negative, size: value })
}

impl Decimal {
    #[verifier::type_invariant]
    spec fn well_formed(self) -> bool {
        &&& all_digits(self.digits@)
        &&& self.digits@.len() > self.scale
        &&& (self.digits@.len() == self.scale + 1 || self.digits@.last() != 0)
        &&& (self.negative ==> magnitude(self.digits@) > 0)
    }

    /// Builds the number `±magnitude(digits) / 10^scale` in its one
    /// representation: at least one digit before the point, no further
    /// leading zero, and no sign on zero.
    fn assemble(negative: bool, digits: Vec<u8>, scale: usize) -> (r: Decimal)
        requires
            all_digits(digits@),
        ensures
            r@ == (DecimalView {
                unscaled: if negative {
                    -(magnitude(digits@) as int)
                } else {
                    magnitude(digits@) as int
                },
                scale: scale as nat,
            }),
    {
        let ghost given = digits@;
        let mut digits = digits;
        while digits.len() <= scale
            invariant
                all_digits(digits@),
                magnitude(digits@) == magnitude(given),
            decreases scale + 1 - digits.len(),
        {
            proof {
                lemma_magnitude_push(digits@, 0);
                assert(0 * pow10(digits@.len()) == 0) by (nonlinear_arith);
            }
            digits.push(0);
        }
        while digits.len() - 1 > scale && digits[digits.len() - 1] == 0
            invariant
                all_digits(digits@),
                digits@.len() > scale,
                magnitude(digits@) == magnitude(given),
            decreases digits.len(),
        {
            proof {
                let shorter = digits@.drop_last();
                assert(digits@ =~= shorter.push(0));
                lemma_magnitude_push(shorter, 0);
                assert(0 * pow10(shorter.len()) == 0) by (nonlinear_arith);
            }
            digits.pop();
        }
        let negative = negative && !stands_for_zero(&digits);
        Decimal { negative, digits, scale }
    }

    /// The number `0.0`, which stands for an absent amount.
    pub fn zero() -> (r: Decimal)
        ensures
            r@ == zero_view(),
    {
        let mut digits: Vec<u8> = Vec::new();
        digits.push(0);
        digits.push(0);
        proof {
            lemma_magnitude_zero(digits@);
        }
        Decimal::assemble(false, digits, 1)
    }

    /// The number `1.0`, the price assumed when none can be resolved.
    pub fn one() -> (r: Decimal)
        ensures
            r@ == one_view(),
    {
        let mut digits: Vec<u8> = Vec::new();
        digits.push(0);
        proof {
            lemma_magnitude_zero(digits@);
            lemma_magnitude_push(digits@, 1);
            lemma_pow10_unfold(0);
            assert(1 * pow10(1) == 10) by (nonlinear_arith)
                requires
                    pow10(1) == 10,
            ;
        }
        digits.push(1);
        Decimal::assemble(false, digits, 1)
    }

    /// The decimal `± magnitude(digits) × 10^(exponent − fraction_len)`.
    fn from_parts(negative: bool, digits: Vec<u8>, fraction_len: usize, e: Exponent) -> (r:
        Decimal)
        requires
            all_digits(digits@),
            fraction_len <= digits@.len(),
            e.size <= MAX_EXPONENT,
        ensures
            r@ == scaled(negative, magnitude(digits@), fraction_len as nat, e.value()),
    {
        let exponent_negative = e.negative;
        let exponent: usize = e.size;
        if exponent_negative {
            // Pad first, so that the length of the digits bounds the scale.
            let ghost given = digits@;
            let mut digits = digits;
            let mut k: usize = 0;
            while k < exponent
                invariant
                    k <= exponent,
                    all_digits(digits@),
                    magnitude(digits@) == magnitude(given),
                    digits@.len() == given.len() + k,
                decreases exponent - k,
            {
                proof {
                    lemma_magnitude_push(digits@, 0);
                    assert(0 * pow10(digits@.len()) == 0) by (nonlinear_arith);
                }
                digits.push(0);
                k += 1;
            }
            assert(fraction_len + exponent <= digits.len());
            Decimal::assemble(negative, digits, fraction_len + exponent)
        } else if exponent <= fraction_len {
            Decimal::assemble(negative, digits, fraction_len - exponent)
        } else {
            let shift: usize = exponent - fraction_len;
            let mut shifted: Vec<u8> = Vec::new();
            let mut k: usize = 0;
            while k < shift
                invariant
                    k <= shift,
                    shifted@.len() == k,
                    forall|i: int| 0 <= i < shifted@.len() ==> #[trigger] shifted@[i] == 0,
                decreases shift - k,
            {
                shifted.push(0);
                k += 1;
            }
            let ghost zeros = shifted@;
            let mut i: usize = 0;
            proof {
                assert(zeros + digits@.take(0) =~= zeros);
            }
            while i < digits.len()
                invariant
                    i <= digits@.len(),
                    all_digits(digits@),
                    shifted@ == zeros + digits@.take(i as int),
                decreases digits@.len() - i,
            {
                proof {
                    assert(zeros + digits@.take(i + 1) =~= (zeros + digits@.take(i as int)).push(
                        digits@[i as int],
                    ));
                }
                shifted.push(digits[i]);
                i += 1;
            }
            proof {
                assert(digits@.take(i as int) =~= digits@);
                lemma_magnitude_shift(zeros, digits@);
                assert(all_digits(shifted@)) by {
                    assert forall|x: int| 0 <= x < shifted@.len() implies #[trigger] shifted@[x]
                        < 10 by {
                        if x >= zeros.len() {
                            assert(shifted@[x] == digits@[x - zeros.len()]);
                        }
                    }
                }
            }
            Decimal::assemble(negative, shifted, 0)
        }
    }

    /// Reads what follows the sign of a decimal text, from position `start`
    /// on.
    fn read_unsigned(text: &str, n: usize, start: usize, negative: bool) -> (r: Option<Decimal>)
        requires
            n == text@.len(),
            start <= n,
        ensures
            match r {
                Some(d) => parse_unsigned(negative, text@.skip(start as int)) == Some(d@),
                None => parse_unsigned(negative, text@.skip(start as int)) is None,
            },
    {
        let ghost body = text@.skip(start as int);
        let mut digits: Vec<u8> = Vec::new();
        let whole_end = read_digits(text, n, start, &mut digits);
        let ghost w = whole_end - start;
        let ghost whole = body.take(w);
        assert(magnitude(digits@) == digits_value(whole)) by {
            assert(magnitude(Seq::<u8>::empty()) * pow10(w as nat) == 0) by (nonlinear_arith)
                requires
                    magnitude(Seq::<u8>::empty()) == 0,
            ;
        }
        let mut pointed = false;
        if whole_end < n {
            let c = text.get_char(whole_end);
            assert(body[w] == c);
            pointed = c == '.';
        }
        if pointed {
            let ghost rest = body.skip(w + 1);
            assert(rest =~= text@.skip(whole_end + 1));
            let ghost whole_value = magnitude(digits@);
            let end = read_digits(text, n, whole_end + 1, &mut digits);
            let fraction_len: usize = end - (whole_end + 1);
            let ghost fraction = rest.take(fraction_len as int);
            proof {
                lemma_digits_value_concat(whole, fraction);
                assert(magnitude(digits@) == digits_value(whole + fraction));
                assert(rest.skip(fraction_len as int) =~= text@.skip(end as int));
            }
            let exponent = read_exponent(text, n, end);
            Decimal::finish(negative, digits, fraction_len, exponent)
        } else {
            let ghost rest = body.skip(w);
            proof {
                assert(rest =~= text@.skip(whole_end as int));
                assert(rest.take(0) =~= Seq::<char>::empty());
                assert(rest.skip(0) =~= rest);
                assert(whole + rest.take(0) =~= whole);
            }
            let exponent = read_exponent(text, n, whole_end);
            Decimal::finish(negative, digits, 0, exponent)
        }
    }

    /// The decimal of a mantissa and an exponent that were read, if both
    /// were there.
    fn finish(negative: bool, digits: Vec<u8>, fraction_len: usize, exponent: Option<Exponent>)
        -> (r: Option<Decimal>)
        requires
            all_digits(digits@),
            fraction_len <= digits@.len(),
            exponent is Some ==> exponent->0.size <= MAX_EXPONENT,
        ensures
            r is Some <==> exponent is Some && digits@.len() > 0,
            r is Some ==> r->0@ == scaled(
                negative,
                magnitude(digits@),
                fraction_len as nat,
                exponent->0.value(),
            ),
    {
        match exponent {
            Some(e) => {
                if digits.len() == 0 {
                    None
                } else {
                    Some(Decimal::from_parts(negative, digits, fraction_len, e))
                }
            },
            None => None,
        }
    }

    /// Reads a decimal from text: an optional sign, digits with at most
    /// one point among them, at least one digit, and optionally an
    /// exponent. Anything else is refused.
    pub fn parse(text: &str) -> (r: Option<Decimal>)
        ensures
            match r {
                Some(d) => parse_decimal(text@) == Some(d@),
                None => parse_decimal(text@) is None,
            },
    {
        let n = text.unicode_len();
        let mut start: usize = 0;
        let mut negative = false;
        if n > 0 {
            let c = text.get_char(0);
            if c == '-' {
                negative = true;
                start = 1;
            } else if c == '+' {
                start = 1;
            }
        }
        proof {
            if start == 1 {
                assert(text@.skip(1) =~= text@.drop_first());
            } else {
                assert(text@.skip(0) =~= text@);
            }
        }
        Decimal::read_unsigned(text, n, start, negative)
    }

    /// The exact product of two numbers.
    pub fn times(&self, other: &Decimal) -> (r: Decimal)
        ensures
            r@ == self@.times(other@),
    {
        proof {
            use_type_invariant(self);
            use_type_invariant(other);
        }
        let mut digits = product(&self.digits, &other.digits);
        // Pad first, so that the length of the padded digits bounds the sum
        // of the two scales.
        let ghost raw = digits@;
        while digits.len() <= self.scale
            invariant
                all_digits(digits@),
                magnitude(digits@) == magnitude(raw),
            decreases self.scale + 1 - digits.len(),
        {
            proof {
                lemma_magnitude_push(digits@, 0);
                assert(0 * pow10(digits@.len()) == 0) by (nonlinear_arith);
            }
            digits.push(0);
        }
        let ghost start = digits@.len();
        let mut added: usize = 0;
        while added < other.scale
            invariant
                added <= other.scale,
                all_digits(digits@),
                magnitude(digits@) == magnitude(raw),
                digits@.len() == start + added,
                start > self.scale,
            decreases other.scale - added,
        {
            proof {
                lemma_magnitude_push(digits@, 0);
                assert(0 * pow10(digits@.len()) == 0) by (nonlinear_arith);
            }
            digits.push(0);
            added += 1;
        }
        assert(self.scale + other.scale < digits.len());
        let scale: usize = self.scale + other.scale;
        let negative = self.negative != other.negative;
        proof {
            let a = magnitude(self.digits@) as int;
            let b = magnitude(other.digits@) as int;
            assert((-a) * b == -(a * b)) by (nonlinear_arith);
            assert(a * (-b) == -(a * b)) by (nonlinear_arith);
            assert((-a) * (-b) == a * b) by (nonlinear_arith);
        }
        Decimal::assemble(negative, digits, scale)
    }

    /// The number as text, with exactly as many digits after the point as
    /// its scale says.
    pub fn to_text(&self) -> (r: String)
        ensures
            r@ == decimal_text(self@),
    {
        proof {
            use_type_invariant(self);
            reveal_strlit("-");
            reveal_strlit(".");
        }
        let ghost d = self.digits@;
        let ghost sign = if self.negative {
            seq!['-']
        } else {
            Seq::<char>::empty()
        };
        let mut out = String::new();
        if self.negative {
            out.append("-");
        }
        assert(out@ =~= sign);
        let mut i: usize = self.digits.len();
        proof {
            assert(d.skip(i as int) =~= Seq::<u8>::empty());
            assert(out@ =~= sign + written(d.skip(i as int)));
        }
        while i > self.scale
            invariant
                self.scale <= i <= d.len(),
                d == self.digits@,
                all_digits(d),
                out@ == sign + written(d.skip(i as int)),
            decreases i,
        {
            i -= 1;
            let piece = digit_str(self.digits[i]);
            proof {
                assert(d.skip(i as int).drop_first() =~= d.skip(i + 1));
                assert(sign + written(d.skip(i + 1)) + piece@ =~= sign + written(
                    d.skip(i as int),
                ));
            }
            out.append(piece);
        }
        let ghost whole = written(d.skip(self.scale as int));
        if self.scale > 0 {
            out.append(".");
            let ghost low = d.take(self.scale as int);
            proof {
                assert(low.skip(i as int) =~= Seq::<u8>::empty());
                assert(out@ =~= sign + whole + seq!['.'] + written(low.skip(i as int)));
            }
            while i > 0
                invariant
                    i <= self.scale < d.len(),
                    d == self.digits@,
                    all_digits(d),
                    low == d.take(self.scale as int),
                    out@ == sign + whole + seq!['.'] + written(low.skip(i as int)),
                decreases i,
            {
                i -= 1;
                let piece = digit_str(self.digits[i]);
                proof {
                    assert(low.skip(i as int).drop_first() =~= low.skip(i + 1));
                    assert(low.skip(i as int)[0] == d[i as int]);
                    assert(sign + whole + seq!['.'] + written(low.skip(i + 1)) + piece@ =~= sign
                        + whole + seq!['.'] + written(low.skip(i as int)));
                }
                out.append(piece);
            }
            proof {
                assert(low.skip(0) =~= low);
            }
        }
        proof {
            let k = self.scale as int;
            let m = magnitude(d);
            let p = pow10(self.scale as nat);
            let lo = d.take(k);
            let hi = d.skip(k);
            lemma_magnitude_split(d, k);
            assert(all_digits(lo));
            assert(all_digits(hi));
            lemma_magnitude_bound(lo);
            lemma_pow10_unfold(self.scale as nat);
            assert(m == magnitude(hi) * p + magnitude(lo)) by (nonlinear_arith)
                requires
                    m == magnitude(lo) + p * magnitude(hi),
            ;
            lemma_fundamental_div_mod_converse(
                m as int,
                p as int,
                magnitude(hi) as int,
                magnitude(lo) as int,
            );
            assert(hi.last() == d.last());
            lemma_written_natural(hi);
            lemma_written_fixed(lo);
        }
        out
    }
}

impl Clone for Decimal {
    fn clone(&self) -> (r: Decimal)
        ensures
            r@ == self@,
    {
        proof {
            use_type_invariant(self);
        }
        let mut digits: Vec<u8> = Vec::new();
        let mut i: usize = 0;
        while i < self.digits.len()
            invariant
                i <= self.digits.len(),
                digits@ == self.digits@.take(i as int),
            decreases self.digits.len() - i,
        {
            digits.push(self.digits[i]);
            proof {
                assert(self.digits@.take(i + 1) =~= self.digits@.take(i as int).push(
                    self.digits@[i as int],
                ));
            }
            i += 1;
        }
        proof {
            assert(self.digits@.take(i as int) =~= self.digits@);
        }
        Decimal { negative: self.negative, digits, scale: self.scale }
    }
}

} // verus!
