//! Number literals and their exact values.

use vstd::prelude::*;

verus! {

/// The mathematical value of a number literal: `mantissa / 10^scale`.
///
/// A decimal is *reduced* when its scale is as small as it can be, that is
/// when `scale == 0` or the mantissa is no multiple of ten. Two reduced
/// decimals are equal exactly when they denote the same number.
pub struct Decimal {
    pub mantissa: int,
    pub scale: nat,
}

/// Whether `c` is one of the ten digits.
pub open spec fn is_digit(c: char) -> bool {
    '0' <= c <= '9'
}

/// The digit that the character `c` stands for.
pub open spec fn digit_of(c: char) -> u8
    recommends
        is_digit(c),
{
    (c as u8 - '0' as u8) as u8
}

/// Every character of `s` is a digit or the decimal point.
pub open spec fn digits_and_points(s: Seq<char>) -> bool {
    forall|i: int| 0 <= i < s.len() ==> is_digit(#[trigger] s[i]) || s[i] == '.'
}

/// How many decimal points `s` holds.
pub open spec fn point_count(s: Seq<char>) -> nat
    decreases s.len(),
{
    if s.len() == 0 {
        0
    } else if s.last() == '.' {
        point_count(s.drop_last()) + 1
    } else {
        point_count(s.drop_last())
    }
}

/// How many digits `s` holds.
pub open spec fn digit_count(s: Seq<char>) -> nat
    decreases s.len(),
{
    if s.len() == 0 {
        0
    } else if is_digit(s.last()) {
        digit_count(s.drop_last()) + 1
    } else {
        digit_count(s.drop_last())
    }
}

/// How many digits of `s` stand behind a decimal point.
pub open spec fn fraction_len(s: Seq<char>) -> nat
    decreases s.len(),
{
    if s.len() == 0 {
        0
    } else if is_digit(s.last()) && point_count(s.drop_last()) > 0 {
        fraction_len(s.drop_last()) + 1
    } else {
        fraction_len(s.drop_last())
    }
}

/// The digits of `s`, read from left to right as one decimal integer with
/// the point left out.
pub open spec fn unscaled_value(s: Seq<char>) -> nat
    decreases s.len(),
{
    if s.len() == 0 {
        0
    } else if is_digit(s.last()) {
        unscaled_value(s.drop_last()) * 10 + digit_of(s.last()) as nat
    } else {
        unscaled_value(s.drop_last())
    }
}

/// Cancels factors of ten between `magnitude` and `10^scale`.
pub open spec fn reduce(magnitude: nat, scale: nat) -> (nat, nat)
    decreases scale,
{
    if scale > 0 && magnitude % 10 == 0 {
        reduce(magnitude / 10, (scale - 1) as nat)
    } else {
        (magnitude, scale)
    }
}

/// Ten to the power of `n`.
pub open spec fn pow10(n: nat) -> nat
    decreases n,
{
    if n == 0 {
        1
    } else {
        10 * pow10((n - 1) as nat)
    }
}

/// `magnitude / 10^scale` has no smaller scale.
pub open spec fn is_reduced(magnitude: nat, scale: nat) -> bool {
    scale == 0 || magnitude % 10 != 0
}

/// `m1 / 10^s1` and `m2 / 10^s2` are the same number.
pub open spec fn same_number(m1: nat, s1: nat, m2: nat, s2: nat) -> bool {
    m1 * pow10(s2) == m2 * pow10(s1)
}

/// The reduced decimal of the value `magnitude / 10^scale`, negated where
/// `negative` is set.
pub open spec fn decimal(negative: bool, magnitude: nat, scale: nat) -> Decimal {
    let (reduced, places) = reduce(magnitude, scale);
    Decimal {
        mantissa: if negative {
            -(reduced as int)
        } else {
            reduced as int
        },
        scale: places,
    }
}

/// The text after the sign is well formed: digits with at most one decimal
/// point among them, and at least one digit.
pub open spec fn well_formed_magnitude(body: Seq<char>) -> bool {
    &&& digits_and_points(body)
    &&& point_count(body) <= 1
    &&& digit_count(body) >= 1
}

/// Whether `text` begins with a minus sign.
pub open spec fn has_sign(text: Seq<char>) -> bool {
    text.len() > 0 && text[0] == '-'
}

/// The part of a number's text that follows the optional minus sign.
pub open spec fn magnitude_text(text: Seq<char>) -> Seq<char> {
    if has_sign(text) {
        text.skip(1)
    } else {
        text
    }
}

/// The number that `text` denotes: an optional minus sign, then digits with
/// at most one decimal point. Any other text denotes nothing.
pub open spec fn number_of_text(text: Seq<char>) -> Option<Decimal> {
    let body = magnitude_text(text);
    if well_formed_magnitude(body) {
        Some(decimal(has_sign(text), unscaled_value(body), fraction_len(body)))
    } else {
        None
    }
}

/// The value of a sequence of digits, most significant first.
pub open spec fn digits_value(digits: Seq<u8>) -> nat
    decreases digits.len(),
{
    if digits.len() == 0 {
        0
    } else {
        digits_value(digits.drop_last()) * 10 + digits.last() as nat
    }
}

/// The digits of `n`, most significant first; zero has none.
pub open spec fn decimal_digits(n: nat) -> Seq<u8>
    decreases n,
{
    if n == 0 {
        Seq::empty()
    } else {
        decimal_digits(n / 10).push((n % 10) as u8)
    }
}

/// The character that stands for the digit `d`.
pub open spec fn char_of(d: u8) -> char
    recommends
        d < 10,
{
    ((d + 48) as u8) as char
}

/// The characters that stand for `digits`.
pub open spec fn digit_text(digits: Seq<u8>) -> Seq<char> {
    Seq::new(digits.len(), |i: int| char_of(digits[i]))
}

/// `n` zeros.
pub open spec fn zero_text(n: nat) -> Seq<char> {
    Seq::new(n, |i: int| '0')
}

/// The decimal written out: a minus sign where it is below zero; the digits
/// of its mantissa before the last `scale` of them, or one zero where there
/// are none; and, where the scale is not zero, the decimal point and the
/// last `scale` digits, with zeros before them where the mantissa has fewer.
#[verifier::opaque]
pub open spec fn decimal_text(d: Decimal) -> Seq<char> {
    let digits = decimal_digits(vstd::math::abs(d.mantissa) as nat);
    let whole = if digits.len() > d.scale {
        digits.len() - d.scale
    } else {
        0
    };
    let sign = if d.mantissa < 0 {
        seq!['-']
    } else {
        Seq::empty()
    };
    let integer = if whole == 0 {
        seq!['0']
    } else {
        digit_text(digits.take(whole))
    };
    let fraction = if d.scale > 0 {
        seq!['.'] + zero_text((d.scale - (digits.len() - whole)) as nat) + digit_text(
            digits.skip(whole),
        )
    } else {
        Seq::empty()
    };
    sign + integer + fraction
}

/// No digit is above nine and the first one is not zero.
pub open spec fn significant_digits(digits: Seq<u8>) -> bool {
    &&& forall|i: int| 0 <= i < digits.len() ==> #[trigger] digits[i] < 10
    &&& digits.len() > 0 ==> digits[0] != 0
}

/// A number literal's value, held exactly as a reduced decimal; which double
/// is nearest to it is left to the caller, who has `to_text` for that.
///
/// The digits of the mantissa are kept most significant first and without
/// leading zeros; the scale is reduced, and zero carries no sign.
#[derive(Debug)]
pub struct Number {
    negative: bool,
    digits: Vec<u8>,
    scale: usize,
}

impl View for Number {
    type V = Decimal;

    closed spec fn view(&self) -> Decimal {
        Decimal {
            mantissa: if self.negative {
                -(digits_value(self.digits@) as int)
            } else {
                digits_value(self.digits@) as int
            },
            scale: self.scale as nat,
        }
    }
}

impl Number {
    #[verifier::type_invariant]
    closed spec fn inv(&self) -> bool {
        &&& significant_digits(self.digits@)
        &&& self.scale > 0 ==> self.digits.len() > 0 && self.digits@.last() != 0
        &&& self.negative ==> self.digits.len() > 0
    }

    /// Reads a number from its text: an optional minus sign, then digits with
    /// at most one decimal point among them.
    pub fn from_chars(text: &[char]) -> (r: Option<Number>)
        ensures
            match r {
                Some(n) => number_of_text(text@) == Some(n@),
                None => number_of_text(text@) is None,
            },
    {
        let negative = text.len() > 0 && text[0] == '-';
        let start: usize = if negative { 1 } else { 0 };
        let ghost body = magnitude_text(text@);
        let mut digits: Vec<u8> = Vec::new();
        let mut scale: usize = 0;
        let mut seen_point = false;
        let mut seen_digit = false;
        let mut i: usize = start;
        while i < text.len()
            invariant
                start <= i <= text.len(),
                body == magnitude_text(text@),
                body.len() == text.len() - start,
                forall|j: int| 0 <= j < body.len() ==> body[j] == text@[j + start],
                digits_and_points(body.take(i - start)),
                point_count(body.take(i - start)) == if seen_point { 1nat } else { 0nat },
                seen_digit == (digit_count(body.take(i - start)) > 0),
                scale == fraction_len(body.take(i - start)),
                scale <= i - start,
                significant_digits(digits@),
                digits_value(digits@) == unscaled_value(body.take(i - start)),
            decreases text.len() - i,
        {
            let c = text[i];
            proof {
                let next = body.take(i - start + 1);
                assert(next.drop_last() =~= body.take(i - start));
                assert(next.last() == c);
                assert(body[i - start] == c);
                lemma_point_count_prefix(body, i - start + 1);
            }
            if c == '.' {
                if seen_point {
                    return None;
                }
                seen_point = true;
            } else if '0' <= c && c <= '9' {
                let d = digit(c);
                if d != 0 || digits.len() > 0 {
                    proof {
                        assert(digits@.push(d).drop_last() =~= digits@);
                        lemma_digits_value_positive(digits@);
                    }
                    digits.push(d);
                }
                if seen_point {
                    scale = scale + 1;
                }
                seen_digit = true;
            } else {
                return None;
            }
            i = i + 1;
        }
        assert(body.take(i - start) =~= body);
        if !seen_digit {
            return None;
        }
        Some(Number::reduced(negative, digits, scale))
    }

    /// Reads a number from its text, as `from_chars` does.
    pub fn parse(text: &str) -> (r: Option<Number>)
        ensures
            match r {
                Some(n) => number_of_text(text@) == Some(n@),
                None => number_of_text(text@) is None,
            },
    {
        let mut chars: Vec<char> = Vec::new();
        for c in it: text.chars()
            invariant
                it.seq() == text@,
                chars@ == it.seq().take(it.index() as int),
        {
            chars.push(c);
        }
        assert(chars@ =~= text@);
        Number::from_chars(chars.as_slice())
    }

    /// The number `significand / 10^scale`, negated where `negative` is set.
    pub fn from_parts(negative: bool, significand: u64, scale: usize) -> (r: Number)
        ensures
            r@ == decimal(negative, significand as nat, scale as nat),
    {
        Number::reduced(negative, digits_of(significand), scale)
    }

    /// The number whose mantissa has the given digits, with its scale
    /// reduced.
    fn reduced(negative: bool, digits: Vec<u8>, scale: usize) -> (r: Number)
        requires
            significant_digits(digits@),
        ensures
            r@ == decimal(negative, digits_value(digits@), scale as nat),
    {
        let mut digits = digits;
        let mut scale = scale;
        let ghost magnitude = digits_value(digits@);
        let ghost places = scale as nat;
        while scale > 0 && (digits.len() == 0 || digits[digits.len() - 1] == 0)
            invariant
                significant_digits(digits@),
                reduce(digits_value(digits@), scale as nat) == reduce(magnitude, places),
            decreases scale,
        {
            if digits.len() > 0 {
                proof {
                    assert(digits@.drop_last().len() > 0 ==> digits@.drop_last()[0] == digits@[0]);
                }
                digits.pop();
            }
            scale = scale - 1;
        }
        proof {
            lemma_digits_value_positive(digits@);
        }
        let negative = negative && digits.len() > 0;
        Number { negative, digits, scale }
    }

    /// The number written out: a minus sign where it is below zero, its
    /// digits, and a decimal point before the last `scale` of them.
    pub fn to_text(&self) -> (r: String)
        ensures
            r@ == decimal_text(self@),
            number_of_text(r@) == Some(self@),
            is_digit(magnitude_text(r@)[0]),
    {
        proof {
            use_type_invariant(self);
            lemma_decimal_digits(self.digits@);
            lemma_digits_value_positive(self.digits@);
        }
        let ghost digits = self.digits@;
        let mut r = String::new();
        if self.negative {
            r.push('-');
        }
        let ghost sign = r@;
        let ghost mut body = Seq::<char>::empty();
        let len = self.digits.len();
        let whole: usize = if len > self.scale { len - self.scale } else { 0 };
        let mut i: usize = 0;
        assert(r@ =~= sign + body);
        assert(digits.take(0) =~= Seq::<u8>::empty());
        if whole == 0 {
            r.push('0');
            proof {
                lemma_text_push(body, '0');
                body = body.push('0');
                assert(r@ =~= sign + body);
                assert(body =~= seq!['0']);
            }
        } else {
            assert(body =~= digit_text(digits.take(0)));
            while i < whole
                invariant
                    digits == self.digits@,
                    significant_digits(digits),
                    whole <= digits.len(),
                    i <= whole,
                    text_so_far(r@, sign, body, digits.take(i as int), 0, 0),
                    digit_count(body) == i,
                    body == digit_text(digits.take(i as int)),
                decreases whole - i,
            {
                let c = digit_char(self.digits[i]);
                r.push(c);
                proof {
                    lemma_text_push(body, c);
                    body = body.push(c);
                    assert(r@ =~= sign + body);
                    assert(digits.take(i + 1).drop_last() =~= digits.take(i as int));
                    assert(body =~= digit_text(digits.take(i + 1)));
                }
                i = i + 1;
            }
        }
        let ghost integer = body;
        if self.scale > 0 {
            r.push('.');
            proof {
                lemma_text_push(body, '.');
                body = body.push('.');
                assert(r@ =~= sign + body);
            }
            let mut zeros: usize = if self.scale > len { self.scale - len } else { 0 };
            let ghost padding = zeros;
            assert(body =~= integer + seq!['.'] + zero_text(0));
            while zeros > 0
                invariant
                    i == 0 || padding == 0,
                    zeros <= padding,
                    text_so_far(r@, sign, body, digits.take(i as int), 1, (padding - zeros) as nat),
                    digit_count(body) >= 1,
                    body == integer + seq!['.'] + zero_text((padding - zeros) as nat),
                decreases zeros,
            {
                r.push('0');
                proof {
                    lemma_text_push(body, '0');
                    body = body.push('0');
                    assert(r@ =~= sign + body);
                    assert(digits.take(0) =~= Seq::<u8>::empty());
                    assert(body =~= integer + seq!['.'] + zero_text((padding - zeros + 1) as nat));
                }
                zeros = zeros - 1;
            }
            let ghost first = i;
            assert(body =~= integer + seq!['.'] + zero_text(padding as nat) + digit_text(
                digits.subrange(first as int, i as int),
            ));
            while i < len
                invariant
                    digits == self.digits@,
                    significant_digits(digits),
                    len == digits.len(),
                    first <= i <= len,
                    text_so_far(r@, sign, body, digits.take(i as int), 1, (padding + i - first) as nat),
                    digit_count(body) >= 1,
                    body == integer + seq!['.'] + zero_text(padding as nat) + digit_text(
                        digits.subrange(first as int, i as int),
                    ),
                decreases len - i,
            {
                let c = digit_char(self.digits[i]);
                r.push(c);
                proof {
                    lemma_text_push(body, c);
                    body = body.push(c);
                    assert(r@ =~= sign + body);
                    assert(digits.take(i + 1).drop_last() =~= digits.take(i as int));
                    assert(body =~= integer + seq!['.'] + zero_text(padding as nat) + digit_text(
                        digits.subrange(first as int, i + 1),
                    ));
                }
                i = i + 1;
            }
            assert(digits.subrange(first as int, i as int) =~= digits.skip(whole as int));
        }
        proof {
            assert(digits.take(i as int) =~= digits);
            if self.negative {
                assert(r@[0] == '-');
                assert(r@.skip(1) =~= body);
            } else {
                assert(r@ =~= body);
            }
            lemma_decimal_text(self.negative, digits, self.scale as nat, integer, body);
        }
        r
    }

    /// Checks whether the number is below zero.
    pub fn is_negative(&self) -> (r: bool)
        ensures
            r == (self@.mantissa < 0),
    {
        proof {
            use_type_invariant(self);
            lemma_digits_value_positive(self.digits@);
        }
        self.negative
    }

    /// The number of digits behind the decimal point.
    pub fn scale(&self) -> (r: usize)
        ensures
            r == self@.scale,
    {
        self.scale
    }
}

/// While a number is written out: the text `r` is the sign and then `body`,
/// which begins with a digit and holds the digits `written`, `points`
/// decimal points and `places` digits behind the point.
spec fn text_so_far(
    r: Seq<char>,
    sign: Seq<char>,
    body: Seq<char>,
    written: Seq<u8>,
    points: nat,
    places: nat,
) -> bool {
    &&& r == sign + body
    &&& body.len() > 0 ==> is_digit(body[0])
    &&& digits_and_points(body)
    &&& point_count(body) == points
    &&& fraction_len(body) == places
    &&& unscaled_value(body) == digits_value(written)
}

/// Reducing keeps the number, and what it gives is reduced.
pub proof fn lemma_reduce(magnitude: nat, scale: nat)
    ensures
        same_number(magnitude, scale, reduce(magnitude, scale).0, reduce(magnitude, scale).1),
        is_reduced(reduce(magnitude, scale).0, reduce(magnitude, scale).1),
        reduce(magnitude, scale).1 <= scale,
    decreases scale,
{
    if scale > 0 && magnitude % 10 == 0 {
        let tenth = magnitude / 10;
        let below = (scale - 1) as nat;
        lemma_reduce(tenth, below);
        let (m, s) = reduce(tenth, below);
        assert(magnitude == 10 * tenth);
        assert(pow10(scale) == 10 * pow10(below));
        assert(magnitude * pow10(s) == m * pow10(scale)) by (nonlinear_arith)
            requires
                tenth * pow10(s) == m * pow10(below),
                magnitude == 10 * tenth,
                pow10(scale) == 10 * pow10(below),
        ;
    }
}

/// A power of ten is positive, and powers of ten multiply to one.
pub proof fn lemma_pow10(a: nat, b: nat)
    ensures
        pow10(a) > 0,
        pow10(a + b) == pow10(a) * pow10(b),
    decreases a,
{
    if a > 0 {
        lemma_pow10((a - 1) as nat, b);
        assert(pow10(a + b) == 10 * pow10((a - 1 + b) as nat));
        assert(10 * (pow10((a - 1) as nat) * pow10(b)) == (10 * pow10((a - 1) as nat)) * pow10(b))
            by (nonlinear_arith);
    } else {
        assert(pow10(0 + b) == 1 * pow10(b));
    }
}

/// Reduced decimals that are the same number are the same decimal.
pub proof fn lemma_reduced_unique(m1: nat, s1: nat, m2: nat, s2: nat)
    requires
        is_reduced(m1, s1),
        is_reduced(m2, s2),
        same_number(m1, s1, m2, s2),
    ensures
        m1 == m2,
        s1 == s2,
{
    if s1 <= s2 {
        lemma_scaled_up(m1, s1, m2, s2);
    } else {
        lemma_scaled_up(m2, s2, m1, s1);
    }
}

proof fn lemma_scaled_up(m1: nat, s1: nat, m2: nat, s2: nat)
    requires
        s1 <= s2,
        is_reduced(m2, s2),
        same_number(m1, s1, m2, s2),
    ensures
        m1 == m2,
        s1 == s2,
{
    let k = (s2 - s1) as nat;
    lemma_pow10(s1, k);
    lemma_pow10(k, 0);
    let p = pow10(s1);
    let q = pow10(k);
    assert(m1 * q == m2) by (nonlinear_arith)
        requires
            m1 * (p * q) == m2 * p,
            p > 0,
    ;
    if k > 0 {
        assert(q == 10 * pow10((k - 1) as nat));
        let r = pow10((k - 1) as nat);
        let x = m1 * r;
        assert(m2 == 10 * x) by (nonlinear_arith)
            requires
                m2 == m1 * (10 * r),
                x == m1 * r,
        ;
        assert(m2 % 10 == 0);
        assert(s2 > 0);
    } else {
        assert(q == 1);
        assert(m1 * q == m1) by (nonlinear_arith)
            requires
                q == 1,
        ;
    }
}

/// A zero more behind the digits that follow the point leaves the number as
/// it is.
pub proof fn lemma_trailing_zero(text: Seq<char>)
    requires
        number_of_text(text) is Some,
        point_count(magnitude_text(text)) == 1,
    ensures
        number_of_text(text.push('0')) == number_of_text(text),
{
    let body = magnitude_text(text);
    assert(body.len() > 0);
    assert(text.len() > 0);
    assert(magnitude_text(text.push('0')) =~= body.push('0'));
    lemma_text_push(body, '0');
}

/// What one more character adds to a number's text.
proof fn lemma_text_push(s: Seq<char>, c: char)
    ensures
        point_count(s.push(c)) == point_count(s) + if c == '.' { 1nat } else { 0nat },
        digit_count(s.push(c)) == digit_count(s) + if is_digit(c) { 1nat } else { 0nat },
        fraction_len(s.push(c)) == fraction_len(s) + if is_digit(c) && point_count(s) > 0 {
            1nat
        } else {
            0nat
        },
        unscaled_value(s.push(c)) == if is_digit(c) {
            unscaled_value(s) * 10 + digit_of(c) as nat
        } else {
            unscaled_value(s)
        },
        digits_and_points(s) && (is_digit(c) || c == '.') ==> digits_and_points(s.push(c)),
{
    assert(s.push(c).drop_last() =~= s);
}

/// The character that stands for the digit `d`.
fn digit_char(d: u8) -> (c: char)
    requires
        d < 10,
    ensures
        is_digit(c),
        digit_of(c) == d,
        c == char_of(d),
{
    (48u8 + d) as char
}

/// The digits of `n`, most significant first.
fn digits_of(n: u64) -> (digits: Vec<u8>)
    ensures
        significant_digits(digits@),
        digits_value(digits@) == n,
    decreases n,
{
    if n == 0 {
        Vec::new()
    } else {
        let mut digits = digits_of(n / 10);
        let ghost front = digits@;
        digits.push((n % 10) as u8);
        proof {
            assert(digits@.drop_last() =~= front);
            assert(front.len() > 0 ==> digits@[0] == front[0]);
        }
        digits
    }
}

impl Clone for Number {
    fn clone(&self) -> (r: Number)
        ensures
            r@ == self@,
    {
        proof {
            use_type_invariant(self);
        }
        let digits = self.digits.clone();
        assert(digits@ =~= self.digits@);
        Number { negative: self.negative, digits, scale: self.scale }
    }
}

impl PartialEq for Number {
    fn eq(&self, other: &Number) -> (r: bool) {
        proof {
            use_type_invariant(self);
            use_type_invariant(other);
            lemma_digits_value_positive(self.digits@);
            lemma_digits_value_positive(other.digits@);
            if digits_value(self.digits@) == digits_value(other.digits@) {
                lemma_digits_value_injective(self.digits@, other.digits@);
            }
        }
        self.negative == other.negative && self.scale == other.scale && same_digits(
            &self.digits,
            &other.digits,
        )
    }
}

impl vstd::std_specs::cmp::PartialEqSpecImpl for Number {
    open spec fn obeys_eq_spec() -> bool {
        true
    }

    /// Two numbers are equal when they denote the same value.
    open spec fn eq_spec(&self, other: &Number) -> bool {
        self@ == other@
    }
}

fn same_digits(a: &Vec<u8>, b: &Vec<u8>) -> (r: bool)
    ensures
        r == (a@ == b@),
{
    if a.len() != b.len() {
        return false;
    }
    let mut i: usize = 0;
    while i < a.len()
        invariant
            a.len() == b.len(),
            i <= a.len(),
            forall|j: int| 0 <= j < i ==> a@[j] == b@[j],
        decreases a.len() - i,
    {
        if a[i] != b[i] {
            return false;
        }
        i = i + 1;
    }
    assert(a@ =~= b@);
    true
}

/// The digit that `c` stands for.
fn digit(c: char) -> (d: u8)
    requires
        is_digit(c),
    ensures
        d == digit_of(c),
        d < 10,
{
    (c as u8) - 48u8
}

/// A text with a character that is neither digit nor point, or with a second
/// point, stays so however it goes on.
proof fn lemma_point_count_prefix(s: Seq<char>, n: int)
    requires
        0 <= n <= s.len(),
    ensures
        point_count(s.take(n)) <= point_count(s),
        digits_and_points(s) ==> digits_and_points(s.take(n)),
    decreases s.len() - n,
{
    if n < s.len() {
        lemma_point_count_prefix(s, n + 1);
        assert(s.take(n + 1).drop_last() =~= s.take(n));
        assert forall|i: int| 0 <= i < n implies s.take(n)[i] == s[i] by {}
    } else {
        assert(s.take(n) =~= s);
    }
}

/// Digits without a leading zero have a positive value.
proof fn lemma_digits_value_positive(digits: Seq<u8>)
    requires
        significant_digits(digits),
    ensures
        digits.len() > 0 ==> digits_value(digits) > 0,
    decreases digits.len(),
{
    if digits.len() > 1 {
        let front = digits.drop_last();
        assert(front[0] == digits[0]);
        lemma_digits_value_positive(front);
    }
}

/// The parts of a number's text, put together, are the text of its decimal.
proof fn lemma_decimal_text(
    negative: bool,
    digits: Seq<u8>,
    scale: nat,
    integer: Seq<char>,
    body: Seq<char>,
)
    requires
        significant_digits(digits),
        negative ==> digits.len() > 0,
        integer == if digits.len() > scale {
            digit_text(digits.take(digits.len() - scale))
        } else {
            seq!['0']
        },
        body == if scale > 0 {
            integer + seq!['.'] + zero_text(
                if scale > digits.len() {
                    (scale - digits.len()) as nat
                } else {
                    0
                },
            ) + digit_text(
                digits.skip(
                    if digits.len() > scale {
                        digits.len() - scale
                    } else {
                        0
                    },
                ),
            )
        } else {
            integer
        },
    ensures
        (if negative {
            seq!['-']
        } else {
            Seq::<char>::empty()
        }) + body == decimal_text(
            Decimal {
                mantissa: if negative {
                    -(digits_value(digits) as int)
                } else {
                    digits_value(digits) as int
                },
                scale,
            },
        ),
{
    reveal(decimal_text);
    lemma_decimal_digits(digits);
    lemma_digits_value_positive(digits);
    let d = Decimal {
        mantissa: if negative {
            -(digits_value(digits) as int)
        } else {
            digits_value(digits) as int
        },
        scale,
    };
    assert(vstd::math::abs(d.mantissa) as nat == digits_value(digits));
    let sign = if negative {
        seq!['-']
    } else {
        Seq::<char>::empty()
    };
    if scale == 0 {
        assert(digits.take(digits.len() as int) =~= digits);
        assert(sign + body =~= decimal_text(d));
    } else {
        assert(sign + body =~= decimal_text(d));
    }
}

/// Digits without a leading zero are the digits of their value.
proof fn lemma_decimal_digits(digits: Seq<u8>)
    requires
        significant_digits(digits),
    ensures
        decimal_digits(digits_value(digits)) == digits,
    decreases digits.len(),
{
    lemma_digits_value_positive(digits);
    if digits.len() > 0 {
        let front = digits.drop_last();
        assert(front.len() > 0 ==> front[0] == digits[0]);
        lemma_decimal_digits(front);
        assert(digits.last() < 10);
        assert(digits =~= front.push(digits.last()));
    }
}

/// Digits without a leading zero are determined by their value.
proof fn lemma_digits_value_injective(a: Seq<u8>, b: Seq<u8>)
    requires
        significant_digits(a),
        significant_digits(b),
        digits_value(a) == digits_value(b),
    ensures
        a == b,
    decreases a.len(),
{
    lemma_digits_value_positive(a);
    lemma_digits_value_positive(b);
    if a.len() > 0 && b.len() > 0 {
        let a_front = a.drop_last();
        let b_front = b.drop_last();
        assert(a_front.len() > 0 ==> a_front[0] == a[0]);
        assert(b_front.len() > 0 ==> b_front[0] == b[0]);
        assert(a.last() < 10 && b.last() < 10);
        lemma_digits_value_injective(a_front, b_front);
        assert(a =~= a_front.push(a.last()));
        assert(b =~= b_front.push(b.last()));
    } else {
        assert(a =~= b);
    }
}

} // verus!
