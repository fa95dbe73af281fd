//! Fractions, compared exactly.
//!
//! "At least three quarters of the requests were answered" is a statement
//! about two whole numbers, and it is decided here on whole numbers.

use vstd::prelude::*;

use crate::text::chars_of;

verus! {

/// A number that is `num` out of `den`.
pub ghost struct Ratio {
    pub num: nat,
    pub den: nat,
}

/// `num` out of `den`.
#[derive(Clone, Copy, Debug, PartialEq, Eq, Structural)]
pub struct Fraction {
    pub num: u64,
    pub den: u64,
}

/// A decimal digit.
pub open spec fn is_digit(c: char) -> bool {
    48 <= c as int <= 57
}

/// Nothing but decimal digits.
pub open spec fn all_digits(s: Seq<char>) -> bool {
    forall|i: int| 0 <= i < s.len() ==> is_digit(#[trigger] s[i])
}

/// The number that a run of decimal digits writes.
pub open spec fn digits_value(s: Seq<char>) -> nat
    decreases s.len(),
{
    if s.len() == 0 {
        0
    } else {
        digits_value(s.drop_last()) * 10 + (s.last() as int - 48) as nat
    }
}

/// Ten to the power of `k`.
pub open spec fn pow10(k: nat) -> nat
    decreases k,
{
    if k == 0 {
        1
    } else {
        pow10((k - 1) as nat) * 10
    }
}

/// A decimal number taken apart: sign, digits before the point, digits behind
/// it.
pub ghost struct Decimal {
    pub negative: bool,
    pub whole: Seq<char>,
    pub fraction: Seq<char>,
}

impl Decimal {
    /// How the number is written. The point is left out when nothing follows
    /// it.
    pub open spec fn written(self) -> Seq<char> {
        (if self.negative {
            seq!['-']
        } else {
            Seq::<char>::empty()
        }) + self.whole + (if self.fraction.len() > 0 {
            seq!['.'] + self.fraction
        } else {
            Seq::<char>::empty()
        })
    }

    /// Digits where digits belong, and at least one before the point.
    pub open spec fn valid(self) -> bool {
        self.whole.len() > 0 && all_digits(self.whole) && all_digits(self.fraction)
    }

    /// Whether the number is zero.
    pub open spec fn is_zero(self) -> bool {
        digits_value(self.whole) == 0 && digits_value(self.fraction) == 0
    }

    /// Whether the number lies between nought and one, both included.
    pub open spec fn is_share(self) -> bool {
        if self.negative {
            self.is_zero()
        } else {
            digits_value(self.whole) == 0 || digits_value(self.whole) == 1 && digits_value(
                self.fraction,
            ) == 0
        }
    }

    /// The number, as so many out of a power of ten.
    pub open spec fn value(self) -> Ratio {
        Ratio {
            num: digits_value(self.whole) * pow10(self.fraction.len()) + digits_value(
                self.fraction,
            ),
            den: pow10(self.fraction.len()),
        }
    }
}

/// Where the point stands in `s` from `from` on, or its end.
pub open spec fn point_from(s: Seq<char>, from: int) -> int
    decreases s.len() - from,
{
    if from >= s.len() || s[from] == '.' {
        from
    } else {
        point_from(s, from + 1)
    }
}

/// The decimal that a text is read as: up to the point, and behind it.
pub open spec fn taken_apart(s: Seq<char>) -> Decimal {
    let start: int = if s.len() > 0 && s[0] == '-' {
        1
    } else {
        0
    };
    let point = point_from(s, start);
    Decimal {
        negative: start == 1,
        whole: s.subrange(start, point),
        fraction: if point < s.len() {
            s.skip(point + 1)
        } else {
            Seq::empty()
        },
    }
}

/// Whether a text writes a number between nought and one in decimal.
pub open spec fn writes_share(s: Seq<char>) -> bool {
    let d = taken_apart(s);
    d.valid() && d.is_share() && d.written() == s
}

/// The number that such a text writes.
pub open spec fn share_of(s: Seq<char>) -> Ratio {
    taken_apart(s).value()
}

proof fn lemma_point(s: Seq<char>, from: int)
    requires
        0 <= from <= s.len(),
    ensures
        from <= point_from(s, from) <= s.len(),
        forall|i: int| from <= i < point_from(s, from) ==> s[i] != '.',
        point_from(s, from) < s.len() ==> s[point_from(s, from)] == '.',
    decreases s.len() - from,
{
    if from < s.len() && s[from] != '.' {
        lemma_point(s, from + 1);
    }
}

/// A number in decimal is digits that read back as the number, and starts with
/// a nought only when it is one.
pub proof fn lemma_dec_reads_back(n: nat)
    ensures
        all_digits(crate::text::dec(n)),
        digits_value(crate::text::dec(n)) == n,
        crate::text::dec(n).len() >= 1,
        crate::text::dec(n).len() > 1 ==> crate::text::dec(n)[0] != '0',
        n > 0 ==> crate::text::dec(n)[0] != '0',
    decreases n,
{
    let s = crate::text::dec(n);
    if n < 10 {
        assert(s.drop_last() =~= Seq::<char>::empty());
        assert(digits_value(s.drop_last()) == 0);
        assert(s.last() as int == 48 + n);
    } else {
        let high = crate::text::dec(n / 10);
        lemma_dec_reads_back(n / 10);
        assert(s.drop_last() =~= high);
        assert(s.last() as int == 48 + n % 10);
        assert forall|i: int| 0 <= i < s.len() implies is_digit(#[trigger] s[i]) by {
            if i < high.len() {
                assert(s[i] == high[i]);
            }
        }
        assert(s[0] == high[0]);
    }
}

proof fn lemma_digits_bound(s: Seq<char>)
    requires
        all_digits(s),
    ensures
        digits_value(s) < pow10(s.len()),
    decreases s.len(),
{
    if s.len() > 0 {
        assert(is_digit(s[s.len() - 1]));
        assert forall|i: int| 0 <= i < s.len() - 1 implies is_digit(#[trigger] s.drop_last()[i]) by {
            assert(is_digit(s[i]));
        }
        lemma_digits_bound(s.drop_last());
    }
}

/// A run of digits read from left to right: its value when that is under
/// `cap`, and `cap` when it is not.
pub fn read_digits(s: &Vec<char>, from: usize, to: usize, cap: u128) -> (r: Option<u128>)
    requires
        from <= to <= s@.len(),
        0 < cap <= 1_000_000_000_000_000_000_000_000_000_000,
    ensures
        match r {
            Some(v) => all_digits(s@.subrange(from as int, to as int)) && v == (if digits_value(
                s@.subrange(from as int, to as int),
            ) < cap {
                digits_value(s@.subrange(from as int, to as int))
            } else {
                cap as nat
            }),
            None => !all_digits(s@.subrange(from as int, to as int)),
        },
{
    let mut v: u128 = 0;
    let mut i: usize = from;
    while i < to
        invariant
            from <= i <= to <= s@.len(),
            0 < cap <= 1_000_000_000_000_000_000_000_000_000_000,
            all_digits(s@.subrange(from as int, i as int)),
            v == (if digits_value(s@.subrange(from as int, i as int)) < cap {
                digits_value(s@.subrange(from as int, i as int))
            } else {
                cap as nat
            }),
        decreases to - i,
    {
        let c: char = s[i];
        let ghost before = s@.subrange(from as int, i as int);
        let ghost after = s@.subrange(from as int, i + 1);
        if c < '0' || c > '9' {
            proof {
                let whole = s@.subrange(from as int, to as int);
                assert(whole[i - from] == c);
                assert(!is_digit(whole[i - from]));
            }
            return None;
        }
        proof {
            assert(after.drop_last() =~= before);
            assert(after.last() == c);
            assert forall|j: int| 0 <= j < after.len() implies is_digit(#[trigger] after[j]) by {
                if j < before.len() {
                    assert(is_digit(before[j]));
                    assert(after[j] == before[j]);
                }
            }
        }
        let next: u128 = v * 10 + (c as u8 - 48) as u128;
        v = if next < cap {
            next
        } else {
            cap
        };
        i = i + 1;
    }
    Some(v)
}

/// A power of ten cut in two.
proof fn lemma_pow10_split(a: nat, b: nat)
    ensures
        pow10(a + b) == pow10(a) * pow10(b),
        pow10(b) >= 1,
    decreases b,
{
    if b > 0 {
        let c = (b - 1) as nat;
        lemma_pow10_split(a, c);
        assert(pow10(a + b) == pow10(a + c) * 10);
        let (x, y) = (pow10(a), pow10(c));
        assert(x * y * 10 == x * (y * 10)) by (nonlinear_arith);
        assert(pow10(b) == y * 10);
    } else {
        assert(pow10(b) == 1);
    }
}

/// A run of digits cut in two.
proof fn lemma_digits_split(s: Seq<char>, at: int)
    requires
        all_digits(s),
        0 <= at <= s.len(),
    ensures
        digits_value(s) == digits_value(s.take(at)) * pow10((s.len() - at) as nat) + digits_value(
            s.skip(at),
        ),
        digits_value(s.skip(at)) < pow10((s.len() - at) as nat),
    decreases s.len() - at,
{
    let (front, back) = (s.take(at), s.skip(at));
    assert forall|i: int| 0 <= i < back.len() implies is_digit(#[trigger] back[i]) by {
        assert(is_digit(s[at + i]));
    }
    lemma_digits_bound(back);
    if at == s.len() {
        assert(front =~= s);
        assert(digits_value(back) == 0);
        assert(digits_value(front) * pow10(0) == digits_value(front)) by {
            assert(pow10(0) == 1);
        }
    } else {
        let less = s.drop_last();
        assert forall|i: int| 0 <= i < less.len() implies is_digit(#[trigger] less[i]) by {
            assert(is_digit(s[i]));
        }
        lemma_digits_split(less, at);
        assert(less.take(at) =~= front);
        assert(less.skip(at) =~= back.drop_last());
        assert(back.last() == s.last());
        let (f, p) = (digits_value(front), pow10((less.len() - at) as nat));
        assert(f * (p * 10) == f * p * 10) by (nonlinear_arith);
        assert(pow10((s.len() - at) as nat) == p * 10);
        assert(digits_value(less) == f * p + digits_value(back.drop_last()));
        assert(digits_value(s) == digits_value(less) * 10 + (s.last() as int - 48) as nat);
        assert(digits_value(back) == digits_value(back.drop_last()) * 10 + (s.last() as int
            - 48) as nat);
    }
}

/// What digits that follow can change: nothing, once what came before them is
/// too little, or enough whatever they are.
proof fn lemma_decided_early(num: int, den: int, front: int, back: int, head: int, tail: int)
    requires
        den > 0,
        0 <= back < tail,
    ensures
        num * head < den * front ==> num * (head * tail) < den * (front * tail + back),
        num * head >= den * front + den ==> num * (head * tail) >= den * (front * tail + back),
{
    assert(num * (head * tail) == num * head * tail) by (nonlinear_arith);
    assert(den * (front * tail + back) == den * front * tail + den * back) by (nonlinear_arith);
    assert(0 <= den * back <= den * tail) by (nonlinear_arith)
        requires
            den > 0,
            0 <= back < tail,
    ;
    if num * head < den * front {
        assert(num * head * tail < den * front * tail) by (nonlinear_arith)
            requires
                num * head < den * front,
                tail > 0,
        ;
    }
    if num * head >= den * front + den {
        assert(num * head * tail >= (den * front + den) * tail) by (nonlinear_arith)
            requires
                num * head >= den * front + den,
                tail > 0,
        ;
        assert((den * front + den) * tail == den * front * tail + den * tail) by (nonlinear_arith);
    }
}

/// A number between nought and one, as it is written in decimal: with every
/// digit that was written, however many there are.
#[derive(Debug)]
pub struct Share {
    one: bool,
    digits: Vec<char>,
}

impl View for Share {
    type V = Ratio;

    closed spec fn view(&self) -> Ratio {
        Ratio {
            num: (if self.one {
                pow10(self.digits@.len())
            } else {
                0
            }) + digits_value(self.digits@),
            den: pow10(self.digits@.len()),
        }
    }
}

impl Share {
    #[verifier::type_invariant]
    spec fn in_range(self) -> bool {
        &&& all_digits(self.digits@)
        &&& self.one ==> digits_value(self.digits@) == 0
    }

    /// The number that a decimal text writes, when it lies between nought and
    /// one.
    pub fn parse(text: &str) -> (r: Option<Share>)
        ensures
            match r {
                Some(f) => writes_share(text@) && f@ == share_of(text@),
                None => !writes_share(text@),
            },
    {
        let s = chars_of(text);
        let start: usize = if s.len() > 0 && s[0] == '-' {
            1
        } else {
            0
        };
        let mut point: usize = start;
        while point < s.len() && s[point] != '.'
            invariant
                start <= point <= s@.len(),
                point_from(s@, start as int) == point_from(s@, point as int),
            decreases s@.len() - point,
        {
            point = point + 1;
        }
        let behind: usize = if point < s.len() {
            point + 1
        } else {
            point
        };
        let ghost d = taken_apart(text@);
        proof {
            lemma_point(s@, start as int);
            assert(d.whole =~= s@.subrange(start as int, point as int));
            assert(d.fraction =~= s@.subrange(behind as int, s@.len() as int));
        }
        if point == start || (point < s.len() && behind == s.len()) {
            assert(!(d.valid() && d.written() == s@)) by {
                if point > start {
                    assert(d.fraction.len() == 0);
                    assert(d.written().len() < s@.len());
                }
            }
            return None;
        }
        assert(d.written() =~= s@);
        let whole = read_digits(&s, start, point, 2);
        let rest = read_digits(&s, behind, s.len(), 1);
        match (whole, rest) {
            (Some(whole), Some(rest)) => {
                if start == 1 {
                    if !(whole == 0 && rest == 0) {
                        return None;
                    }
                } else if whole > 1 || (whole == 1 && rest != 0) {
                    return None;
                }
                let digits = run_of(&s, behind);
                proof {
                    let p = pow10(d.fraction.len());
                    assert(1 * p == p && 0 * p == 0);
                }
                Some(Share { one: whole == 1, digits })
            },
            _ => None,
        }
    }
}

/// The characters from one on.
fn run_of(s: &Vec<char>, from: usize) -> (r: Vec<char>)
    requires
        from <= s@.len(),
    ensures
        r@ == s@.subrange(from as int, s@.len() as int),
{
    let mut r: Vec<char> = Vec::new();
    let mut i: usize = from;
    while i < s.len()
        invariant
            from <= i <= s@.len(),
            r@ == s@.subrange(from as int, i as int),
        decreases s@.len() - i,
    {
        r.push(s[i]);
        assert(r@ =~= s@.subrange(from as int, i + 1));
        i = i + 1;
    }
    r
}

impl Fraction {
    /// Whether this fraction is less than a number. One digit of the number is
    /// looked at after the other, as in a long division, until they decide.
    pub fn less_than(&self, least: &Share) -> (r: bool)
        requires
            self.den > 0,
        ensures
            r == (self.num * least@.den < least@.num * self.den),
    {
        proof {
            use_type_invariant(least);
        }
        let (num, den): (u128, u128) = (self.num as u128, self.den as u128);
        let ghost digits = least.digits@;
        let ghost k = digits.len();
        let ghost (n, q) = (self.num as int, self.den as int);
        proof {
            lemma_pow10_split(0, k);
            lemma_digits_bound(digits);
            let p = pow10(k) as int;
            // At one or above, only a fraction below one is less.
            assert(n < q ==> n * p < p * q) by (nonlinear_arith)
                requires
                    p > 0,
            ;
            assert(n >= q ==> n * p >= p * q) by (nonlinear_arith)
                requires
                    p > 0,
            ;
            let v = digits_value(digits) as int;
            assert(v * q <= p * q) by (nonlinear_arith)
                requires
                    v < p,
                    q > 0,
            ;
        }
        if least.one {
            return num < den;
        }
        if num >= den {
            return false;
        }
        // What is left of the fraction, in units of the next digit.
        let mut left: u128 = num;
        let mut i: usize = 0;
        proof {
            assert(digits_value(digits.take(0)) == 0);
            assert(pow10(0) == 1);
            assert(n * 1 - q * 0 == n);
        }
        while i < least.digits.len()
            invariant
                i <= k,
                k == digits.len(),
                digits == least.digits@,
                all_digits(digits),
                n == self.num as int,
                q == self.den as int,
                den == q,
                0 < q,
                left < den <= u64::MAX,
                left == n * pow10(i as nat) - q * digits_value(digits.take(i as int)),
                !least.one,
                least@.num == digits_value(digits),
                least@.den == pow10(k),
            decreases k - i,
        {
            assert(is_digit(digits[i as int]));
            let d: u128 = (least.digits[i] as u8 - 48) as u128;
            assert(den * d <= den * 9) by (nonlinear_arith)
                requires
                    d <= 9,
            ;
            let (have, want): (u128, u128) = (left * 10, den * d);
            proof {
                let after = digits.take(i + 1);
                assert(after.drop_last() =~= digits.take(i as int));
                assert(after.last() == digits[i as int]);
                let (p, f) = (pow10(i as nat) as int, digits_value(digits.take(i as int)) as int);
                assert(pow10((i + 1) as nat) == p * 10);
                assert(n * (p * 10) == (n * p) * 10) by (nonlinear_arith);
                assert(q * (f * 10 + d) == (q * f) * 10 + q * d) by (nonlinear_arith);
                assert(have - want == n * pow10((i + 1) as nat) - q * digits_value(after));
                lemma_pow10_split((i + 1) as nat, (k - i - 1) as nat);
                lemma_digits_split(digits, i + 1);
                lemma_decided_early(
                    n,
                    q,
                    digits_value(after) as int,
                    digits_value(digits.skip(i + 1)) as int,
                    pow10((i + 1) as nat) as int,
                    pow10((k - i - 1) as nat) as int,
                );
                let v = digits_value(digits) as int;
                assert(v * q == q * v) by (nonlinear_arith);
            }
            if have < want {
                return true;
            }
            left = have - want;
            if left >= den {
                return false;
            }
            i = i + 1;
        }
        proof {
            assert(digits.take(k as int) =~= digits);
            let v = digits_value(digits) as int;
            assert(v * q == q * v) by (nonlinear_arith);
        }
        false
    }
}

// What each number is for.

/// Digits write a number place by place: one more digit makes ten times as much
/// and the digit.
pub proof fn law_one_more_digit_is_ten_times(s: Seq<char>, d: nat)
    requires
        d < 10,
    ensures
        digits_value(Seq::<char>::empty()) == 0,
        digits_value(s.push((48 + d) as char)) == 10 * digits_value(s) + d,
        all_digits(s.push((48 + d) as char)) <==> all_digits(s),
        is_digit((48 + d) as char),
{
    let t = s.push((48 + d) as char);
    assert(t.drop_last() =~= s);
    assert(is_digit(t[s.len() as int]));
    if all_digits(t) {
        assert forall|i: int| 0 <= i < s.len() implies is_digit(#[trigger] s[i]) by {
            assert(is_digit(t[i]));
        }
    }
}

/// A character is a digit exactly when it is one of the ten.
pub proof fn law_the_ten_digits(c: char)
    ensures
        is_digit(c) <==> '0' <= c && c <= '9',
{
}

/// A share reads as the number before the point and the digits behind it, over
/// as many tenths: `a.b` is `a` and `b` out of ten to the number of digits.
pub proof fn law_a_share_reads_as_it_is_written(whole: Seq<char>, fraction: Seq<char>)
    requires
        whole.len() > 0,
        all_digits(whole),
        all_digits(fraction),
    ensures
        writes_share(whole) <==> digits_value(whole) <= 1,
        writes_share(whole) ==> share_of(whole) == (Ratio { num: digits_value(whole), den: 1 }),
        fraction.len() > 0 ==> (writes_share(whole + seq!['.'] + fraction) <==> digits_value(whole)
            == 0 || digits_value(whole) == 1 && digits_value(fraction) == 0),
        fraction.len() > 0 ==> share_of(whole + seq!['.'] + fraction) == (Ratio {
            num: digits_value(whole) * pow10(fraction.len()) + digits_value(fraction),
            den: pow10(fraction.len()),
        }),
{
    assert(is_digit(whole[0]));
    lemma_point_behind(whole, Seq::empty(), 0);
    assert(whole + Seq::<char>::empty() =~= whole);
    assert(whole.subrange(0, whole.len() as int) =~= whole);
    let d = taken_apart(whole);
    assert(d.written() =~= whole);
    assert(digits_value(d.fraction) == 0);
    assert(pow10(0) == 1);
    assert(digits_value(whole) * 1 == digits_value(whole));
    if fraction.len() > 0 {
        let tail = seq!['.'] + fraction;
        let s = whole + seq!['.'] + fraction;
        assert(s =~= whole + tail);
        lemma_point_behind(whole, tail, 0);
        let e = taken_apart(s);
        assert(s[0] == whole[0]);
        assert(e.whole =~= whole);
        assert(e.fraction =~= fraction);
        assert(e.written() =~= s);
    }
}

proof fn lemma_point_behind(whole: Seq<char>, tail: Seq<char>, from: int)
    requires
        all_digits(whole),
        0 <= from <= whole.len(),
        tail.len() > 0 ==> tail[0] == '.',
    ensures
        point_from(whole + tail, from) == whole.len(),
    decreases whole.len() - from,
{
    let s = whole + tail;
    if from < whole.len() {
        assert(is_digit(whole[from]));
        assert(s[from] == whole[from]);
        lemma_point_behind(whole, tail, from + 1);
    } else if tail.len() > 0 {
        assert(s[from] == tail[0]);
    }
}

/// Ten to the power of `k` is ten times as much for each one more.
pub proof fn law_powers_of_ten(k: nat)
    ensures
        pow10(0) == 1,
        pow10(k + 1) == 10 * pow10(k),
{
}

/// A minus sign leaves a share only where the number is nought, and a text with
/// anything but digits and one point is none.
pub proof fn law_nothing_below_nought_is_a_share(s: Seq<char>)
    requires
        s.len() > 0,
        s[0] == '-',
        writes_share(s),
    ensures
        share_of(s).num == 0,
{
    let d = taken_apart(s);
    assert(0 * pow10(d.fraction.len()) == 0);
}

/// Nought is a share with a minus sign before it too, and is nought then.
pub proof fn law_nought_may_have_a_sign(whole: Seq<char>, fraction: Seq<char>)
    requires
        whole.len() > 0,
        fraction.len() > 0,
        all_digits(whole),
        all_digits(fraction),
    ensures
        ({
            let s = seq!['-'] + whole + seq!['.'] + fraction;
            &&& writes_share(s) <==> digits_value(whole) == 0 && digits_value(fraction) == 0
            &&& writes_share(s) ==> share_of(s) == (Ratio { num: 0, den: pow10(fraction.len()) })
        }),
{
    let s = seq!['-'] + whole + seq!['.'] + fraction;
    assert(s[0] == '-');
    assert(s.skip(1) =~= whole + (seq!['.'] + fraction));
    lemma_point_behind_sign(s, whole.len() as int + 1, 1);
    let d = taken_apart(s);
    assert(d.whole =~= whole);
    assert(d.fraction =~= fraction);
    assert(d.written() =~= s);
    assert(0 * pow10(fraction.len()) == 0);
}

proof fn lemma_point_behind_sign(s: Seq<char>, point: int, from: int)
    requires
        0 <= from <= point < s.len(),
        s[point] == '.',
        forall|i: int| from <= i < point ==> is_digit(#[trigger] s[i]),
    ensures
        point_from(s, from) == point,
    decreases point - from,
{
    if from < point {
        assert(is_digit(s[from]));
        lemma_point_behind_sign(s, point, from + 1);
    }
}

/// A fraction is less than a share exactly when it is so cross-multiplied, so no
/// fraction is less than nought, and none of one or more is less than a share
/// that is at most one.
pub proof fn law_what_is_less(f: Fraction, least: Share, r: bool)
    requires
        f.den > 0,
        call_ensures(Fraction::less_than, (&f, &least), r),
    ensures
        r <==> f.num * least@.den < least@.num * f.den,
        least@.num == 0 ==> !r,
        f.num >= f.den && least@.num <= least@.den ==> !r,
        f.num == 0 && least@.num > 0 ==> r,
{
    let (n, d, p, q) = (f.num as int, f.den as int, least@.num as int, least@.den as int);
    assert(p == 0 ==> n * q >= p * d) by (nonlinear_arith)
        requires
            n >= 0,
            q >= 0,
    ;
    assert(n >= d && p <= q ==> n * q >= p * d) by (nonlinear_arith)
        requires
            n >= 0,
            d > 0,
            p >= 0,
            q >= 0,
    ;
    assert(n == 0 && p > 0 ==> n * q < p * d) by (nonlinear_arith)
        requires
            d > 0,
    ;
}

/// A text is a share exactly when it writes one, and the share has the text's
/// value.
pub proof fn law_what_parsing_gives(text: &str, r: Option<Share>)
    requires
        call_ensures(Share::parse, (text,), r),
    ensures
        r is Some <==> writes_share(text@),
        r matches Some(s) ==> s@.num == share_of(text@).num && s@.den == share_of(text@).den,
{
}

} // verus!
