//! Fixed-point decimal numerals.
//!
//! A coordinate is written as a decimal numeral: an optional sign, digits
//! with an optional point among them, and an optional exponent of ten. A
//! numeral holds at least one digit before its exponent, and an exponent
//! holds at least one digit. The names of the non-finite floating point
//! values are not numerals.
//!
//! A coordinate is held as a whole number of millionths. What a numeral
//! holds beyond the sixth place after the point is dropped, so its value is
//! rounded toward zero.

use vstd::prelude::*;
use vstd::arithmetic::div_mod::lemma_basic_div;
use vstd::arithmetic::div_mod::lemma_div_denominator;
use vstd::std_specs::iter::IteratorSpec;
use std::str::Chars;

verus! {

/// The number of places after the point that a coordinate keeps.
pub const FRACTION_DIGITS: u8 = 6;

/// The number of units in one: ten to the power `FRACTION_DIGITS`.
pub const UNITS_PER_ONE: i64 = 1_000_000;

/// Whether `c` is one of the ten digits `0` to `9`.
pub open spec fn is_digit(c: char) -> bool {
    '0' <= c && c <= '9'
}

/// The value of the digit `c`.
pub open spec fn digit_of(c: char) -> int {
    c as int - '0' as int
}

/// Whether `s` holds digits only.
pub open spec fn all_digits(s: Seq<char>) -> bool {
    forall|i: int| 0 <= i < s.len() ==> is_digit(#[trigger] s[i])
}

/// The number that a string of digits denotes in base ten; zero for the
/// empty string.
pub open spec fn digits_value(digits: Seq<char>) -> int
    decreases digits.len(),
{
    if digits.len() == 0 {
        0
    } else {
        10 * digits_value(digits.drop_last()) + digit_of(digits.last())
    }
}

/// The length of the longest run of digits at the start of `s`.
pub open spec fn digit_run(s: Seq<char>) -> int
    decreases s.len(),
{
    if s.len() > 0 && is_digit(s[0]) {
        1 + digit_run(s.drop_first())
    } else {
        0
    }
}

/// Ten to the power `n`.
pub open spec fn pow10(n: nat) -> int
    decreases n,
{
    if n == 0 {
        1
    } else {
        10 * pow10((n - 1) as nat)
    }
}

/// Whether `text` starts with a sign.
pub open spec fn is_signed(text: Seq<char>) -> bool {
    text.len() > 0 && (text[0] == '-' || text[0] == '+')
}

/// The digits of a numeral, read as a whole number and moved to units: the
/// number `digits` with its point before the last `fraction_len` digits,
/// times ten to the power `exponent`, in units and rounded toward zero.
pub open spec fn scaled_value(digits: Seq<char>, fraction_len: nat, exponent: int) -> int {
    let shift = FRACTION_DIGITS + exponent - fraction_len;
    if shift >= 0 {
        digits_value(digits) * pow10(shift as nat)
    } else {
        digits_value(digits) / pow10((-shift) as nat)
    }
}

/// The parts of a decimal numeral: its sign, the digits before and after
/// the point, and the exponent of ten, which is zero where none is written.
pub struct Numeral {
    pub negative: bool,
    pub whole: Seq<char>,
    pub fraction: Seq<char>,
    pub exponent: int,
}

impl Numeral {
    /// The absolute value in units.
    pub open spec fn magnitude(self) -> int {
        scaled_value(self.whole + self.fraction, self.fraction.len(), self.exponent)
    }

    /// The value in units, with its sign.
    pub open spec fn units(self) -> int {
        if self.negative {
            -self.magnitude()
        } else {
            self.magnitude()
        }
    }
}

/// The exponent that `tail` writes, where `tail` is what follows the digits
/// of a numeral: zero for nothing, else the number after an `e` or `E`.
/// `None` where `tail` is neither.
pub open spec fn exponent_of(tail: Seq<char>) -> Option<int> {
    if tail.len() == 0 {
        Some(0)
    } else if tail[0] == 'e' || tail[0] == 'E' {
        let number = tail.drop_first();
        let digits = if is_signed(number) {
            number.drop_first()
        } else {
            number
        };
        if digits.len() > 0 && all_digits(digits) {
            if is_signed(number) && number[0] == '-' {
                Some(-digits_value(digits))
            } else {
                Some(digits_value(digits))
            }
        } else {
            None
        }
    } else {
        None
    }
}

/// Takes `text` apart as a numeral, or gives `None` where it is not one.
/// The whole part is the longest run of digits after the sign. Where a
/// point follows it, the fraction is the longest run of digits after the
/// point. What is left must be an exponent or nothing.
pub open spec fn numeral_of(text: Seq<char>) -> Option<Numeral> {
    let body = if is_signed(text) {
        text.drop_first()
    } else {
        text
    };
    let negative = is_signed(text) && text[0] == '-';
    let whole = body.take(digit_run(body));
    let rest = body.skip(digit_run(body));
    let pointed = rest.len() > 0 && rest[0] == '.';
    let after = if pointed {
        rest.drop_first()
    } else {
        rest
    };
    let fraction = if pointed {
        after.take(digit_run(after))
    } else {
        Seq::empty()
    };
    let tail = if pointed {
        after.skip(digit_run(after))
    } else {
        rest
    };
    if whole.len() + fraction.len() == 0 {
        None
    } else {
        match exponent_of(tail) {
            Some(exponent) => Some(Numeral { negative, whole, fraction, exponent }),
            None => None,
        }
    }
}

/// The coordinate that `text` denotes, in units: `None` where `text` is not
/// a decimal numeral, or where its absolute value exceeds `i64::MAX` units.
pub open spec fn decimal_units(text: Seq<char>) -> Option<i64> {
    match numeral_of(text) {
        Some(numeral) => if numeral.magnitude() <= i64::MAX {
            Some(numeral.units() as i64)
        } else {
            None
        },
        None => None,
    }
}

/// A run of `n` digits that ends the string, or is followed by a character
/// that is no digit, is the longest one.
proof fn lemma_digit_run(s: Seq<char>, n: int)
    requires
        0 <= n <= s.len(),
        forall|i: int| 0 <= i < n ==> is_digit(#[trigger] s[i]),
        n == s.len() || !is_digit(s[n]),
    ensures
        digit_run(s) == n,
    decreases n,
{
    if n > 0 {
        lemma_digit_run(s.drop_first(), n - 1);
    }
}

/// The powers of ten are positive and grow with the exponent.
proof fn lemma_pow10_grows(a: nat, b: nat)
    requires
        a <= b,
    ensures
        1 <= pow10(a) <= pow10(b),
    decreases b,
{
    if b > 0 {
        if a < b {
            lemma_pow10_grows(a, (b - 1) as nat);
        } else {
            lemma_pow10_grows((a - 1) as nat, (b - 1) as nat);
        }
    }
}

/// Ten to the power nineteen, the least power of ten beyond `i64::MAX`.
proof fn lemma_pow10_nineteen()
    ensures
        pow10(19) == 10_000_000_000_000_000_000,
{
    reveal_with_fuel(pow10, 20);
}

/// A string of digits denotes a number below ten to the power of its length.
proof fn lemma_digits_value_bounds(digits: Seq<char>)
    requires
        all_digits(digits),
    ensures
        0 <= digits_value(digits) < pow10(digits.len()),
    decreases digits.len(),
{
    if digits.len() > 0 {
        lemma_digits_value_bounds(digits.drop_last());
        assert(is_digit(digits.last()));
    }
}

/// Dividing by a power of ten drops that many digits at the end.
proof fn lemma_drop_digits(digits: Seq<char>, k: nat)
    requires
        all_digits(digits),
        k <= digits.len(),
    ensures
        digits_value(digits) / pow10(k) == digits_value(digits.take(digits.len() - k)),
    decreases k,
{
    if k == 0 {
        assert(digits.take(digits.len() as int) == digits);
    } else {
        let shorter = digits.drop_last();
        let p = pow10((k - 1) as nat);
        lemma_drop_digits(shorter, (k - 1) as nat);
        lemma_pow10_grows(0, (k - 1) as nat);
        lemma_digits_value_bounds(shorter);
        assert(is_digit(digits.last()));
        assert(shorter.take(shorter.len() - (k - 1)) == digits.take(digits.len() - k));
        assert(digits_value(digits) / 10 == digits_value(shorter));
        lemma_div_denominator(digits_value(digits), 10, p);
    }
}

/// The value of a character as a digit, if it is one.
fn digit(c: char) -> (r: Option<u8>)
    ensures
        r is Some <==> is_digit(c),
        r matches Some(d) ==> d == digit_of(c) && d <= 9,
{
    if c >= '0' && c <= '9' {
        Some((c as u32 - '0' as u32) as u8)
    } else {
        None
    }
}

/// The characters of `text`, one by one.
fn chars_of(text: &str) -> (chars: Vec<char>)
    ensures
        chars@ == text@,
{
    let mut chars: Vec<char> = Vec::new();
    let mut it: Chars<'_> = text.chars();
    let ghost mut pos: int = 0;
    loop
        invariant
            0 <= pos <= text@.len(),
            IteratorSpec::remaining(&it) == text@.skip(pos),
            it.obeys_prophetic_iter_laws(),
            chars@ == text@.take(pos),
        ensures
            pos == text@.len(),
        decreases text@.len() - pos,
    {
        match it.next() {
            Some(c) => {
                chars.push(c);
                proof {
                    assert(text@.take(pos + 1) == text@.take(pos).push(c));
                    pos = pos + 1;
                }
            },
            None => {
                break;
            },
        }
    }
    assert(text@.take(pos) == text@);
    chars
}

/// The index at which the run of digits that starts at `from` ends.
fn run_end(chars: &Vec<char>, from: usize) -> (end: usize)
    requires
        from <= chars@.len(),
    ensures
        from <= end <= chars@.len(),
        end - from == digit_run(chars@.skip(from as int)),
        all_digits(chars@.subrange(from as int, end as int)),
{
    let mut end: usize = from;
    while end < chars.len() && digit(chars[end]).is_some()
        invariant
            from <= end <= chars@.len(),
            all_digits(chars@.subrange(from as int, end as int)),
        decreases chars@.len() - end,
    {
        assert forall|i: int| 0 <= i < end + 1 - from implies is_digit(
            #[trigger] chars@.subrange(from as int, end + 1)[i],
        ) by {
            if i < end - from {
                assert(chars@.subrange(from as int, end + 1)[i] == chars@.subrange(
                    from as int,
                    end as int,
                )[i]);
            }
        }
        end += 1;
    }
    proof {
        let run = chars@.skip(from as int);
        assert forall|i: int| 0 <= i < end - from implies is_digit(#[trigger] run[i]) by {
            assert(run[i] == chars@.subrange(from as int, end as int)[i]);
        }
        lemma_digit_run(run, end - from);
    }
    end
}

/// The bound at which an exponent is cut off. It lies beyond every exponent
/// that a numeral held in memory could need to stay within range.
const EXPONENT_CAP: i128 = 0x40_0000_0000_0000_0000;

/// An exponent, cut off at the cap on either side.
spec fn clamped(exact: int) -> int {
    if exact > EXPONENT_CAP {
        EXPONENT_CAP as int
    } else if exact < -EXPONENT_CAP {
        -EXPONENT_CAP as int
    } else {
        exact
    }
}

/// Reads what follows the digits of a numeral. Gives the exponent, cut off
/// at the cap, or `None` where what follows is no exponent.
fn read_exponent(chars: &Vec<char>, from: usize) -> (r: Option<i128>)
    requires
        from <= chars@.len(),
    ensures
        match r {
            Some(held) => exponent_of(chars@.skip(from as int)) matches Some(exact) && held
                == clamped(exact),
            None => exponent_of(chars@.skip(from as int)) is None,
        },
{
    let ghost tail = chars@.skip(from as int);
    if from == chars.len() {
        return Some(0);
    }
    if chars[from] != 'e' && chars[from] != 'E' {
        return None;
    }
    let mut pos: usize = from + 1;
    let signed = pos < chars.len() && (chars[pos] == '-' || chars[pos] == '+');
    let negative = signed && chars[pos] == '-';
    if signed {
        pos += 1;
    }
    let first: usize = pos;
    let ghost digits = chars@.skip(first as int);
    proof {
        let number = tail.drop_first();
        assert(number == chars@.skip(from + 1));
        assert(signed == is_signed(number));
        assert(digits == if is_signed(number) { number.drop_first() } else { number });
        assert(negative == (is_signed(number) && number[0] == '-'));
    }
    if first == chars.len() {
        return None;
    }
    let mut held: i128 = 0;
    while pos < chars.len()
        invariant
            first <= pos <= chars@.len(),
            tail == chars@.skip(from as int),
            tail.len() > 0 && (tail[0] == 'e' || tail[0] == 'E'),
            digits == if is_signed(tail.drop_first()) {
                tail.drop_first().drop_first()
            } else {
                tail.drop_first()
            },
            digits == chars@.skip(first as int),
            all_digits(digits.take(pos - first)),
            0 <= held <= EXPONENT_CAP,
            held == clamped(digits_value(digits.take(pos - first))),
        decreases chars@.len() - pos,
    {
        let c = chars[pos];
        assert(c == digits[pos - first]);
        match digit(c) {
            Some(d) => {
                proof {
                    let before = digits.take(pos - first);
                    let next = digits.take(pos - first + 1);
                    assert(next.drop_last() == before);
                    assert(next.last() == c);
                    lemma_digits_value_bounds(before);
                    assert forall|i: int| 0 <= i < next.len() implies is_digit(
                        #[trigger] next[i],
                    ) by {
                        if i < before.len() {
                            assert(next[i] == before[i]);
                        }
                    }
                }
                held = held * 10 + d as i128;
                if held > EXPONENT_CAP {
                    held = EXPONENT_CAP;
                }
                pos += 1;
            },
            None => {
                return None;
            },
        }
    }
    assert(digits.take(pos - first) == digits);
    if negative {
        Some(-held)
    } else {
        Some(held)
    }
}

/// The digits in `chars` from `a` to `b` followed by those from `c` to `d`.
fn gather(chars: &Vec<char>, a: usize, b: usize, c: usize, d: usize) -> (digits: Vec<char>)
    requires
        a <= b <= chars@.len(),
        c <= d <= chars@.len(),
    ensures
        digits@ == chars@.subrange(a as int, b as int) + chars@.subrange(c as int, d as int),
{
    let mut digits: Vec<char> = Vec::new();
    let mut i: usize = a;
    while i < b
        invariant
            a <= i <= b <= chars@.len(),
            digits@ == chars@.subrange(a as int, i as int),
        decreases b - i,
    {
        digits.push(chars[i]);
        assert(chars@.subrange(a as int, i + 1) == chars@.subrange(a as int, i as int).push(
            chars@[i as int],
        ));
        i += 1;
    }
    let mut j: usize = c;
    assert(chars@.subrange(c as int, c as int).len() == 0);
    while j < d
        invariant
            c <= j <= d <= chars@.len(),
            digits@ == chars@.subrange(a as int, b as int) + chars@.subrange(c as int, j as int),
        decreases d - j,
    {
        digits.push(chars[j]);
        assert(chars@.subrange(c as int, j + 1) == chars@.subrange(c as int, j as int).push(
            chars@[j as int],
        ));
        j += 1;
    }
    digits
}

/// The digits read so far, as a number that may have left the range of a
/// coordinate.
struct Accumulator {
    value: u64,
    overflow: bool,
}

impl Accumulator {
    spec fn holds(self, digits: Seq<char>) -> bool {
        &&& self.value <= i64::MAX
        &&& !self.overflow ==> self.value == digits_value(digits)
        &&& self.overflow ==> digits_value(digits) > i64::MAX
    }
}

/// The number that the first `count` of `digits` denote.
fn accumulate(digits: &Vec<char>, count: usize) -> (acc: Accumulator)
    requires
        all_digits(digits@),
        count <= digits@.len(),
    ensures
        acc.holds(digits@.take(count as int)),
{
    let mut acc = Accumulator { value: 0, overflow: false };
    let mut i: usize = 0;
    while i < count
        invariant
            i <= count <= digits@.len(),
            all_digits(digits@),
            acc.holds(digits@.take(i as int)),
        decreases count - i,
    {
        proof {
            let before = digits@.take(i as int);
            let next = digits@.take(i + 1);
            assert(next.drop_last() == before);
            assert(next.last() == digits@[i as int]);
            assert forall|j: int| 0 <= j < before.len() implies is_digit(#[trigger] before[j]) by {
                assert(before[j] == digits@[j]);
            }
            lemma_digits_value_bounds(before);
        }
        match digit(digits[i]) {
            Some(d) => {
                if !acc.overflow {
                    let wide: u128 = acc.value as u128 * 10 + d as u128;
                    if wide > i64::MAX as u128 {
                        acc.overflow = true;
                    } else {
                        acc.value = wide as u64;
                    }
                }
            },
            None => {
                assert(false);
            },
        }
        i += 1;
    }
    acc
}

/// Moves the digits of a numeral to units. Gives `None` where the value
/// exceeds `i64::MAX` units. `exponent` is the numeral's exponent, cut off
/// at the cap.
fn magnitude_of(
    digits: &Vec<char>,
    fraction_len: usize,
    exponent: i128,
    Ghost(exact): Ghost<int>,
) -> (r: Option<i64>)
    requires
        all_digits(digits@),
        fraction_len <= digits@.len(),
        exponent == clamped(exact),
    ensures
        match r {
            Some(magnitude) => 0 <= magnitude == scaled_value(digits@, fraction_len as nat, exact),
            None => scaled_value(digits@, fraction_len as nat, exact) > i64::MAX,
        },
{
    let ghost value = digits_value(digits@);
    let ghost exact_shift = FRACTION_DIGITS + exact - fraction_len;
    let shift: i128 = FRACTION_DIGITS as i128 + exponent - fraction_len as i128;
    proof {
        lemma_digits_value_bounds(digits@);
        assert(digits@.take(digits@.len() as int) == digits@);
    }
    if shift < 0 {
        let dropped: i128 = -shift;
        let count: usize = if dropped >= digits.len() as i128 {
            0
        } else {
            (digits.len() as i128 - dropped) as usize
        };
        let acc = accumulate(digits, count);
        proof {
            let exact_dropped = (-exact_shift) as nat;
            if exact_dropped <= digits@.len() {
                assert(exact_dropped == dropped);
                lemma_drop_digits(digits@, exact_dropped);
            } else {
                assert(count == 0);
                lemma_pow10_grows(digits@.len(), exact_dropped);
                lemma_basic_div(value, pow10(exact_dropped));
                assert(digits_value(digits@.take(0)) == 0);
            }
            assert(scaled_value(digits@, fraction_len as nat, exact) == digits_value(
                digits@.take(count as int),
            ));
        }
        if acc.overflow {
            None
        } else {
            Some(acc.value as i64)
        }
    } else {
        let acc = accumulate(digits, digits.len());
        proof {
            lemma_pow10_grows(0, exact_shift as nat);
            assert(value * pow10(exact_shift as nat) >= value) by (nonlinear_arith)
                requires
                    value >= 0,
                    pow10(exact_shift as nat) >= 1,
            ;
        }
        if acc.overflow {
            return None;
        }
        let mut scaled: u64 = acc.value;
        if scaled == 0 {
            assert(value * pow10(exact_shift as nat) == 0) by (nonlinear_arith)
                requires
                    value == 0,
            ;
            return Some(0);
        }
        let mut done: i128 = 0;
        assert(scaled == value * pow10(0)) by {
            assert(pow10(0) == 1);
        }
        while done < shift
            invariant
                0 <= done <= shift <= exact_shift,
                value == digits_value(digits@),
                exact_shift == FRACTION_DIGITS + exact - fraction_len,
                1 <= value,
                1 <= scaled <= i64::MAX,
                scaled == value * pow10(done as nat),
            decreases shift - done,
        {
            let wide: u128 = scaled as u128 * 10;
            assert(wide == value * pow10((done + 1) as nat)) by (nonlinear_arith)
                requires
                    wide == scaled * 10,
                    scaled == value * pow10(done as nat),
                    pow10((done + 1) as nat) == 10 * pow10(done as nat),
            ;
            if wide > i64::MAX as u128 {
                proof {
                    lemma_pow10_grows((done + 1) as nat, exact_shift as nat);
                    assert(value * pow10(exact_shift as nat) >= value * pow10((done + 1) as nat))
                        by (nonlinear_arith)
                        requires
                            value >= 1,
                            pow10(exact_shift as nat) >= pow10((done + 1) as nat),
                    ;
                }
                return None;
            }
            scaled = wide as u64;
            done += 1;
        }
        proof {
            if exact_shift != shift {
                lemma_pow10_grows(19, shift as nat);
                lemma_pow10_nineteen();
                assert(value * pow10(shift as nat) >= pow10(shift as nat)) by (nonlinear_arith)
                    requires
                        value >= 1,
                        pow10(shift as nat) >= 1,
                ;
            }
        }
        Some(scaled as i64)
    }
}

/// Reads a coordinate. Returns `None` exactly where `text` is not a decimal
/// numeral or lies outside the range of a coordinate.
pub fn parse_decimal(text: &str) -> (r: Option<i64>)
    ensures
        r == decimal_units(text@),
{
    let chars = chars_of(text);
    let signed = chars.len() > 0 && (chars[0] == '-' || chars[0] == '+');
    let negative = signed && chars[0] == '-';
    let start: usize = if signed { 1 } else { 0 };
    let ghost body = chars@.skip(start as int);
    assert(body == if is_signed(text@) { text@.drop_first() } else { text@ });

    let whole_end = run_end(&chars, start);
    let ghost whole = chars@.subrange(start as int, whole_end as int);
    let ghost rest = chars@.skip(whole_end as int);
    assert(body.take(whole_end - start) == whole);
    assert(body.skip(whole_end - start) == rest);

    let pointed = whole_end < chars.len() && chars[whole_end] == '.';
    assert(pointed == (rest.len() > 0 && rest[0] == '.'));
    let fraction_start: usize = if pointed { whole_end + 1 } else { whole_end };
    let fraction_end: usize = if pointed { run_end(&chars, fraction_start) } else { whole_end };
    let ghost fraction = chars@.subrange(fraction_start as int, fraction_end as int);
    let ghost tail = chars@.skip(fraction_end as int);
    proof {
        if pointed {
            let after = rest.drop_first();
            assert(after == chars@.skip(fraction_start as int));
            assert(after.take(fraction_end - fraction_start) == fraction);
            assert(after.skip(fraction_end - fraction_start) == tail);
        } else {
            assert(fraction == Seq::<char>::empty());
        }
    }
    if whole_end - start + (fraction_end - fraction_start) == 0 {
        return None;
    }
    let exponent = match read_exponent(&chars, fraction_end) {
        Some(exponent) => exponent,
        None => {
            return None;
        },
    };
    let ghost exact = exponent_of(tail)->Some_0;
    let ghost numeral = Numeral { negative, whole, fraction, exponent: exact };
    assert(numeral_of(text@) == Some(numeral));

    let digits = gather(&chars, start, whole_end, fraction_start, fraction_end);
    assert forall|i: int| 0 <= i < digits@.len() implies is_digit(#[trigger] digits@[i]) by {
        if i < whole.len() {
            assert(digits@[i] == whole[i]);
        } else {
            assert(digits@[i] == fraction[i - whole.len()]);
        }
    }
    match magnitude_of(&digits, fraction_end - fraction_start, exponent, Ghost(exact)) {
        Some(magnitude) => if negative {
            Some(-magnitude)
        } else {
            Some(magnitude)
        },
        None => None,
    }
}

} // verus!
