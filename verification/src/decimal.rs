//! Amounts with nine decimal places: how they are read from text and written
//! to it.

use vstd::prelude::*;

verus! {

/// A branch length or a depth is a whole number of units, and `SCALE` units
/// make one: amounts have nine decimal places.
pub const SCALE: u64 = 1_000_000_000;

/// The digit `0`.
pub const ZERO: u8 = 48;

/// The digit `9`.
pub const NINE: u8 = 57;

/// The point before the decimal places.
pub const POINT: u8 = 46;

/// The letter `e` that starts an exponent.
pub const SMALL_E: u8 = 101;

/// The letter `E` that starts an exponent.
pub const CAPITAL_E: u8 = 69;

/// The sign `+` of an exponent.
pub const PLUS: u8 = 43;

/// The sign `-` of an exponent.
pub const MINUS: u8 = 45;

/// A byte that is one of the digits `0` to `9`.
pub open spec fn is_digit(b: u8) -> bool {
    ZERO <= b && b <= NINE
}

/// The end of the longest run of digits that starts at `i`.
pub open spec fn digit_end(s: Seq<u8>, i: int) -> int
    decreases s.len() - i,
{
    if 0 <= i < s.len() && is_digit(s[i]) {
        digit_end(s, i + 1)
    } else {
        i
    }
}

/// The number that the digits of `s` from `i` up to `j` write.
pub open spec fn digits_value(s: Seq<u8>, i: int, j: int) -> nat
    decreases j - i,
{
    if j <= i {
        0
    } else {
        digits_value(s, i, j - 1) * 10 + (s[j - 1] - ZERO) as nat
    }
}

/// Ten to the power of `k`.
pub open spec fn pow10(k: nat) -> nat
    decreases k,
{
    if k == 0 {
        1
    } else {
        10 * pow10((k - 1) as nat)
    }
}

/// What the first `take` digits of `m` write. Where `m` has fewer digits,
/// zeros stand for those that it lacks; where `take` is not above zero,
/// nothing is written, which is zero.
pub open spec fn kept_value(m: Seq<u8>, take: int) -> nat {
    if take <= 0 {
        0
    } else if take <= m.len() {
        digits_value(m, 0, take)
    } else {
        digits_value(m, 0, m.len() as int) * pow10((take - m.len()) as nat)
    }
}

/// A point stands at `e`.
pub open spec fn is_pointed(s: Seq<u8>, e: int) -> bool {
    0 <= e < s.len() && s[e] == POINT
}

/// Where the decimal places end that follow the whole part that ends at
/// `e`: behind the point and the digits that follow it, or at `e` where
/// no point stands.
pub open spec fn places_end(s: Seq<u8>, e: int) -> int {
    if is_pointed(s, e) {
        digit_end(s, e + 1)
    } else {
        e
    }
}

/// The digits of the amount at `i`: those of the whole part, and behind them
/// the decimal places.
pub open spec fn mantissa(s: Seq<u8>, i: int) -> Seq<u8> {
    let e = digit_end(s, i);
    if is_pointed(s, e) {
        s.subrange(i, e) + s.subrange(e + 1, places_end(s, e))
    } else {
        s.subrange(i, e)
    }
}

/// An exponent starts at `f`: the letter `e`, small or capital.
pub open spec fn has_exponent(s: Seq<u8>, f: int) -> bool {
    0 <= f < s.len() && (s[f] == SMALL_E || s[f] == CAPITAL_E)
}

/// A sign stands behind the letter of the exponent that starts at `f`.
pub open spec fn has_sign(s: Seq<u8>, f: int) -> bool {
    0 <= f + 1 < s.len() && (s[f + 1] == PLUS || s[f + 1] == MINUS)
}

/// Where the digits of the exponent start that starts at `f`: behind the
/// letter and the sign, if there is one.
pub open spec fn exponent_start(s: Seq<u8>, f: int) -> int {
    if has_sign(s, f) {
        f + 2
    } else {
        f + 1
    }
}

/// The power of ten that the exponent at `f` stands for, and zero where no
/// exponent starts at `f`.
pub open spec fn power_at(s: Seq<u8>, f: int) -> int {
    let g = exponent_start(s, f);
    let x = digits_value(s, g, digit_end(s, g));
    if !has_exponent(s, f) {
        0
    } else if has_sign(s, f) && s[f + 1] == MINUS {
        -x
    } else {
        x as int
    }
}

/// The amount that is written in `s` at `i`, in units, with the index behind
/// it: one or more digits; then, if a point follows, the point and one or
/// more digits; then, if the letter `e` follows, that letter, a sign or none,
/// and one or more digits, which are a power of ten to multiply by. What lies
/// behind the ninth decimal place of the amount is dropped. Where no such
/// text stands at `i`, the index at which a digit is missing; where the
/// amount is too great to be held, `i`.
pub open spec fn decimal_at(s: Seq<u8>, i: int) -> Result<(nat, int), int> {
    let e = digit_end(s, i);
    let f = places_end(s, e);
    let g = exponent_start(s, f);
    let h = digit_end(s, g);
    let units = kept_value(mantissa(s, i), (e - i) + 9 + power_at(s, f));
    if e == i {
        Err(i)
    } else if is_pointed(s, e) && f == e + 1 {
        Err(e + 1)
    } else if has_exponent(s, f) && h == g {
        Err(g)
    } else if units > u64::MAX {
        Err(i)
    } else if has_exponent(s, f) {
        Ok((units, h))
    } else {
        Ok((units, f))
    }
}

/// One more digit makes ten times the value and the digit.
proof fn lemma_digits_value_grows(s: Seq<u8>, i: int, j: int)
    requires
        0 <= i <= j < s.len(),
        is_digit(s[j]),
    ensures
        digits_value(s, i, j + 1) >= digits_value(s, i, j),
        digits_value(s, i, j + 1) == digits_value(s, i, j) * 10 + (s[j] - ZERO),
{
}

/// A run of digits ends where the run from its second digit ends.
proof fn lemma_digit_end_step(s: Seq<u8>, i: int)
    requires
        0 <= i < s.len(),
        is_digit(s[i]),
    ensures
        digit_end(s, i) == digit_end(s, i + 1),
{
}

/// Each power of ten is ten times the one before, and none is zero.
pub proof fn lemma_pow10_step(k: nat)
    ensures
        pow10(k + 1) == 10 * pow10(k),
        pow10(k) >= 1,
    decreases k,
{
    if k > 0 {
        lemma_pow10_step((k - 1) as nat);
    }
}

/// A greater power of ten is not less.
pub proof fn lemma_pow10_rises(j: nat, k: nat)
    requires
        j <= k,
    ensures
        pow10(j) <= pow10(k),
    decreases k - j,
{
    if j < k {
        lemma_pow10_rises(j, (k - 1) as nat);
        lemma_pow10_step((k - 1) as nat);
    }
}

/// The powers of ten up to the ninth, and the twentieth.
pub proof fn lemma_pow10_values()
    ensures
        pow10(0) == 1,
        pow10(1) == 10,
        pow10(2) == 100,
        pow10(3) == 1_000,
        pow10(4) == 10_000,
        pow10(5) == 100_000,
        pow10(6) == 1_000_000,
        pow10(7) == 10_000_000,
        pow10(8) == 100_000_000,
        pow10(9) == 1_000_000_000,
        pow10(20) == 100_000_000_000_000_000_000,
{
    reveal_with_fuel(pow10, 22);
}

/// Whether `b` is a digit.
fn is_digit_byte(b: u8) -> (r: bool)
    ensures
        r == is_digit(b),
{
    ZERO <= b && b <= NINE
}

/// The end of the run of digits that starts at `from`.
fn scan_digits(text: &[u8], from: usize) -> (to: usize)
    requires
        from <= text@.len(),
    ensures
        to == digit_end(text@, from as int),
        from <= to <= text@.len(),
        forall|k: int| from <= k < to ==> is_digit(#[trigger] text@[k]),
{
    let n = text.len();
    let mut k = from;
    while k < n && is_digit_byte(text[k])
        invariant
            from <= k <= n,
            n == text@.len(),
            digit_end(text@, from as int) == digit_end(text@, k as int),
            forall|j: int| from <= j < k ==> is_digit(#[trigger] text@[j]),
        decreases n - k,
    {
        proof {
            lemma_digit_end_step(text@, k as int);
        }
        k += 1;
    }
    k
}

/// Takes `count` more digits into the value `acc` of the first `t` digits of
/// `m`: the digits of `text` from `from` on, which are the digits of `m` from
/// `t` on. `over` says that the value is too great to be held.
fn take_digits(
    text: &[u8],
    from: usize,
    count: usize,
    acc: u64,
    over: bool,
    Ghost(m): Ghost<Seq<u8>>,
    Ghost(t): Ghost<int>,
) -> (r: (u64, bool))
    requires
        from + count <= text@.len(),
        0 <= t,
        t + count <= m.len(),
        forall|k: int| 0 <= k < t + count ==> is_digit(#[trigger] m[k]),
        forall|k: int| 0 <= k < count ==> text@[from + k] == #[trigger] m[t + k],
        !over ==> acc == digits_value(m, 0, t),
        over ==> digits_value(m, 0, t) > u64::MAX,
    ensures
        !r.1 ==> r.0 == digits_value(m, 0, t + count),
        r.1 ==> digits_value(m, 0, t + count) > u64::MAX,
{
    let n = text.len();
    let mut acc = acc;
    let mut over = over;
    let mut k: usize = 0;
    while k < count
        invariant
            k <= count,
            n == text@.len(),
            from + count <= n,
            0 <= t,
            t + count <= m.len(),
            forall|j: int| 0 <= j < t + count ==> is_digit(#[trigger] m[j]),
            forall|j: int| 0 <= j < count ==> text@[from + j] == #[trigger] m[t + j],
            !over ==> acc == digits_value(m, 0, t + k),
            over ==> digits_value(m, 0, t + k) > u64::MAX,
        decreases count - k,
    {
        proof {
            assert(text@[from + k] == m[t + k]);
            assert(is_digit(m[t + k]));
            lemma_digits_value_grows(m, 0, t + k);
        }
        if !over {
            let d = (text[from + k] - ZERO) as u64;
            match acc.checked_mul(10) {
                Some(tens) => match tens.checked_add(d) {
                    Some(next) => {
                        acc = next;
                    },
                    None => {
                        over = true;
                    },
                },
                None => {
                    over = true;
                },
            }
        }
        k += 1;
    }
    (acc, over)
}

/// The greatest exponent that is told from those above it: one that is
/// greater moves the point beyond every text.
pub const EXPONENT_MAX: u128 = 1_000_000_000_000_000_000_000_000_000_000;

/// The value of the digits of `text` from `from` up to `to`, and whether it
/// is above [`EXPONENT_MAX`].
fn exponent_value(text: &[u8], from: usize, to: usize) -> (r: (u128, bool))
    requires
        from <= to <= text@.len(),
        forall|k: int| from <= k < to ==> is_digit(#[trigger] text@[k]),
    ensures
        r.0 <= EXPONENT_MAX,
        !r.1 ==> r.0 == digits_value(text@, from as int, to as int),
        r.1 ==> digits_value(text@, from as int, to as int) > EXPONENT_MAX,
{
    let mut x: u128 = 0;
    let mut huge = false;
    let mut k = from;
    while k < to
        invariant
            from <= k <= to <= text@.len(),
            forall|j: int| from <= j < to ==> is_digit(#[trigger] text@[j]),
            x <= EXPONENT_MAX,
            !huge ==> x == digits_value(text@, from as int, k as int),
            huge ==> digits_value(text@, from as int, k as int) > EXPONENT_MAX,
        decreases to - k,
    {
        proof {
            lemma_digits_value_grows(text@, from as int, k as int);
        }
        if !huge {
            let next = x * 10 + (text[k] - ZERO) as u128;
            if next > EXPONENT_MAX {
                huge = true;
            } else {
                x = next;
            }
        }
        k += 1;
    }
    (x, huge)
}

/// Multiplies `acc` by ten, `pad` times. `over` says that the value is too
/// great to be held.
fn add_zeros(acc: u64, over: bool, pad: usize, Ghost(value): Ghost<nat>) -> (r: (u64, bool))
    requires
        pad <= 20,
        !over ==> acc == value,
        over ==> value > u64::MAX,
    ensures
        !r.1 ==> r.0 == value * pow10(pad as nat),
        r.1 ==> value * pow10(pad as nat) > u64::MAX,
{
    let mut acc = acc;
    let mut over = over;
    let mut p: usize = 0;
    proof {
        lemma_pow10_values();
        assert(value * pow10(0) == value) by (nonlinear_arith)
            requires
                pow10(0) == 1,
        ;
    }
    while p < pad
        invariant
            p <= pad <= 20,
            !over ==> acc == value * pow10(p as nat),
            over ==> value * pow10(p as nat) > u64::MAX,
        decreases pad - p,
    {
        proof {
            lemma_pow10_step(p as nat);
            assert(value * pow10((p + 1) as nat) == (value * pow10(p as nat)) * 10)
                by (nonlinear_arith)
                requires
                    pow10((p + 1) as nat) == 10 * pow10(p as nat),
            ;
        }
        if !over {
            match acc.checked_mul(10) {
                Some(next) => {
                    acc = next;
                },
                None => {
                    over = true;
                },
            }
        }
        p += 1;
    }
    (acc, over)
}

/// Finds the whole part and the decimal places of the amount at `start`:
/// where the whole part ends, and where the decimal places end.
fn scan_mantissa(text: &[u8], start: usize) -> (r: Result<(usize, usize), usize>)
    requires
        start <= text@.len(),
    ensures
        ({
            let e = digit_end(text@, start as int);
            let f = places_end(text@, e);
            match r {
                Ok((whole_end, end)) => {
                    &&& whole_end == e
                    &&& end == f
                    &&& start < e <= f <= text@.len()
                    &&& is_pointed(text@, e) ==> e + 1 < f
                    &&& !is_pointed(text@, e) ==> e == f
                    &&& forall|k: int| start <= k < e ==> is_digit(#[trigger] text@[k])
                    &&& forall|k: int| e < k < f ==> is_digit(#[trigger] text@[k])
                },
                Err(at) => start <= at <= text@.len() && (if e == start {
                    at == start
                } else {
                    is_pointed(text@, e) && f == e + 1 && at == e + 1
                }),
            }
        }),
{
    let n = text.len();
    let e = scan_digits(text, start);
    if e == start {
        return Err(start);
    }
    if e < n && text[e] == POINT {
        let f = scan_digits(text, e + 1);
        if f == e + 1 {
            return Err(e + 1);
        }
        Ok((e, f))
    } else {
        Ok((e, e))
    }
}

/// Reads the exponent at `f`, if one starts there: whether it is negative,
/// its digits as a number, whether that number is above [`EXPONENT_MAX`], and
/// where it ends.
fn scan_exponent(text: &[u8], f: usize) -> (r: Result<(bool, u128, bool, usize), usize>)
    requires
        f <= text@.len(),
    ensures
        ({
            let g = exponent_start(text@, f as int);
            let h = digit_end(text@, g);
            let power = power_at(text@, f as int);
            match r {
                Ok((negative, x, huge, end)) => {
                    &&& !(has_exponent(text@, f as int) && h == g)
                    &&& end == (if has_exponent(text@, f as int) { h } else { f as int })
                    &&& f <= end <= text@.len()
                    &&& has_exponent(text@, f as int) ==> f < end
                    &&& x <= EXPONENT_MAX
                    &&& !huge && negative ==> power == -x
                    &&& !huge && !negative ==> power == x
                    &&& huge && negative ==> power < -EXPONENT_MAX
                    &&& huge && !negative ==> power > EXPONENT_MAX
                },
                Err(at) => has_exponent(text@, f as int) && h == g && at == g && g <= text@.len(),
            }
        }),
{
    let n = text.len();
    if !(f < n && (text[f] == SMALL_E || text[f] == CAPITAL_E)) {
        return Ok((false, 0, false, f));
    }
    let mut g = f + 1;
    let mut negative = false;
    if g < n && (text[g] == PLUS || text[g] == MINUS) {
        negative = text[g] == MINUS;
        g = g + 1;
    }
    let h = scan_digits(text, g);
    if h == g {
        return Err(g);
    }
    let (x, huge) = exponent_value(text, g, h);
    Ok((negative, x, huge, h))
}

/// How many of the digits count, and how many zeros follow them, where the
/// first `take` digits are to be kept: no more zeros than twenty, which are
/// as good as any greater number of them.
pub open spec fn counts(take: int, all_digits: int, keep: int, pad: int) -> bool {
    &&& keep == (if take <= 0 {
        0
    } else if take <= all_digits {
        take
    } else {
        all_digits
    })
    &&& pad == (if take <= all_digits {
        0
    } else if take - all_digits > 20 {
        20
    } else {
        take - all_digits
    })
}

/// How many of `all_digits` digits count, and how many zeros follow them,
/// where the point stands behind `whole_digits` digits and is moved by the
/// exponent given.
fn digits_that_count(
    whole_digits: usize,
    all_digits: usize,
    negative: bool,
    x: u128,
    huge: bool,
    Ghost(power): Ghost<int>,
) -> (r: (usize, usize))
    requires
        whole_digits <= all_digits,
        x <= EXPONENT_MAX,
        !huge && negative ==> power == -x,
        !huge && !negative ==> power == x,
        huge && negative ==> power < -EXPONENT_MAX,
        huge && !negative ==> power > EXPONENT_MAX,
    ensures
        counts(whole_digits + 9 + power, all_digits as int, r.0 as int, r.1 as int),
{
    if negative {
        if huge || x >= whole_digits as u128 + 9 {
            (0, 0)
        } else {
            let count = whole_digits as u128 + 9 - x;
            if count <= all_digits as u128 {
                (count as usize, 0)
            } else {
                (all_digits, (count - all_digits as u128) as usize)
            }
        }
    } else if huge {
        (all_digits, 20)
    } else {
        let count = whole_digits as u128 + 9 + x;
        if count <= all_digits as u128 {
            (count as usize, 0)
        } else {
            let zeros = count - all_digits as u128;
            if zeros > 20 {
                (all_digits, 20)
            } else {
                (all_digits, zeros as usize)
            }
        }
    }
}

/// Twenty zeros behind a number are as good as more: the number is zero
/// with them and without, or too great to be held either way.
proof fn lemma_twenty_zeros(value: nat, zeros: nat)
    requires
        zeros >= 20,
    ensures
        value == 0 ==> value * pow10(zeros) == 0 && value * pow10(20) == 0,
        value > 0 ==> value * pow10(zeros) > u64::MAX && value * pow10(20) > u64::MAX,
{
    lemma_pow10_values();
    lemma_pow10_rises(20, zeros);
    if value == 0 {
        assert(value * pow10(zeros) == 0 && value * pow10(20) == 0) by (nonlinear_arith)
            requires
                value == 0,
        ;
    } else {
        assert(value * pow10(zeros) > u64::MAX && value * pow10(20) > u64::MAX) by (nonlinear_arith)
            requires
                value >= 1,
                pow10(zeros) >= pow10(20),
                pow10(20) == 100_000_000_000_000_000_000,
        ;
    }
}

/// The value of the first `take` digits of the amount at `start`, whose
/// whole part ends at `e` and whose decimal places end at `f`.
fn value_of_kept(
    text: &[u8],
    start: usize,
    e: usize,
    f: usize,
    keep: usize,
    pad: usize,
    Ghost(take): Ghost<int>,
) -> (r: (u64, bool))
    requires
        start < e <= f <= text@.len(),
        e == digit_end(text@, start as int),
        f == places_end(text@, e as int),
        is_pointed(text@, e as int) ==> e + 1 < f,
        !is_pointed(text@, e as int) ==> e == f,
        forall|k: int| start <= k < e ==> is_digit(#[trigger] text@[k]),
        forall|k: int| e < k < f ==> is_digit(#[trigger] text@[k]),
        counts(take, mantissa(text@, start as int).len() as int, keep as int, pad as int),
    ensures
        !r.1 ==> r.0 == kept_value(mantissa(text@, start as int), take),
        r.1 ==> kept_value(mantissa(text@, start as int), take) > u64::MAX,
{
    let ghost s = text@;
    let ghost m = mantissa(s, start as int);
    let whole_digits = e - start;
    let first_place = if e < f {
        e + 1
    } else {
        e
    };
    proof {
        assert forall|k: int| 0 <= k < m.len() implies is_digit(#[trigger] m[k]) by {
            if k < whole_digits {
                assert(m[k] == s[start + k]);
            } else {
                assert(m[k] == s[first_place + (k - whole_digits)]);
            }
        }
        assert(digits_value(m, 0, 0) == 0);
    }
    let from_whole = if keep < whole_digits {
        keep
    } else {
        whole_digits
    };
    proof {
        assert forall|k: int| 0 <= k < from_whole implies s[start + k] == #[trigger] m[0 + k] by {}
    }
    let (acc, over) = take_digits(text, start, from_whole, 0, false, Ghost(m), Ghost(0));
    let from_places = keep - from_whole;
    proof {
        assert forall|k: int| 0 <= k < from_places implies s[first_place + k]
            == #[trigger] m[from_whole + k] by {}
    }
    let (acc, over) = take_digits(
        text,
        first_place,
        from_places,
        acc,
        over,
        Ghost(m),
        Ghost(from_whole as int),
    );
    let ghost value = digits_value(m, 0, keep as int);
    let (acc, over) = add_zeros(acc, over, pad, Ghost(value));
    proof {
        lemma_pow10_values();
        if take <= m.len() {
            assert(value * pow10(0) == value) by (nonlinear_arith)
                requires
                    pow10(0) == 1,
            ;
        } else if take - m.len() > 20 {
            lemma_twenty_zeros(value, (take - m.len()) as nat);
        }
    }
    (acc, over)
}

/// Reads the amount that is written in `text` at `start`.
pub fn read_decimal(text: &[u8], start: usize) -> (r: Result<(u64, usize), usize>)
    requires
        start <= text@.len(),
    ensures
        match decimal_at(text@, start as int) {
            Ok((units, end)) => r == Ok::<(u64, usize), usize>((units as u64, end as usize))
                && units <= u64::MAX && start < end <= text@.len(),
            Err(at) => r == Err::<(u64, usize), usize>(at as usize) && start <= at <= text@.len(),
        },
{
    let (e, f) = match scan_mantissa(text, start) {
        Ok(ends) => ends,
        Err(at) => {
            return Err(at);
        },
    };
    let (negative, x, huge, end) = match scan_exponent(text, f) {
        Ok(exponent) => exponent,
        Err(at) => {
            return Err(at);
        },
    };
    let whole_digits = e - start;
    let all_digits = if e < f {
        whole_digits + (f - e - 1)
    } else {
        whole_digits
    };
    let ghost power = power_at(text@, f as int);
    let (keep, pad) = digits_that_count(whole_digits, all_digits, negative, x, huge, Ghost(power));
    let (units, over) = value_of_kept(
        text,
        start,
        e,
        f,
        keep,
        pad,
        Ghost(whole_digits + 9 + power),
    );
    if over {
        Err(start)
    } else {
        Ok((units, end))
    }
}

/// The digits of `n`, without a leading zero unless `n` is zero.
pub open spec fn digits(n: nat) -> Seq<u8>
    decreases n,
{
    if n < 10 {
        seq![(ZERO + n) as u8]
    } else {
        digits(n / 10).push((ZERO + n % 10) as u8)
    }
}

/// The last `width` digits of `n`.
pub open spec fn fixed_digits(n: nat, width: nat) -> Seq<u8>
    decreases width,
{
    if width == 0 {
        Seq::empty()
    } else {
        fixed_digits(n / 10, (width - 1) as nat).push((ZERO + n % 10) as u8)
    }
}

/// The last `width` digits of `n` without the zeros at their end.
pub open spec fn places(n: nat, width: nat) -> Seq<u8>
    decreases width,
{
    if width == 0 {
        Seq::empty()
    } else if n % 10 == 0 {
        places(n / 10, (width - 1) as nat)
    } else {
        fixed_digits(n, width)
    }
}

/// How an amount of `units` is written: the whole part, and, unless they are
/// all zero, a point and the decimal places up to the last one that is not
/// zero.
pub open spec fn decimal_text(units: nat) -> Seq<u8> {
    let whole = units / (SCALE as nat);
    let rest = units % (SCALE as nat);
    if rest == 0 {
        digits(whole)
    } else {
        digits(whole) + seq![POINT] + places(rest, 9)
    }
}

/// Appends the digits of `n` to `out`.
fn write_digits(n: u64, out: &mut Vec<u8>)
    ensures
        final(out)@ == old(out)@ + digits(n as nat),
    decreases n,
{
    if n >= 10 {
        write_digits(n / 10, out);
    }
    out.push(ZERO + (n % 10) as u8);
    assert(out@ =~= old(out)@ + digits(n as nat));
}

/// Appends the last `width` digits of `n` to `out`.
fn write_fixed(n: u64, width: usize, out: &mut Vec<u8>)
    ensures
        final(out)@ == old(out)@ + fixed_digits(n as nat, width as nat),
    decreases width,
{
    if width > 0 {
        write_fixed(n / 10, width - 1, out);
        out.push(ZERO + (n % 10) as u8);
    }
    assert(out@ =~= old(out)@ + fixed_digits(n as nat, width as nat));
}

/// Appends to `out` how the amount of `units` is written.
pub fn write_decimal(units: u64, out: &mut Vec<u8>)
    ensures
        final(out)@ == old(out)@ + decimal_text(units as nat),
{
    let whole = units / SCALE;
    let rest = units % SCALE;
    write_digits(whole, out);
    if rest != 0 {
        out.push(POINT);
        let mut n = rest;
        let mut width: usize = 9;
        while width > 0 && n % 10 == 0
            invariant
                places(rest as nat, 9) == places(n as nat, width as nat),
            decreases width,
        {
            n = n / 10;
            width = width - 1;
        }
        write_fixed(n, width, out);
        assert(out@ =~= old(out)@ + decimal_text(units as nat));
    }
}

/// The end of a run of digits that something else follows.
pub proof fn lemma_digit_end(s: Seq<u8>, i: int, e: int)
    requires
        0 <= i <= e <= s.len(),
        forall|k: int| i <= k < e ==> is_digit(#[trigger] s[k]),
        e == s.len() || !is_digit(s[e]),
    ensures
        digit_end(s, i) == e,
    decreases e - i,
{
    if i < e {
        lemma_digit_end(s, i + 1, e);
    }
}

/// Two texts that agree up to `n` have the same value up to `n`.
pub proof fn lemma_digits_value_same(a: Seq<u8>, b: Seq<u8>, n: int)
    requires
        0 <= n <= a.len(),
        n <= b.len(),
        forall|k: int| 0 <= k < n ==> a[k] == b[k],
    ensures
        digits_value(a, 0, n) == digits_value(b, 0, n),
    decreases n,
{
    if n > 0 {
        lemma_digits_value_same(a, b, n - 1);
    }
}

/// The digits of a number are digits, and they write that number.
pub proof fn lemma_digits(n: nat)
    ensures
        digits(n).len() >= 1,
        forall|k: int| 0 <= k < digits(n).len() ==> is_digit(#[trigger] digits(n)[k]),
        digits_value(digits(n), 0, digits(n).len() as int) == n,
    decreases n,
{
    let ds = digits(n);
    if n < 10 {
        assert(ds.len() == 1);
        assert(digits_value(ds, 0, 0) == 0);
        assert(digits_value(ds, 0, 1) == digits_value(ds, 0, 0) * 10 + (ds[0] - ZERO) as nat);
    } else {
        let front = digits(n / 10);
        lemma_digits(n / 10);
        let m = front.len() as int;
        assert(ds == front.push((ZERO + n % 10) as u8));
        lemma_digits_value_same(front, ds, m);
        assert(digits_value(ds, 0, m + 1) == digits_value(ds, 0, m) * 10 + (ds[m] - ZERO) as nat);
        assert forall|k: int| 0 <= k < ds.len() implies is_digit(#[trigger] ds[k]) by {
            if k < m {
                assert(ds[k] == front[k]);
            }
        }
    }
}

/// The last `width` digits of a number that has no more digits are digits,
/// and they write that number.
pub proof fn lemma_fixed_digits(n: nat, width: nat)
    requires
        n < pow10(width),
    ensures
        fixed_digits(n, width).len() == width,
        forall|k: int| 0 <= k < width ==> is_digit(#[trigger] fixed_digits(n, width)[k]),
        digits_value(fixed_digits(n, width), 0, width as int) == n,
    decreases width,
{
    let ds = fixed_digits(n, width);
    if width > 0 {
        let w = (width - 1) as nat;
        lemma_pow10_step(w);
        let front = fixed_digits(n / 10, w);
        lemma_fixed_digits(n / 10, w);
        assert(ds == front.push((ZERO + n % 10) as u8));
        lemma_digits_value_same(front, ds, w as int);
        assert(digits_value(ds, 0, width as int) == digits_value(ds, 0, w as int) * 10 + (
        ds[w as int] - ZERO) as nat);
        assert forall|k: int| 0 <= k < width implies is_digit(#[trigger] ds[k]) by {
            if k < w {
                assert(ds[k] == front[k]);
            }
        }
    } else {
        assert(pow10(0) == 1);
    }
}

/// The decimal places of a number that is not zero, without the zeros at
/// their end, are digits, at least one and at most `width`, and they stand
/// for that number.
pub proof fn lemma_places(n: nat, width: nat)
    requires
        0 < n < pow10(width),
    ensures
        1 <= places(n, width).len() <= width,
        forall|k: int| 0 <= k < places(n, width).len() ==> is_digit(#[trigger] places(n, width)[k]),
        digits_value(places(n, width), 0, places(n, width).len() as int) * pow10(
            (width - places(n, width).len()) as nat,
        ) == n,
    decreases width,
{
    if width == 0 {
        assert(pow10(0) == 1);
    } else if n % 10 == 0 {
        let w = (width - 1) as nat;
        lemma_pow10_step(w);
        lemma_places(n / 10, w);
        let ps = places(n / 10, w);
        let v = digits_value(ps, 0, ps.len() as int);
        let p = pow10((w - ps.len()) as nat);
        lemma_pow10_step((w - ps.len()) as nat);
        assert(places(n, width) == ps);
        assert(v * p == n / 10);
        assert(pow10((width - ps.len()) as nat) == 10 * p);
        assert(v * (10 * p) == 10 * (v * p)) by (nonlinear_arith);
        assert(10 * (n / 10) == n);
    } else {
        lemma_fixed_digits(n, width);
        assert(pow10(0) == 1);
        assert(places(n, width) == fixed_digits(n, width));
        assert(n * 1 == n);
    }
}

/// Powers of ten multiply as their exponents add.
pub proof fn lemma_pow10_adds(j: nat, k: nat)
    ensures
        pow10(j) * pow10(k) == pow10(j + k),
    decreases k,
{
    if k == 0 {
        assert(pow10(j) * 1 == pow10(j));
    } else {
        lemma_pow10_adds(j, (k - 1) as nat);
        lemma_pow10_step((k - 1) as nat);
        lemma_pow10_step((j + k - 1) as nat);
        assert(pow10(j) * (10 * pow10((k - 1) as nat)) == 10 * (pow10(j) * pow10((k - 1) as nat)))
            by (nonlinear_arith);
    }
}

/// What two runs of digits write, one behind the other: the first run,
/// moved to the left by the length of the second, and the second.
pub proof fn lemma_digits_value_joined(a: Seq<u8>, b: Seq<u8>)
    ensures
        digits_value(a + b, 0, (a + b).len() as int) == digits_value(a, 0, a.len() as int) * pow10(
            b.len(),
        ) + digits_value(b, 0, b.len() as int),
    decreases b.len(),
{
    let whole = digits_value(a, 0, a.len() as int);
    if b.len() == 0 {
        assert(a + b =~= a);
        assert(whole * pow10(0) == whole) by (nonlinear_arith)
            requires
                pow10(0) == 1,
        ;
    } else {
        let front = b.drop_last();
        let d = (b.last() - ZERO) as nat;
        let n = (a + b).len() as int;
        lemma_digits_value_joined(a, front);
        lemma_digits_value_same(a + front, a + b, n - 1);
        lemma_digits_value_same(front, b, front.len() as int);
        lemma_pow10_step(front.len());
        assert((a + b)[n - 1] == b.last());
        assert((a + front).len() == n - 1);
        let rest = digits_value(front, 0, front.len() as int);
        let p = pow10(front.len());
        assert(digits_value(a + b, 0, n) == (whole * p + rest) * 10 + d);
        assert(digits_value(b, 0, b.len() as int) == rest * 10 + d);
        assert((whole * p + rest) * 10 + d == whole * (10 * p) + (rest * 10 + d))
            by (nonlinear_arith);
    }
}

/// An amount that was written is read again as it was: where the text of
/// an amount stands at `i`, and no digit, no point and no letter `e` follows
/// it, the amount at `i` is that amount, and it ends where the text ends.
pub proof fn lemma_decimal_text_is_read(s: Seq<u8>, i: int, units: nat)
    requires
        units <= u64::MAX,
        0 <= i,
        i + decimal_text(units).len() <= s.len(),
        s.subrange(i, i + decimal_text(units).len()) == decimal_text(units),
        i + decimal_text(units).len() == s.len() || {
            let b = s[i + decimal_text(units).len()];
            !is_digit(b) && b != POINT && b != SMALL_E && b != CAPITAL_E
        },
    ensures
        decimal_at(s, i) == Ok::<(nat, int), int>((units, i + decimal_text(units).len())),
{
    let text = decimal_text(units);
    let end = i + text.len();
    let whole = units / (SCALE as nat);
    let rest = units % (SCALE as nat);
    let ws = digits(whole);
    lemma_digits(whole);
    lemma_pow10_values();
    let e = i + ws.len();
    assert forall|k: int| 0 <= k < text.len() implies s[i + k] == text[k] by {
        assert(s.subrange(i, end)[k] == s[i + k]);
    }
    assert forall|k: int| i <= k < e implies is_digit(#[trigger] s[k]) by {
        assert(s[i + (k - i)] == text[k - i]);
        assert(text[k - i] == ws[k - i]);
    }
    assert(s.subrange(i, e) =~= ws);
    if rest == 0 {
        lemma_digit_end(s, i, e);
        let m = s.subrange(i, e) + Seq::<u8>::empty();
        assert(m =~= ws);
        assert(!has_exponent(s, e));
        assert(mantissa(s, i) =~= ws);
        assert(kept_value(ws, (e - i) + 9) == whole * pow10(9));
    } else {
        let ps = places(rest, 9);
        lemma_places(rest, 9);
        assert(text == ws + seq![POINT] + ps);
        assert(s[i + ws.len()] == text[ws.len() as int]);
        assert(s[e] == POINT);
        lemma_digit_end(s, i, e);
        assert forall|k: int| e + 1 <= k < end implies is_digit(#[trigger] s[k]) by {
            assert(s[i + (k - i)] == text[k - i]);
            assert(text[k - i] == ps[k - e - 1]);
        }
        lemma_digit_end(s, e + 1, end);
        assert(end - (e + 1) == ps.len());
        assert forall|k: int| 0 <= k < ps.len() implies s.subrange(e + 1, end)[k] == ps[k] by {
            assert(s[i + (ws.len() + 1 + k)] == text[ws.len() + 1 + k]);
            assert(text[ws.len() + 1 + k] == ps[k]);
        }
        assert(s.subrange(e + 1, end) =~= ps);
        assert(!has_exponent(s, end));
        let m = ws + ps;
        assert(mantissa(s, i) =~= m);
        lemma_digits_value_joined(ws, ps);
        let p = digits_value(ps, 0, ps.len() as int);
        let high = pow10(ps.len());
        let low = pow10((9 - ps.len()) as nat);
        lemma_pow10_adds(ps.len(), (9 - ps.len()) as nat);
        assert(digits_value(m, 0, m.len() as int) == whole * high + p);
        assert((whole * high + p) * low == whole * (high * low) + p * low) by (nonlinear_arith);
        assert(kept_value(m, (e - i) + 9) == (whole * high + p) * low) by {
            if ps.len() == 9 {
                assert((whole * high + p) * 1 == whole * high + p);
            }
        }
    }
}

/// An amount that was read ends behind where it starts.
pub proof fn lemma_digit_run(s: Seq<u8>, i: int)
    ensures
        decimal_at(s, i) matches Ok((units, end)) ==> units <= u64::MAX && i <= end,
{
    let e = digit_end(s, i);
    lemma_digit_end_behind(s, i);
    lemma_digit_end_behind(s, e + 1);
    lemma_digit_end_behind(s, exponent_start(s, places_end(s, e)));
}

/// A run of digits ends at or behind where it starts.
pub proof fn lemma_digit_end_behind(s: Seq<u8>, i: int)
    ensures
        i <= digit_end(s, i),
    decreases s.len() - i,
{
    if 0 <= i < s.len() && is_digit(s[i]) {
        lemma_digit_end_behind(s, i + 1);
    }
}

} // verus!
