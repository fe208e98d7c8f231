//! Fixed-point decimal numbers and their text form.
//!
//! A quantity is held as an `i128` count of ten-thousandths (`SCALE` units
//! per whole), which is exact for every decimal string with at most four
//! fraction digits. The spec functions here define what a decimal string
//! means and what the rendered form of a number is; the exec functions are
//! proved to match them.

use vstd::math::abs;
use vstd::prelude::*;
use vstd::string::StringExecFns;

verus! {

/// Fixed-point units per whole: values are counts of ten-thousandths.
pub const SCALE: i128 = 10000;

/// Largest magnitude (in units) a parsed value may have: parsing accepts at
/// most 28 integer digits, so every accepted value is below this bound.
pub const MAX_UNITS: i128 = 100_000_000_000_000_000_000_000_000_000_000;

/// Largest magnitude (in units) the formatting functions accept; far above
/// anything the pipeline produces, it only keeps the rounding arithmetic
/// inside `i128`.
pub const MAX_FORMAT: i128 = 10_000_000_000_000_000_000_000_000_000_000_000_000;

pub open spec fn is_digit(c: char) -> bool {
    48 <= c as int && c as int <= 57
}

/// Numeric value of a digit character.
pub open spec fn char_digit(c: char) -> int {
    c as int - 48
}

/// Digit character of a value below ten.
pub open spec fn digit_char(d: int) -> char {
    if d == 0 { '0' }
    else if d == 1 { '1' }
    else if d == 2 { '2' }
    else if d == 3 { '3' }
    else if d == 4 { '4' }
    else if d == 5 { '5' }
    else if d == 6 { '6' }
    else if d == 7 { '7' }
    else if d == 8 { '8' }
    else { '9' }
}

/// Decimal numeral of a natural number, without sign or padding.
pub open spec fn dec_str(n: nat) -> Seq<char>
    decreases n,
{
    if n < 10 {
        seq![digit_char(n as int)]
    } else {
        dec_str(n / 10).push(digit_char((n % 10) as int))
    }
}

pub open spec fn all_digits(s: Seq<char>) -> bool {
    forall|i: int| 0 <= i < s.len() ==> is_digit(#[trigger] s[i])
}

/// Value of a string of digit characters, most significant first.
pub open spec fn digits_val(s: Seq<char>) -> int
    decreases s.len(),
{
    if s.len() == 0 {
        0
    } else {
        digits_val(s.drop_last()) * 10 + char_digit(s.last())
    }
}

pub open spec fn pow10(n: nat) -> int
    decreases n,
{
    if n == 0 { 1 } else { 10 * pow10((n - 1) as nat) }
}

/// Division of non-negative `n` by positive `d`, rounded half away from zero.
pub open spec fn round_div(n: int, d: int) -> int
    recommends
        n >= 0,
        d > 0,
{
    (2 * n + d) / (2 * d)
}

/// Index of the first `'.'` in `s`, or `s.len()` if there is none.
pub open spec fn dot_pos(s: Seq<char>) -> int
    decreases s.len(),
{
    if s.len() == 0 {
        0
    } else if s[0] == '.' {
        0
    } else {
        1 + dot_pos(s.drop_first())
    }
}

/// Shape of an accepted unsigned decimal string: one to 28 integer digits,
/// then optionally a dot and one to four fraction digits.
pub open spec fn valid_unsigned(s: Seq<char>) -> bool {
    let d = dot_pos(s);
    &&& 1 <= d <= 28
    &&& all_digits(s.take(d))
    &&& (d == s.len() || {
        &&& 1 <= s.len() - d - 1 <= 4
        &&& all_digits(s.skip(d + 1))
    })
}

/// Units (ten-thousandths) denoted by an accepted unsigned decimal string.
pub open spec fn unsigned_units(s: Seq<char>) -> int
    recommends
        valid_unsigned(s),
{
    let d = dot_pos(s);
    let frac = if d == s.len() {
        0int
    } else {
        let f = s.skip(d + 1);
        digits_val(f) * pow10((4 - f.len()) as nat)
    };
    digits_val(s.take(d)) * SCALE + frac
}

/// Meaning of a decimal string: an optional leading minus sign followed by
/// an accepted unsigned decimal string; `None` for any other shape.
pub open spec fn parse_fixed_spec(s: Seq<char>) -> Option<int> {
    if s.len() > 0 && s[0] == '-' {
        if valid_unsigned(s.drop_first()) {
            Some(-unsigned_units(s.drop_first()))
        } else {
            None
        }
    } else {
        if valid_unsigned(s) {
            Some(unsigned_units(s))
        } else {
            None
        }
    }
}

proof fn lemma_digits_val_bounds(s: Seq<char>)
    requires
        all_digits(s),
    ensures
        0 <= digits_val(s),
        digits_val(s) < pow10(s.len()),
    decreases s.len(),
{
    if s.len() > 0 {
        assert(all_digits(s.drop_last())) by {
            assert(forall|i: int| 0 <= i < s.len() - 1 ==> s.drop_last()[i] == #[trigger] s[i]);
        }
        lemma_digits_val_bounds(s.drop_last());
        assert(is_digit(s.last()));
        assert(pow10(s.len()) == 10 * pow10((s.len() - 1) as nat));
    }
}

proof fn lemma_pow10_increases(a: nat, b: nat)
    requires
        a <= b,
    ensures
        pow10(a) <= pow10(b),
        pow10(a) >= 1,
    decreases b,
{
    if a < b {
        lemma_pow10_increases(a, (b - 1) as nat);
    } else if b > 0 {
        lemma_pow10_increases((a - 1) as nat, (b - 1) as nat);
    }
}

proof fn lemma_pow10_28()
    ensures
        pow10(28) == 10_000_000_000_000_000_000_000_000_000,
{
    reveal_with_fuel(pow10, 29);
}

proof fn lemma_pow10_small()
    ensures
        pow10(0) == 1,
        pow10(1) == 10,
        pow10(2) == 100,
        pow10(3) == 1000,
        pow10(4) == 10000,
{
    reveal_with_fuel(pow10, 5);
}

proof fn lemma_pow10_adds(a: nat, b: nat)
    ensures
        pow10(a + b) == pow10(a) * pow10(b),
    decreases a,
{
    if a > 0 {
        lemma_pow10_adds((a - 1) as nat, b);
        assert(pow10(a + b) == 10 * pow10((a + b - 1) as nat));
        assert(10 * (pow10((a - 1) as nat) * pow10(b)) == (10 * pow10((a - 1) as nat)) * pow10(b))
            by (nonlinear_arith);
    }
}

/// Every accepted unsigned decimal string denotes fewer than `MAX_UNITS`
/// units.
proof fn lemma_unsigned_units_in_range(u: Seq<char>)
    requires
        valid_unsigned(u),
    ensures
        0 <= unsigned_units(u) < MAX_UNITS,
{
    let d = dot_pos(u);
    let w = u.take(d);
    lemma_digits_val_bounds(w);
    lemma_pow10_increases(w.len() as nat, 28);
    assert(pow10(28) * SCALE == MAX_UNITS) by {
        reveal_with_fuel(pow10, 29);
    }
    assert(digits_val(w) * SCALE <= (pow10(28) - 1) * SCALE) by (nonlinear_arith)
        requires digits_val(w) <= pow10(28) - 1 && SCALE > 0;
    if d != u.len() {
        let f = u.skip(d + 1);
        lemma_digits_val_bounds(f);
        lemma_pow10_adds(f.len() as nat, (4 - f.len()) as nat);
        lemma_pow10_increases(0, (4 - f.len()) as nat);
        assert(digits_val(f) * pow10((4 - f.len()) as nat)
            < pow10(f.len() as nat) * pow10((4 - f.len()) as nat)) by (nonlinear_arith)
            requires
                digits_val(f) < pow10(f.len() as nat),
                pow10((4 - f.len()) as nat) >= 1;
        assert(pow10(f.len() as nat) * pow10((4 - f.len()) as nat) == pow10(4));
        assert(pow10(4) == SCALE) by {
            reveal_with_fuel(pow10, 5);
        }
    }
}

/// Appends the digit character of `d` to `s`.
pub fn append_digit(s: &mut String, d: u8)
    requires
        d < 10,
    ensures
        final(s)@ == old(s)@.push(digit_char(d as int)),
{
    match d {
        0 => {
            proof { reveal_strlit("0"); }
            s.append("0");
            assert(s@ =~= old(s)@.push('0'));
        }
        1 => {
            proof { reveal_strlit("1"); }
            s.append("1");
            assert(s@ =~= old(s)@.push('1'));
        }
        2 => {
            proof { reveal_strlit("2"); }
            s.append("2");
            assert(s@ =~= old(s)@.push('2'));
        }
        3 => {
            proof { reveal_strlit("3"); }
            s.append("3");
            assert(s@ =~= old(s)@.push('3'));
        }
        4 => {
            proof { reveal_strlit("4"); }
            s.append("4");
            assert(s@ =~= old(s)@.push('4'));
        }
        5 => {
            proof { reveal_strlit("5"); }
            s.append("5");
            assert(s@ =~= old(s)@.push('5'));
        }
        6 => {
            proof { reveal_strlit("6"); }
            s.append("6");
            assert(s@ =~= old(s)@.push('6'));
        }
        7 => {
            proof { reveal_strlit("7"); }
            s.append("7");
            assert(s@ =~= old(s)@.push('7'));
        }
        8 => {
            proof { reveal_strlit("8"); }
            s.append("8");
            assert(s@ =~= old(s)@.push('8'));
        }
        _ => {
            proof { reveal_strlit("9"); }
            s.append("9");
            assert(s@ =~= old(s)@.push('9'));
        }
    }
}

/// Appends the decimal numeral of `n` to `s`.
pub fn push_decimal(s: &mut String, n: u128)
    ensures
        final(s)@ == old(s)@ + dec_str(n as nat),
    decreases n,
{
    if n < 10 {
        append_digit(s, n as u8);
        assert(final(s)@ =~= old(s)@ + dec_str(n as nat));
    } else {
        push_decimal(s, n / 10);
        append_digit(s, (n % 10) as u8);
        assert(final(s)@ =~= old(s)@ + dec_str(n as nat));
    }
}

/// The decimal numeral of `n` as a fresh string.
pub fn decimal_string(n: u128) -> (r: String)
    ensures
        r@ == dec_str(n as nat),
{
    let mut s = String::new();
    push_decimal(&mut s, n);
    assert(s@ =~= dec_str(n as nat));
    s
}

/// Percentage change from `prev` to `prev + change`, in hundredths of a
/// percent, rounded half away from zero; zero when `prev` is zero, a
/// deliberate policy that keeps the division total.
pub open spec fn percent_hundredths(change: int, prev: int) -> int {
    if prev == 0 {
        0
    } else {
        let m = round_div(abs(change) as int * 10000, abs(prev) as int);
        if (change < 0) != (prev < 0) {
            -m
        } else {
            m
        }
    }
}

/// Computes `percent_hundredths` on machine integers.
pub fn percent_of(change: i128, prev: i128) -> (r: i128)
    requires
        -2 * MAX_UNITS <= change <= 2 * MAX_UNITS,
        -MAX_UNITS < prev < MAX_UNITS,
    ensures
        r == percent_hundredths(change as int, prev as int),
{
    if prev == 0 {
        return 0;
    }
    let cm: u128 = if change < 0 {
        (-change) as u128
    } else {
        change as u128
    };
    let pm: u128 = if prev < 0 {
        (-prev) as u128
    } else {
        prev as u128
    };
    let a: u128 = 2 * cm * 10000 + pm;
    let b: u128 = 2 * pm;
    let q: u128 = a / b;
    proof {
        vstd::arithmetic::div_mod::lemma_fundamental_div_mod(a as int, b as int);
        vstd::arithmetic::mul::lemma_mul_inequality(2, b as int, q as int);
        assert(cm == abs(change as int));
        assert(pm == abs(prev as int));
    }
    let m = q as i128;
    if (change < 0) != (prev < 0) {
        -m
    } else {
        m
    }
}

/// Rounds a magnitude in units (ten-thousandths) to tenths, half away
/// from zero.
pub fn units_to_tenths(m: u128) -> (t: u128)
    requires
        m <= 2 * MAX_FORMAT,
    ensures
        t == round_div(m as int, 1000),
{
    (2 * m + 1000) / 2000
}

proof fn lemma_dot_pos_range(u: Seq<char>)
    ensures
        0 <= dot_pos(u) <= u.len(),
    decreases u.len(),
{
    if u.len() > 0 && u[0] != '.' {
        lemma_dot_pos_range(u.drop_first());
    }
}

proof fn lemma_dot_pos_at(u: Seq<char>, j: int)
    requires
        0 <= j <= u.len(),
        forall|k: int| 0 <= k < j ==> u[k] != '.',
        j == u.len() || u[j] == '.',
    ensures
        dot_pos(u) == j,
    decreases u.len(),
{
    if j == 0 {
    } else {
        lemma_dot_pos_at(u.drop_first(), j - 1);
    }
}

proof fn lemma_dot_pos_ge(u: Seq<char>, j: int)
    requires
        0 <= j <= u.len(),
        forall|k: int| 0 <= k < j ==> u[k] != '.',
    ensures
        dot_pos(u) >= j,
    decreases u.len(),
{
    lemma_dot_pos_range(u);
    if j > 0 {
        lemma_dot_pos_ge(u.drop_first(), j - 1);
    }
}

fn is_digit_exec(c: char) -> (b: bool)
    ensures
        b == is_digit(c),
{
    let x = c as u32;
    48 <= x && x <= 57
}

/// First index in `[from, to)` whose character is not a digit, or `to`.
fn scan_digits(s: &str, from: usize, to: usize) -> (j: usize)
    requires
        from <= to <= s@.len(),
    ensures
        from <= j <= to,
        forall|k: int| from <= k < j ==> is_digit(s@[k]),
        j < to ==> !is_digit(s@[j as int]),
{
    let mut j = from;
    loop
        invariant_except_break
            from <= j <= to,
            to <= s@.len(),
            forall|k: int| from <= k < j ==> is_digit(s@[k]),
        ensures
            from <= j <= to,
            forall|k: int| from <= k < j ==> is_digit(s@[k]),
            j < to ==> !is_digit(s@[j as int]),
        decreases to - j,
    {
        if j == to {
            break;
        }
        let c = s.get_char(j);
        if !is_digit_exec(c) {
            break;
        }
        j = j + 1;
    }
    j
}

proof fn lemma_digits_val_step(s: Seq<char>, from: int, k: int)
    requires
        0 <= from <= k < s.len(),
    ensures
        digits_val(s.subrange(from, k + 1)) == digits_val(s.subrange(from, k)) * 10
            + char_digit(s[k]),
{
    assert(s.subrange(from, k + 1).drop_last() =~= s.subrange(from, k));
    assert(s.subrange(from, k + 1).last() == s[k]);
}

/// Value of the digit run `s[from..to]`, which the caller has checked.
fn digits_value(s: &str, from: usize, to: usize) -> (acc: u128)
    requires
        from <= to <= s@.len(),
        to - from <= 28,
        forall|k: int| from <= k < to ==> is_digit(s@[k]),
    ensures
        acc == digits_val(s@.subrange(from as int, to as int)),
        acc < pow10((to - from) as nat),
{
    let mut acc: u128 = 0;
    let mut k = from;
    proof {
        assert(s@.subrange(from as int, from as int) =~= Seq::<char>::empty());
        reveal_with_fuel(pow10, 29);
        lemma_pow10_increases(((to - from)) as nat, 28);
    }
    while k < to
        invariant
            from <= k <= to,
            to <= s@.len(),
            to - from <= 28,
            forall|j: int| from <= j < to ==> is_digit(s@[j]),
            acc == digits_val(s@.subrange(from as int, k as int)),
            acc < pow10((k - from) as nat),
            pow10((to - from) as nat) <= pow10(28),
            pow10(28) == 10_000_000_000_000_000_000_000_000_000u128,
        decreases to - k,
    {
        let c = s.get_char(k);
        let d = (c as u32 - 48) as u8;
        proof {
            lemma_digits_val_step(s@, from as int, k as int);
            lemma_pow10_increases((k + 1 - from) as nat, 28);
            assert(pow10((k + 1 - from) as nat) == 10 * pow10((k - from) as nat));
        }
        acc = acc * 10 + (d as u128);
        k = k + 1;
    }
    acc
}

/// Parses a decimal string into fixed-point units, exactly as
/// `parse_fixed_spec` reads it; `None` on any shape the spec rejects.
#[verifier::rlimit(100)]
pub fn parse_fixed(s: &str) -> (r: Option<i128>)
    ensures
        match r {
            Some(v) => parse_fixed_spec(s@) == Some(v as int),
            None => parse_fixed_spec(s@) is None,
        },
{
    let n = s.unicode_len();
    if n == 0 {
        return None;
    }
    let neg = s.get_char(0) == '-';
    let start: usize = if neg { 1 } else { 0 };
    let ghost u: Seq<char> = s@.skip(start as int);
    proof {
        if neg {
            assert(u =~= s@.drop_first());
        } else {
            assert(u =~= s@);
        }
        lemma_dot_pos_range(u);
        assert('.' as int == 46);
    }
    let d_end = scan_digits(s, start, n);
    let count = d_end - start;
    if count == 0 {
        proof {
            if start < n {
                assert(u[0] == s@[start as int]);
                assert(!is_digit(u[0]));
                if u[0] == '.' {
                    lemma_dot_pos_at(u, 0);
                } else {
                    lemma_dot_pos_range(u.drop_first());
                    assert(dot_pos(u) == 1 + dot_pos(u.drop_first()));
                    assert(u.take(dot_pos(u))[0] == u[0]);
                }
            }
        }
        return None;
    }
    if count > 28 {
        proof {
            lemma_dot_pos_ge(u, 29);
        }
        return None;
    }
    let ia = digits_value(s, start, d_end);
    proof {
        assert(u.take(count as int) =~= s@.subrange(start as int, d_end as int));
        lemma_pow10_28();
        lemma_pow10_increases(count as nat, 28);
    }
    if d_end == n {
        proof {
            lemma_dot_pos_at(u, count as int);
        }
        let v = (ia as i128) * SCALE;
        return Some(if neg { -v } else { v });
    }
    let c = s.get_char(d_end);
    if c != '.' {
        proof {
            assert(u[count as int] == s@[d_end as int]);
            lemma_dot_pos_ge(u, count + 1);
            assert(u.take(dot_pos(u))[count as int] == u[count as int]);
            assert(!is_digit(u[count as int]));
        }
        return None;
    }
    proof {
        lemma_dot_pos_at(u, count as int);
    }
    let f_end = scan_digits(s, d_end + 1, n);
    let ghost f: Seq<char> = u.skip(count + 1);
    proof {
        assert(f =~= s@.subrange(d_end + 1, n as int));
    }
    if f_end < n {
        proof {
            assert(f[f_end - d_end - 1] == s@[f_end as int]);
            assert(!is_digit(f[f_end - d_end - 1]));
        }
        return None;
    }
    let flen = n - d_end - 1;
    if flen == 0 || flen > 4 {
        return None;
    }
    let fa = digits_value(s, d_end + 1, n);
    let mult: u128 = if flen == 1 {
        1000
    } else if flen == 2 {
        100
    } else if flen == 3 {
        10
    } else {
        1
    };
    proof {
        lemma_pow10_small();
        assert(mult == pow10((4 - flen) as nat));
        assert(fa * mult < 10000) by (nonlinear_arith)
            requires
                fa < pow10(flen as nat),
                mult == pow10((4 - flen) as nat),
                1 <= flen <= 4,
                pow10(1) == 10 && pow10(2) == 100 && pow10(3) == 1000 && pow10(4) == 10000;
        assert(ia * (SCALE as u128) <= (pow10(28) - 1) * (SCALE as u128)) by (nonlinear_arith)
            requires
                ia <= pow10(28) - 1,
                SCALE == 10000;
    }
    let units: u128 = ia * (SCALE as u128) + fa * mult;
    let v = units as i128;
    Some(if neg { -v } else { v })
}

/// Every accepted decimal string denotes a value of magnitude below
/// `MAX_UNITS`.
pub proof fn lemma_parse_fixed_in_range(s: Seq<char>)
    requires
        parse_fixed_spec(s) is Some,
    ensures
        -MAX_UNITS < parse_fixed_spec(s)->Some_0 < MAX_UNITS,
{
    if s.len() > 0 && s[0] == '-' {
        lemma_unsigned_units_in_range(s.drop_first());
    } else {
        lemma_unsigned_units_in_range(s);
    }
}

} // verus!
