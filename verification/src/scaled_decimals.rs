//! Fixed-point decimals with nine fractional digits, stored in a `u128`.

use vstd::prelude::*;
use vstd::arithmetic::div_mod::*;
use vstd::arithmetic::mul::*;

verus! {

/// One unit in the fixed-point representation: a value `v` stands for `v / SCALE`.
pub const SCALE: u128 = 1_000_000_000;

/// Number of fractional digits kept by the representation.
pub const DECIMALS: u32 = 9;

/// Fixed-point product: the exact product of two scaled values, truncated back to the scale.
pub open spec fn fixed_mul(a: int, b: int) -> int {
    (a * b) / (SCALE as int)
}

/// Fixed-point quotient: `a / b` of two scaled values, truncated to the scale.
pub open spec fn fixed_div(a: int, b: int) -> int {
    (a * (SCALE as int)) / b
}

/// Fixed-point reciprocal `1 / v`, truncated to the scale.
pub open spec fn fixed_inverse(v: int) -> int {
    ((SCALE as int) * (SCALE as int)) / v
}

/// `1 - v` in fixed point, floored at zero.
pub open spec fn fixed_complement(v: int) -> int {
    if v >= SCALE as int { 0 } else { SCALE as int - v }
}

/// Arithmetic on scaled values.
pub struct FastMath;

impl FastMath {
    /// Product of two scaled values.
    pub fn mul(a: u128, b: u128) -> (r: u128)
        requires
            a * b <= u128::MAX,
        ensures
            r == fixed_mul(a as int, b as int),
    {
        (a * b) / SCALE
    }

    /// Quotient of two scaled values.
    pub fn div(a: u128, b: u128) -> (r: u128)
        requires
            b > 0,
            a * SCALE <= u128::MAX,
        ensures
            r == fixed_div(a as int, b as int),
    {
        (a * SCALE) / b
    }

    /// Reciprocal of a scaled value.
    pub fn inverse_div(val: u128) -> (r: u128)
        requires
            val > 0,
        ensures
            r == fixed_inverse(val as int),
    {
        (SCALE * SCALE) / val
    }

    /// `1 - val` in fixed point, or zero where `val` is one unit or more.
    pub fn saturate(val: u128) -> (r: u128)
        ensures
            r == fixed_complement(val as int),
    {
        SCALE.saturating_sub(val)
    }

    /// Whether a scaled value is strictly greater than one unit.
    pub fn compare_scale(val: u128) -> (r: bool)
        ensures
            r == (val > SCALE),
    {
        val > SCALE
    }
}

/// One unit is neutral for the fixed-point product.
pub proof fn lemma_mul_unit(a: int)
    ensures
        fixed_mul(a, SCALE as int) == a,
        fixed_mul(SCALE as int, a) == a,
{
    lemma_div_multiples_vanish(a, SCALE as int);
    lemma_mul_is_commutative(a, SCALE as int);
}

/// One unit is neutral on the right of the fixed-point quotient.
pub proof fn lemma_div_unit(a: int)
    ensures
        fixed_div(a, SCALE as int) == a,
{
    lemma_div_multiples_vanish(a, SCALE as int);
    lemma_mul_is_commutative(a, SCALE as int);
}

/// On whole units the fixed-point product is the integer product.
pub proof fn lemma_mul_whole_units(n: int, m: int)
    ensures
        fixed_mul(n * SCALE, m * SCALE) == (n * m) * SCALE,
{
    let s = SCALE as int;
    assert((n * s) * (m * s) == s * ((n * m) * s)) by (nonlinear_arith);
    lemma_div_multiples_vanish((n * m) * s, s);
}

/// On whole units that divide evenly, the fixed-point quotient is the integer quotient.
pub proof fn lemma_div_whole_units(n: int, m: int)
    requires
        m > 0,
        n % m == 0,
    ensures
        fixed_div(n * SCALE, m * SCALE) == (n / m) * SCALE,
{
    let s = SCALE as int;
    let q = n / m;
    lemma_fundamental_div_mod(n, m);
    assert(n == m * q);
    assert((n * s) * s == (m * s) * (q * s)) by (nonlinear_arith)
        requires
            n == m * q,
    ;
    assert(m * s > 0) by (nonlinear_arith)
        requires
            m > 0,
            s > 0,
    ;
    lemma_div_multiples_vanish(q * s, m * s);
}

/// The reciprocal is the quotient of one unit by the value.
pub proof fn lemma_inverse_is_unit_quotient(v: int)
    ensures
        fixed_inverse(v) == fixed_div(SCALE as int, v),
{
}

/// `saturate` complements a value that does not exceed one unit.
pub proof fn lemma_complement_adds_to_unit(v: int)
    requires
        0 <= v <= SCALE,
    ensures
        fixed_complement(v) + v == SCALE,
{
}

// ---------------------------------------------------------------------------
// Decimal text
// ---------------------------------------------------------------------------

/// An ASCII decimal digit.
pub open spec fn is_digit(c: char) -> bool {
    '0' <= c && c <= '9'
}

/// The value of an ASCII decimal digit.
pub open spec fn digit_value(c: char) -> nat {
    (c as int - '0' as int) as nat
}

/// Every character of `s` is an ASCII decimal digit.
pub open spec fn all_digits(s: Seq<char>) -> bool {
    forall|i: int| 0 <= i < s.len() ==> is_digit(#[trigger] s[i])
}

/// The number that a string of decimal digits writes, most significant first.
pub open spec fn decimal_value(s: Seq<char>) -> nat
    decreases s.len(),
{
    if s.len() == 0 {
        0
    } else {
        decimal_value(s.drop_last()) * 10 + digit_value(s.last())
    }
}

/// `10` to the power `n`.
pub open spec fn pow10(n: nat) -> nat
    decreases n,
{
    if n == 0 {
        1
    } else {
        10 * pow10((n - 1) as nat)
    }
}

/// What `u128::from_str` accepts: an optional `+`, then one or more ASCII digits
/// whose value fits in a `u128`. `None` stands for every error it reports.
pub open spec fn parse_u128_spec(s: Seq<char>) -> Option<nat> {
    let digits = if s.len() > 0 && s[0] == '+' { s.drop_first() } else { s };
    if digits.len() > 0 && all_digits(digits) && decimal_value(digits) <= u128::MAX {
        Some(decimal_value(digits))
    } else {
        None
    }
}

/// Index of the first `c` in `s`, or `s.len()` where `s` holds none.
pub open spec fn first_index(s: Seq<char>, c: char) -> int
    decreases s.len(),
{
    if s.len() == 0 {
        0
    } else if s[0] == c {
        0
    } else {
        1 + first_index(s.drop_first(), c)
    }
}

/// The ASCII digits of `s`, in order, with every other character left out.
pub open spec fn digits_of(s: Seq<char>) -> Seq<char>
    decreases s.len(),
{
    if s.len() == 0 {
        Seq::empty()
    } else if is_digit(s.last()) {
        digits_of(s.drop_last()).push(s.last())
    } else {
        digits_of(s.drop_last())
    }
}

/// The text before the first `.` of a price.
pub open spec fn integer_text(s: Seq<char>) -> Seq<char> {
    s.take(first_index(s, '.'))
}

/// The text between the first and the second `.` of a price (empty without a `.`).
pub open spec fn fraction_text(s: Seq<char>) -> Seq<char> {
    let d = first_index(s, '.');
    if d < s.len() {
        let rest = s.skip(d + 1);
        rest.take(first_index(rest, '.'))
    } else {
        Seq::empty()
    }
}

/// The fractional digits that a price keeps: the first nine digits of its fraction text.
pub open spec fn fraction_digits(s: Seq<char>) -> Seq<char> {
    let ds = digits_of(fraction_text(s));
    if ds.len() <= DECIMALS { ds } else { ds.take(DECIMALS as int) }
}

/// The whole units of a price: its integer text read as a `u128`, or zero where that fails.
pub open spec fn integer_units(s: Seq<char>) -> nat {
    match parse_u128_spec(integer_text(s)) {
        Some(v) => v,
        None => 0,
    }
}

/// The fractional part of a price in billionths.
pub open spec fn fraction_scaled(s: Seq<char>) -> nat {
    let fd = fraction_digits(s);
    decimal_value(fd) * pow10((DECIMALS - fd.len()) as nat)
}

/// The scaled value that a price text stands for.
pub open spec fn scaled_value(s: Seq<char>) -> nat {
    integer_units(s) * (SCALE as nat) + fraction_scaled(s)
}

pub(crate) proof fn lemma_first_index_bounds(s: Seq<char>, c: char)
    ensures
        0 <= first_index(s, c) <= s.len(),
        forall|i: int| 0 <= i < first_index(s, c) ==> s[i] != c,
        first_index(s, c) < s.len() ==> s[first_index(s, c)] == c,
    decreases s.len(),
{
    if s.len() > 0 && s[0] != c {
        lemma_first_index_bounds(s.drop_first(), c);
        assert forall|i: int| 0 <= i < first_index(s, c) implies s[i] != c by {
            if i > 0 {
                assert(s[i] == s.drop_first()[i - 1]);
            }
        }
    }
}

pub(crate) proof fn lemma_first_index_unique(s: Seq<char>, c: char, r: int)
    requires
        0 <= r <= s.len(),
        forall|i: int| 0 <= i < r ==> s[i] != c,
        r < s.len() ==> s[r] == c,
    ensures
        first_index(s, c) == r,
{
    lemma_first_index_bounds(s, c);
    let f = first_index(s, c);
    if f < r {
        assert(s[f] != c);
    } else if r < f {
        assert(s[r] != c);
    }
}

proof fn lemma_decimal_value_prefix_le(s: Seq<char>, j: int)
    requires
        0 <= j <= s.len(),
    ensures
        decimal_value(s.take(j)) <= decimal_value(s),
    decreases s.len(),
{
    if j < s.len() {
        assert(s.drop_last().take(j) =~= s.take(j));
        lemma_decimal_value_prefix_le(s.drop_last(), j);
    } else {
        assert(s.take(j) =~= s);
    }
}

proof fn lemma_digits_of_prefix(t: Seq<char>, j: int)
    requires
        0 <= j <= t.len(),
    ensures
        digits_of(t.take(j)).len() <= digits_of(t).len(),
        digits_of(t).take(digits_of(t.take(j)).len() as int) =~= digits_of(t.take(j)),
    decreases t.len(),
{
    if j == t.len() {
        assert(t.take(j) =~= t);
    } else {
        assert(t.drop_last().take(j) =~= t.take(j));
        lemma_digits_of_prefix(t.drop_last(), j);
    }
}

/// Reads a `u128` from decimal text as `u128::from_str` does.
pub(crate) fn parse_u128(s: &str) -> (r: Option<u128>)
    ensures
        match r {
            Some(v) => parse_u128_spec(s@) == Some(v as nat),
            None => parse_u128_spec(s@) is None,
        },
{
    let n = s.unicode_len();
    let start: usize = if n > 0 && s.get_char(0) == '+' { 1 } else { 0 };
    let ghost digits = if s@.len() > 0 && s@[0] == '+' { s@.drop_first() } else { s@ };
    assert(digits =~= s@.subrange(start as int, n as int));
    if start == n {
        return None;
    }
    let mut acc: u128 = 0;
    let mut i: usize = start;
    while i < n
        invariant
            start <= i <= n,
            n == s@.len(),
            digits =~= s@.subrange(start as int, n as int),
            digits == (if s@.len() > 0 && s@[0] == '+' { s@.drop_first() } else { s@ }),
            all_digits(s@.subrange(start as int, i as int)),
            acc == decimal_value(s@.subrange(start as int, i as int)),
        decreases n - i,
    {
        let c = s.get_char(i);
        let ghost prefix = s@.subrange(start as int, i + 1);
        assert(prefix.drop_last() =~= s@.subrange(start as int, i as int));
        if !('0' <= c && c <= '9') {
            assert(!is_digit(digits[i - start]));
            return None;
        }
        let d: u128 = (c as u32 - '0' as u32) as u128;
        assert(d == digit_value(c));
        match acc.checked_mul(10) {
            Some(m) => {
                match m.checked_add(d) {
                    Some(v) => {
                        acc = v;
                    },
                    None => {
                        proof {
                            assert(digits.take(i + 1 - start) =~= prefix);
                            lemma_decimal_value_prefix_le(digits, i + 1 - start);
                        }
                        return None;
                    },
                }
            },
            None => {
                proof {
                    assert(digits.take(i + 1 - start) =~= prefix);
                    lemma_decimal_value_prefix_le(digits, i + 1 - start);
                }
                return None;
            },
        }
        i = i + 1;
    }
    Some(acc)
}

proof fn lemma_pow10_small()
    ensures
        pow10(0) == 1,
        pow10(1) == 10,
        pow10(2) == 100,
        pow10(3) == 1_000,
        pow10(4) == 10_000,
        pow10(5) == 100_000,
        pow10(6) == 1_000_000,
        pow10(7) == 10_000_000,
        pow10(8) == 100_000_000,
        pow10(9) == 1_000_000_000,
{
    reveal_with_fuel(pow10, 10);
}

/// Reads a decimal price such as `"150.75"` as a scaled value, or `None` where
/// the value does not fit in a `u128`.
///
/// The text before the first `.` is read as `u128::from_str` reads it (zero where
/// that fails); of the text between the first and the second `.`, the first nine
/// ASCII digits are kept and every other character is skipped.
pub fn try_str_to_u128(string_var: &str) -> (r: Option<u128>)
    ensures
        r == (if scaled_value(string_var@) <= u128::MAX {
            Some(scaled_value(string_var@) as u128)
        } else {
            None::<u128>
        }),
{
    let ghost s = string_var@;
    let n = string_var.unicode_len();
    let mut d: usize = 0;
    while d < n && string_var.get_char(d) != '.'
        invariant
            d <= n,
            n == s.len(),
            s == string_var@,
            forall|k: int| 0 <= k < d ==> s[k] != '.',
        decreases n - d,
    {
        d = d + 1;
    }
    proof {
        lemma_first_index_unique(s, '.', d as int);
    }
    let integer_str = string_var.substring_char(0, d);
    assert(integer_str@ =~= integer_text(s));
    let integer_part: u128 = match parse_u128(integer_str) {
        Some(v) => v,
        None => 0,
    };
    assert(integer_part == integer_units(s));

    proof {
        lemma_pow10_small();
    }
    let mut fraction_val: u128 = 0;
    let mut len: u32 = 0;
    if d < n {
        let ghost rest = s.skip(d + 1);
        let mut i: usize = d + 1;
        let mut stop = false;
        assert(s.subrange(d + 1, i as int) =~= Seq::<char>::empty());
        while i < n && !stop
            invariant
                d < n,
                d + 1 <= i <= n,
                n == s.len(),
                s == string_var@,
                rest == s.skip(d + 1),
                forall|k: int| d + 1 <= k < i ==> s[k] != '.',
                len as int == digits_of(s.subrange(d + 1, i as int)).len(),
                len <= DECIMALS,
                fraction_val == decimal_value(digits_of(s.subrange(d + 1, i as int))),
                fraction_val < pow10(len as nat),
                stop ==> (len == DECIMALS || (i < n && s[i as int] == '.')),
                !stop ==> len < DECIMALS,
                pow10(8) == 100_000_000,
                pow10(9) == 1_000_000_000,
            decreases (n - i) + (if stop { 0int } else { 1int }),
        {
            let c = string_var.get_char(i);
            if c == '.' {
                stop = true;
            } else {
                let ghost before = s.subrange(d + 1, i as int);
                let ghost after = s.subrange(d + 1, i + 1);
                assert(after.drop_last() =~= before);
                assert(after.last() == c);
                if '0' <= c && c <= '9' {
                    let digit: u128 = (c as u32 - '0' as u32) as u128;
                    proof {
                        assert(digit == digit_value(c));
                        assert(digits_of(after) == digits_of(before).push(c));
                        assert(digits_of(after).drop_last() =~= digits_of(before));
                        if len < 8 {
                            assert(pow10(len as nat) <= pow10(8)) by {
                                lemma_pow10_small();
                            }
                        }
                        assert(pow10((len + 1) as nat) == 10 * pow10(len as nat));
                    }
                    fraction_val = fraction_val * 10 + digit;
                    len = len + 1;
                    if len == DECIMALS {
                        stop = true;
                    }
                } else {
                    assert(digits_of(after) == digits_of(before));
                }
                i = i + 1;
            }
        }
        proof {
            let sub = s.subrange(d + 1, i as int);
            let e = first_index(rest, '.');
            lemma_first_index_bounds(rest, '.');
            assert(forall|k: int| 0 <= k < i - (d + 1) ==> rest[k] == s[k + d + 1]);
            if len < DECIMALS {
                lemma_first_index_unique(rest, '.', i - (d + 1));
                assert(sub =~= rest.take(e));
                assert(fraction_text(s) =~= sub);
                assert(fraction_digits(s) =~= digits_of(sub));
            } else {
                if e < i - (d + 1) {
                    assert(rest[e] == s[e + d + 1]);
                }
                assert(sub =~= rest.take(e).take(i - (d + 1)));
                assert(fraction_text(s) =~= rest.take(e));
                lemma_digits_of_prefix(rest.take(e), i - (d + 1));
                assert(fraction_digits(s) =~= digits_of(sub));
            }
        }
    } else {
        assert(fraction_text(s) =~= Seq::<char>::empty());
        assert(digits_of(fraction_text(s)) =~= Seq::<char>::empty());
        assert(fraction_digits(s) =~= Seq::<char>::empty());
        assert(decimal_value(fraction_digits(s)) == 0);
    }
    let ghost fd = fraction_digits(s);
    assert(fraction_val == decimal_value(fd));
    assert(len as int == fd.len());
    assert(pow10(0) == 1);
    assert(decimal_value(fd) * pow10(0) == decimal_value(fd));
    assert(((len - len) as nat) == 0);
    let mut k: u32 = len;
    while k < DECIMALS
        invariant
            len <= k <= DECIMALS,
            fraction_val == decimal_value(fd) * pow10((k - len) as nat),
            fraction_val < pow10(k as nat),
            pow10(9) == 1_000_000_000,
        decreases DECIMALS - k,
    {
        proof {
            assert(pow10((k + 1 - len) as nat) == 10 * pow10((k - len) as nat));
            assert(pow10((k + 1) as nat) == 10 * pow10(k as nat));
            assert(decimal_value(fd) * (10 * pow10((k - len) as nat))
                == (decimal_value(fd) * pow10((k - len) as nat)) * 10) by (nonlinear_arith);
            if k < 9 {
                lemma_pow10_small();
            }
        }
        fraction_val = fraction_val * 10;
        k = k + 1;
    }
    assert(fraction_val == fraction_scaled(s));
    match integer_part.checked_mul(SCALE) {
        Some(whole) => whole.checked_add(fraction_val),
        None => None,
    }
}

/// Reads a decimal price such as `"150.75"` as a scaled value (`150750000000`).
/// The caller guarantees that the value fits in a `u128`; `try_str_to_u128`
/// answers `None` where it does not.
pub fn str_to_u128(string_var: &str) -> (r: u128)
    requires
        scaled_value(string_var@) <= u128::MAX,
    ensures
        r == scaled_value(string_var@),
{
    match try_str_to_u128(string_var) {
        Some(v) => v,
        None => 0,
    }
}

// ---------------------------------------------------------------------------
// What a price text stands for
// ---------------------------------------------------------------------------

proof fn lemma_digits_of_digits(ds: Seq<char>)
    requires
        all_digits(ds),
    ensures
        digits_of(ds) =~= ds,
    decreases ds.len(),
{
    if ds.len() > 0 {
        let init = ds.drop_last();
        assert(all_digits(init)) by {
            assert forall|i: int| 0 <= i < init.len() implies is_digit(#[trigger] init[i]) by {
                assert(init[i] == ds[i]);
            }
        }
        lemma_digits_of_digits(init);
        assert(is_digit(ds[ds.len() - 1]));
    }
}

proof fn lemma_no_dot_in_digits(ds: Seq<char>)
    requires
        all_digits(ds),
    ensures
        first_index(ds, '.') == ds.len(),
{
    assert forall|i: int| 0 <= i < ds.len() implies ds[i] != '.' by {
        assert(is_digit(ds[i]));
    }
    lemma_first_index_unique(ds, '.', ds.len() as int);
}

/// A price written with digits only stands for that many whole units.
pub proof fn lemma_whole_price_text(ds: Seq<char>)
    requires
        ds.len() > 0,
        all_digits(ds),
        decimal_value(ds) <= u128::MAX,
    ensures
        scaled_value(ds) == decimal_value(ds) * SCALE,
{
    lemma_no_dot_in_digits(ds);
    assert(integer_text(ds) =~= ds);
    assert(!(ds.len() > 0 && ds[0] == '+')) by {
        assert(is_digit(ds[0]));
    }
    assert(fraction_text(ds) =~= Seq::<char>::empty());
    assert(digits_of(Seq::<char>::empty()) =~= Seq::<char>::empty());
    assert(fraction_digits(ds) =~= Seq::<char>::empty());
    assert(decimal_value(Seq::<char>::empty()) == 0);
}

/// A price written as digits, a `.` and at most nine digits stands for the whole
/// units plus the fraction padded to nine digits: `"150.75"` stands for `150750000000`.
pub proof fn lemma_decimal_price_text(whole: Seq<char>, frac: Seq<char>)
    requires
        whole.len() > 0,
        all_digits(whole),
        all_digits(frac),
        frac.len() <= DECIMALS,
        decimal_value(whole) <= u128::MAX,
    ensures
        scaled_value(whole + seq!['.'] + frac) == decimal_value(whole) * SCALE
            + decimal_value(frac) * pow10((DECIMALS - frac.len()) as nat),
{
    let s = whole + seq!['.'] + frac;
    assert forall|i: int| 0 <= i < whole.len() implies s[i] != '.' by {
        assert(s[i] == whole[i]);
        assert(is_digit(whole[i]));
    }
    assert(s[whole.len() as int] == '.');
    lemma_first_index_unique(s, '.', whole.len() as int);
    assert(integer_text(s) =~= whole);
    assert(!(whole.len() > 0 && whole[0] == '+')) by {
        assert(is_digit(whole[0]));
    }
    let rest = s.skip(whole.len() as int + 1);
    assert(rest =~= frac);
    lemma_no_dot_in_digits(frac);
    assert(frac.take(frac.len() as int) =~= frac);
    assert(fraction_text(s) =~= frac);
    lemma_digits_of_digits(frac);
    assert(fraction_digits(s) =~= frac);
}

proof fn lemma_digits_of_all_digits(t: Seq<char>)
    ensures
        all_digits(digits_of(t)),
    decreases t.len(),
{
    if t.len() > 0 {
        lemma_digits_of_all_digits(t.drop_last());
    }
}

/// Text without a `.`.
pub open spec fn has_no_dot(s: Seq<char>) -> bool {
    forall|k: int| 0 <= k < s.len() ==> s[k] != '.'
}

proof fn lemma_dotless_first_index(s: Seq<char>)
    requires
        has_no_dot(s),
    ensures
        first_index(s, '.') == s.len(),
        s.take(first_index(s, '.')) =~= s,
{
    lemma_first_index_unique(s, '.', s.len() as int);
}

proof fn lemma_price_parts(whole: Seq<char>, rest: Seq<char>)
    requires
        has_no_dot(whole),
    ensures
        integer_text(whole + seq!['.'] + rest) =~= whole,
        fraction_text(whole + seq!['.'] + rest) =~= rest.take(first_index(rest, '.')),
{
    let s = whole + seq!['.'] + rest;
    assert forall|k: int| 0 <= k < whole.len() implies s[k] != '.' by {
        assert(s[k] == whole[k]);
    }
    assert(s[whole.len() as int] == '.');
    lemma_first_index_unique(s, '.', whole.len() as int);
    assert(s.skip(whole.len() as int + 1) =~= rest);
}

/// Characters after the ninth fraction digit never change a price: the fraction is
/// cut, not rounded.
pub proof fn lemma_fraction_cut_after_nine_digits(whole: Seq<char>, frac: Seq<char>, j: int)
    requires
        has_no_dot(whole),
        has_no_dot(frac),
        0 <= j <= frac.len(),
        digits_of(frac.take(j)).len() == DECIMALS,
    ensures
        scaled_value(whole + seq!['.'] + frac) == scaled_value(whole + seq!['.'] + frac.take(j)),
{
    let cut = frac.take(j);
    lemma_price_parts(whole, frac);
    lemma_price_parts(whole, cut);
    lemma_dotless_first_index(frac);
    assert(has_no_dot(cut)) by {
        assert forall|k: int| 0 <= k < cut.len() implies cut[k] != '.' by {
            assert(cut[k] == frac[k]);
        }
    }
    lemma_dotless_first_index(cut);
    lemma_digits_of_prefix(frac, j);
    assert(fraction_digits(whole + seq!['.'] + frac) =~= digits_of(cut));
    assert(fraction_digits(whole + seq!['.'] + cut) =~= digits_of(cut));
}

/// Characters of the fraction that are not ASCII digits are skipped.
pub proof fn lemma_fraction_skips_non_digits(whole: Seq<char>, frac: Seq<char>)
    requires
        has_no_dot(whole),
        has_no_dot(frac),
    ensures
        scaled_value(whole + seq!['.'] + frac) == scaled_value(whole + seq!['.'] + digits_of(frac)),
{
    let ds = digits_of(frac);
    lemma_digits_of_all_digits(frac);
    assert(has_no_dot(ds)) by {
        assert forall|k: int| 0 <= k < ds.len() implies ds[k] != '.' by {
            assert(is_digit(ds[k]));
        }
    }
    lemma_price_parts(whole, frac);
    lemma_price_parts(whole, ds);
    lemma_dotless_first_index(frac);
    lemma_dotless_first_index(ds);
    lemma_digits_of_digits(ds);
    assert(fraction_digits(whole + seq!['.'] + frac) =~= fraction_digits(whole + seq!['.'] + ds));
}

/// Text from a second `.` on never changes a price.
pub proof fn lemma_second_dot_ends_price(whole: Seq<char>, frac: Seq<char>, tail: Seq<char>)
    requires
        has_no_dot(whole),
        has_no_dot(frac),
    ensures
        scaled_value(whole + seq!['.'] + frac + seq!['.'] + tail) == scaled_value(
            whole + seq!['.'] + frac,
        ),
{
    let rest = frac + seq!['.'] + tail;
    assert(whole + seq!['.'] + frac + seq!['.'] + tail =~= whole + seq!['.'] + rest);
    assert forall|k: int| 0 <= k < frac.len() implies rest[k] != '.' by {
        assert(rest[k] == frac[k]);
    }
    assert(rest[frac.len() as int] == '.');
    lemma_first_index_unique(rest, '.', frac.len() as int);
    assert(rest.take(frac.len() as int) =~= frac);
    lemma_price_parts(whole, rest);
    lemma_price_parts(whole, frac);
    lemma_dotless_first_index(frac);
    assert(fraction_text(whole + seq!['.'] + rest) =~= fraction_text(whole + seq!['.'] + frac));
}

/// A scaled value printed as its whole units, a `.` and its nine fraction digits
/// (`format!("{}.{:09}", x / SCALE, x % SCALE)`) reads back as the same value.
pub proof fn lemma_printed_price_reads_back(x: u128, whole: Seq<char>, frac: Seq<char>)
    requires
        whole.len() > 0,
        all_digits(whole),
        decimal_value(whole) == x / SCALE,
        all_digits(frac),
        frac.len() == DECIMALS,
        decimal_value(frac) == x % SCALE,
    ensures
        scaled_value(whole + seq!['.'] + frac) == x,
{
    lemma_decimal_price_text(whole, frac);
    assert(((DECIMALS - frac.len()) as nat) == 0);
    lemma_pow10_small();
    let unit = pow10(0);
    assert(decimal_value(frac) * unit == decimal_value(frac)) by (nonlinear_arith)
        requires
            unit == 1,
    ;
    lemma_fundamental_div_mod(x as int, SCALE as int);
    lemma_mul_is_commutative((x / SCALE) as int, SCALE as int);
    assert(x as int == (x as int / SCALE as int) * SCALE + x as int % SCALE as int);
}

/// Every nonempty text of ASCII digits whose value fits in a `u128` reads as that
/// value (zero included), with or without a leading `+`.
pub proof fn lemma_digit_text_parses(ds: Seq<char>)
    requires
        ds.len() > 0,
        all_digits(ds),
        decimal_value(ds) <= u128::MAX,
    ensures
        parse_u128_spec(ds) == Some(decimal_value(ds)),
        parse_u128_spec(seq!['+'] + ds) == Some(decimal_value(ds)),
{
    assert(is_digit(ds[0]));
    assert((seq!['+'] + ds).drop_first() =~= ds);
}

/// A text with a character that is neither an ASCII digit nor a leading `+` never reads.
pub proof fn lemma_non_digit_text_refused(s: Seq<char>, i: int)
    requires
        0 <= i < s.len(),
        !is_digit(s[i]),
        !(i == 0 && s[i] == '+'),
    ensures
        parse_u128_spec(s) is None,
{
    if s.len() > 0 && s[0] == '+' {
        assert(s.drop_first()[i - 1] == s[i]);
    }
}

} // verus!
