//! Fixed-point money amounts, stored as an integer count of the currency's minor unit
//! (e.g. cents) so arithmetic is exact. `Amount` itself carries no scale: scale is a
//! per-currency property (`currency ETB { scale = 2 }`), so lowering a literal
//! (`from_literal`) and printing a value (`format`) both take the scale of whichever
//! currency the amount belongs to.
//!
//! `Amount` is signed (a running ledger balance needs `debits - credits`), but a
//! `Money<C>` literal is non-negative by construction: the lexer has no `-` token in
//! numeric-literal position, so a negative amount cannot be written.

use vstd::prelude::*;
use vstd::std_specs::ops::{AddSpecImpl, NegSpecImpl, SubSpecImpl};
use crate::text::{
    all_digits, chars_of, copy_range, decimal_chars, digits_value, is_digit, lemma_decimal_digits,
    lemma_zeros_then_digits, pad_left, parse_i64, push_char, push_decimal, push_padded_left,
    repeat_char, spec_decimal, spec_parse_i64,
};

verus! {

#[derive(Debug, Clone, Copy, PartialEq, Eq, Structural, PartialOrd, Ord)]
pub struct Amount(i64);

/// Why a decimal literal couldn't be lowered into an `Amount`.
#[derive(Debug, Clone, Copy, PartialEq, Eq, Structural)]
pub enum LiteralError {
    /// The literal has more fraction digits than the currency's scale allows; carries
    /// the actual count.
    TooManyFractionDigits(u32),
    /// The literal's magnitude (or its magnitude once scaled to the currency's minor
    /// unit) doesn't fit an `i64`.
    OutOfRange,
}

impl View for Amount {
    type V = int;

    /// The number of minor units.
    closed spec fn view(&self) -> int {
        self.0 as int
    }
}

/// The amount of `cents` minor units (meaningful for values that fit an `i64`).
pub closed spec fn amount_of(cents: int) -> Amount {
    Amount(cents as i64)
}

/// `Amount::from_cents(c).cents() == c`: an amount keeps the count it was made from.
pub broadcast proof fn lemma_amount_of(cents: int)
    requires
        i64::MIN <= cents <= i64::MAX,
    ensures
        #[trigger] amount_of(cents)@ == cents,
{
}

pub broadcast proof fn lemma_amount_range(a: Amount)
    ensures
        i64::MIN <= #[trigger] a@ <= i64::MAX,
{
}

/// Two amounts are equal exactly when their counts are, so `from_cents` is injective.
pub broadcast proof fn lemma_amount_view_injective(a: Amount, b: Amount)
    ensures
        #[trigger] a@ == #[trigger] b@ <==> a == b,
{
}

/// `Amount::from_cents(a.cents()) == a`: every amount is the one made from its count.
pub broadcast proof fn lemma_amount_of_view(a: Amount)
    ensures
        #[trigger] amount_of(a@) == a,
{
}

pub broadcast group group_amount {
    lemma_amount_of,
    lemma_amount_range,
    lemma_amount_view_injective,
    lemma_amount_of_view,
}

pub open spec fn i64_fits(v: int) -> bool {
    i64::MIN <= v <= i64::MAX
}

/// `10^e`.
pub open spec fn pow10(e: nat) -> nat
    decreases e,
{
    if e == 0 {
        1
    } else {
        10 * pow10((e - 1) as nat)
    }
}

pub proof fn lemma_pow10_positive(e: nat)
    ensures
        pow10(e) >= 1,
    decreases e,
{
    if e > 0 {
        lemma_pow10_positive((e - 1) as nat);
    }
}

pub proof fn lemma_pow10_monotone(a: nat, b: nat)
    requires
        a <= b,
    ensures
        pow10(a) <= pow10(b),
    decreases b,
{
    if a < b {
        lemma_pow10_monotone(a, (b - 1) as nat);
        lemma_pow10_positive((b - 1) as nat);
    }
}

/// A power of ten that fits an `i64` has an exponent below 19.
pub proof fn lemma_pow10_fits_i64(e: nat)
    requires
        pow10(e) <= i64::MAX,
    ensures
        e < 19,
{
    if e >= 19 {
        lemma_pow10_monotone(19, e);
        reveal_with_fuel(pow10, 20);
        assert(pow10(19) == 10000000000000000000);
    }
}

/// `10^e` when it fits an `i64`, as `10i64.checked_pow(e)`.
pub fn checked_pow10(e: u32) -> (r: Option<i64>)
    ensures
        r == (if pow10(e as nat) <= i64::MAX {
            Some(pow10(e as nat) as i64)
        } else {
            None::<i64>
        }),
{
    let mut acc: i64 = 1;
    let mut i: u32 = 0;
    while i < e
        invariant
            i <= e,
            acc >= 1,
            acc as nat == pow10(i as nat),
        decreases e - i,
    {
        if acc > i64::MAX / 10 {
            proof {
                lemma_pow10_monotone((i + 1) as nat, e as nat);
                assert(acc * 10 > i64::MAX) by (nonlinear_arith)
                    requires
                        acc > i64::MAX / 10,
                ;
            }
            return None;
        }
        assert(acc * 10 <= i64::MAX) by (nonlinear_arith)
            requires
                acc <= i64::MAX / 10,
        ;
        acc = acc * 10;
        i = i + 1;
    }
    Some(acc)
}

/// The characters before the first `.` of `s` and those after it (all of `s` and
/// nothing, when there is no `.`), as `str::split_once('.')` splits.
pub open spec fn split_at_point(s: Seq<char>) -> (Seq<char>, Seq<char>) {
    if exists|i: int| 0 <= i < s.len() && s[i] == '.' {
        let i = choose|i: int|
            0 <= i < s.len() && s[i] == '.' && forall|j: int| 0 <= j < i ==> s[j] != '.';
        (s.take(i), s.skip(i + 1))
    } else {
        (s, Seq::empty())
    }
}

/// A literal's text split into one integer numerator and its fraction-digit count,
/// e.g. `"57.20"` is `(5720, 2)`: `None` when either side is not an integer in
/// Rust's `FromStr` syntax or the numerator does not fit an `i64`.
pub open spec fn spec_parse_fixed_point(s: Seq<char>) -> Option<(i64, u32)> {
    let (whole, frac) = split_at_point(s);
    let frac_digits = #[verifier::truncate] (frac.len() as u32);
    match spec_parse_i64(whole) {
        None => None,
        Some(w) => {
            let f = if frac.len() == 0 {
                Some(0i64)
            } else {
                spec_parse_i64(frac)
            };
            match f {
                None => None,
                Some(f) => {
                    let p = pow10(frac_digits as nat);
                    if p > i64::MAX {
                        None
                    } else if !i64_fits(w * p) {
                        None
                    } else if !i64_fits(w * p + f) {
                        None
                    } else {
                        Some(((w * p + f) as i64, frac_digits))
                    }
                }
            }
        }
    }
}

/// The value a literal denotes at `scale` fraction digits, in minor units.
pub open spec fn spec_from_literal(s: Seq<char>, scale: u32) -> Result<int, LiteralError> {
    match spec_parse_fixed_point(s) {
        None => Err(LiteralError::OutOfRange),
        Some((numerator, frac_digits)) => if frac_digits > scale {
            Err(LiteralError::TooManyFractionDigits(frac_digits))
        } else {
            let p = pow10((scale - frac_digits) as nat);
            if p > i64::MAX || !i64_fits(numerator * p) {
                Err(LiteralError::OutOfRange)
            } else {
                Ok(numerator * p)
            }
        },
    }
}

/// An amount rendered at `scale` fraction digits: an optional `-`, the whole part,
/// and, when `scale > 0`, a `.` followed by exactly `scale` fraction digits.
pub open spec fn spec_format(v: int, scale: nat) -> Seq<char> {
    let sign: Seq<char> = if v < 0 {
        seq!['-']
    } else {
        Seq::empty()
    };
    let abs: nat = if v < 0 {
        (-v) as nat
    } else {
        v as nat
    };
    if scale == 0 {
        sign + spec_decimal(abs)
    } else {
        let base = pow10(scale);
        sign + spec_decimal(abs / base) + seq!['.'] + pad_left(
            spec_decimal(abs % base),
            '0',
            scale,
        )
    }
}

/// A number below `10^k` has a numeral of at most `k` digits.
proof fn lemma_decimal_fits(n: nat, k: nat)
    requires
        n < pow10(k),
        k >= 1,
    ensures
        spec_decimal(n).len() <= k,
    decreases n,
{
    if n >= 10 {
        if k == 1 {
            assert(pow10(1) == 10) by {
                assert(pow10(0) == 1);
            }
        }
        assert(n / 10 < pow10((k - 1) as nat));
        lemma_decimal_fits(n / 10, (k - 1) as nat);
    }
}

/// A run of digits followed by `.` splits at that `.`.
proof fn lemma_split_digits_point(w: Seq<char>, f: Seq<char>)
    requires
        all_digits(w),
    ensures
        split_at_point(w + seq!['.'] + f) == (w, f),
{
    let s = w + seq!['.'] + f;
    let n = w.len() as int;
    assert(s[n] == '.');
    assert(forall|j: int| 0 <= j < n ==> s[j] != '.') by {
        assert forall|j: int| 0 <= j < n implies s[j] != '.' by {
            assert(s[j] == w[j]);
            assert(is_digit(w[j]));
        }
    }
    let i = choose|i: int|
        0 <= i < s.len() && s[i] == '.' && forall|j: int| 0 <= j < i ==> s[j] != '.';
    if i < n {
        assert(s[i] == w[i]);
        assert(is_digit(w[i]));
    }
    assert(i == n);
    assert(s.take(n) =~= w);
    assert(s.skip(n + 1) =~= f);
}

/// A run of digits has no `.` to split at.
proof fn lemma_split_digits(w: Seq<char>)
    requires
        all_digits(w),
    ensures
        split_at_point(w) == (w, Seq::<char>::empty()),
{
    assert forall|i: int| 0 <= i < w.len() implies w[i] != '.' by {
        assert(is_digit(w[i]));
    }
}

/// A nonempty run of digits whose value fits parses to that value.
proof fn lemma_parse_digits(s: Seq<char>)
    requires
        all_digits(s),
        s.len() >= 1,
        digits_value(s) <= i64::MAX,
    ensures
        spec_parse_i64(s) == Some(digits_value(s) as i64),
{
    assert(is_digit(s[0]));
    crate::text::lemma_digits_value_nonneg(s);
}

/// Rendering a non-negative amount at a scale of at most 18 digits and lowering the
/// text back as a literal at that scale gives the amount again.
pub proof fn lemma_format_from_literal_round_trip(a: Amount, scale: u32)
    requires
        a@ >= 0,
        scale <= 18,
    ensures
        spec_from_literal(spec_format(a@, scale as nat), scale) == Ok::<int, LiteralError>(a@),
{
    lemma_amount_range(a);
    let v = a@;
    let abs = v as nat;
    assert(pow10(18) == 1000000000000000000) by {
        reveal_with_fuel(pow10, 19);
    }
    lemma_pow10_monotone(scale as nat, 18);
    lemma_pow10_positive(scale as nat);
    assert(pow10(0) == 1);
    if scale == 0 {
        let text = spec_format(v, 0);
        assert(text =~= spec_decimal(abs));
        lemma_decimal_digits(abs);
        lemma_split_digits(text);
        lemma_parse_digits(text);
        assert(abs * pow10(0) == abs);
        assert(spec_parse_fixed_point(text) == Some((abs as i64, 0u32)));
    } else {
        let base = pow10(scale as nat);
        let w = abs / base;
        let r = abs % base;
        vstd::arithmetic::div_mod::lemma_fundamental_div_mod(abs as int, base as int);
        vstd::arithmetic::div_mod::lemma_mod_bound(abs as int, base as int);
        assert(w * base <= abs) by (nonlinear_arith)
            requires
                abs == base * w + r,
                r >= 0,
        ;
        lemma_decimal_digits(w);
        lemma_decimal_digits(r);
        lemma_decimal_fits(r, scale as nat);
        let dr = spec_decimal(r);
        let frac = pad_left(dr, '0', scale as nat);
        let m = (scale - dr.len()) as nat;
        assert(frac == repeat_char('0', m) + dr || frac == dr);
        if dr.len() < scale {
            lemma_zeros_then_digits(m, dr);
        }
        assert(frac.len() == scale);
        assert(all_digits(frac));
        assert(digits_value(frac) == r);
        let text = spec_format(v, scale as nat);
        assert(text =~= spec_decimal(w) + seq!['.'] + frac);
        lemma_split_digits_point(spec_decimal(w), frac);
        lemma_parse_digits(spec_decimal(w));
        lemma_parse_digits(frac);
        assert((frac.len() as u32) == scale);
        assert(w * base + r == abs) by (nonlinear_arith)
            requires
                abs == base * w + r,
        ;
        assert(spec_parse_fixed_point(text) == Some((abs as i64, scale)));
        assert((abs as i64) * pow10(0) == abs);
    }
}

impl Default for Amount {
    /// No money.
    fn default() -> (r: Amount)
        ensures
            r@ == 0,
    {
        Amount(0)
    }
}

impl Amount {
    pub fn from_cents(cents: i64) -> (r: Amount)
        ensures
            r@ == cents,
    {
        Amount(cents)
    }

    pub fn cents(self) -> (r: i64)
        ensures
            r == self@,
    {
        self.0
    }

    pub fn is_negative(self) -> (r: bool)
        ensures
            r == (self@ < 0),
    {
        self.0 < 0
    }

    /// Lowers a decimal literal's raw text into `scale`'s minor unit. The caller
    /// names the currency and its scale in the diagnostic for `TooManyFractionDigits`.
    pub fn from_literal(text: &str, scale: u32) -> (r: Result<Amount, LiteralError>)
        ensures
            match r {
                Ok(a) => spec_from_literal(text@, scale) == Ok::<int, LiteralError>(a@),
                Err(e) => spec_from_literal(text@, scale) == Err::<int, LiteralError>(e),
            },
    {
        let (numerator, frac_digits) = match parse_fixed_point(text) {
            Some(p) => p,
            None => return Err(LiteralError::OutOfRange),
        };
        if frac_digits > scale {
            return Err(LiteralError::TooManyFractionDigits(frac_digits));
        }
        let scale_factor = match checked_pow10(scale - frac_digits) {
            Some(f) => f,
            None => return Err(LiteralError::OutOfRange),
        };
        proof {
            lemma_i64_product_fits_i128(numerator as int, scale_factor as int);
        }
        let product = numerator as i128 * scale_factor as i128;
        if product < i64::MIN as i128 || product > i64::MAX as i128 {
            return Err(LiteralError::OutOfRange);
        }
        Ok(Amount(product as i64))
    }

    /// Renders this amount at `scale` fraction digits (e.g. `scale = 2` gives
    /// `"45.00"`, `scale = 0` gives `"45"`, with no decimal point at all).
    pub fn format(self, scale: u32) -> (s: String)
        ensures
            s@ == spec_format(self@, scale as nat),
    {
        format_minor(self.0 as i128, scale)
    }
}

/// Renders `v` minor units at `scale` fraction digits, as `Amount::format` does; any
/// `i128` is accepted, so sums and negations of amounts render exactly too.
pub fn format_minor(v: i128, scale: u32) -> (s: String)
    ensures
        s@ == spec_format(v as int, scale as nat),
{
    let mut out = String::new();
    if v < 0 {
        push_char(&mut out, '-');
    }
    let abs: u128 = if v < 0 {
        ((-(v + 1)) as u128) + 1
    } else {
        v as u128
    };
    assert(abs as int == if v < 0 { -v } else { v as int });
    if scale == 0 {
        push_decimal(&mut out, abs);
    } else if scale > 38 {
        proof {
            lemma_small_below_pow10(abs as nat, scale as nat);
        }
        push_char(&mut out, '0');
        push_char(&mut out, '.');
        let frac = decimal_chars(abs);
        push_padded_left(&mut out, frac.as_slice(), '0', scale as usize);
    } else {
        let base = pow10_u128(scale);
        proof {
            lemma_pow10_positive(scale as nat);
        }
        push_decimal(&mut out, abs / base);
        push_char(&mut out, '.');
        let frac = decimal_chars(abs % base);
        push_padded_left(&mut out, frac.as_slice(), '0', scale as usize);
    }
    proof {
        if v < 0 {
            assert(seq!['-'] =~= Seq::<char>::empty().push('-'));
        }
    }
    out
}

/// Anything a `u128` holds is below `10^scale` for `scale > 38`: it is all fraction.
proof fn lemma_small_below_pow10(abs: nat, scale: nat)
    requires
        abs <= u128::MAX,
        scale > 38,
    ensures
        abs / pow10(scale) == 0,
        abs % pow10(scale) == abs,
{
    lemma_pow10_monotone(39, scale);
    assert(pow10(39) == 1_000_000_000_000_000_000_000_000_000_000_000_000_000) by {
        reveal_with_fuel(pow10, 40);
    }
    let base = pow10(scale);
    assert(abs / base == 0 && abs % base == abs) by (nonlinear_arith)
        requires
            abs < base,
    ;
}

pub proof fn lemma_i64_product_fits_i128(a: int, b: int)
    requires
        i64::MIN <= a <= i64::MAX,
        i64::MIN <= b <= i64::MAX,
    ensures
        i128::MIN <= a * b <= i128::MAX,
{
    assert(-0x8000_0000_0000_0000_0000_0000_0000_0000 <= a * b <= 0x7fff_ffff_ffff_ffff_ffff_ffff_ffff_ffff) by (nonlinear_arith)
        requires
            -0x8000_0000_0000_0000 <= a <= 0x7fff_ffff_ffff_ffff,
            -0x8000_0000_0000_0000 <= b <= 0x7fff_ffff_ffff_ffff,
    ;
}

impl core::ops::Add for Amount {
    type Output = Amount;

    fn add(self, rhs: Amount) -> (r: Amount) {
        Amount(self.0 + rhs.0)
    }
}

impl AddSpecImpl for Amount {
    open spec fn obeys_add_spec() -> bool {
        true
    }

    /// Adding never overflows: the sum must fit an `i64`.
    open spec fn add_req(self, rhs: Amount) -> bool {
        i64_fits(self@ + rhs@)
    }

    open spec fn add_spec(self, rhs: Amount) -> Amount {
        amount_of(self@ + rhs@)
    }
}

impl core::ops::Sub for Amount {
    type Output = Amount;

    fn sub(self, rhs: Amount) -> (r: Amount) {
        Amount(self.0 - rhs.0)
    }
}

impl SubSpecImpl for Amount {
    open spec fn obeys_sub_spec() -> bool {
        true
    }

    /// Subtracting never overflows: the difference must fit an `i64`.
    open spec fn sub_req(self, rhs: Amount) -> bool {
        i64_fits(self@ - rhs@)
    }

    open spec fn sub_spec(self, rhs: Amount) -> Amount {
        amount_of(self@ - rhs@)
    }
}

impl core::ops::Neg for Amount {
    type Output = Amount;

    fn neg(self) -> (r: Amount) {
        Amount(-self.0)
    }
}

impl NegSpecImpl for Amount {
    open spec fn obeys_neg_spec() -> bool {
        true
    }

    /// Negating never overflows: the amount must not be `i64::MIN`.
    open spec fn neg_req(self) -> bool {
        i64_fits(-self@)
    }

    open spec fn neg_spec(self) -> Amount {
        amount_of(-self@)
    }
}

/// `10^e` for an exponent whose power fits a `u128`.
fn pow10_u128(e: u32) -> (r: u128)
    requires
        e <= 38,
    ensures
        r as nat == pow10(e as nat),
{
    let mut acc: u128 = 1;
    let mut i: u32 = 0;
    while i < e
        invariant
            i <= e,
            e <= 38,
            acc as nat == pow10(i as nat),
        decreases e - i,
    {
        proof {
            lemma_pow10_le_38(i as nat);
        }
        acc = acc * 10;
        i = i + 1;
    }
    acc
}

proof fn lemma_pow10_le_38(i: nat)
    requires
        i < 38,
    ensures
        pow10(i) * 10 <= 100_000_000_000_000_000_000_000_000_000_000_000_000,
{
    lemma_pow10_monotone(i, 37);
    reveal_with_fuel(pow10, 38);
}

/// Splits a decimal literal's raw text into a single integer numerator and its
/// fraction-digit count, e.g. `"57.20"` gives `Some((5720, 2))`. `None` means one of
/// the two parts is not an integer or the numerator doesn't fit an `i64`: nothing
/// bounds how many digits a literal may have, so every caller must report this as an
/// ordinary diagnostic.
pub fn parse_fixed_point(text: &str) -> (r: Option<(i64, u32)>)
    ensures
        r == spec_parse_fixed_point(text@),
{
    let chars = chars_of(text);
    let n = chars.len();
    let mut dot: usize = 0;
    while dot < n && chars[dot] != '.'
        invariant
            dot <= n,
            n == chars@.len(),
            forall|j: int| 0 <= j < dot ==> chars@[j] != '.',
        decreases n - dot,
    {
        dot = dot + 1;
    }
    let ghost s = text@;
    let whole_end = dot;
    let frac_start = if dot < n { dot + 1 } else { n };
    proof {
        if dot < n {
            assert(chars@[dot as int] == '.');
            assert(exists|i: int| 0 <= i < s.len() && s[i] == '.');
            let i = choose|i: int|
                0 <= i < s.len() && s[i] == '.' && forall|j: int| 0 <= j < i ==> s[j] != '.';
            assert(i == dot) by {
                if i < dot {
                    assert(chars@[i] != '.');
                }
                if dot < i {
                    assert(s[dot as int] != '.');
                }
            }
        } else {
            assert(!exists|i: int| 0 <= i < s.len() && s[i] == '.');
        }
    }
    let whole_v = copy_range(chars.as_slice(), 0, whole_end);
    let frac_v = copy_range(chars.as_slice(), frac_start, n);
    let whole = whole_v.as_slice();
    let frac = frac_v.as_slice();
    let ghost (w_spec, f_spec) = split_at_point(s);
    assert(whole@ =~= w_spec);
    assert(frac@ =~= f_spec);
    let frac_digits = #[verifier::truncate] (frac.len() as u32);
    let w = match parse_i64(whole) {
        Some(w) => w,
        None => return None,
    };
    let f: i64 = if frac.len() == 0 {
        0
    } else {
        match parse_i64(frac) {
            Some(f) => f,
            None => return None,
        }
    };
    let p = match checked_pow10(frac_digits) {
        Some(p) => p,
        None => return None,
    };
    proof {
        lemma_i64_product_fits_i128(w as int, p as int);
    }
    let scaled = w as i128 * p as i128;
    if scaled < i64::MIN as i128 || scaled > i64::MAX as i128 {
        return None;
    }
    let sum = scaled + f as i128;
    if sum < i64::MIN as i128 || sum > i64::MAX as i128 {
        return None;
    }
    Some((sum as i64, frac_digits))
}

} // verus!
