//! Small text utilities shared by every stage: turning a `str` into its characters,
//! appending characters and strings, and reading and writing integers in decimal.

use vstd::prelude::*;

verus! {

/// The characters of `s`, in order.
pub fn chars_of(s: &str) -> (v: Vec<char>)
    ensures
        v@ == s@,
{
    let mut v: Vec<char> = Vec::new();
    for c in it: s.chars()
        invariant
            v@ == it.seq().take(it.index() as int),
    {
        v.push(c);
    }
    v
}

/// `String::push`: appends one character.
#[verifier::external_body]
pub fn push_char(s: &mut String, c: char)
    ensures
        final(s)@ == old(s)@.push(c),
{
    s.push(c);
}

/// Appends every character of `t` to `s`.
pub fn push_str(s: &mut String, t: &str)
    ensures
        final(s)@ == old(s)@ + t@,
{
    s.append(t);
}

/// Appends every character of `t` to `s`.
pub fn push_chars(s: &mut String, t: &[char])
    ensures
        final(s)@ == old(s)@ + t@,
{
    let ghost start = s@;
    let mut i: usize = 0;
    while i < t.len()
        invariant
            i <= t@.len(),
            s@ == start + t@.take(i as int),
        decreases t@.len() - i,
    {
        push_char(s, t[i]);
        i = i + 1;
        assert(t@.take(i as int) =~= t@.take((i - 1) as int).push(t@[i - 1]));
    }
    assert(t@.take(i as int) =~= t@);
}

/// A `String` holding exactly the characters of `t`.
pub fn string_from_chars(t: &[char]) -> (s: String)
    ensures
        s@ == t@,
{
    let mut s = String::new();
    push_chars(&mut s, t);
    s
}

/// The `n` copies of `c`.
pub open spec fn repeat_char(c: char, n: nat) -> Seq<char> {
    Seq::new(n, |_i: int| c)
}

/// Appends `n` copies of `c`.
pub fn push_repeat(s: &mut String, c: char, n: usize)
    ensures
        final(s)@ == old(s)@ + repeat_char(c, n as nat),
{
    let ghost start = s@;
    let mut i: usize = 0;
    while i < n
        invariant
            i <= n,
            s@ == start + repeat_char(c, i as nat),
        decreases n - i,
    {
        push_char(s, c);
        i = i + 1;
        assert(repeat_char(c, i as nat) =~= repeat_char(c, (i - 1) as nat).push(c));
    }
}

pub open spec fn is_digit(c: char) -> bool {
    '0' <= c && c <= '9'
}

pub open spec fn digit_value(c: char) -> int {
    c as int - '0' as int
}

pub open spec fn all_digits(s: Seq<char>) -> bool {
    forall|i: int| 0 <= i < s.len() ==> #[trigger] is_digit(s[i])
}

/// The natural number a run of decimal digits denotes (leading zeros allowed).
pub open spec fn digits_value(s: Seq<char>) -> int
    decreases s.len(),
{
    if s.len() == 0 {
        0
    } else {
        digits_value(s.drop_last()) * 10 + digit_value(s.last())
    }
}

/// The integer `s` denotes in the syntax of Rust's integer `FromStr`: an optional
/// sign (`-` only where `signed`), then one or more decimal digits and nothing else.
/// The magnitude is not bounded here.
pub open spec fn spec_parse_int(s: Seq<char>, signed: bool) -> Option<int> {
    let has_sign = s.len() > 0 && (s[0] == '+' || (signed && s[0] == '-'));
    let negative = s.len() > 0 && signed && s[0] == '-';
    let body = if has_sign { s.skip(1) } else { s };
    if body.len() == 0 || !all_digits(body) {
        None
    } else if negative {
        Some(-digits_value(body))
    } else {
        Some(digits_value(body))
    }
}

/// `s.parse::<i64>()`: the value, when it is well formed and fits an `i64`.
pub open spec fn spec_parse_i64(s: Seq<char>) -> Option<i64> {
    match spec_parse_int(s, true) {
        Some(v) => if i64::MIN <= v <= i64::MAX {
            Some(v as i64)
        } else {
            None
        },
        None => None,
    }
}

/// `s.parse::<u32>()`: the value, when it is well formed and fits a `u32`.
pub open spec fn spec_parse_u32(s: Seq<char>) -> Option<u32> {
    match spec_parse_int(s, false) {
        Some(v) => if 0 <= v <= u32::MAX {
            Some(v as u32)
        } else {
            None
        },
        None => None,
    }
}

pub proof fn lemma_digits_value_step(s: Seq<char>, i: int)
    requires
        0 <= i < s.len(),
    ensures
        digits_value(s.take(i + 1)) == digits_value(s.take(i)) * 10 + digit_value(s[i]),
{
    assert(s.take(i + 1).drop_last() =~= s.take(i));
}

pub proof fn lemma_digits_value_nonneg(s: Seq<char>)
    requires
        all_digits(s),
    ensures
        digits_value(s) >= 0,
    decreases s.len(),
{
    if s.len() > 0 {
        assert(is_digit(s[s.len() - 1]));
        lemma_digits_value_nonneg(s.drop_last());
    }
}

/// A longer run of digits never denotes less than its prefix.
pub proof fn lemma_digits_value_prefix_le(s: Seq<char>, i: int)
    requires
        all_digits(s),
        0 <= i <= s.len(),
    ensures
        0 <= digits_value(s.take(i)) <= digits_value(s),
    decreases s.len() - i,
{
    if i == s.len() {
        assert(s.take(i) =~= s);
        lemma_digits_value_nonneg(s);
    } else {
        lemma_digits_value_prefix_le(s, i + 1);
        lemma_digits_value_step(s, i);
        assert(is_digit(s[i]));
        assert(all_digits(s.take(i))) by {
            assert forall|k: int| 0 <= k < s.take(i).len() implies #[trigger] is_digit(
                s.take(i)[k],
            ) by {
                assert(is_digit(s[k]));
            }
        }
        lemma_digits_value_nonneg(s.take(i));
    }
}

/// Parses `s` in the syntax of Rust's integer `FromStr`, failing when the value is
/// outside `[lo, hi]`.
fn parse_bounded(s: &[char], signed: bool, lo: i128, hi: i128) -> (r: Option<i128>)
    requires
        lo <= 0 <= hi,
        i64::MIN <= lo,
        hi <= i64::MAX,
    ensures
        r == (match spec_parse_int(s@, signed) {
            Some(v) => if lo <= v <= hi {
                Some(v as i128)
            } else {
                None::<i128>
            },
            None => None,
        }),
{
    let n = s.len();
    if n == 0 {
        return None;
    }
    let has_sign = s[0] == '+' || (signed && s[0] == '-');
    let negative = signed && s[0] == '-';
    let start: usize = if has_sign { 1 } else { 0 };
    let ghost body = if has_sign { s@.skip(1) } else { s@ };
    assert(body =~= s@.subrange(start as int, n as int));
    if start == n {
        return None;
    }
    let mut acc: i128 = 0;
    let mut i: usize = start;
    while i < n
        invariant
            start <= i <= n,
            n == s@.len(),
            body =~= s@.subrange(start as int, n as int),
            n > 0,
            has_sign == (s@[0] == '+' || (signed && s@[0] == '-')),
            negative == (signed && s@[0] == '-'),
            body == (if has_sign { s@.skip(1) } else { s@ }),
            all_digits(body.take(i - start)),
            lo <= 0 <= hi,
            i64::MIN <= lo,
            hi <= i64::MAX,
            acc == (if negative {
                -digits_value(body.take(i - start))
            } else {
                digits_value(body.take(i - start))
            }),
            lo <= acc <= hi,
        decreases n - i,
    {
        let c = s[i];
        if !(c >= '0' && c <= '9') {
            assert(body[i - start] == c);
            assert(!is_digit(body[i - start]));
            assert(!all_digits(body));
            return None;
        }
        let d = (c as u32 - '0' as u32) as i128;
        proof {
            lemma_digits_value_step(body, (i - start) as int);
            assert(body[i - start] == c);
        }
        let next = if negative {
            acc * 10 - d
        } else {
            acc * 10 + d
        };
        assert(all_digits(body.take(i + 1 - start))) by {
            assert forall|k: int| 0 <= k < body.take(i + 1 - start).len() implies #[trigger] is_digit(
                body.take(i + 1 - start)[k],
            ) by {
                if k < i - start {
                    assert(body.take(i + 1 - start)[k] == body.take(i - start)[k]);
                }
            }
        }
        if next < lo || next > hi {
            proof {
                if all_digits(body) {
                    lemma_digits_value_prefix_le(body, (i + 1 - start) as int);
                    if negative {
                        assert(-digits_value(body) <= next);
                        assert(next < lo);
                    } else {
                        assert(digits_value(body) >= next);
                        assert(next > hi);
                    }
                }
            }
            return None;
        }
        acc = next;
        i = i + 1;
    }
    assert(body.take(n - start) =~= body);
    Some(acc)
}

/// `s.parse::<i64>()`.
pub fn parse_i64(s: &[char]) -> (r: Option<i64>)
    ensures
        r == spec_parse_i64(s@),
{
    match parse_bounded(s, true, i64::MIN as i128, i64::MAX as i128) {
        Some(v) => Some(v as i64),
        None => None,
    }
}

/// `s.parse::<u32>()`.
pub fn parse_u32(s: &[char]) -> (r: Option<u32>)
    ensures
        r == spec_parse_u32(s@),
{
    match parse_bounded(s, false, 0, u32::MAX as i128) {
        Some(v) => Some(v as u32),
        None => None,
    }
}

pub open spec fn digit_char(d: int) -> char {
    (d + 48) as char
}

/// The decimal numeral for `n`, with no leading zeros.
pub open spec fn spec_decimal(n: nat) -> Seq<char>
    decreases n,
{
    if n < 10 {
        seq![digit_char(n as int)]
    } else {
        spec_decimal(n / 10) + seq![digit_char((n % 10) as int)]
    }
}

/// Appends the decimal numeral for `n`.
pub fn push_decimal(s: &mut String, n: u128)
    ensures
        final(s)@ == old(s)@ + spec_decimal(n as nat),
    decreases n,
{
    if n >= 10 {
        push_decimal(s, n / 10);
    }
    let d = (n % 10) as u8;
    let c = (48u8 + d) as char;
    assert(c == digit_char((n % 10) as int));
    push_char(s, c);
}

/// `s` left-padded with `fill` to at least `width` characters.
pub open spec fn pad_left(s: Seq<char>, fill: char, width: nat) -> Seq<char> {
    if s.len() >= width {
        s
    } else {
        repeat_char(fill, (width - s.len()) as nat) + s
    }
}

/// `s` right-padded with spaces to at least `width` characters.
pub open spec fn pad_right(s: Seq<char>, width: nat) -> Seq<char> {
    if s.len() >= width {
        s
    } else {
        s + repeat_char(' ', (width - s.len()) as nat)
    }
}

/// Appends `t` left-padded with `fill` to at least `width` characters.
pub fn push_padded_left(s: &mut String, t: &[char], fill: char, width: usize)
    ensures
        final(s)@ == old(s)@ + pad_left(t@, fill, width as nat),
{
    if t.len() < width {
        push_repeat(s, fill, width - t.len());
    }
    push_chars(s, t);
}

/// Appends `t` right-padded with spaces to at least `width` characters.
pub fn push_padded_right(s: &mut String, t: &[char], width: usize)
    ensures
        final(s)@ == old(s)@ + pad_right(t@, width as nat),
{
    push_chars(s, t);
    if t.len() < width {
        push_repeat(s, ' ', width - t.len());
    }
}

/// The decimal numeral for `n` as characters.
pub fn decimal_chars(n: u128) -> (v: Vec<char>)
    ensures
        v@ == spec_decimal(n as nat),
{
    let mut s = String::new();
    push_decimal(&mut s, n);
    chars_of(s.as_str())
}

/// The two strings hold the same characters.
pub fn string_eq(a: &String, b: &String) -> (r: bool)
    ensures
        r == (a@ == b@),
{
    a.eq(b)
}

/// A copy of `s[lo..hi]`.
pub fn copy_range<T: Copy>(s: &[T], lo: usize, hi: usize) -> (v: Vec<T>)
    requires
        lo <= hi <= s@.len(),
    ensures
        v@ == s@.subrange(lo as int, hi as int),
{
    let mut v: Vec<T> = Vec::new();
    let mut i = lo;
    while i < hi
        invariant
            lo <= i <= hi,
            hi <= s@.len(),
            v@ == s@.subrange(lo as int, i as int),
        decreases hi - i,
    {
        v.push(s[i]);
        i = i + 1;
        assert(v@ =~= s@.subrange(lo as int, i as int));
    }
    v
}

/// A numeral has a digit, and two or more from ten on.
pub proof fn lemma_decimal_len(n: nat)
    ensures
        spec_decimal(n).len() >= 1,
        n >= 10 ==> spec_decimal(n).len() >= 2,
    decreases n,
{
    if n >= 10 {
        lemma_decimal_len(n / 10);
    }
}

/// Different numbers have different numerals.
pub proof fn lemma_decimal_injective(a: nat, b: nat)
    requires
        spec_decimal(a) == spec_decimal(b),
    ensures
        a == b,
    decreases a,
{
    lemma_decimal_len(a);
    lemma_decimal_len(b);
    let da = spec_decimal(a);
    let db = spec_decimal(b);
    assert(digit_char((a % 10) as int) == da.last());
    assert(digit_char((b % 10) as int) == db.last());
    assert((a % 10) as int == (b % 10) as int) by {
        let x = (a % 10) as int;
        let y = (b % 10) as int;
        assert(0 <= x < 10 && 0 <= y < 10);
        assert((digit_char(x) as int) == x + 48);
        assert((digit_char(y) as int) == y + 48);
    }
    if a >= 10 && b >= 10 {
        assert(spec_decimal(a / 10) =~= da.drop_last());
        assert(spec_decimal(b / 10) =~= db.drop_last());
        lemma_decimal_injective(a / 10, b / 10);
    }
}

/// A numeral is all digits, and reads back as its number.
pub proof fn lemma_decimal_digits(n: nat)
    ensures
        all_digits(spec_decimal(n)),
        digits_value(spec_decimal(n)) == n,
        spec_decimal(n).len() >= 1,
    decreases n,
{
    let d = spec_decimal(n);
    let x = (n % 10) as int;
    assert((digit_char(x) as int) == x + 48);
    if n < 10 {
        assert((digit_char(n as int) as int) == n + 48);
        assert(is_digit(d[0]));
        assert(d.drop_last() =~= Seq::<char>::empty());
        assert(d.last() == digit_char(n as int));
        assert(digits_value(d) == digits_value(d.drop_last()) * 10 + digit_value(d.last()));
    } else {
        lemma_decimal_digits(n / 10);
        let p = spec_decimal(n / 10);
        assert(d.drop_last() =~= p);
        assert(d.last() == digit_char(x));
        assert(digits_value(d) == digits_value(p) * 10 + digit_value(d.last()));
        assert(n == (n / 10) * 10 + x);
        assert forall|i: int| 0 <= i < d.len() implies #[trigger] is_digit(d[i]) by {
            if i < p.len() {
                assert(d[i] == p[i]);
                assert(is_digit(p[i]));
            }
        }
    }
}

/// Leading zeros change neither that a run is all digits nor what it denotes.
pub proof fn lemma_zeros_then_digits(m: nat, s: Seq<char>)
    requires
        all_digits(s),
    ensures
        all_digits(repeat_char('0', m) + s),
        digits_value(repeat_char('0', m) + s) == digits_value(s),
    decreases s.len(),
{
    let z = repeat_char('0', m);
    assert forall|i: int| 0 <= i < (z + s).len() implies #[trigger] is_digit((z + s)[i]) by {
        if i >= z.len() {
            assert((z + s)[i] == s[i - z.len()]);
            assert(is_digit(s[i - z.len()]));
        }
    }
    if s.len() == 0 {
        assert(z + s =~= z);
        lemma_zeros_value(m);
    } else {
        assert(all_digits(s.drop_last())) by {
            assert forall|i: int| 0 <= i < s.drop_last().len() implies #[trigger] is_digit(
                s.drop_last()[i],
            ) by {
                assert(is_digit(s[i]));
            }
        }
        lemma_zeros_then_digits(m, s.drop_last());
        assert((z + s).drop_last() =~= z + s.drop_last());
    }
}

/// A run of zeros denotes zero.
pub proof fn lemma_zeros_value(m: nat)
    ensures
        digits_value(repeat_char('0', m)) == 0,
    decreases m,
{
    if m > 0 {
        lemma_zeros_value((m - 1) as nat);
        assert(repeat_char('0', m).drop_last() =~= repeat_char('0', (m - 1) as nat));
    }
}


} // verus!
