//! `&str` -> `Vec<Token>`. Tokens carry byte-offset spans; nothing downstream of the
//! lexer touches source text directly except `diag`, which resolves a span back to
//! line/column for rendering.
//!
//! There is no `-` token in numeric-literal position, so a negative literal cannot be
//! written at all — this is enforced by omission, not by a dedicated check. How many
//! fraction digits a literal may have is not the lexer's concern: that depends on the
//! literal's currency, which `typeck` checks.
//!
//! `spec_lex` is the tokenizer stated directly over the source's characters; `lex`
//! computes exactly it.

use vstd::prelude::*;
use crate::diag::{Code, Diagnostic};
use crate::span::{byte_len, byte_offset, char_utf8_len, utf8_len, lemma_byte_offset_all, lemma_byte_offset_step, lemma_byte_offset_strict, Span};
use crate::text::{chars_of, copy_range, push_char, push_str, string_from_chars};

verus! {

#[derive(Debug, Clone, PartialEq, Eq)]
pub enum TokenKind {
    KwTxn,
    KwLet,
    KwDebit,
    KwCredit,
    KwCurrency,
    KwAccount,
    KwScale,
    KwKind,
    KwNormal,
    KwRate,
    KwFrom,
    KwTo,
    KwRound,
    KwDown,
    KwConvert,
    KwAbsorb,
    KwSplit,
    KwSplitRatio,
    KwMerge,
    Ident(String),
    /// Raw literal text, e.g. `"45"` or `"45.00"`; lowering to `Amount` happens once
    /// the literal's currency (and so its scale) is known.
    Decimal(String),
    /// Contents of a string literal, with surrounding quotes stripped.
    Str(String),
    LParen,
    RParen,
    LBrace,
    RBrace,
    Comma,
    Colon,
    Semi,
    Eq,
    Eof,
}

/// A token kind with its text payload taken by value: what contracts speak of.
pub enum Tok {
    KwTxn,
    KwLet,
    KwDebit,
    KwCredit,
    KwCurrency,
    KwAccount,
    KwScale,
    KwKind,
    KwNormal,
    KwRate,
    KwFrom,
    KwTo,
    KwRound,
    KwDown,
    KwConvert,
    KwAbsorb,
    KwSplit,
    KwSplitRatio,
    KwMerge,
    Ident(Seq<char>),
    Decimal(Seq<char>),
    Str(Seq<char>),
    LParen,
    RParen,
    LBrace,
    RBrace,
    Comma,
    Colon,
    Semi,
    Eq,
    Eof,
}

impl View for TokenKind {
    type V = Tok;

    open spec fn view(&self) -> Tok {
        match self {
            TokenKind::KwTxn => Tok::KwTxn,
            TokenKind::KwLet => Tok::KwLet,
            TokenKind::KwDebit => Tok::KwDebit,
            TokenKind::KwCredit => Tok::KwCredit,
            TokenKind::KwCurrency => Tok::KwCurrency,
            TokenKind::KwAccount => Tok::KwAccount,
            TokenKind::KwScale => Tok::KwScale,
            TokenKind::KwKind => Tok::KwKind,
            TokenKind::KwNormal => Tok::KwNormal,
            TokenKind::KwRate => Tok::KwRate,
            TokenKind::KwFrom => Tok::KwFrom,
            TokenKind::KwTo => Tok::KwTo,
            TokenKind::KwRound => Tok::KwRound,
            TokenKind::KwDown => Tok::KwDown,
            TokenKind::KwConvert => Tok::KwConvert,
            TokenKind::KwAbsorb => Tok::KwAbsorb,
            TokenKind::KwSplit => Tok::KwSplit,
            TokenKind::KwSplitRatio => Tok::KwSplitRatio,
            TokenKind::KwMerge => Tok::KwMerge,
            TokenKind::Ident(s) => Tok::Ident(s@),
            TokenKind::Decimal(s) => Tok::Decimal(s@),
            TokenKind::Str(s) => Tok::Str(s@),
            TokenKind::LParen => Tok::LParen,
            TokenKind::RParen => Tok::RParen,
            TokenKind::LBrace => Tok::LBrace,
            TokenKind::RBrace => Tok::RBrace,
            TokenKind::Comma => Tok::Comma,
            TokenKind::Colon => Tok::Colon,
            TokenKind::Semi => Tok::Semi,
            TokenKind::Eq => Tok::Eq,
            TokenKind::Eof => Tok::Eof,
        }
    }
}

#[derive(Debug, Clone, PartialEq, Eq)]
pub struct Token {
    pub kind: TokenKind,
    pub span: Span,
}

/// A token as contracts see it: its kind, and its span's two byte offsets.
pub open spec fn token_view(t: Token) -> (Tok, int, int) {
    (t.kind@, t.span.lo as int, t.span.hi as int)
}

pub open spec fn tokens_view(ts: Seq<Token>) -> Seq<(Tok, int, int)> {
    ts.map_values(|t: Token| token_view(t))
}

/// Why lexing stopped: the code, the message, and the span's two byte offsets.
pub type LexError = (Code, Seq<char>, int, int);

pub open spec fn is_ascii_whitespace(c: char) -> bool {
    c == ' ' || c == '\t' || c == '\n' || c == '\r' || c == '\x0C'
}

pub open spec fn is_ascii_digit(c: char) -> bool {
    '0' <= c && c <= '9'
}

pub open spec fn is_ascii_alphabetic(c: char) -> bool {
    ('a' <= c && c <= 'z') || ('A' <= c && c <= 'Z')
}

pub open spec fn is_ident_start(c: char) -> bool {
    is_ascii_alphabetic(c) || c == '_'
}

pub open spec fn is_ident_char(c: char) -> bool {
    is_ascii_alphabetic(c) || is_ascii_digit(c) || c == '_'
}

/// Which characters a scan keeps consuming.
pub enum CharClass {
    Digit,
    IdentChar,
    /// Anything but a closing quote or a newline.
    StrBody,
    /// Anything but a newline.
    LineBody,
}

pub open spec fn in_class(c: char, class: CharClass) -> bool {
    match class {
        CharClass::Digit => is_ascii_digit(c),
        CharClass::IdentChar => is_ident_char(c),
        CharClass::StrBody => c != '"' && c != '\n',
        CharClass::LineBody => c != '\n',
    }
}

/// The first index at or after `i` whose character is not in `class` (or the end).
pub open spec fn scan(s: Seq<char>, i: int, class: CharClass) -> int
    decreases s.len() - i,
{
    if i < 0 || i >= s.len() {
        i
    } else if in_class(s[i], class) {
        scan(s, i + 1, class)
    } else {
        i
    }
}

pub proof fn lemma_scan_bounds(s: Seq<char>, i: int, class: CharClass)
    requires
        0 <= i <= s.len(),
    ensures
        i <= scan(s, i, class) <= s.len(),
        scan(s, i, class) < s.len() ==> !in_class(s[scan(s, i, class)], class),
        forall|k: int| i <= k < scan(s, i, class) ==> in_class(#[trigger] s[k], class),
    decreases s.len() - i,
{
    if i < s.len() && in_class(s[i], class) {
        lemma_scan_bounds(s, i + 1, class);
    }
}

/// The keyword `text` spells, or an identifier.
pub open spec fn keyword_or_ident(text: Seq<char>) -> Tok {
    if text == "txn"@ {
        Tok::KwTxn
    } else if text == "let"@ {
        Tok::KwLet
    } else if text == "debit"@ {
        Tok::KwDebit
    } else if text == "credit"@ {
        Tok::KwCredit
    } else if text == "currency"@ {
        Tok::KwCurrency
    } else if text == "account"@ {
        Tok::KwAccount
    } else if text == "scale"@ {
        Tok::KwScale
    } else if text == "kind"@ {
        Tok::KwKind
    } else if text == "normal"@ {
        Tok::KwNormal
    } else if text == "rate"@ {
        Tok::KwRate
    } else if text == "from"@ {
        Tok::KwFrom
    } else if text == "to"@ {
        Tok::KwTo
    } else if text == "round"@ {
        Tok::KwRound
    } else if text == "down"@ {
        Tok::KwDown
    } else if text == "convert"@ {
        Tok::KwConvert
    } else if text == "absorb"@ {
        Tok::KwAbsorb
    } else if text == "split"@ {
        Tok::KwSplit
    } else if text == "split_ratio"@ {
        Tok::KwSplitRatio
    } else if text == "merge"@ {
        Tok::KwMerge
    } else {
        Tok::Ident(text)
    }
}

/// The one-character token `c` is, if any.
pub open spec fn punct(c: char) -> Option<Tok> {
    if c == '(' {
        Some(Tok::LParen)
    } else if c == ')' {
        Some(Tok::RParen)
    } else if c == '{' {
        Some(Tok::LBrace)
    } else if c == '}' {
        Some(Tok::RBrace)
    } else if c == ',' {
        Some(Tok::Comma)
    } else if c == ':' {
        Some(Tok::Colon)
    } else if c == ';' {
        Some(Tok::Semi)
    } else if c == '=' {
        Some(Tok::Eq)
    } else {
        None
    }
}

/// The message for a character that begins no token.
pub open spec fn unexpected_char_message(c: char) -> Seq<char> {
    "unexpected character '"@ + seq![c] + "'"@
}

pub open spec fn prepend(t: (Tok, int, int), r: Result<Seq<(Tok, int, int)>, LexError>) -> Result<
    Seq<(Tok, int, int)>,
    LexError,
> {
    match r {
        Ok(ts) => Ok(seq![t] + ts),
        Err(e) => Err(e),
    }
}

/// At `j`, right after a literal's whole digits, a `.` that begins a fraction: a
/// `.` is part of a decimal literal only when a digit follows it.
pub open spec fn has_fraction(s: Seq<char>, j: int) -> bool {
    j + 1 < s.len() && s[j] == '.' && is_ascii_digit(s[j + 1])
}

/// Tokenizes `s` from character `i` on.
pub open spec fn lex_from(s: Seq<char>, i: int) -> Result<Seq<(Tok, int, int)>, LexError>
    decreases s.len() - i,
{
    let b = |k: int| byte_offset(s, k) as int;
    if i < 0 || i >= s.len() {
        Ok(seq![(Tok::Eof, byte_len(s) as int, byte_len(s) as int)])
    } else {
        let c = s[i];
        if is_ascii_whitespace(c) {
            lex_from(s, i + 1)
        } else if c == '/' && i + 1 < s.len() && s[i + 1] == '/' {
            let j = scan(s, i, CharClass::LineBody);
            proof {
                lemma_scan_bounds(s, i, CharClass::LineBody);
            }
            if j <= i {
                Ok(Seq::empty())
            } else {
                lex_from(s, j)
            }
        } else if punct(c) is Some {
            prepend((punct(c)->0, b(i), b(i + 1)), lex_from(s, i + 1))
        } else if c == '"' {
            let j = scan(s, i + 1, CharClass::StrBody);
            proof {
                lemma_scan_bounds(s, i + 1, CharClass::StrBody);
            }
            if j >= s.len() || s[j] != '"' {
                Err((Code::LexUnexpectedChar, "unterminated string literal"@, b(i), b(j)))
            } else if j + 1 <= i {
                Ok(Seq::empty())
            } else {
                prepend((Tok::Str(s.subrange(i + 1, j)), b(i), b(j + 1)), lex_from(s, j + 1))
            }
        } else if is_ascii_digit(c) {
            let j = scan(s, i, CharClass::Digit);
            proof {
                lemma_scan_bounds(s, i, CharClass::Digit);
                if has_fraction(s, j) {
                    lemma_scan_bounds(s, j + 1, CharClass::Digit);
                }
            }
            let k = if has_fraction(s, j) {
                scan(s, j + 1, CharClass::Digit)
            } else {
                j
            };
            if k <= i {
                Ok(Seq::empty())
            } else {
                prepend((Tok::Decimal(s.subrange(i, k)), b(i), b(k)), lex_from(s, k))
            }
        } else if is_ident_start(c) {
            let j = scan(s, i, CharClass::IdentChar);
            proof {
                lemma_scan_bounds(s, i, CharClass::IdentChar);
            }
            if j <= i {
                Ok(Seq::empty())
            } else {
                prepend((keyword_or_ident(s.subrange(i, j)), b(i), b(j)), lex_from(s, j))
            }
        } else {
            Err(
                (
                    Code::LexUnexpectedChar,
                    unexpected_char_message(c),
                    b(i),
                    b(i + 1),
                ),
            )
        }
    }
}

/// The tokens of `s` (ending with `Eof`, whose span is empty at the end of the text),
/// or the first error: an unterminated string literal, or a character that begins no
/// token.
pub open spec fn spec_lex(s: Seq<char>) -> Result<Seq<(Tok, int, int)>, LexError> {
    lex_from(s, 0)
}

/// A token stream the parser can walk: at least one token, the last one `Eof`, and no
/// `Eof` before it.
pub open spec fn tokens_wf(ts: Seq<Token>) -> bool {
    &&& ts.len() > 0
    &&& ts.last().kind@ == Tok::Eof
    &&& forall|k: int| 0 <= k < ts.len() - 1 ==> (#[trigger] ts[k]).kind@ != Tok::Eof
}

/// The same shape for the spec tokens: ends in exactly one `Eof`.
pub open spec fn spec_tokens_wf(ts: Seq<(Tok, int, int)>) -> bool {
    &&& ts.len() > 0
    &&& ts.last().0 == Tok::Eof
    &&& forall|k: int| 0 <= k < ts.len() - 1 ==> (#[trigger] ts[k]).0 != Tok::Eof
}

proof fn lemma_prepend_wf(t: (Tok, int, int), r: Result<Seq<(Tok, int, int)>, LexError>)
    requires
        t.0 != Tok::Eof,
        r matches Ok(ts) ==> spec_tokens_wf(ts),
    ensures
        prepend(t, r) matches Ok(ts) ==> spec_tokens_wf(ts),
{
    if let Ok(ts) = r {
        let all = seq![t] + ts;
        assert forall|k: int| 0 <= k < all.len() - 1 implies (#[trigger] all[k]).0 != Tok::Eof by {
            if k > 0 {
                assert(all[k] == ts[k - 1]);
            }
        }
        assert(all.last() == ts.last());
    }
}

/// Every successful tokenization ends in exactly one `Eof`.
pub proof fn lemma_lex_from_wf(s: Seq<char>, i: int)
    ensures
        lex_from(s, i) matches Ok(ts) ==> spec_tokens_wf(ts),
    decreases s.len() - i,
{
    if i < 0 || i >= s.len() {
    } else {
        let c = s[i];
        if is_ascii_whitespace(c) {
            lemma_lex_from_wf(s, i + 1);
        } else if c == '/' && i + 1 < s.len() && s[i + 1] == '/' {
            lemma_scan_bounds(s, i + 1, CharClass::LineBody);
            let j = scan(s, i, CharClass::LineBody);
            assert(j == scan(s, i + 1, CharClass::LineBody));
            lemma_lex_from_wf(s, j);
        } else if punct(c) is Some {
            lemma_lex_from_wf(s, i + 1);
            lemma_prepend_wf((punct(c)->0, byte_offset(s, i) as int, byte_offset(s, i + 1) as int), lex_from(s, i + 1));
        } else if c == '"' {
            lemma_scan_bounds(s, i + 1, CharClass::StrBody);
            let j = scan(s, i + 1, CharClass::StrBody);
            if j < s.len() && s[j] == '"' {
                lemma_lex_from_wf(s, j + 1);
                lemma_prepend_wf(
                    (Tok::Str(s.subrange(i + 1, j)), byte_offset(s, i) as int, byte_offset(s, j + 1) as int),
                    lex_from(s, j + 1),
                );
            }
        } else if is_ascii_digit(c) {
            lemma_scan_bounds(s, i + 1, CharClass::Digit);
            let j = scan(s, i, CharClass::Digit);
            assert(j == scan(s, i + 1, CharClass::Digit));
            if has_fraction(s, j) {
                lemma_scan_bounds(s, j + 1, CharClass::Digit);
            }
            let k = if has_fraction(s, j) {
                scan(s, j + 1, CharClass::Digit)
            } else {
                j
            };
            lemma_lex_from_wf(s, k);
            lemma_prepend_wf(
                (Tok::Decimal(s.subrange(i, k)), byte_offset(s, i) as int, byte_offset(s, k) as int),
                lex_from(s, k),
            );
        } else if is_ident_start(c) {
            lemma_scan_bounds(s, i + 1, CharClass::IdentChar);
            let j = scan(s, i, CharClass::IdentChar);
            assert(j == scan(s, i + 1, CharClass::IdentChar));
            lemma_lex_from_wf(s, j);
            lemma_prepend_wf(
                (keyword_or_ident(s.subrange(i, j)), byte_offset(s, i) as int, byte_offset(s, j) as int),
                lex_from(s, j),
            );
        }
    }
}

/// Each token but the final `Eof` takes at least one character.
pub proof fn lemma_lex_from_len(s: Seq<char>, i: int)
    requires
        0 <= i <= s.len(),
    ensures
        lex_from(s, i) matches Ok(ts) ==> ts.len() <= s.len() - i + 1,
    decreases s.len() - i,
{
    if i < s.len() {
        let c = s[i];
        if is_ascii_whitespace(c) {
            lemma_lex_from_len(s, i + 1);
        } else if c == '/' && i + 1 < s.len() && s[i + 1] == '/' {
            lemma_scan_bounds(s, i + 1, CharClass::LineBody);
            let j = scan(s, i, CharClass::LineBody);
            assert(j == scan(s, i + 1, CharClass::LineBody));
            lemma_lex_from_len(s, j);
        } else if punct(c) is Some {
            lemma_lex_from_len(s, i + 1);
        } else if c == '"' {
            lemma_scan_bounds(s, i + 1, CharClass::StrBody);
            let j = scan(s, i + 1, CharClass::StrBody);
            if j < s.len() && s[j] == '"' {
                lemma_lex_from_len(s, j + 1);
            }
        } else if is_ascii_digit(c) {
            lemma_scan_bounds(s, i + 1, CharClass::Digit);
            let j = scan(s, i, CharClass::Digit);
            assert(j == scan(s, i + 1, CharClass::Digit));
            if has_fraction(s, j) {
                lemma_scan_bounds(s, j + 1, CharClass::Digit);
            }
            let k = if has_fraction(s, j) {
                scan(s, j + 1, CharClass::Digit)
            } else {
                j
            };
            lemma_lex_from_len(s, k);
        } else if is_ident_start(c) {
            lemma_scan_bounds(s, i + 1, CharClass::IdentChar);
            let j = scan(s, i, CharClass::IdentChar);
            assert(j == scan(s, i + 1, CharClass::IdentChar));
            lemma_lex_from_len(s, j);
        }
    }
}

fn is_whitespace_char(c: char) -> (r: bool)
    ensures
        r == is_ascii_whitespace(c),
{
    c == ' ' || c == '\t' || c == '\n' || c == '\r' || c == '\x0C'
}

fn is_digit_char(c: char) -> (r: bool)
    ensures
        r == is_ascii_digit(c),
{
    '0' <= c && c <= '9'
}

fn is_alpha_char(c: char) -> (r: bool)
    ensures
        r == is_ascii_alphabetic(c),
{
    ('a' <= c && c <= 'z') || ('A' <= c && c <= 'Z')
}

fn in_class_exec(c: char, class: &CharClass) -> (r: bool)
    ensures
        r == in_class(c, *class),
{
    match class {
        CharClass::Digit => is_digit_char(c),
        CharClass::IdentChar => is_alpha_char(c) || is_digit_char(c) || c == '_',
        CharClass::StrBody => c != '"' && c != '\n',
        CharClass::LineBody => c != '\n',
    }
}

/// `scan`, computed.
fn scan_exec(s: &[char], i: usize, class: CharClass) -> (j: usize)
    requires
        i <= s@.len(),
    ensures
        j == scan(s@, i as int, class),
        i <= j <= s@.len(),
{
    let mut j = i;
    while j < s.len() && in_class_exec(s[j], &class)
        invariant
            i <= j <= s@.len(),
            scan(s@, i as int, class) == scan(s@, j as int, class),
        decreases s@.len() - j,
    {
        j = j + 1;
    }
    j
}

/// `a` holds exactly the characters of `lit`.
pub fn chars_eq_str(a: &[char], lit: &str) -> (r: bool)
    ensures
        r == (a@ == lit@),
{
    let b = chars_of(lit);
    if a.len() != b.len() {
        assert(a@.len() != lit@.len());
        return false;
    }
    let mut i: usize = 0;
    while i < a.len()
        invariant
            i <= a@.len(),
            a@.len() == b@.len(),
            b@ == lit@,
            forall|k: int| 0 <= k < i ==> a@[k] == b@[k],
        decreases a@.len() - i,
    {
        if a[i] != b[i] {
            assert(a@[i as int] != lit@[i as int]);
            return false;
        }
        i = i + 1;
    }
    assert(a@ =~= b@);
    true
}

fn keyword_or_ident_exec(text: &[char]) -> (k: TokenKind)
    ensures
        k@ == keyword_or_ident(text@),
{
    if chars_eq_str(text, "txn") {
        TokenKind::KwTxn
    } else if chars_eq_str(text, "let") {
        TokenKind::KwLet
    } else if chars_eq_str(text, "debit") {
        TokenKind::KwDebit
    } else if chars_eq_str(text, "credit") {
        TokenKind::KwCredit
    } else if chars_eq_str(text, "currency") {
        TokenKind::KwCurrency
    } else if chars_eq_str(text, "account") {
        TokenKind::KwAccount
    } else if chars_eq_str(text, "scale") {
        TokenKind::KwScale
    } else if chars_eq_str(text, "kind") {
        TokenKind::KwKind
    } else if chars_eq_str(text, "normal") {
        TokenKind::KwNormal
    } else if chars_eq_str(text, "rate") {
        TokenKind::KwRate
    } else if chars_eq_str(text, "from") {
        TokenKind::KwFrom
    } else if chars_eq_str(text, "to") {
        TokenKind::KwTo
    } else if chars_eq_str(text, "round") {
        TokenKind::KwRound
    } else if chars_eq_str(text, "down") {
        TokenKind::KwDown
    } else if chars_eq_str(text, "convert") {
        TokenKind::KwConvert
    } else if chars_eq_str(text, "absorb") {
        TokenKind::KwAbsorb
    } else if chars_eq_str(text, "split") {
        TokenKind::KwSplit
    } else if chars_eq_str(text, "split_ratio") {
        TokenKind::KwSplitRatio
    } else if chars_eq_str(text, "merge") {
        TokenKind::KwMerge
    } else {
        TokenKind::Ident(string_from_chars(text))
    }
}

fn punct_exec(c: char) -> (r: Option<TokenKind>)
    ensures
        match r {
            Some(k) => punct(c) == Some(k@),
            None => punct(c) is None,
        },
{
    if c == '(' {
        Some(TokenKind::LParen)
    } else if c == ')' {
        Some(TokenKind::RParen)
    } else if c == '{' {
        Some(TokenKind::LBrace)
    } else if c == '}' {
        Some(TokenKind::RBrace)
    } else if c == ',' {
        Some(TokenKind::Comma)
    } else if c == ':' {
        Some(TokenKind::Colon)
    } else if c == ';' {
        Some(TokenKind::Semi)
    } else if c == '=' {
        Some(TokenKind::Eq)
    } else {
        None
    }
}

/// The diagnostic for a character that begins no token: the character itself, over
/// its bytes.
fn unexpected_char(c: char, lo: u32) -> (d: Diagnostic)
    requires
        lo + utf8_len(c) <= u32::MAX,
    ensures
        d.code == Code::LexUnexpectedChar,
        d.message@ == unexpected_char_message(c),
        d.span.lo == lo,
        d.span.hi == lo + utf8_len(c),
        d.secondary@.len() == 0,
{
    let mut msg = String::new();
    push_str(&mut msg, "unexpected character '");
    push_char(&mut msg, c);
    push_str(&mut msg, "'");
    assert(msg@ =~= unexpected_char_message(c));
    let width = char_utf8_len(c) as u32;
    Diagnostic::new(Code::LexUnexpectedChar, msg.as_str(), Span::new(lo, lo + width))
}

fn tok(kind: TokenKind, lo: usize, hi: usize) -> (t: Token)
    requires
        lo <= hi <= u32::MAX,
    ensures
        t.kind == kind,
        t.span.lo == lo,
        t.span.hi == hi,
{
    Token { kind, span: Span::new(lo as u32, hi as u32) }
}

proof fn lemma_byte_offset_le_len(s: Seq<char>, i: int)
    requires
        0 <= i <= s.len(),
    ensures
        byte_offset(s, i) <= byte_len(s),
{
    lemma_byte_offset_all(s);
    if i < s.len() {
        lemma_byte_offset_strict(s, i, s.len() as int);
    }
}

/// The code, message and span of a diagnostic that has no secondary spans.
pub open spec fn lex_error_of(d: Diagnostic) -> LexError {
    if d.secondary@.len() == 0 {
        (d.code, d.message@, d.span.lo as int, d.span.hi as int)
    } else {
        (d.code, Seq::empty(), -1, -1)
    }
}

/// How one step of lexing ends: characters skipped, one token emitted, or a fatal
/// error. Positions are a character index and its byte offset.
pub enum Step {
    Skip(usize, usize),
    Emit(Token, usize, usize),
    Fail(Diagnostic),
}

/// `step`, taken at character `pos` of `s`, agrees with `lex_from`.
pub open spec fn step_agrees(s: Seq<char>, pos: int, step: Step) -> bool {
    match step {
        Step::Skip(p, pb) => pos < p <= s.len() && pb == byte_offset(s, p as int) && lex_from(s, pos)
            == lex_from(s, p as int),
        Step::Emit(t, p, pb) => pos < p <= s.len() && pb == byte_offset(s, p as int) && lex_from(
            s,
            pos,
        ) == prepend(token_view(t), lex_from(s, p as int)),
        Step::Fail(d) => lex_from(s, pos) == Err::<Seq<(Tok, int, int)>, LexError>(
            (d.code, d.message@, d.span.lo as int, d.span.hi as int),
        ) && d.secondary@.len() == 0,
    }
}

/// The byte offset of character `to`, counted on from that of character `from`.
fn advance_bytes(s: &[char], from: usize, to: usize, from_b: usize) -> (to_b: usize)
    requires
        from <= to <= s@.len(),
        from_b == byte_offset(s@, from as int),
        byte_len(s@) + 2 <= u32::MAX,
    ensures
        to_b == byte_offset(s@, to as int),
        to_b <= byte_len(s@),
{
    let mut k = from;
    let mut k_b = from_b;
    proof {
        lemma_byte_offset_le_len(s@, from as int);
    }
    while k < to
        invariant
            from <= k <= to <= s@.len(),
            k_b == byte_offset(s@, k as int),
            k_b <= byte_len(s@),
            byte_len(s@) + 2 <= u32::MAX,
        decreases to - k,
    {
        proof {
            lemma_byte_offset_step(s@, k as int);
            lemma_byte_offset_le_len(s@, k + 1);
        }
        k_b = k_b + char_utf8_len(s[k]);
        k = k + 1;
    }
    k_b
}

/// A `"..."` string literal starting at `pos`.
fn lex_string(s: &[char], pos: usize, pos_b: usize) -> (step: Step)
    requires
        pos < s@.len(),
        s@[pos as int] == '"',
        pos_b == byte_offset(s@, pos as int),
        byte_len(s@) + 2 <= u32::MAX,
    ensures
        step_agrees(s@, pos as int, step),
{
    let n = s.len();
    let j = scan_exec(s, pos + 1, CharClass::StrBody);
    proof {
        lemma_scan_bounds(s@, pos + 1, CharClass::StrBody);
        lemma_byte_offset_le_len(s@, pos as int);
        if pos < j {
            lemma_byte_offset_strict(s@, pos as int, j as int);
        }
        assert(punct(s@[pos as int]) is None);
        assert(!is_ascii_whitespace(s@[pos as int]));
    }
    let j_b = advance_bytes(s, pos, j, pos_b);
    if j >= n || s[j] != '"' {
        let d = Diagnostic::new(
            Code::LexUnexpectedChar,
            "unterminated string literal",
            Span::new(pos_b as u32, j_b as u32),
        );
        return Step::Fail(d);
    }
    proof {
        lemma_byte_offset_step(s@, j as int);
        lemma_byte_offset_le_len(s@, j + 1);
    }
    let content = copy_range(s, pos + 1, j);
    let text = string_from_chars(content.as_slice());
    let t = tok(TokenKind::Str(text), pos_b, j_b + 1);
    Step::Emit(t, j + 1, j_b + 1)
}

/// A decimal literal (digits, optionally a `.` and at least one more digit) starting at `pos`.
fn lex_number(s: &[char], pos: usize, pos_b: usize) -> (step: Step)
    requires
        pos < s@.len(),
        is_ascii_digit(s@[pos as int]),
        pos_b == byte_offset(s@, pos as int),
        byte_len(s@) + 2 <= u32::MAX,
    ensures
        step_agrees(s@, pos as int, step),
{
    let n = s.len();
    let j = scan_exec(s, pos, CharClass::Digit);
    proof {
        lemma_scan_bounds(s@, pos as int, CharClass::Digit);
        assert(punct(s@[pos as int]) is None);
        assert(!is_ascii_whitespace(s@[pos as int]));
    }
    let k_end = if j < n && s[j] == '.' && j + 1 < n && is_digit_char(s[j + 1]) {
        scan_exec(s, j + 1, CharClass::Digit)
    } else {
        j
    };
    proof {
        if has_fraction(s@, j as int) {
            lemma_scan_bounds(s@, j + 1, CharClass::Digit);
        }
        lemma_byte_offset_strict(s@, pos as int, k_end as int);
    }
    let k_b = advance_bytes(s, pos, k_end, pos_b);
    let text = copy_range(s, pos, k_end);
    let t = tok(TokenKind::Decimal(string_from_chars(text.as_slice())), pos_b, k_b);
    Step::Emit(t, k_end, k_b)
}

/// An identifier or keyword starting at `pos`.
fn lex_ident(s: &[char], pos: usize, pos_b: usize) -> (step: Step)
    requires
        pos < s@.len(),
        is_ident_start(s@[pos as int]),
        pos_b == byte_offset(s@, pos as int),
        byte_len(s@) + 2 <= u32::MAX,
    ensures
        step_agrees(s@, pos as int, step),
{
    let j = scan_exec(s, pos, CharClass::IdentChar);
    proof {
        lemma_scan_bounds(s@, pos as int, CharClass::IdentChar);
        assert(punct(s@[pos as int]) is None);
        assert(!is_ascii_whitespace(s@[pos as int]));
        assert(!is_ascii_digit(s@[pos as int]) || true);
        lemma_byte_offset_strict(s@, pos as int, j as int);
    }
    let j_b = advance_bytes(s, pos, j, pos_b);
    let text = copy_range(s, pos, j);
    let kind = keyword_or_ident_exec(text.as_slice());
    let t = tok(kind, pos_b, j_b);
    Step::Emit(t, j, j_b)
}

/// One step of lexing at character `pos`.
fn lex_step(s: &[char], pos: usize, pos_b: usize) -> (step: Step)
    requires
        pos < s@.len(),
        pos_b == byte_offset(s@, pos as int),
        byte_len(s@) + 2 <= u32::MAX,
    ensures
        step_agrees(s@, pos as int, step),
{
    let n = s.len();
    let ch = s[pos];
    proof {
        lemma_byte_offset_step(s@, pos as int);
        lemma_byte_offset_le_len(s@, pos + 1);
    }
    if is_whitespace_char(ch) {
        return Step::Skip(pos + 1, pos_b + char_utf8_len(ch));
    }
    if ch == '/' && pos + 1 < n && s[pos + 1] == '/' {
        let j = scan_exec(s, pos, CharClass::LineBody);
        proof {
            lemma_scan_bounds(s@, pos as int, CharClass::LineBody);
        }
        let j_b = advance_bytes(s, pos, j, pos_b);
        return Step::Skip(j, j_b);
    }
    match punct_exec(ch) {
        Some(kind) => {
            let hi_b = pos_b + char_utf8_len(ch);
            return Step::Emit(tok(kind, pos_b, hi_b), pos + 1, hi_b);
        },
        None => {},
    }
    if ch == '"' {
        return lex_string(s, pos, pos_b);
    }
    if is_digit_char(ch) {
        return lex_number(s, pos, pos_b);
    }
    if is_alpha_char(ch) || ch == '_' {
        return lex_ident(s, pos, pos_b);
    }
    proof {
        lemma_byte_offset_le_len(s@, pos as int);
    }
    Step::Fail(unexpected_char(ch, pos_b as u32))
}

/// Lexes `source`. Returns `None` for the token stream on the first fatal error
/// (unterminated string, unexpected character) along with the one diagnostic
/// explaining why. Spans are `u32` byte offsets, so the source's UTF-8 length must
/// fit one with a little room to spare.
pub fn lex(source: &str) -> (r: (Option<Vec<Token>>, Vec<Diagnostic>))
    requires
        byte_len(source@) + 2 <= u32::MAX,
    ensures
        spec_lex(source@) is Ok ==> r.0 is Some && r.1@.len() == 0 && tokens_view(r.0->0@)
            == spec_lex(source@)->Ok_0,
        spec_lex(source@) is Err ==> r.0 is None && r.1@.len() == 1 && lex_error_of(r.1@[0])
            == spec_lex(source@)->Err_0,
        r.0 matches Some(ts) ==> tokens_wf(ts@),
{
    let chars = chars_of(source);
    let s = chars.as_slice();
    let ghost sv = s@;
    assert(sv == source@);
    let n = s.len();
    let mut pos: usize = 0;
    let mut pos_b: usize = 0;
    let mut tokens: Vec<Token> = Vec::new();
    proof {
        assert(sv.take(0) =~= Seq::<char>::empty());
        assert(tokens_view(tokens@) =~= Seq::<(Tok, int, int)>::empty());
    }
    while pos < n
        invariant
            n == sv.len(),
            s@ == sv,
            sv == source@,
            pos <= n,
            pos_b == byte_offset(sv, pos as int),
            byte_len(sv) + 2 <= u32::MAX,
            spec_lex(sv) == (match lex_from(sv, pos as int) {
                Ok(rest) => Ok(tokens_view(tokens@) + rest),
                Err(e) => Err::<Seq<(Tok, int, int)>, LexError>(e),
            }),
        decreases n - pos,
    {
        match lex_step(s, pos, pos_b) {
            Step::Skip(p, pb) => {
                pos = p;
                pos_b = pb;
            },
            Step::Emit(t, p, pb) => {
                let ghost tv0 = tokens_view(tokens@);
                tokens.push(t);
                proof {
                    assert(tokens_view(tokens@) =~= tv0.push(token_view(t)));
                    match lex_from(sv, p as int) {
                        Ok(rest) => {
                            assert(tv0 + (seq![token_view(t)] + rest) =~= tokens_view(tokens@)
                                + rest);
                        },
                        Err(_) => {},
                    }
                }
                pos = p;
                pos_b = pb;
            },
            Step::Fail(d) => {
                let mut diags = Vec::new();
                diags.push(d);
                return (None, diags);
            },
        }
    }
    proof {
        lemma_byte_offset_all(sv);
    }
    let ghost tv0 = tokens_view(tokens@);
    tokens.push(tok(TokenKind::Eof, pos_b, pos_b));
    proof {
        assert(tokens_view(tokens@) =~= tv0 + seq![token_view(tokens@.last())]);
        lemma_lex_from_wf(sv, 0);
        let tv = tokens_view(tokens@);
        assert forall|k: int| 0 <= k < tokens@.len() - 1 implies (#[trigger] tokens@[k]).kind@
            != Tok::Eof by {
            assert(tv[k].0 == tokens@[k].kind@);
        }
        assert(tv.last().0 == tokens@.last().kind@);
    }
    (Some(tokens), Vec::new())
}

} // verus!
