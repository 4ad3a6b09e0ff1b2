//! `Vec<Token>` -> `ast::Module`, hand-written recursive descent.
//!
//! Grammar:
//!
//! ```text
//! Module        := Decl* Eof
//! Decl          := CurrencyDecl | AccountDecl | RateDecl | TxnDecl
//! CurrencyDecl  := "currency" Ident "{" "scale" "=" WholeNumber "}"
//! AccountDecl   := "account" AccountPath "{" "currency" "=" Ident ","
//!                    "kind" "=" Ident "," "normal" "=" ("debit" | "credit") "}"
//! RateDecl      := "rate" Ident "from" Ident "to" Ident "=" Decimal "round" "down" ";"
//! TxnDecl       := "txn" String "{" Stmt* "}"
//! Stmt          := LetStmt | PairStmt | DebitStmt | AbsorbStmt
//! LetStmt       := "let" Ident "=" MoneyExpr ";"
//! PairStmt      := "let" "(" Ident "," Ident ")" "=" (ConvertCall | SplitCall | SplitRatioCall) ";"
//! ConvertCall   := "convert" "(" MoneyExpr "," Ident ")"
//! SplitCall     := "split" "(" MoneyExpr "," Decimal ")"
//! SplitRatioCall:= "split_ratio" "(" MoneyExpr "," WholeNumber "," WholeNumber ")"
//! DebitStmt     := "debit" "(" AccountPath "," MoneyExpr ")" ";"
//! AbsorbStmt    := "absorb" "(" Ident "," AccountPath ")" ";"
//! MoneyExpr     := CreditExpr | MergeExpr | Var
//! CreditExpr    := "credit" "(" AccountPath "," Decimal ")"
//! MergeExpr     := "merge" "(" MoneyExpr "," MoneyExpr ")"
//! Var           := Ident
//! AccountPath   := Ident (":" Ident)*
//! ```
//!
//! Declarations may appear in any order. `PairStmt`'s three call forms are
//! distinguished from `LetStmt`, and from each other, by lookahead only: `let`
//! followed by `(` is always a `PairStmt`, and the keyword right after `=` decides
//! which of the three it is. A `merge` chain may nest at most `MAX_MONEY_EXPR_DEPTH`
//! levels deep.
//!
//! **Error recovery.** A malformed `Decl` or `Stmt` does not abort the whole parse:
//! the module loop and the transaction-body loop each record the diagnostic and
//! resynchronise — at the next declaration keyword (or `Eof`), or after the next `;`
//! (or before the next `}` or statement keyword) — and go on. The malformed node is
//! discarded; `parse` returns no module whenever any diagnostic was recorded, so a file
//! with several independent syntax errors reports all of them in one run.
//!
//! The grammar is stated as patterns of tokens (`*_pats`): every successfully parsed
//! node is exactly the run of tokens its pattern describes.

pub mod ast;

use vstd::prelude::*;
use crate::diag::{code_spans, Code, Diagnostic};
use crate::lex::{tokens_wf, Tok, Token, TokenKind};
use crate::span::Span;
use crate::text::{chars_of, parse_u32, push_char, push_str, spec_parse_u32, string_eq};
use ast::{
    AccountDecl, AccountPath, CurrencyDecl, DecimalLiteral, Module, MoneyExpr, NormalBalance,
    RateDecl, Stmt, TxnDecl,
};

verus! {

/// How many `MoneyExpr`s deep a `merge(...)` chain may nest before parsing gives up
/// with a diagnostic instead of recursing further.
pub const MAX_MONEY_EXPR_DEPTH: u32 = 256;

/// One position of a grammar pattern: an exact token, or a whole number (a decimal
/// literal with no `.` whose value is the given `u32`).
pub enum Pat {
    Exact(Tok),
    Whole(u32),
}

pub open spec fn pat_matches(t: Tok, p: Pat) -> bool {
    match p {
        Pat::Exact(x) => t == x,
        Pat::Whole(v) => match t {
            Tok::Decimal(text) => !text.contains('.') && spec_parse_u32(text) == Some(v),
            _ => false,
        },
    }
}

pub open spec fn kinds(tokens: Seq<Token>, lo: int, hi: int) -> Seq<Tok> {
    tokens.subrange(lo, hi).map_values(|t: Token| t.kind@)
}

/// Tokens `lo..hi` are exactly the pattern `ps`.
pub open spec fn parsed_as(tokens: Seq<Token>, lo: int, hi: int, ps: Seq<Pat>) -> bool {
    &&& 0 <= lo <= hi <= tokens.len()
    &&& hi - lo == ps.len()
    &&& forall|i: int| 0 <= i < ps.len() ==> pat_matches(#[trigger] tokens[lo + i].kind@, ps[i])
}

pub proof fn lemma_parsed_concat(
    tokens: Seq<Token>,
    a: int,
    b: int,
    c: int,
    p: Seq<Pat>,
    q: Seq<Pat>,
)
    requires
        parsed_as(tokens, a, b, p),
        parsed_as(tokens, b, c, q),
    ensures
        parsed_as(tokens, a, c, p + q),
{
    assert forall|i: int| 0 <= i < (p + q).len() implies pat_matches(
        #[trigger] tokens[a + i].kind@,
        (p + q)[i],
    ) by {
        if i < p.len() {
            assert((p + q)[i] == p[i]);
        } else {
            assert((p + q)[i] == q[i - p.len()]);
            assert(tokens[b + (i - p.len())] == tokens[a + i]);
        }
    }
}

/// A match of `a + b` is a match of `a` followed by a match of `b`.
pub proof fn lemma_parsed_split(tokens: Seq<Token>, p: int, q: int, a: Seq<Pat>, b: Seq<Pat>)
    requires
        parsed_as(tokens, p, q, a + b),
    ensures
        parsed_as(tokens, p, p + a.len(), a),
        parsed_as(tokens, p + a.len(), q, b),
{
    assert forall|i: int| 0 <= i < a.len() implies pat_matches(#[trigger] tokens[p + i].kind@, a[i]) by {
        assert((a + b)[i] == a[i]);
    }
    assert forall|i: int| 0 <= i < b.len()
        implies pat_matches(#[trigger] tokens[p + a.len() + i].kind@, b[i]) by {
        assert((a + b)[a.len() + i] == b[i]);
        assert(tokens[p + (a.len() + i)] == tokens[p + a.len() + i]);
    }
}

/// A path's tokens alternate: its segments at even offsets, colons between them.
pub proof fn lemma_path_shape(tokens: Seq<Token>, p: int, q: int, segs: Seq<Seq<char>>)
    requires
        segs.len() >= 1,
        parsed_as(tokens, p, q, path_pats(segs)),
    ensures
        q == p + 2 * segs.len() - 1,
        forall|k: int| 0 <= k < segs.len() ==> #[trigger] tokens[p + 2 * k].kind@ == Tok::Ident(segs[k]),
        forall|k: int| 0 <= k < segs.len() - 1 ==> #[trigger] tokens[p + 2 * k + 1].kind@ == Tok::Colon,
    decreases segs.len(),
{
    if segs.len() == 1 {
        assert(tokens[p + 0].kind@ == Tok::Ident(segs[0]));
        assert forall|k: int| 0 <= k < segs.len()
            implies #[trigger] tokens[p + 2 * k].kind@ == Tok::Ident(segs[k]) by {
            assert(k == 0);
        }
    } else {
        let prev = segs.drop_last();
        let pp = path_pats(prev);
        lemma_parsed_split(tokens, p, q, pp + ex(Tok::Colon), ident_pats(segs.last()));
        lemma_parsed_split(tokens, p, p + pp.len() + 1, pp, ex(Tok::Colon));
        lemma_path_shape(tokens, p, p + pp.len(), prev);
        let m = p + pp.len();
        assert(tokens[m + 0].kind@ == Tok::Colon);
        assert(tokens[m + 1 + 0].kind@ == Tok::Ident(segs.last()));
        assert forall|k: int| 0 <= k < segs.len()
            implies #[trigger] tokens[p + 2 * k].kind@ == Tok::Ident(segs[k]) by {
            if k < prev.len() {
                assert(tokens[p + 2 * k].kind@ == Tok::Ident(prev[k]));
            }
        }
        assert forall|k: int| 0 <= k < segs.len() - 1
            implies #[trigger] tokens[p + 2 * k + 1].kind@ == Tok::Colon by {
            if k < prev.len() - 1 {
                assert(tokens[p + 2 * k + 1].kind@ == Tok::Colon);
            }
        }
    }
}

/// A path followed by something other than a colon is the longest path there: any
/// two such matches are the same.
pub proof fn lemma_path_unique(tokens: Seq<Token>, p: int, q1: int, s1: Seq<Seq<char>>, q2: int, s2: Seq<Seq<char>>)
    requires
        s1.len() >= 1,
        s2.len() >= 1,
        parsed_as(tokens, p, q1, path_pats(s1)),
        parsed_as(tokens, p, q2, path_pats(s2)),
        0 <= q1 < tokens.len() ==> tokens[q1].kind@ != Tok::Colon,
        0 <= q2 < tokens.len() ==> tokens[q2].kind@ != Tok::Colon,
    ensures
        q1 == q2,
        s1 == s2,
{
    lemma_path_shape(tokens, p, q1, s1);
    lemma_path_shape(tokens, p, q2, s2);
    if s1.len() < s2.len() {
        let k = s1.len() - 1;
        assert(tokens[p + 2 * k + 1].kind@ == Tok::Colon);
    } else if s2.len() < s1.len() {
        let k = s2.len() - 1;
        assert(tokens[p + 2 * k + 1].kind@ == Tok::Colon);
    }
    assert forall|k: int| 0 <= k < s1.len() implies s1[k] == s2[k] by {
        assert(tokens[p + 2 * k].kind@ == Tok::Ident(s1[k]));
        assert(tokens[p + 2 * k].kind@ == Tok::Ident(s2[k]));
    }
    assert(s1 =~= s2);
}

pub open spec fn ex(t: Tok) -> Seq<Pat> {
    seq![Pat::Exact(t)]
}

pub open spec fn ident_pats(name: Seq<char>) -> Seq<Pat> {
    ex(Tok::Ident(name))
}

/// `AccountPath := Ident (":" Ident)*`
pub open spec fn path_pats(segs: Seq<Seq<char>>) -> Seq<Pat>
    decreases segs.len(),
{
    if segs.len() <= 1 {
        if segs.len() == 0 {
            Seq::empty()
        } else {
            ident_pats(segs[0])
        }
    } else {
        path_pats(segs.drop_last()) + ex(Tok::Colon) + ident_pats(segs.last())
    }
}

/// `MoneyExpr := CreditExpr | MergeExpr | Var`
pub open spec fn money_pats(e: MoneyExpr) -> Seq<Pat>
    decreases e,
{
    match e {
        MoneyExpr::Credit { account, amount, .. } => ex(Tok::KwCredit) + ex(Tok::LParen)
            + path_pats(account.seg_views()) + ex(Tok::Comma) + ex(Tok::Decimal(amount.text@))
            + ex(Tok::RParen),
        MoneyExpr::Var { name, .. } => ident_pats(name@),
        MoneyExpr::Merge { a, b, .. } => ex(Tok::KwMerge) + ex(Tok::LParen) + money_pats(*a) + ex(
            Tok::Comma,
        ) + money_pats(*b) + ex(Tok::RParen),
    }
}

/// How many `merge`s deep an expression nests.
pub open spec fn money_nest(e: MoneyExpr) -> nat
    decreases e,
{
    match e {
        MoneyExpr::Merge { a, b, .. } => 1 + if money_nest(*a) >= money_nest(*b) {
            money_nest(*a)
        } else {
            money_nest(*b)
        },
        _ => 0,
    }
}

/// Every account path in the expression has a segment, as the grammar's do.
pub open spec fn money_paths_ok(e: MoneyExpr) -> bool
    decreases e,
{
    match e {
        MoneyExpr::Credit { account, .. } => account.seg_views().len() >= 1,
        MoneyExpr::Var { .. } => true,
        MoneyExpr::Merge { a, b, .. } => money_paths_ok(*a) && money_paths_ok(*b),
    }
}

/// What a matched `credit(...)` looks like token by token.
pub proof fn lemma_credit_shape(tokens: Seq<Token>, p: int, q: int, e: MoneyExpr)
    requires
        e is Credit,
        parsed_as(tokens, p, q, money_pats(e)),
    ensures
        ({
            let segs = e->Credit_account.seg_views();
            let m = p + 2 + path_pats(segs).len();
            &&& tokens[p].kind@ == Tok::KwCredit
            &&& tokens[p + 1].kind@ == Tok::LParen
            &&& parsed_as(tokens, p + 2, m, path_pats(segs))
            &&& tokens[m].kind@ == Tok::Comma
            &&& tokens[m + 1].kind@ == Tok::Decimal(e->Credit_amount.text@)
            &&& tokens[m + 2].kind@ == Tok::RParen
            &&& q == m + 3
        }),
{
    let segs = e->Credit_account.seg_views();
    let x1 = ex(Tok::KwCredit) + ex(Tok::LParen);
    let x2 = x1 + path_pats(segs);
    let x3 = x2 + ex(Tok::Comma);
    let x4 = x3 + ex(Tok::Decimal(e->Credit_amount.text@));
    lemma_parsed_split(tokens, p, q, x4, ex(Tok::RParen));
    lemma_parsed_split(tokens, p, p + x4.len(), x3, ex(Tok::Decimal(e->Credit_amount.text@)));
    lemma_parsed_split(tokens, p, p + x3.len(), x2, ex(Tok::Comma));
    lemma_parsed_split(tokens, p, p + x2.len(), x1, path_pats(segs));
    lemma_parsed_split(tokens, p, p + 2, ex(Tok::KwCredit), ex(Tok::LParen));
    assert(tokens[p + 0].kind@ == Tok::KwCredit);
    assert(tokens[p + 1 + 0].kind@ == Tok::LParen);
    assert(tokens[p + x2.len() + 0].kind@ == Tok::Comma);
    assert(tokens[p + x3.len() + 0].kind@ == Tok::Decimal(e->Credit_amount.text@));
    assert(tokens[p + x4.len() + 0].kind@ == Tok::RParen);
}

/// What a matched `merge(...)` looks like token by token.
pub proof fn lemma_merge_shape(tokens: Seq<Token>, p: int, q: int, e: MoneyExpr)
    requires
        e is Merge,
        parsed_as(tokens, p, q, money_pats(e)),
    ensures
        ({
            let a = *e->Merge_a;
            let b = *e->Merge_b;
            let m1 = p + 2 + money_pats(a).len();
            let m2 = m1 + 1 + money_pats(b).len();
            &&& tokens[p].kind@ == Tok::KwMerge
            &&& tokens[p + 1].kind@ == Tok::LParen
            &&& parsed_as(tokens, p + 2, m1, money_pats(a))
            &&& tokens[m1].kind@ == Tok::Comma
            &&& parsed_as(tokens, m1 + 1, m2, money_pats(b))
            &&& tokens[m2].kind@ == Tok::RParen
            &&& q == m2 + 1
        }),
{
    let a = *e->Merge_a;
    let b = *e->Merge_b;
    let x1 = ex(Tok::KwMerge) + ex(Tok::LParen);
    let x2 = x1 + money_pats(a);
    let x3 = x2 + ex(Tok::Comma);
    let x4 = x3 + money_pats(b);
    lemma_parsed_split(tokens, p, q, x4, ex(Tok::RParen));
    lemma_parsed_split(tokens, p, p + x4.len(), x3, money_pats(b));
    lemma_parsed_split(tokens, p, p + x3.len(), x2, ex(Tok::Comma));
    lemma_parsed_split(tokens, p, p + x2.len(), x1, money_pats(a));
    lemma_parsed_split(tokens, p, p + 2, ex(Tok::KwMerge), ex(Tok::LParen));
    assert(tokens[p + 0].kind@ == Tok::KwMerge);
    assert(tokens[p + 1 + 0].kind@ == Tok::LParen);
    assert(tokens[p + x2.len() + 0].kind@ == Tok::Comma);
    assert(tokens[p + x4.len() + 0].kind@ == Tok::RParen);
}

/// A matched expression's first token tells which kind of expression it is.
pub proof fn lemma_money_first(tokens: Seq<Token>, p: int, q: int, e: MoneyExpr)
    requires
        parsed_as(tokens, p, q, money_pats(e)),
    ensures
        p < q,
        e is Credit <==> tokens[p].kind@ == Tok::KwCredit,
        e is Merge <==> tokens[p].kind@ == Tok::KwMerge,
        e is Var <==> tokens[p].kind@ is Ident,
        e matches MoneyExpr::Var { name, .. } ==> tokens[p].kind@ == Tok::Ident(name@) && q == p + 1,
{
    match e {
        MoneyExpr::Credit { .. } => lemma_credit_shape(tokens, p, q, e),
        MoneyExpr::Merge { .. } => lemma_merge_shape(tokens, p, q, e),
        MoneyExpr::Var { name, .. } => {
            assert(tokens[p + 0].kind@ == Tok::Ident(name@));
        },
    }
}

/// `"(" a "," b ")" "="`, what every `PairStmt` has after its `let`.
pub open spec fn pair_head_pats(a: Seq<char>, b: Seq<char>) -> Seq<Pat> {
    ex(Tok::LParen) + ident_pats(a) + ex(Tok::Comma) + ident_pats(b) + ex(Tok::RParen) + ex(
        Tok::Eq,
    )
}

/// `"convert" "(" MoneyExpr "," Ident ")" ";"`
pub open spec fn convert_tail_pats(money: MoneyExpr, rate: Seq<char>) -> Seq<Pat> {
    ex(Tok::KwConvert) + ex(Tok::LParen) + money_pats(money) + ex(Tok::Comma) + ident_pats(rate)
        + ex(Tok::RParen) + ex(Tok::Semi)
}

/// `"split" "(" MoneyExpr "," Decimal ")" ";"`
pub open spec fn split_tail_pats(money: MoneyExpr, amount: Seq<char>) -> Seq<Pat> {
    ex(Tok::KwSplit) + ex(Tok::LParen) + money_pats(money) + ex(Tok::Comma) + ex(
        Tok::Decimal(amount),
    ) + ex(Tok::RParen) + ex(Tok::Semi)
}

/// `"split_ratio" "(" MoneyExpr "," WholeNumber "," WholeNumber ")" ";"`
pub open spec fn split_ratio_tail_pats(money: MoneyExpr, a_weight: u32, b_weight: u32) -> Seq<
    Pat,
> {
    ex(Tok::KwSplitRatio) + ex(Tok::LParen) + money_pats(money) + ex(Tok::Comma) + seq![
        Pat::Whole(a_weight),
    ] + ex(Tok::Comma) + seq![Pat::Whole(b_weight)] + ex(Tok::RParen) + ex(Tok::Semi)
}

/// What a matched `convert(...)` tail looks like token by token.
pub proof fn lemma_convert_shape(tokens: Seq<Token>, p: int, q: int, money: MoneyExpr, rate: Seq<char>)
    requires
        parsed_as(tokens, p, q, convert_tail_pats(money, rate)),
    ensures
        ({
            let m = p + 2 + money_pats(money).len();
            &&& tokens[p].kind@ == Tok::KwConvert
            &&& tokens[p + 1].kind@ == Tok::LParen
            &&& parsed_as(tokens, p + 2, m, money_pats(money))
            &&& tokens[m].kind@ == Tok::Comma
            &&& tokens[m + 1].kind@ == Tok::Ident(rate)
            &&& tokens[m + 2].kind@ == Tok::RParen
            &&& tokens[m + 3].kind@ == Tok::Semi
            &&& q == m + 4
        }),
{
    let x1 = ex(Tok::KwConvert) + ex(Tok::LParen);
    let x2 = x1 + money_pats(money);
    let x3 = x2 + ex(Tok::Comma);
    let x4 = x3 + ident_pats(rate);
    let x5 = x4 + ex(Tok::RParen);
    lemma_parsed_split(tokens, p, q, x5, ex(Tok::Semi));
    lemma_parsed_split(tokens, p, p + x5.len(), x4, ex(Tok::RParen));
    lemma_parsed_split(tokens, p, p + x4.len(), x3, ident_pats(rate));
    lemma_parsed_split(tokens, p, p + x3.len(), x2, ex(Tok::Comma));
    lemma_parsed_split(tokens, p, p + x2.len(), x1, money_pats(money));
    lemma_parsed_split(tokens, p, p + 2, ex(Tok::KwConvert), ex(Tok::LParen));
    assert(tokens[p + 0].kind@ == Tok::KwConvert);
    assert(tokens[p + 1 + 0].kind@ == Tok::LParen);
    assert(tokens[p + x2.len() + 0].kind@ == Tok::Comma);
    assert(tokens[p + x3.len() + 0].kind@ == Tok::Ident(rate));
    assert(tokens[p + x4.len() + 0].kind@ == Tok::RParen);
    assert(tokens[p + x5.len() + 0].kind@ == Tok::Semi);
}

/// What a matched `split(...)` tail looks like token by token.
pub proof fn lemma_split_shape(tokens: Seq<Token>, p: int, q: int, money: MoneyExpr, amount: Seq<char>)
    requires
        parsed_as(tokens, p, q, split_tail_pats(money, amount)),
    ensures
        ({
            let m = p + 2 + money_pats(money).len();
            &&& tokens[p].kind@ == Tok::KwSplit
            &&& tokens[p + 1].kind@ == Tok::LParen
            &&& parsed_as(tokens, p + 2, m, money_pats(money))
            &&& tokens[m].kind@ == Tok::Comma
            &&& tokens[m + 1].kind@ == Tok::Decimal(amount)
            &&& tokens[m + 2].kind@ == Tok::RParen
            &&& tokens[m + 3].kind@ == Tok::Semi
            &&& q == m + 4
        }),
{
    let x1 = ex(Tok::KwSplit) + ex(Tok::LParen);
    let x2 = x1 + money_pats(money);
    let x3 = x2 + ex(Tok::Comma);
    let x4 = x3 + ex(Tok::Decimal(amount));
    let x5 = x4 + ex(Tok::RParen);
    lemma_parsed_split(tokens, p, q, x5, ex(Tok::Semi));
    lemma_parsed_split(tokens, p, p + x5.len(), x4, ex(Tok::RParen));
    lemma_parsed_split(tokens, p, p + x4.len(), x3, ex(Tok::Decimal(amount)));
    lemma_parsed_split(tokens, p, p + x3.len(), x2, ex(Tok::Comma));
    lemma_parsed_split(tokens, p, p + x2.len(), x1, money_pats(money));
    lemma_parsed_split(tokens, p, p + 2, ex(Tok::KwSplit), ex(Tok::LParen));
    assert(tokens[p + 0].kind@ == Tok::KwSplit);
    assert(tokens[p + 1 + 0].kind@ == Tok::LParen);
    assert(tokens[p + x2.len() + 0].kind@ == Tok::Comma);
    assert(tokens[p + x3.len() + 0].kind@ == Tok::Decimal(amount));
    assert(tokens[p + x4.len() + 0].kind@ == Tok::RParen);
    assert(tokens[p + x5.len() + 0].kind@ == Tok::Semi);
}

/// What a matched `split_ratio(...)` tail looks like token by token.
pub proof fn lemma_split_ratio_shape(tokens: Seq<Token>, p: int, q: int, money: MoneyExpr, aw: u32, bw: u32)
    requires
        parsed_as(tokens, p, q, split_ratio_tail_pats(money, aw, bw)),
    ensures
        ({
            let m = p + 2 + money_pats(money).len();
            &&& tokens[p].kind@ == Tok::KwSplitRatio
            &&& tokens[p + 1].kind@ == Tok::LParen
            &&& parsed_as(tokens, p + 2, m, money_pats(money))
            &&& tokens[m].kind@ == Tok::Comma
            &&& pat_matches(tokens[m + 1].kind@, Pat::Whole(aw))
            &&& tokens[m + 2].kind@ == Tok::Comma
            &&& pat_matches(tokens[m + 3].kind@, Pat::Whole(bw))
            &&& tokens[m + 4].kind@ == Tok::RParen
            &&& tokens[m + 5].kind@ == Tok::Semi
            &&& q == m + 6
        }),
{
    let x1 = ex(Tok::KwSplitRatio) + ex(Tok::LParen);
    let x2 = x1 + money_pats(money);
    let x3 = x2 + ex(Tok::Comma);
    let x4 = x3 + seq![Pat::Whole(aw)];
    let x5 = x4 + ex(Tok::Comma);
    let x6 = x5 + seq![Pat::Whole(bw)];
    let x7 = x6 + ex(Tok::RParen);
    lemma_parsed_split(tokens, p, q, x7, ex(Tok::Semi));
    lemma_parsed_split(tokens, p, p + x7.len(), x6, ex(Tok::RParen));
    lemma_parsed_split(tokens, p, p + x6.len(), x5, seq![Pat::Whole(bw)]);
    lemma_parsed_split(tokens, p, p + x5.len(), x4, ex(Tok::Comma));
    lemma_parsed_split(tokens, p, p + x4.len(), x3, seq![Pat::Whole(aw)]);
    lemma_parsed_split(tokens, p, p + x3.len(), x2, ex(Tok::Comma));
    lemma_parsed_split(tokens, p, p + x2.len(), x1, money_pats(money));
    lemma_parsed_split(tokens, p, p + 2, ex(Tok::KwSplitRatio), ex(Tok::LParen));
    assert(tokens[p + 0].kind@ == Tok::KwSplitRatio);
    assert(tokens[p + 1 + 0].kind@ == Tok::LParen);
    assert(tokens[p + x2.len() + 0].kind@ == Tok::Comma);
    assert(pat_matches(tokens[p + x3.len() + 0].kind@, Pat::Whole(aw)));
    assert(tokens[p + x4.len() + 0].kind@ == Tok::Comma);
    assert(pat_matches(tokens[p + x5.len() + 0].kind@, Pat::Whole(bw)));
    assert(tokens[p + x6.len() + 0].kind@ == Tok::RParen);
    assert(tokens[p + x7.len() + 0].kind@ == Tok::Semi);
}

/// The two names a pair statement binds, first and second.
pub open spec fn pair_names(s: Stmt) -> (Seq<char>, Seq<char>) {
    match s {
        Stmt::Convert { primary_name, residual_name, .. } => (primary_name@, residual_name@),
        Stmt::Split { a_name, b_name, .. } => (a_name@, b_name@),
        Stmt::SplitRatio { a_name, b_name, .. } => (a_name@, b_name@),
        _ => (Seq::empty(), Seq::empty()),
    }
}

/// What a pair statement holds after its `=`.
pub open spec fn pair_tail_pats(s: Stmt) -> Seq<Pat> {
    match s {
        Stmt::Convert { money, rate, .. } => convert_tail_pats(money, rate@),
        Stmt::Split { money, amount, .. } => split_tail_pats(money, amount.text@),
        Stmt::SplitRatio { money, a_weight, b_weight, .. } => split_ratio_tail_pats(money, a_weight, b_weight),
        _ => Seq::empty(),
    }
}

/// A pair statement that the grammar can produce: the amount it divides nests within
/// the limit, and its account paths have segments.
pub open spec fn pair_stmt_ok(s: Stmt) -> bool {
    match s {
        Stmt::Convert { money, .. } | Stmt::Split { money, .. } | Stmt::SplitRatio { money, .. } => {
            money_paths_ok(money) && money_nest(money) < MAX_MONEY_EXPR_DEPTH
        },
        _ => false,
    }
}

/// What a matched pair statement looks like after its `let`, token by token.
pub proof fn lemma_pair_shape(tokens: Seq<Token>, p: int, q: int, s: Stmt)
    requires
        s is Convert || s is Split || s is SplitRatio,
        parsed_as(tokens, p, q, stmt_rest_pats(s)),
    ensures
        tokens[p].kind@ == Tok::LParen,
        tokens[p + 1].kind@ == Tok::Ident(pair_names(s).0),
        tokens[p + 2].kind@ == Tok::Comma,
        tokens[p + 3].kind@ == Tok::Ident(pair_names(s).1),
        tokens[p + 4].kind@ == Tok::RParen,
        tokens[p + 5].kind@ == Tok::Eq,
        parsed_as(tokens, p + 6, q, pair_tail_pats(s)),
        s is Convert ==> tokens[p + 6].kind@ == Tok::KwConvert,
        s is Split ==> tokens[p + 6].kind@ == Tok::KwSplit,
        s is SplitRatio ==> tokens[p + 6].kind@ == Tok::KwSplitRatio,
{
    let (a, b) = pair_names(s);
    let head = pair_head_pats(a, b);
    assert(stmt_rest_pats(s) == head + pair_tail_pats(s));
    lemma_parsed_split(tokens, p, q, head, pair_tail_pats(s));
    assert(head.len() == 6);
    assert(tokens[p + 0].kind@ == Tok::LParen) by { assert(head[0] == Pat::Exact(Tok::LParen)); }
    assert(tokens[p + 1].kind@ == Tok::Ident(a)) by { assert(head[1] == Pat::Exact(Tok::Ident(a))); }
    assert(tokens[p + 2].kind@ == Tok::Comma) by { assert(head[2] == Pat::Exact(Tok::Comma)); }
    assert(tokens[p + 3].kind@ == Tok::Ident(b)) by { assert(head[3] == Pat::Exact(Tok::Ident(b))); }
    assert(tokens[p + 4].kind@ == Tok::RParen) by { assert(head[4] == Pat::Exact(Tok::RParen)); }
    assert(tokens[p + 5].kind@ == Tok::Eq) by { assert(head[5] == Pat::Exact(Tok::Eq)); }
    match s {
        Stmt::Convert { money, rate, .. } => lemma_convert_shape(tokens, p + 6, q, money, rate@),
        Stmt::Split { money, amount, .. } => lemma_split_shape(tokens, p + 6, q, money, amount.text@),
        Stmt::SplitRatio { money, a_weight, b_weight, .. } => lemma_split_ratio_shape(
            tokens,
            p + 6,
            q,
            money,
            a_weight,
            b_weight,
        ),
        _ => {},
    }
}

/// The keyword a statement starts with.
pub open spec fn stmt_keyword(s: Stmt) -> Tok {
    match s {
        Stmt::Debit { .. } => Tok::KwDebit,
        Stmt::Absorb { .. } => Tok::KwAbsorb,
        _ => Tok::KwLet,
    }
}

/// Everything a statement holds after its first keyword.
pub open spec fn stmt_rest_pats(s: Stmt) -> Seq<Pat> {
    match s {
        Stmt::Let { name, value, .. } => ident_pats(name@) + ex(Tok::Eq) + money_pats(value) + ex(
            Tok::Semi,
        ),
        Stmt::Convert { primary_name, residual_name, money, rate, .. } => pair_head_pats(
            primary_name@,
            residual_name@,
        ) + convert_tail_pats(money, rate@),
        Stmt::Debit { account, value, .. } => ex(Tok::LParen) + path_pats(account.seg_views())
            + ex(Tok::Comma) + money_pats(value) + ex(Tok::RParen) + ex(Tok::Semi),
        Stmt::Absorb { residue_name, account, .. } => ex(Tok::LParen) + ident_pats(residue_name@)
            + ex(Tok::Comma) + path_pats(account.seg_views()) + ex(Tok::RParen) + ex(Tok::Semi),
        Stmt::Split { a_name, b_name, money, amount, .. } => pair_head_pats(a_name@, b_name@)
            + split_tail_pats(money, amount.text@),
        Stmt::SplitRatio { a_name, b_name, money, a_weight, b_weight, .. } => pair_head_pats(
            a_name@,
            b_name@,
        ) + split_ratio_tail_pats(money, a_weight, b_weight),
    }
}

/// `Stmt := LetStmt | PairStmt | DebitStmt | AbsorbStmt`
pub open spec fn stmt_pats(s: Stmt) -> Seq<Pat> {
    ex(stmt_keyword(s)) + stmt_rest_pats(s)
}

/// The statements' patterns, one after another.
pub open spec fn stmts_pats(ss: Seq<Stmt>) -> Seq<Pat>
    decreases ss.len(),
{
    if ss.len() == 0 {
        Seq::empty()
    } else {
        stmts_pats(ss.drop_last()) + stmt_pats(ss.last())
    }
}

/// `TxnDecl := "txn" String "{" Stmt* "}"`
pub open spec fn txn_pats(t: TxnDecl) -> Seq<Pat> {
    ex(Tok::KwTxn) + ex(Tok::Str(t.name@)) + ex(Tok::LBrace) + stmts_pats(t.stmts@) + ex(
        Tok::RBrace,
    )
}

/// `CurrencyDecl := "currency" Ident "{" "scale" "=" WholeNumber "}"`
pub open spec fn currency_pats(d: CurrencyDecl) -> Seq<Pat> {
    ex(Tok::KwCurrency) + ident_pats(d.name@) + ex(Tok::LBrace) + ex(Tok::KwScale) + ex(Tok::Eq)
        + seq![Pat::Whole(d.scale)] + ex(Tok::RBrace)
}

pub open spec fn normal_tok(n: NormalBalance) -> Tok {
    match n {
        NormalBalance::Debit => Tok::KwDebit,
        NormalBalance::Credit => Tok::KwCredit,
    }
}

/// `AccountDecl := "account" AccountPath "{" "currency" "=" Ident "," "kind" "=" Ident
/// "," "normal" "=" ("debit" | "credit") "}"`
pub open spec fn account_pats(d: AccountDecl) -> Seq<Pat> {
    ex(Tok::KwAccount) + path_pats(d.path.seg_views()) + ex(Tok::LBrace) + ex(Tok::KwCurrency)
        + ex(Tok::Eq) + ident_pats(d.currency@) + ex(Tok::Comma) + ex(Tok::KwKind) + ex(Tok::Eq)
        + ident_pats(d.kind@) + ex(Tok::Comma) + ex(Tok::KwNormal) + ex(Tok::Eq) + ex(
        normal_tok(d.normal),
    ) + ex(Tok::RBrace)
}

/// `RateDecl := "rate" Ident "from" Ident "to" Ident "=" Decimal "round" "down" ";"`
pub open spec fn rate_pats(d: RateDecl) -> Seq<Pat> {
    ex(Tok::KwRate) + ident_pats(d.name@) + ex(Tok::KwFrom) + ident_pats(d.from@) + ex(Tok::KwTo)
        + ident_pats(d.to@) + ex(Tok::Eq) + ex(Tok::Decimal(d.value.text@)) + ex(Tok::KwRound)
        + ex(Tok::KwDown) + ex(Tok::Semi)
}

/// Which of a module's four lists a declaration went to.
pub enum DeclKind {
    Currency,
    Account,
    Rate,
    Txn,
}

/// The patterns of a module's declarations, taken from its four lists in the order
/// `order` names them.
pub open spec fn decls_pats(
    cs: Seq<CurrencyDecl>,
    accts: Seq<AccountDecl>,
    rs: Seq<RateDecl>,
    ts: Seq<TxnDecl>,
    order: Seq<DeclKind>,
) -> Seq<Pat>
    decreases order.len(),
{
    if order.len() == 0 {
        Seq::empty()
    } else {
        let prev = order.drop_last();
        decls_pats(cs, accts, rs, ts, prev) + match order.last() {
            DeclKind::Currency => currency_pats(cs[count_kind(prev, DeclKind::Currency) as int]),
            DeclKind::Account => account_pats(accts[count_kind(prev, DeclKind::Account) as int]),
            DeclKind::Rate => rate_pats(rs[count_kind(prev, DeclKind::Rate) as int]),
            DeclKind::Txn => txn_pats(ts[count_kind(prev, DeclKind::Txn) as int]),
        }
    }
}

/// How many entries of `order` are `k`.
pub open spec fn count_kind(order: Seq<DeclKind>, k: DeclKind) -> nat
    decreases order.len(),
{
    if order.len() == 0 {
        0
    } else {
        count_kind(order.drop_last(), k) + if order.last() == k {
            1nat
        } else {
            0nat
        }
    }
}

/// Lists that only grew past what `order` uses give the same declaration patterns.
pub proof fn lemma_decls_pats_extend(
    cs: Seq<CurrencyDecl>,
    accts: Seq<AccountDecl>,
    rs: Seq<RateDecl>,
    ts: Seq<TxnDecl>,
    cs2: Seq<CurrencyDecl>,
    accts2: Seq<AccountDecl>,
    rs2: Seq<RateDecl>,
    ts2: Seq<TxnDecl>,
    order: Seq<DeclKind>,
)
    requires
        count_kind(order, DeclKind::Currency) <= cs.len() <= cs2.len(),
        count_kind(order, DeclKind::Account) <= accts.len() <= accts2.len(),
        count_kind(order, DeclKind::Rate) <= rs.len() <= rs2.len(),
        count_kind(order, DeclKind::Txn) <= ts.len() <= ts2.len(),
        forall|i: int| 0 <= i < cs.len() ==> cs2[i] == cs[i],
        forall|i: int| 0 <= i < accts.len() ==> accts2[i] == accts[i],
        forall|i: int| 0 <= i < rs.len() ==> rs2[i] == rs[i],
        forall|i: int| 0 <= i < ts.len() ==> ts2[i] == ts[i],
    ensures
        decls_pats(cs2, accts2, rs2, ts2, order) == decls_pats(cs, accts, rs, ts, order),
    decreases order.len(),
{
    if order.len() > 0 {
        let prev = order.drop_last();
        lemma_decls_pats_extend(cs, accts, rs, ts, cs2, accts2, rs2, ts2, prev);
        let k = order.last();
        assert(count_kind(order, k) == count_kind(prev, k) + 1);
        match k {
            DeclKind::Currency => assert(cs2[count_kind(prev, k) as int] == cs[count_kind(prev, k) as int]),
            DeclKind::Account => assert(accts2[count_kind(prev, k) as int] == accts[count_kind(prev, k) as int]),
            DeclKind::Rate => assert(rs2[count_kind(prev, k) as int] == rs[count_kind(prev, k) as int]),
            DeclKind::Txn => assert(ts2[count_kind(prev, k) as int] == ts[count_kind(prev, k) as int]),
        }
    }
}

/// One more declaration in `order` adds its pattern at the end.
pub proof fn lemma_decls_pats_push(
    cs: Seq<CurrencyDecl>,
    accts: Seq<AccountDecl>,
    rs: Seq<RateDecl>,
    ts: Seq<TxnDecl>,
    order: Seq<DeclKind>,
    k: DeclKind,
)
    ensures
        decls_pats(cs, accts, rs, ts, order.push(k)) == decls_pats(cs, accts, rs, ts, order)
            + match k {
            DeclKind::Currency => currency_pats(cs[count_kind(order, DeclKind::Currency) as int]),
            DeclKind::Account => account_pats(accts[count_kind(order, DeclKind::Account) as int]),
            DeclKind::Rate => rate_pats(rs[count_kind(order, DeclKind::Rate) as int]),
            DeclKind::Txn => txn_pats(ts[count_kind(order, DeclKind::Txn) as int]),
        },
        count_kind(order.push(k), DeclKind::Currency) == count_kind(order, DeclKind::Currency) + (
        if k == DeclKind::Currency {
            1int
        } else {
            0int
        }),
        count_kind(order.push(k), DeclKind::Account) == count_kind(order, DeclKind::Account) + (
        if k == DeclKind::Account {
            1int
        } else {
            0int
        }),
        count_kind(order.push(k), DeclKind::Rate) == count_kind(order, DeclKind::Rate) + (if k
            == DeclKind::Rate {
            1int
        } else {
            0int
        }),
        count_kind(order.push(k), DeclKind::Txn) == count_kind(order, DeclKind::Txn) + (if k
            == DeclKind::Txn {
            1int
        } else {
            0int
        }),
{
    assert(order.push(k).drop_last() =~= order);
}

/// `m`'s declarations, interleaved as `order` says, are exactly the tokens before the
/// final `Eof`.
pub open spec fn module_parsed_as(tokens: Seq<Token>, m: Module, order: Seq<DeclKind>) -> bool {
    &&& count_kind(order, DeclKind::Currency) == m.currencies@.len()
    &&& count_kind(order, DeclKind::Account) == m.accounts@.len()
    &&& count_kind(order, DeclKind::Rate) == m.rates@.len()
    &&& count_kind(order, DeclKind::Txn) == m.txns@.len()
    &&& parsed_as(
        tokens,
        0,
        tokens.len() - 1,
        decls_pats(m.currencies@, m.accounts@, m.rates@, m.txns@, order),
    )
}


/// Tokens `p + a .. p + b` match the corresponding slice of a matched pattern.
pub proof fn lemma_parsed_sub(tokens: Seq<Token>, p: int, q: int, ps: Seq<Pat>, a: int, b: int)
    requires
        parsed_as(tokens, p, q, ps),
        0 <= a <= b <= ps.len(),
    ensures
        parsed_as(tokens, p + a, p + b, ps.subrange(a, b)),
{
    assert forall|i: int| 0 <= i < b - a implies pat_matches(
        #[trigger] tokens[p + a + i].kind@,
        ps.subrange(a, b)[i],
    ) by {
        assert(tokens[p + (a + i)] == tokens[p + a + i]);
    }
}

/// The statements' patterns run on from those of any prefix of them.
pub proof fn lemma_stmts_pats_prefix(ss: Seq<Stmt>, j: int)
    requires
        0 <= j <= ss.len(),
    ensures
        stmts_pats(ss.take(j)).len() <= stmts_pats(ss).len(),
        stmts_pats(ss).subrange(0, stmts_pats(ss.take(j)).len() as int) == stmts_pats(ss.take(j)),
    decreases ss.len(),
{
    if j == ss.len() {
        assert(ss.take(j) =~= ss);
        assert(stmts_pats(ss).subrange(0, stmts_pats(ss).len() as int) =~= stmts_pats(ss));
    } else {
        lemma_stmts_pats_prefix(ss.drop_last(), j);
        assert(ss.drop_last().take(j) =~= ss.take(j));
        let a = stmts_pats(ss.drop_last());
        let n = stmts_pats(ss.take(j)).len() as int;
        assert((a + stmt_pats(ss.last())).subrange(0, n) =~= a.subrange(0, n));
    }
}

/// The declarations' patterns run on from those of any prefix of the order.
pub proof fn lemma_decls_pats_prefix(
    cs: Seq<CurrencyDecl>,
    accts: Seq<AccountDecl>,
    rs: Seq<RateDecl>,
    ts: Seq<TxnDecl>,
    order: Seq<DeclKind>,
    j: int,
)
    requires
        0 <= j <= order.len(),
    ensures
        decls_pats(cs, accts, rs, ts, order.take(j)).len() <= decls_pats(cs, accts, rs, ts, order).len(),
        decls_pats(cs, accts, rs, ts, order).subrange(
            0,
            decls_pats(cs, accts, rs, ts, order.take(j)).len() as int,
        ) == decls_pats(cs, accts, rs, ts, order.take(j)),
        count_kind(order.take(j), DeclKind::Currency) <= count_kind(order, DeclKind::Currency),
        count_kind(order.take(j), DeclKind::Account) <= count_kind(order, DeclKind::Account),
        count_kind(order.take(j), DeclKind::Rate) <= count_kind(order, DeclKind::Rate),
        count_kind(order.take(j), DeclKind::Txn) <= count_kind(order, DeclKind::Txn),
    decreases order.len(),
{
    let full = decls_pats(cs, accts, rs, ts, order);
    if j == order.len() {
        assert(order.take(j) =~= order);
        assert(full.subrange(0, full.len() as int) =~= full);
    } else {
        lemma_decls_pats_prefix(cs, accts, rs, ts, order.drop_last(), j);
        assert(order.drop_last().take(j) =~= order.take(j));
        let a = decls_pats(cs, accts, rs, ts, order.drop_last());
        let n = decls_pats(cs, accts, rs, ts, order.take(j)).len() as int;
        assert(full.subrange(0, n) =~= a.subrange(0, n));
    }
}

/// A statement the grammar can produce: its account paths have segments, and its
/// amount expressions nest within the limit.
pub open spec fn stmt_ok(s: Stmt) -> bool {
    match s {
        Stmt::Let { value, .. } => money_paths_ok(value) && money_nest(value) < MAX_MONEY_EXPR_DEPTH,
        Stmt::Debit { account, value, .. } => account.seg_views().len() >= 1 && money_paths_ok(value)
            && money_nest(value) < MAX_MONEY_EXPR_DEPTH,
        Stmt::Absorb { account, .. } => account.seg_views().len() >= 1,
        _ => pair_stmt_ok(s),
    }
}

/// A pair statement as the grammar shapes it, but whose amount nests past the limit.
pub open spec fn pair_stmt_too_deep(s: Stmt) -> bool {
    match s {
        Stmt::Convert { money, .. } | Stmt::Split { money, .. } | Stmt::SplitRatio { money, .. } => {
            money_paths_ok(money) && money_nest(money) >= MAX_MONEY_EXPR_DEPTH
        },
        _ => false,
    }
}

/// A statement as the grammar shapes it, but whose amount (a `let`'s or `debit`'s
/// value, or what a pair statement divides) nests past the limit.
pub open spec fn stmt_too_deep(s: Stmt) -> bool {
    match s {
        Stmt::Let { value, .. } => money_paths_ok(value) && money_nest(value) >= MAX_MONEY_EXPR_DEPTH,
        Stmt::Debit { account, value, .. } => account.seg_views().len() >= 1 && money_paths_ok(value)
            && money_nest(value) >= MAX_MONEY_EXPR_DEPTH,
        Stmt::Absorb { .. } => false,
        _ => pair_stmt_too_deep(s),
    }
}

/// Statement `j` is the first one the grammar cannot take: those before it are ones it
/// produces, and `j`'s amount nests past the limit.
pub open spec fn deep_at(ss: Seq<Stmt>, j: int) -> bool {
    &&& 0 <= j < ss.len()
    &&& stmt_too_deep(ss[j])
    &&& forall|i: int| 0 <= i < j ==> stmt_ok(#[trigger] ss[i])
}

/// Declaration `i` of `m`, taken in `order`, is as the grammar produces it: an
/// account's path has a segment, and a transaction's statements are all ones the
/// grammar produces.
pub open spec fn decl_ok(m: Module, order: Seq<DeclKind>, i: int) -> bool {
    let ci = count_kind(order.take(i), order[i]) as int;
    match order[i] {
        DeclKind::Account => m.accounts@[ci].path.seg_views().len() >= 1,
        DeclKind::Txn => txn_ok(m.txns@[ci]),
        _ => true,
    }
}

/// Declaration `k` of `m`, taken in `order`, is the first the grammar cannot take: the
/// ones before it are as it produces them, and `k` is a transaction one of whose
/// statements nests an amount past the limit, after statements the grammar produces.
pub open spec fn module_deep_at(m: Module, order: Seq<DeclKind>, k: int) -> bool {
    &&& 0 <= k < order.len()
    &&& order[k] == DeclKind::Txn
    &&& exists|j: int| deep_at(m.txns@[count_kind(order.take(k), DeclKind::Txn) as int].stmts@, j)
    &&& forall|i: int| 0 <= i < k ==> decl_ok(m, order, i)
}

/// A transaction whose statements the grammar can all produce.
pub open spec fn txn_ok(t: TxnDecl) -> bool {
    forall|i: int| 0 <= i < t.stmts@.len() ==> stmt_ok(#[trigger] t.stmts@[i])
}

/// A module the grammar can produce: every account path has a segment, and every
/// transaction's statements are ones the grammar produces. The parser accepts exactly
/// the token streams that match such a module.
pub open spec fn module_ok(m: Module) -> bool {
    &&& forall|i: int| 0 <= i < m.accounts@.len() ==> (#[trigger] m.accounts@[i]).path.seg_views().len() >= 1
    &&& forall|i: int| 0 <= i < m.txns@.len() ==> txn_ok(#[trigger] m.txns@[i])
}

/// The `k`-th statement of a matched list sits right after the first `k`.
pub proof fn lemma_stmts_nth(tokens: Seq<Token>, p: int, q: int, ss: Seq<Stmt>, k: int)
    requires
        parsed_as(tokens, p, q, stmts_pats(ss)),
        0 <= k < ss.len(),
    ensures
        ({
            let a = p + stmts_pats(ss.take(k)).len();
            let b = p + stmts_pats(ss.take(k + 1)).len();
            &&& parsed_as(tokens, a, b, stmt_pats(ss[k]))
            &&& b <= q
            &&& tokens[a].kind@ == stmt_keyword(ss[k])
        }),
{
    lemma_stmts_pats_prefix(ss, k + 1);
    assert(ss.take(k + 1).drop_last() =~= ss.take(k));
    assert(ss.take(k + 1).last() == ss[k]);
    let full = stmts_pats(ss);
    let na = stmts_pats(ss.take(k)).len() as int;
    let nb = stmts_pats(ss.take(k + 1)).len() as int;
    assert(stmts_pats(ss.take(k + 1)) == stmts_pats(ss.take(k)) + stmt_pats(ss[k]));
    assert(full.subrange(na, nb) =~= stmt_pats(ss[k])) by {
        assert(full.subrange(0, nb) == stmts_pats(ss.take(k)) + stmt_pats(ss[k]));
        assert forall|i: int| 0 <= i < nb - na implies full.subrange(na, nb)[i] == stmt_pats(ss[k])[i] by {
            assert(full.subrange(0, nb)[na + i] == full[na + i]);
        }
    }
    lemma_parsed_sub(tokens, p, q, full, na, nb);
    assert(stmt_pats(ss[k])[0] == Pat::Exact(stmt_keyword(ss[k])));
    assert(tokens[p + na + 0].kind@ == stmt_keyword(ss[k]));
}

/// Where declaration `k` of `m`, taken in `order`, starts: after the first `k`.
pub open spec fn decl_offset(m: Module, order: Seq<DeclKind>, k: int) -> int {
    decls_pats(m.currencies@, m.accounts@, m.rates@, m.txns@, order.take(k)).len() as int
}

/// Declaration `k` of `m`, taken in `order`, is matched by tokens `a..b`, and `a` holds
/// its keyword.
pub open spec fn decl_at(tokens: Seq<Token>, m: Module, order: Seq<DeclKind>, k: int, a: int, b: int) -> bool {
    let ci = count_kind(order.take(k), order[k]) as int;
    match order[k] {
        DeclKind::Currency => ci < m.currencies@.len() && parsed_as(tokens, a, b, currency_pats(m.currencies@[ci]))
            && tokens[a].kind@ == Tok::KwCurrency,
        DeclKind::Account => ci < m.accounts@.len() && parsed_as(tokens, a, b, account_pats(m.accounts@[ci]))
            && tokens[a].kind@ == Tok::KwAccount,
        DeclKind::Rate => ci < m.rates@.len() && parsed_as(tokens, a, b, rate_pats(m.rates@[ci]))
            && tokens[a].kind@ == Tok::KwRate,
        DeclKind::Txn => ci < m.txns@.len() && parsed_as(tokens, a, b, txn_pats(m.txns@[ci]))
            && tokens[a].kind@ == Tok::KwTxn,
    }
}

/// Declaration `k` of a matched module sits right after the first `k`.
pub proof fn lemma_decls_nth(tokens: Seq<Token>, m: Module, order: Seq<DeclKind>, k: int)
    requires
        module_parsed_as(tokens, m, order),
        0 <= k < order.len(),
    ensures
        decl_at(tokens, m, order, k, decl_offset(m, order, k), decl_offset(m, order, k + 1)),
        decl_offset(m, order, k + 1) < tokens.len(),
{
    let (cs, accts, rs, ts) = (m.currencies@, m.accounts@, m.rates@, m.txns@);
    lemma_decls_pats_prefix(cs, accts, rs, ts, order, k + 1);
    let o1 = order.take(k + 1);
    assert(o1.drop_last() =~= order.take(k));
    assert(o1.last() == order[k]);
    let full = decls_pats(cs, accts, rs, ts, order);
    let pre = decls_pats(cs, accts, rs, ts, order.take(k));
    let cur = decls_pats(cs, accts, rs, ts, o1);
    let piece = match order[k] {
        DeclKind::Currency => currency_pats(cs[count_kind(order.take(k), DeclKind::Currency) as int]),
        DeclKind::Account => account_pats(accts[count_kind(order.take(k), DeclKind::Account) as int]),
        DeclKind::Rate => rate_pats(rs[count_kind(order.take(k), DeclKind::Rate) as int]),
        DeclKind::Txn => txn_pats(ts[count_kind(order.take(k), DeclKind::Txn) as int]),
    };
    assert(cur == pre + piece);
    let na = pre.len() as int;
    let nb = cur.len() as int;
    assert(full.subrange(na, nb) =~= piece) by {
        assert forall|i: int| 0 <= i < nb - na implies full.subrange(na, nb)[i] == piece[i] by {
            assert(full.subrange(0, nb)[na + i] == full[na + i]);
        }
    }
    lemma_parsed_sub(tokens, 0, tokens.len() - 1, full, na, nb);
    assert(tokens[0 + na + 0] == tokens[na]);
    match order[k] {
        DeclKind::Currency => assert(piece[0] == Pat::Exact(Tok::KwCurrency)),
        DeclKind::Account => assert(piece[0] == Pat::Exact(Tok::KwAccount)),
        DeclKind::Rate => assert(piece[0] == Pat::Exact(Tok::KwRate)),
        DeclKind::Txn => assert(piece[0] == Pat::Exact(Tok::KwTxn)),
    }
}

/// How far a transaction body is parsed: `k` statements read, the parser at `pos`,
/// `clean` while no diagnostic was added, `deep` once the first added one says an
/// expression is too deep. Where the transaction from `p0` matches a well-formed one,
/// the parse is clean and at the end of its first `k` statements; where its first
/// unparsable statement nests too deep, the parse is clean up to it or has reported it.
#[verifier::opaque]
pub open spec fn body_progress(t: Seq<Token>, p0: int, k: int, pos: int, clean: bool, deep: bool) -> bool {
    &&& forall|tx: TxnDecl, q: int| #![trigger txn_pats(tx), parsed_as(t, p0, q, txn_pats(tx))]
        txn_ok(tx) && parsed_as(t, p0, q, txn_pats(tx)) ==> clean && k <= tx.stmts@.len() && pos == p0
            + 3 + stmts_pats(tx.stmts@.take(k)).len()
    &&& forall|tx: TxnDecl, j: int, q: int| #![trigger deep_at(tx.stmts@, j), parsed_as(t, p0, q, txn_pats(tx))]
        deep_at(tx.stmts@, j) && parsed_as(t, p0, q, txn_pats(tx)) ==> (clean && k <= j && pos == p0 + 3
            + stmts_pats(tx.stmts@.take(k)).len()) || deep
}

/// Under a body's progress, the parser is not at the end of the tokens.
pub proof fn lemma_body_progress_not_eof(t: Seq<Token>, p0: int, k: int, pos: int, clean: bool, deep: bool)
    requires
        body_progress(t, p0, k, pos, clean, deep),
        0 <= k,
        t[pos].kind@ == Tok::Eof,
    ensures
        forall|tx: TxnDecl, q: int| !(txn_ok(tx) && #[trigger] parsed_as(t, p0, q, txn_pats(tx))),
        forall|tx: TxnDecl, j: int, q: int|
            #[trigger] deep_at(tx.stmts@, j) && #[trigger] parsed_as(t, p0, q, txn_pats(tx)) ==> deep,
{
    reveal(body_progress);
    assert forall|tx: TxnDecl, q: int| !(txn_ok(tx) && #[trigger] parsed_as(t, p0, q, txn_pats(tx))) by {
        if txn_ok(tx) && parsed_as(t, p0, q, txn_pats(tx)) {
            assert(clean && k <= tx.stmts@.len() && pos == p0 + 3 + stmts_pats(tx.stmts@.take(k)).len());
            lemma_txn_shape(t, p0, q, tx);
            let ss = tx.stmts@;
            if k == ss.len() {
                assert(ss.take(k) =~= ss);
            } else {
                lemma_stmts_nth(t, p0 + 3, p0 + 3 + stmts_pats(ss).len(), ss, k);
            }
        }
    }
    assert forall|tx: TxnDecl, j: int, q: int|
        #[trigger] deep_at(tx.stmts@, j) && #[trigger] parsed_as(t, p0, q, txn_pats(tx)) implies deep by {
        assert((clean && k <= j && pos == p0 + 3 + stmts_pats(tx.stmts@.take(k)).len()) || deep);
        if !deep {
            lemma_txn_shape(t, p0, q, tx);
            let ss = tx.stmts@;
            lemma_stmts_nth(t, p0 + 3, p0 + 3 + stmts_pats(ss).len(), ss, k);
        }
    }
}

/// One more statement read keeps a body's progress.
pub proof fn lemma_body_progress_step(
    t: Seq<Token>,
    p0: int,
    k: int,
    pos: int,
    clean: bool,
    deep: bool,
    pos2: int,
    same: bool,
    deep_now: bool,
)
    requires
        body_progress(t, p0, k, pos, clean, deep),
        0 <= k,
        t[pos].kind@ != Tok::RBrace,
        forall|s: Stmt, q: int| stmt_ok(s) && #[trigger] parsed_as(t, pos, q, stmt_pats(s)) ==> same && pos2 == q,
        forall|s: Stmt, q: int| stmt_too_deep(s) && #[trigger] parsed_as(t, pos, q, stmt_pats(s)) ==> deep_now,
        deep_now ==> !same,
        !(clean && deep),
    ensures
        body_progress(t, p0, if same { k + 1 } else { k }, pos2, clean && same, if clean && !same {
            deep_now
        } else {
            deep
        }),
{
    reveal(body_progress);
    let k2 = if same { k + 1 } else { k };
    let clean2 = clean && same;
    let deep2 = if clean && !same { deep_now } else { deep };
    assert forall|tx: TxnDecl, q: int| #![trigger txn_pats(tx), parsed_as(t, p0, q, txn_pats(tx))]
        txn_ok(tx) && parsed_as(t, p0, q, txn_pats(tx)) implies clean2 && k2 <= tx.stmts@.len() && pos2
        == p0 + 3 + stmts_pats(tx.stmts@.take(k2)).len() by {
        assert(clean && k <= tx.stmts@.len() && pos == p0 + 3 + stmts_pats(tx.stmts@.take(k)).len());
        lemma_txn_shape(t, p0, q, tx);
        let ss = tx.stmts@;
        if k == ss.len() {
            assert(ss.take(k) =~= ss);
        } else {
            lemma_stmts_nth(t, p0 + 3, p0 + 3 + stmts_pats(ss).len(), ss, k);
            assert(stmt_ok(ss[k]));
            assert(parsed_as(t, pos, p0 + 3 + stmts_pats(ss.take(k + 1)).len(), stmt_pats(ss[k])));
        }
    }
    assert forall|tx: TxnDecl, j: int, q: int| #![trigger deep_at(tx.stmts@, j), parsed_as(t, p0, q, txn_pats(tx))]
        deep_at(tx.stmts@, j) && parsed_as(t, p0, q, txn_pats(tx)) implies (clean2 && k2 <= j && pos2 == p0
        + 3 + stmts_pats(tx.stmts@.take(k2)).len()) || deep2 by {
        assert((clean && k <= j && pos == p0 + 3 + stmts_pats(tx.stmts@.take(k)).len()) || deep);
        if clean && k <= j && pos == p0 + 3 + stmts_pats(tx.stmts@.take(k)).len() {
            lemma_txn_shape(t, p0, q, tx);
            let ss = tx.stmts@;
            lemma_stmts_nth(t, p0 + 3, p0 + 3 + stmts_pats(ss).len(), ss, k);
            let b = p0 + 3 + stmts_pats(ss.take(k + 1)).len();
            assert(parsed_as(t, pos, b, stmt_pats(ss[k])));
            if k < j {
                assert(stmt_ok(ss[k]));
            } else {
                assert(stmt_too_deep(ss[k]));
            }
        }
    }
}

/// At the body's `}`: a well-formed transaction ends right after it, and one whose
/// first unparsable statement nests too deep has reported it.
pub proof fn lemma_body_progress_end(t: Seq<Token>, p0: int, k: int, pos: int, clean: bool, deep: bool)
    requires
        body_progress(t, p0, k, pos, clean, deep),
        0 <= k,
        t[pos].kind@ == Tok::RBrace,
    ensures
        forall|tx: TxnDecl, q: int|
            txn_ok(tx) && #[trigger] parsed_as(t, p0, q, txn_pats(tx)) ==> clean && pos + 1 == q,
        forall|tx: TxnDecl, j: int, q: int|
            #[trigger] deep_at(tx.stmts@, j) && #[trigger] parsed_as(t, p0, q, txn_pats(tx)) ==> deep,
{
    reveal(body_progress);
    assert forall|tx: TxnDecl, q: int|
        txn_ok(tx) && #[trigger] parsed_as(t, p0, q, txn_pats(tx)) implies clean && pos + 1 == q by {
        assert(clean && k <= tx.stmts@.len() && pos == p0 + 3 + stmts_pats(tx.stmts@.take(k)).len());
        lemma_txn_shape(t, p0, q, tx);
        let ss = tx.stmts@;
        if k < ss.len() {
            lemma_stmts_nth(t, p0 + 3, p0 + 3 + stmts_pats(ss).len(), ss, k);
        } else {
            assert(ss.take(k) =~= ss);
        }
    }
    assert forall|tx: TxnDecl, j: int, q: int|
        #[trigger] deep_at(tx.stmts@, j) && #[trigger] parsed_as(t, p0, q, txn_pats(tx)) implies deep by {
        assert((clean && k <= j && pos == p0 + 3 + stmts_pats(tx.stmts@.take(k)).len()) || deep);
        if !deep {
            lemma_txn_shape(t, p0, q, tx);
            let ss = tx.stmts@;
            lemma_stmts_nth(t, p0 + 3, p0 + 3 + stmts_pats(ss).len(), ss, k);
        }
    }
}

/// What a matched `let name = value;` looks like token by token.
pub proof fn lemma_let_shape(tokens: Seq<Token>, p: int, q: int, s: Stmt)
    requires
        s is Let,
        parsed_as(tokens, p, q, stmt_pats(s)),
    ensures
        q <= tokens.len(),
        ({
            let o1 = p + 1;
            let o2 = o1 + 1;
            let o3 = o2 + 1;
            let o4 = o3 + money_pats(s->Let_value).len();
            let o5 = o4 + 1;
            &&& tokens[p].kind@ == Tok::KwLet
            &&& tokens[o1].kind@ == Tok::Ident(s->Let_name@)
            &&& tokens[o2].kind@ == Tok::Eq
            &&& parsed_as(tokens, o3, o4, money_pats(s->Let_value))
            &&& tokens[o4].kind@ == Tok::Semi
            &&& q == o5
        }),
{
    let x1 = ex(Tok::KwLet);
    let x2 = x1 + ex(Tok::Ident(s->Let_name@));
    let x3 = x2 + ex(Tok::Eq);
    let x4 = x3 + money_pats(s->Let_value);
    let x5 = x4 + ex(Tok::Semi);
    assert(stmt_pats(s) =~= x5);
    lemma_parsed_split(tokens, p, q, x4, ex(Tok::Semi));
    lemma_parsed_split(tokens, p, p + x4.len(), x3, money_pats(s->Let_value));
    lemma_parsed_split(tokens, p, p + x3.len(), x2, ex(Tok::Eq));
    lemma_parsed_split(tokens, p, p + x2.len(), x1, ex(Tok::Ident(s->Let_name@)));
    assert(tokens[p + 0].kind@ == Tok::KwLet);
    assert(tokens[p + x1.len() + 0].kind@ == Tok::Ident(s->Let_name@));
    assert(tokens[p + x2.len() + 0].kind@ == Tok::Eq);
    assert(tokens[p + x4.len() + 0].kind@ == Tok::Semi);
}

/// What a matched `debit(account, value);` looks like token by token.
pub proof fn lemma_debit_shape(tokens: Seq<Token>, p: int, q: int, s: Stmt)
    requires
        s is Debit,
        parsed_as(tokens, p, q, stmt_pats(s)),
    ensures
        q <= tokens.len(),
        ({
            let o1 = p + 1;
            let o2 = o1 + 1;
            let o3 = o2 + path_pats(s->Debit_account.seg_views()).len();
            let o4 = o3 + 1;
            let o5 = o4 + money_pats(s->Debit_value).len();
            let o6 = o5 + 1;
            let o7 = o6 + 1;
            &&& tokens[p].kind@ == Tok::KwDebit
            &&& tokens[o1].kind@ == Tok::LParen
            &&& parsed_as(tokens, o2, o3, path_pats(s->Debit_account.seg_views()))
            &&& tokens[o3].kind@ == Tok::Comma
            &&& parsed_as(tokens, o4, o5, money_pats(s->Debit_value))
            &&& tokens[o5].kind@ == Tok::RParen
            &&& tokens[o6].kind@ == Tok::Semi
            &&& q == o7
        }),
{
    let x1 = ex(Tok::KwDebit);
    let x2 = x1 + ex(Tok::LParen);
    let x3 = x2 + path_pats(s->Debit_account.seg_views());
    let x4 = x3 + ex(Tok::Comma);
    let x5 = x4 + money_pats(s->Debit_value);
    let x6 = x5 + ex(Tok::RParen);
    let x7 = x6 + ex(Tok::Semi);
    assert(stmt_pats(s) =~= x7);
    lemma_parsed_split(tokens, p, q, x6, ex(Tok::Semi));
    lemma_parsed_split(tokens, p, p + x6.len(), x5, ex(Tok::RParen));
    lemma_parsed_split(tokens, p, p + x5.len(), x4, money_pats(s->Debit_value));
    lemma_parsed_split(tokens, p, p + x4.len(), x3, ex(Tok::Comma));
    lemma_parsed_split(tokens, p, p + x3.len(), x2, path_pats(s->Debit_account.seg_views()));
    lemma_parsed_split(tokens, p, p + x2.len(), x1, ex(Tok::LParen));
    assert(tokens[p + 0].kind@ == Tok::KwDebit);
    assert(tokens[p + x1.len() + 0].kind@ == Tok::LParen);
    assert(tokens[p + x3.len() + 0].kind@ == Tok::Comma);
    assert(tokens[p + x5.len() + 0].kind@ == Tok::RParen);
    assert(tokens[p + x6.len() + 0].kind@ == Tok::Semi);
}

/// What a matched `absorb(residue, account);` looks like token by token.
pub proof fn lemma_absorb_shape(tokens: Seq<Token>, p: int, q: int, s: Stmt)
    requires
        s is Absorb,
        parsed_as(tokens, p, q, stmt_pats(s)),
    ensures
        q <= tokens.len(),
        ({
            let o1 = p + 1;
            let o2 = o1 + 1;
            let o3 = o2 + 1;
            let o4 = o3 + 1;
            let o5 = o4 + path_pats(s->Absorb_account.seg_views()).len();
            let o6 = o5 + 1;
            let o7 = o6 + 1;
            &&& tokens[p].kind@ == Tok::KwAbsorb
            &&& tokens[o1].kind@ == Tok::LParen
            &&& tokens[o2].kind@ == Tok::Ident(s->Absorb_residue_name@)
            &&& tokens[o3].kind@ == Tok::Comma
            &&& parsed_as(tokens, o4, o5, path_pats(s->Absorb_account.seg_views()))
            &&& tokens[o5].kind@ == Tok::RParen
            &&& tokens[o6].kind@ == Tok::Semi
            &&& q == o7
        }),
{
    let x1 = ex(Tok::KwAbsorb);
    let x2 = x1 + ex(Tok::LParen);
    let x3 = x2 + ex(Tok::Ident(s->Absorb_residue_name@));
    let x4 = x3 + ex(Tok::Comma);
    let x5 = x4 + path_pats(s->Absorb_account.seg_views());
    let x6 = x5 + ex(Tok::RParen);
    let x7 = x6 + ex(Tok::Semi);
    assert(stmt_pats(s) =~= x7);
    lemma_parsed_split(tokens, p, q, x6, ex(Tok::Semi));
    lemma_parsed_split(tokens, p, p + x6.len(), x5, ex(Tok::RParen));
    lemma_parsed_split(tokens, p, p + x5.len(), x4, path_pats(s->Absorb_account.seg_views()));
    lemma_parsed_split(tokens, p, p + x4.len(), x3, ex(Tok::Comma));
    lemma_parsed_split(tokens, p, p + x3.len(), x2, ex(Tok::Ident(s->Absorb_residue_name@)));
    lemma_parsed_split(tokens, p, p + x2.len(), x1, ex(Tok::LParen));
    assert(tokens[p + 0].kind@ == Tok::KwAbsorb);
    assert(tokens[p + x1.len() + 0].kind@ == Tok::LParen);
    assert(tokens[p + x2.len() + 0].kind@ == Tok::Ident(s->Absorb_residue_name@));
    assert(tokens[p + x3.len() + 0].kind@ == Tok::Comma);
    assert(tokens[p + x5.len() + 0].kind@ == Tok::RParen);
    assert(tokens[p + x6.len() + 0].kind@ == Tok::Semi);
}

/// What a matched currency declaration looks like token by token.
pub proof fn lemma_currency_shape(tokens: Seq<Token>, p: int, q: int, d: CurrencyDecl)
    requires
        parsed_as(tokens, p, q, currency_pats(d)),
    ensures
        q <= tokens.len(),
        ({
            let o1 = p + 1;
            let o2 = o1 + 1;
            let o3 = o2 + 1;
            let o4 = o3 + 1;
            let o5 = o4 + 1;
            let o6 = o5 + 1;
            let o7 = o6 + 1;
            &&& tokens[p].kind@ == Tok::KwCurrency
            &&& tokens[o1].kind@ == Tok::Ident(d.name@)
            &&& tokens[o2].kind@ == Tok::LBrace
            &&& tokens[o3].kind@ == Tok::KwScale
            &&& tokens[o4].kind@ == Tok::Eq
            &&& pat_matches(tokens[o5].kind@, Pat::Whole(d.scale))
            &&& tokens[o6].kind@ == Tok::RBrace
            &&& q == o7
        }),
{
    let x1 = ex(Tok::KwCurrency);
    let x2 = x1 + ex(Tok::Ident(d.name@));
    let x3 = x2 + ex(Tok::LBrace);
    let x4 = x3 + ex(Tok::KwScale);
    let x5 = x4 + ex(Tok::Eq);
    let x6 = x5 + seq![Pat::Whole(d.scale)];
    let x7 = x6 + ex(Tok::RBrace);
    assert(currency_pats(d) =~= x7);
    lemma_parsed_split(tokens, p, q, x6, ex(Tok::RBrace));
    lemma_parsed_split(tokens, p, p + x6.len(), x5, seq![Pat::Whole(d.scale)]);
    lemma_parsed_split(tokens, p, p + x5.len(), x4, ex(Tok::Eq));
    lemma_parsed_split(tokens, p, p + x4.len(), x3, ex(Tok::KwScale));
    lemma_parsed_split(tokens, p, p + x3.len(), x2, ex(Tok::LBrace));
    lemma_parsed_split(tokens, p, p + x2.len(), x1, ex(Tok::Ident(d.name@)));
    assert(tokens[p + 0].kind@ == Tok::KwCurrency);
    assert(tokens[p + x1.len() + 0].kind@ == Tok::Ident(d.name@));
    assert(tokens[p + x2.len() + 0].kind@ == Tok::LBrace);
    assert(tokens[p + x3.len() + 0].kind@ == Tok::KwScale);
    assert(tokens[p + x4.len() + 0].kind@ == Tok::Eq);
    assert(pat_matches(tokens[p + x5.len() + 0].kind@, Pat::Whole(d.scale)));
    assert(tokens[p + x6.len() + 0].kind@ == Tok::RBrace);
}

/// What a matched account declaration looks like token by token.
pub proof fn lemma_account_shape(tokens: Seq<Token>, p: int, q: int, d: AccountDecl)
    requires
        parsed_as(tokens, p, q, account_pats(d)),
    ensures
        q <= tokens.len(),
        ({
            let o1 = p + 1;
            let o2 = o1 + path_pats(d.path.seg_views()).len();
            let o3 = o2 + 1;
            let o4 = o3 + 1;
            let o5 = o4 + 1;
            let o6 = o5 + 1;
            let o7 = o6 + 1;
            let o8 = o7 + 1;
            let o9 = o8 + 1;
            let o10 = o9 + 1;
            let o11 = o10 + 1;
            let o12 = o11 + 1;
            let o13 = o12 + 1;
            let o14 = o13 + 1;
            let o15 = o14 + 1;
            &&& tokens[p].kind@ == Tok::KwAccount
            &&& parsed_as(tokens, o1, o2, path_pats(d.path.seg_views()))
            &&& tokens[o2].kind@ == Tok::LBrace
            &&& tokens[o3].kind@ == Tok::KwCurrency
            &&& tokens[o4].kind@ == Tok::Eq
            &&& tokens[o5].kind@ == Tok::Ident(d.currency@)
            &&& tokens[o6].kind@ == Tok::Comma
            &&& tokens[o7].kind@ == Tok::KwKind
            &&& tokens[o8].kind@ == Tok::Eq
            &&& tokens[o9].kind@ == Tok::Ident(d.kind@)
            &&& tokens[o10].kind@ == Tok::Comma
            &&& tokens[o11].kind@ == Tok::KwNormal
            &&& tokens[o12].kind@ == Tok::Eq
            &&& tokens[o13].kind@ == normal_tok(d.normal)
            &&& tokens[o14].kind@ == Tok::RBrace
            &&& q == o15
        }),
{
    let x1 = ex(Tok::KwAccount);
    let x2 = x1 + path_pats(d.path.seg_views());
    let x3 = x2 + ex(Tok::LBrace);
    let x4 = x3 + ex(Tok::KwCurrency);
    let x5 = x4 + ex(Tok::Eq);
    let x6 = x5 + ex(Tok::Ident(d.currency@));
    let x7 = x6 + ex(Tok::Comma);
    let x8 = x7 + ex(Tok::KwKind);
    let x9 = x8 + ex(Tok::Eq);
    let x10 = x9 + ex(Tok::Ident(d.kind@));
    let x11 = x10 + ex(Tok::Comma);
    let x12 = x11 + ex(Tok::KwNormal);
    let x13 = x12 + ex(Tok::Eq);
    let x14 = x13 + ex(normal_tok(d.normal));
    let x15 = x14 + ex(Tok::RBrace);
    assert(account_pats(d) =~= x15);
    lemma_parsed_split(tokens, p, q, x14, ex(Tok::RBrace));
    lemma_parsed_split(tokens, p, p + x14.len(), x13, ex(normal_tok(d.normal)));
    lemma_parsed_split(tokens, p, p + x13.len(), x12, ex(Tok::Eq));
    lemma_parsed_split(tokens, p, p + x12.len(), x11, ex(Tok::KwNormal));
    lemma_parsed_split(tokens, p, p + x11.len(), x10, ex(Tok::Comma));
    lemma_parsed_split(tokens, p, p + x10.len(), x9, ex(Tok::Ident(d.kind@)));
    lemma_parsed_split(tokens, p, p + x9.len(), x8, ex(Tok::Eq));
    lemma_parsed_split(tokens, p, p + x8.len(), x7, ex(Tok::KwKind));
    lemma_parsed_split(tokens, p, p + x7.len(), x6, ex(Tok::Comma));
    lemma_parsed_split(tokens, p, p + x6.len(), x5, ex(Tok::Ident(d.currency@)));
    lemma_parsed_split(tokens, p, p + x5.len(), x4, ex(Tok::Eq));
    lemma_parsed_split(tokens, p, p + x4.len(), x3, ex(Tok::KwCurrency));
    lemma_parsed_split(tokens, p, p + x3.len(), x2, ex(Tok::LBrace));
    lemma_parsed_split(tokens, p, p + x2.len(), x1, path_pats(d.path.seg_views()));
    assert(tokens[p + 0].kind@ == Tok::KwAccount);
    assert(tokens[p + x2.len() + 0].kind@ == Tok::LBrace);
    assert(tokens[p + x3.len() + 0].kind@ == Tok::KwCurrency);
    assert(tokens[p + x4.len() + 0].kind@ == Tok::Eq);
    assert(tokens[p + x5.len() + 0].kind@ == Tok::Ident(d.currency@));
    assert(tokens[p + x6.len() + 0].kind@ == Tok::Comma);
    assert(tokens[p + x7.len() + 0].kind@ == Tok::KwKind);
    assert(tokens[p + x8.len() + 0].kind@ == Tok::Eq);
    assert(tokens[p + x9.len() + 0].kind@ == Tok::Ident(d.kind@));
    assert(tokens[p + x10.len() + 0].kind@ == Tok::Comma);
    assert(tokens[p + x11.len() + 0].kind@ == Tok::KwNormal);
    assert(tokens[p + x12.len() + 0].kind@ == Tok::Eq);
    assert(tokens[p + x13.len() + 0].kind@ == normal_tok(d.normal));
    assert(tokens[p + x14.len() + 0].kind@ == Tok::RBrace);
}

/// What a matched rate declaration looks like token by token.
pub proof fn lemma_rate_shape(tokens: Seq<Token>, p: int, q: int, d: RateDecl)
    requires
        parsed_as(tokens, p, q, rate_pats(d)),
    ensures
        q <= tokens.len(),
        ({
            let o1 = p + 1;
            let o2 = o1 + 1;
            let o3 = o2 + 1;
            let o4 = o3 + 1;
            let o5 = o4 + 1;
            let o6 = o5 + 1;
            let o7 = o6 + 1;
            let o8 = o7 + 1;
            let o9 = o8 + 1;
            let o10 = o9 + 1;
            let o11 = o10 + 1;
            &&& tokens[p].kind@ == Tok::KwRate
            &&& tokens[o1].kind@ == Tok::Ident(d.name@)
            &&& tokens[o2].kind@ == Tok::KwFrom
            &&& tokens[o3].kind@ == Tok::Ident(d.from@)
            &&& tokens[o4].kind@ == Tok::KwTo
            &&& tokens[o5].kind@ == Tok::Ident(d.to@)
            &&& tokens[o6].kind@ == Tok::Eq
            &&& tokens[o7].kind@ == Tok::Decimal(d.value.text@)
            &&& tokens[o8].kind@ == Tok::KwRound
            &&& tokens[o9].kind@ == Tok::KwDown
            &&& tokens[o10].kind@ == Tok::Semi
            &&& q == o11
        }),
{
    let x1 = ex(Tok::KwRate);
    let x2 = x1 + ex(Tok::Ident(d.name@));
    let x3 = x2 + ex(Tok::KwFrom);
    let x4 = x3 + ex(Tok::Ident(d.from@));
    let x5 = x4 + ex(Tok::KwTo);
    let x6 = x5 + ex(Tok::Ident(d.to@));
    let x7 = x6 + ex(Tok::Eq);
    let x8 = x7 + ex(Tok::Decimal(d.value.text@));
    let x9 = x8 + ex(Tok::KwRound);
    let x10 = x9 + ex(Tok::KwDown);
    let x11 = x10 + ex(Tok::Semi);
    assert(rate_pats(d) =~= x11);
    lemma_parsed_split(tokens, p, q, x10, ex(Tok::Semi));
    lemma_parsed_split(tokens, p, p + x10.len(), x9, ex(Tok::KwDown));
    lemma_parsed_split(tokens, p, p + x9.len(), x8, ex(Tok::KwRound));
    lemma_parsed_split(tokens, p, p + x8.len(), x7, ex(Tok::Decimal(d.value.text@)));
    lemma_parsed_split(tokens, p, p + x7.len(), x6, ex(Tok::Eq));
    lemma_parsed_split(tokens, p, p + x6.len(), x5, ex(Tok::Ident(d.to@)));
    lemma_parsed_split(tokens, p, p + x5.len(), x4, ex(Tok::KwTo));
    lemma_parsed_split(tokens, p, p + x4.len(), x3, ex(Tok::Ident(d.from@)));
    lemma_parsed_split(tokens, p, p + x3.len(), x2, ex(Tok::KwFrom));
    lemma_parsed_split(tokens, p, p + x2.len(), x1, ex(Tok::Ident(d.name@)));
    assert(tokens[p + 0].kind@ == Tok::KwRate);
    assert(tokens[p + x1.len() + 0].kind@ == Tok::Ident(d.name@));
    assert(tokens[p + x2.len() + 0].kind@ == Tok::KwFrom);
    assert(tokens[p + x3.len() + 0].kind@ == Tok::Ident(d.from@));
    assert(tokens[p + x4.len() + 0].kind@ == Tok::KwTo);
    assert(tokens[p + x5.len() + 0].kind@ == Tok::Ident(d.to@));
    assert(tokens[p + x6.len() + 0].kind@ == Tok::Eq);
    assert(tokens[p + x7.len() + 0].kind@ == Tok::Decimal(d.value.text@));
    assert(tokens[p + x8.len() + 0].kind@ == Tok::KwRound);
    assert(tokens[p + x9.len() + 0].kind@ == Tok::KwDown);
    assert(tokens[p + x10.len() + 0].kind@ == Tok::Semi);
}

/// What a matched transaction looks like token by token.
pub proof fn lemma_txn_shape(tokens: Seq<Token>, p: int, q: int, d: TxnDecl)
    requires
        parsed_as(tokens, p, q, txn_pats(d)),
    ensures
        q <= tokens.len(),
        ({
            let o1 = p + 1;
            let o2 = o1 + 1;
            let o3 = o2 + 1;
            let o4 = o3 + stmts_pats(d.stmts@).len();
            let o5 = o4 + 1;
            &&& tokens[p].kind@ == Tok::KwTxn
            &&& tokens[o1].kind@ == Tok::Str(d.name@)
            &&& tokens[o2].kind@ == Tok::LBrace
            &&& parsed_as(tokens, o3, o4, stmts_pats(d.stmts@))
            &&& tokens[o4].kind@ == Tok::RBrace
            &&& q == o5
        }),
{
    let x1 = ex(Tok::KwTxn);
    let x2 = x1 + ex(Tok::Str(d.name@));
    let x3 = x2 + ex(Tok::LBrace);
    let x4 = x3 + stmts_pats(d.stmts@);
    let x5 = x4 + ex(Tok::RBrace);
    assert(txn_pats(d) =~= x5);
    lemma_parsed_split(tokens, p, q, x4, ex(Tok::RBrace));
    lemma_parsed_split(tokens, p, p + x4.len(), x3, stmts_pats(d.stmts@));
    lemma_parsed_split(tokens, p, p + x3.len(), x2, ex(Tok::LBrace));
    lemma_parsed_split(tokens, p, p + x2.len(), x1, ex(Tok::Str(d.name@)));
    assert(tokens[p + 0].kind@ == Tok::KwTxn);
    assert(tokens[p + x1.len() + 0].kind@ == Tok::Str(d.name@));
    assert(tokens[p + x2.len() + 0].kind@ == Tok::LBrace);
    assert(tokens[p + x4.len() + 0].kind@ == Tok::RBrace);
}

// ---------------------------------------------------------------------------------
// Where each part of a parsed module lies

/// The smallest span covering both `x` and `y`, as `Span::to` joins them.
pub open spec fn joined(x: Span, y: Span) -> Span {
    Span {
        lo: if x.lo <= y.lo {
            x.lo
        } else {
            y.lo
        },
        hi: if x.hi >= y.hi {
            x.hi
        } else {
            y.hi
        },
    }
}

/// From token `a` through token `b`.
pub open spec fn cover(t: Seq<Token>, a: int, b: int) -> Span {
    joined(t[a].span, t[b].span)
}

/// The span of a path of `n` segments starting at token `p`: its segments joined in turn.
pub open spec fn path_span_at(t: Seq<Token>, p: int, n: nat) -> Span
    decreases n,
{
    if n <= 1 {
        t[p].span
    } else {
        joined(path_span_at(t, p, (n - 1) as nat), t[p + 2 * (n - 1)].span)
    }
}

/// A path read from token `p` carries the span of its segments.
pub open spec fn path_spans_ok(t: Seq<Token>, p: int, a: AccountPath) -> bool {
    a.span == path_span_at(t, p, a.seg_views().len())
}

/// A money expression read from token `p` carries its tokens' spans: each part its own,
/// each whole from its first token through its last.
pub open spec fn money_spans_ok(t: Seq<Token>, p: int, e: MoneyExpr) -> bool
    decreases e,
{
    let last = p + money_pats(e).len() - 1;
    match e {
        MoneyExpr::Credit { account, amount, span } => {
            &&& path_spans_ok(t, p + 2, account)
            &&& amount.span == t[p + 2 + path_pats(account.seg_views()).len() + 1].span
            &&& span == cover(t, p, last)
        },
        MoneyExpr::Var { span, .. } => span == t[p].span,
        MoneyExpr::Merge { a, b, span } => {
            &&& money_spans_ok(t, p + 2, *a)
            &&& money_spans_ok(t, p + 2 + money_pats(*a).len() + 1, *b)
            &&& span == cover(t, p, last)
        },
    }
}

/// A statement read from token `p` (its first keyword) carries its tokens' spans.
pub open spec fn stmt_spans_ok(t: Seq<Token>, p: int, s: Stmt) -> bool {
    let last = p + stmt_pats(s).len() - 1;
    match s {
        Stmt::Let { name_span, value, span, .. } => {
            &&& name_span == t[p + 1].span
            &&& money_spans_ok(t, p + 3, value)
            &&& span == cover(t, p, last)
        },
        Stmt::Debit { account, value, span } => {
            &&& path_spans_ok(t, p + 2, account)
            &&& money_spans_ok(t, p + 2 + path_pats(account.seg_views()).len() + 1, value)
            &&& span == cover(t, p, last)
        },
        Stmt::Absorb { residue_span, account, span, .. } => {
            &&& residue_span == t[p + 2].span
            &&& path_spans_ok(t, p + 4, account)
            &&& span == cover(t, p, last)
        },
        Stmt::Convert { primary_span, residual_span, money, rate_span, span, .. } => {
            &&& primary_span == t[p + 2].span
            &&& residual_span == t[p + 4].span
            &&& money_spans_ok(t, p + 9, money)
            &&& rate_span == t[p + 9 + money_pats(money).len() + 1].span
            &&& span == cover(t, p, last)
        },
        Stmt::Split { a_span, b_span, money, amount, span, .. } => {
            &&& a_span == t[p + 2].span
            &&& b_span == t[p + 4].span
            &&& money_spans_ok(t, p + 9, money)
            &&& amount.span == t[p + 9 + money_pats(money).len() + 1].span
            &&& span == cover(t, p, last)
        },
        Stmt::SplitRatio { a_span, b_span, money, a_weight_span, b_weight_span, span, .. } => {
            &&& a_span == t[p + 2].span
            &&& b_span == t[p + 4].span
            &&& money_spans_ok(t, p + 9, money)
            &&& a_weight_span == t[p + 9 + money_pats(money).len() + 1].span
            &&& b_weight_span == t[p + 9 + money_pats(money).len() + 3].span
            &&& span == cover(t, p, last)
        },
    }
}

/// Statements read one after another from token `p` carry their tokens' spans.
pub open spec fn stmts_spans_ok(t: Seq<Token>, p: int, ss: Seq<Stmt>) -> bool
    decreases ss.len(),
{
    if ss.len() == 0 {
        true
    } else {
        stmts_spans_ok(t, p, ss.drop_last()) && stmt_spans_ok(
            t,
            p + stmts_pats(ss.drop_last()).len(),
            ss.last(),
        )
    }
}

pub open spec fn currency_spans_ok(t: Seq<Token>, p: int, d: CurrencyDecl) -> bool {
    &&& d.name_span == t[p + 1].span
    &&& d.scale_span == t[p + 5].span
    &&& d.span == cover(t, p, p + 6)
}

pub open spec fn account_spans_ok(t: Seq<Token>, p: int, d: AccountDecl) -> bool {
    let m = p + 1 + path_pats(d.path.seg_views()).len();
    &&& path_spans_ok(t, p + 1, d.path)
    &&& d.currency_span == t[m + 3].span
    &&& d.kind_span == t[m + 7].span
    &&& d.normal_span == t[m + 11].span
    &&& d.span == cover(t, p, m + 12)
}

pub open spec fn rate_spans_ok(t: Seq<Token>, p: int, d: RateDecl) -> bool {
    &&& d.name_span == t[p + 1].span
    &&& d.from_span == t[p + 3].span
    &&& d.to_span == t[p + 5].span
    &&& d.value.span == t[p + 7].span
    &&& d.span == cover(t, p, p + 10)
}

pub open spec fn txn_spans_ok(t: Seq<Token>, p: int, d: TxnDecl) -> bool {
    &&& stmts_spans_ok(t, p + 3, d.stmts@)
    &&& d.span == cover(t, p, p + txn_pats(d).len() - 1)
}

/// Declaration `k` of the module made of these lists, taken in `order`, carries its
/// tokens' spans.
pub open spec fn decl_spans_at(
    t: Seq<Token>,
    cs: Seq<CurrencyDecl>,
    accts: Seq<AccountDecl>,
    rs: Seq<RateDecl>,
    ts: Seq<TxnDecl>,
    order: Seq<DeclKind>,
    k: int,
) -> bool {
    let ci = count_kind(order.take(k), order[k]) as int;
    let a = decls_pats(cs, accts, rs, ts, order.take(k)).len() as int;
    match order[k] {
        DeclKind::Currency => currency_spans_ok(t, a, cs[ci]),
        DeclKind::Account => account_spans_ok(t, a, accts[ci]),
        DeclKind::Rate => rate_spans_ok(t, a, rs[ci]),
        DeclKind::Txn => txn_spans_ok(t, a, ts[ci]),
    }
}

/// Every declaration of `m`, taken in `order`, carries its tokens' spans: each name,
/// path, amount and whole from its first token through its last.
pub open spec fn module_spans_ok(t: Seq<Token>, m: Module, order: Seq<DeclKind>) -> bool {
    forall|k: int|
        0 <= k < order.len() ==> #[trigger] decl_spans_at(
            t,
            m.currencies@,
            m.accounts@,
            m.rates@,
            m.txns@,
            order,
            k,
        )
}

pub open spec fn describe_spec(t: Tok) -> Seq<char> {
    match t {
        Tok::KwTxn => "'txn'"@,
        Tok::KwLet => "'let'"@,
        Tok::KwDebit => "'debit'"@,
        Tok::KwCredit => "'credit'"@,
        Tok::KwCurrency => "'currency'"@,
        Tok::KwAccount => "'account'"@,
        Tok::KwScale => "'scale'"@,
        Tok::KwKind => "'kind'"@,
        Tok::KwNormal => "'normal'"@,
        Tok::KwRate => "'rate'"@,
        Tok::KwFrom => "'from'"@,
        Tok::KwTo => "'to'"@,
        Tok::KwRound => "'round'"@,
        Tok::KwDown => "'down'"@,
        Tok::KwConvert => "'convert'"@,
        Tok::KwAbsorb => "'absorb'"@,
        Tok::KwSplit => "'split'"@,
        Tok::KwSplitRatio => "'split_ratio'"@,
        Tok::KwMerge => "'merge'"@,
        Tok::Ident(s) => "identifier '"@ + s + "'"@,
        Tok::Decimal(s) => "number '"@ + s + "'"@,
        Tok::Str(s) => "string \""@ + s + "\""@,
        Tok::LParen => "'('"@,
        Tok::RParen => "')'"@,
        Tok::LBrace => "'{'"@,
        Tok::RBrace => "'}'"@,
        Tok::Comma => "','"@,
        Tok::Colon => "':'"@,
        Tok::Semi => "';'"@,
        Tok::Eq => "'='"@,
        Tok::Eof => "end of input"@,
    }
}

/// How a token is named in a diagnostic.
pub fn describe(kind: &TokenKind) -> (s: String)
    ensures
        s@ == describe_spec(kind@),
{
    match kind {
        TokenKind::KwTxn => String::from_str("'txn'"),
        TokenKind::KwLet => String::from_str("'let'"),
        TokenKind::KwDebit => String::from_str("'debit'"),
        TokenKind::KwCredit => String::from_str("'credit'"),
        TokenKind::KwCurrency => String::from_str("'currency'"),
        TokenKind::KwAccount => String::from_str("'account'"),
        TokenKind::KwScale => String::from_str("'scale'"),
        TokenKind::KwKind => String::from_str("'kind'"),
        TokenKind::KwNormal => String::from_str("'normal'"),
        TokenKind::KwRate => String::from_str("'rate'"),
        TokenKind::KwFrom => String::from_str("'from'"),
        TokenKind::KwTo => String::from_str("'to'"),
        TokenKind::KwRound => String::from_str("'round'"),
        TokenKind::KwDown => String::from_str("'down'"),
        TokenKind::KwConvert => String::from_str("'convert'"),
        TokenKind::KwAbsorb => String::from_str("'absorb'"),
        TokenKind::KwSplit => String::from_str("'split'"),
        TokenKind::KwSplitRatio => String::from_str("'split_ratio'"),
        TokenKind::KwMerge => String::from_str("'merge'"),
        TokenKind::Ident(s) => {
            let mut out = String::from_str("identifier '");
            push_str(&mut out, s.as_str());
            push_str(&mut out, "'");
            out
        },
        TokenKind::Decimal(s) => {
            let mut out = String::from_str("number '");
            push_str(&mut out, s.as_str());
            push_str(&mut out, "'");
            out
        },
        TokenKind::Str(s) => {
            let mut out = String::from_str("string \"");
            push_str(&mut out, s.as_str());
            push_str(&mut out, "\"");
            out
        },
        TokenKind::LParen => String::from_str("'('"),
        TokenKind::RParen => String::from_str("')'"),
        TokenKind::LBrace => String::from_str("'{'"),
        TokenKind::RBrace => String::from_str("'}'"),
        TokenKind::Comma => String::from_str("','"),
        TokenKind::Colon => String::from_str("':'"),
        TokenKind::Semi => String::from_str("';'"),
        TokenKind::Eq => String::from_str("'='"),
        TokenKind::Eof => String::from_str("end of input"),
    }
}

/// A small tag per token variant, for comparing kinds.
pub open spec fn tok_tag(t: Tok) -> u8 {
    match t {
        Tok::KwTxn => 0,
        Tok::KwLet => 1,
        Tok::KwDebit => 2,
        Tok::KwCredit => 3,
        Tok::KwCurrency => 4,
        Tok::KwAccount => 5,
        Tok::KwScale => 6,
        Tok::KwKind => 7,
        Tok::KwNormal => 8,
        Tok::KwRate => 9,
        Tok::KwFrom => 10,
        Tok::KwTo => 11,
        Tok::KwRound => 12,
        Tok::KwDown => 13,
        Tok::KwConvert => 14,
        Tok::KwAbsorb => 15,
        Tok::KwSplit => 16,
        Tok::KwSplitRatio => 17,
        Tok::KwMerge => 18,
        Tok::Ident(_) => 19,
        Tok::Decimal(_) => 20,
        Tok::Str(_) => 21,
        Tok::LParen => 22,
        Tok::RParen => 23,
        Tok::LBrace => 24,
        Tok::RBrace => 25,
        Tok::Comma => 26,
        Tok::Colon => 27,
        Tok::Semi => 28,
        Tok::Eq => 29,
        Tok::Eof => 30,
    }
}

fn tag_of(k: &TokenKind) -> (r: u8)
    ensures
        r == tok_tag(k@),
{
    match k {
        TokenKind::KwTxn => 0,
        TokenKind::KwLet => 1,
        TokenKind::KwDebit => 2,
        TokenKind::KwCredit => 3,
        TokenKind::KwCurrency => 4,
        TokenKind::KwAccount => 5,
        TokenKind::KwScale => 6,
        TokenKind::KwKind => 7,
        TokenKind::KwNormal => 8,
        TokenKind::KwRate => 9,
        TokenKind::KwFrom => 10,
        TokenKind::KwTo => 11,
        TokenKind::KwRound => 12,
        TokenKind::KwDown => 13,
        TokenKind::KwConvert => 14,
        TokenKind::KwAbsorb => 15,
        TokenKind::KwSplit => 16,
        TokenKind::KwSplitRatio => 17,
        TokenKind::KwMerge => 18,
        TokenKind::Ident(_) => 19,
        TokenKind::Decimal(_) => 20,
        TokenKind::Str(_) => 21,
        TokenKind::LParen => 22,
        TokenKind::RParen => 23,
        TokenKind::LBrace => 24,
        TokenKind::RBrace => 25,
        TokenKind::Comma => 26,
        TokenKind::Colon => 27,
        TokenKind::Semi => 28,
        TokenKind::Eq => 29,
        TokenKind::Eof => 30,
    }
}

/// Two token kinds are the same kind with the same text.
pub fn kind_eq(a: &TokenKind, b: &TokenKind) -> (r: bool)
    ensures
        r == (a@ == b@),
{
    match a {
        TokenKind::Ident(x) => match b {
            TokenKind::Ident(y) => string_eq(x, y),
            _ => false,
        },
        TokenKind::Decimal(x) => match b {
            TokenKind::Decimal(y) => string_eq(x, y),
            _ => false,
        },
        TokenKind::Str(x) => match b {
            TokenKind::Str(y) => string_eq(x, y),
            _ => false,
        },
        _ => {
            let r = tag_of(a) == tag_of(b);
            proof {
                lemma_tag_determines(a@, b@);
            }
            r
        },
    }
}

/// Two kinds without text are equal exactly when their tags are.
proof fn lemma_tag_determines(a: Tok, b: Tok)
    requires
        !(a is Ident),
        !(a is Decimal),
        !(a is Str),
    ensures
        (tok_tag(a) == tok_tag(b)) == (a == b),
{
}

/// Where `advance` leaves the position: one token on, except at the last token.
pub open spec fn next_pos(tokens: Seq<Token>, pos: int) -> int {
    if pos + 1 < tokens.len() {
        pos + 1
    } else {
        pos
    }
}

// ---------------------------------------------------------------------------------
// Where parsing stops, and what it reports

/// Where one parsing step ends: `Ok(q)` when it matched the tokens before `q`; or
/// `Err((code, span, q))` when it reports `code` at `span`, with the parser left at `q`.
pub type ParseStep = Result<int, (Code, Span, int)>;

/// `s`, then, from where it ended, `next`.
pub open spec fn and_then(s: ParseStep, next: spec_fn(int) -> ParseStep) -> ParseStep {
    match s {
        Ok(q) => next(q),
        Err(e) => Err(e),
    }
}

/// The report for token `p` where it does not fit: the end, or an unexpected token.
pub open spec fn unexpected_at(t: Seq<Token>, p: int) -> (Code, Span, int) {
    (
        if t[p].kind@ == Tok::Eof {
            Code::ParseUnexpectedEof
        } else {
            Code::ParseUnexpectedToken
        },
        t[p].span,
        p,
    )
}

pub open spec fn exact_step(t: Seq<Token>, p: int, k: Tok) -> ParseStep {
    if t[p].kind@ == k {
        Ok(p + 1)
    } else {
        Err(unexpected_at(t, p))
    }
}

pub open spec fn ident_step(t: Seq<Token>, p: int) -> ParseStep {
    if t[p].kind@ is Ident {
        Ok(p + 1)
    } else {
        Err(unexpected_at(t, p))
    }
}

pub open spec fn decimal_step(t: Seq<Token>, p: int) -> ParseStep {
    if t[p].kind@ is Decimal {
        Ok(p + 1)
    } else {
        Err(unexpected_at(t, p))
    }
}

/// A whole number: a decimal with no `.`; one too large for a `u32` is reported after
/// it is read.
pub open spec fn whole_step(t: Seq<Token>, p: int) -> ParseStep {
    match t[p].kind@ {
        Tok::Decimal(text) => if text.contains('.') {
            Err(unexpected_at(t, p))
        } else if spec_parse_u32(text) is Some {
            Ok(p + 1)
        } else {
            Err((Code::ParseUnexpectedToken, t[p].span, p + 1))
        },
        _ => Err(unexpected_at(t, p)),
    }
}

pub open spec fn normal_step(t: Seq<Token>, p: int) -> ParseStep {
    if t[p].kind@ == Tok::KwDebit || t[p].kind@ == Tok::KwCredit {
        Ok(p + 1)
    } else {
        Err(unexpected_at(t, p))
    }
}

/// The `(":" Ident)*` rest of a path.
pub open spec fn path_rest_step(t: Seq<Token>, p: int) -> ParseStep
    decreases t.len() - p,
{
    if 0 <= p && p + 2 <= t.len() && t[p].kind@ == Tok::Colon {
        match ident_step(t, p + 1) {
            Ok(q) => path_rest_step(t, q),
            Err(e) => Err(e),
        }
    } else {
        Ok(p)
    }
}

pub open spec fn path_step(t: Seq<Token>, p: int) -> ParseStep {
    and_then(ident_step(t, p), |q: int| path_rest_step(t, q))
}

/// How far a money expression parses from `p`, `depth` `merge`s deep.
pub open spec fn money_step(t: Seq<Token>, p: int, depth: int) -> ParseStep
    decreases MAX_MONEY_EXPR_DEPTH - depth, 1int,
{
    if depth >= MAX_MONEY_EXPR_DEPTH {
        Err((Code::ExprTooDeep, t[p].span, p))
    } else {
        match t[p].kind@ {
            Tok::KwCredit => credit_step(t, p),
            Tok::KwMerge => merge_body_step(t, p, depth),
            Tok::Ident(_) => Ok(p + 1),
            _ => Err(unexpected_at(t, p)),
        }
    }
}

/// How far `merge(a, b)` parses from `p`, its parts one level deeper than `depth`.
pub open spec fn merge_body_step(t: Seq<Token>, p: int, depth: int) -> ParseStep
    decreases MAX_MONEY_EXPR_DEPTH - depth, 0int,
{
    if depth >= MAX_MONEY_EXPR_DEPTH {
        Err(unexpected_at(t, p))
    } else {
        match exact_step(t, p, Tok::KwMerge) {
            Err(e) => Err(e),
            Ok(p1) => match exact_step(t, p1, Tok::LParen) {
                Err(e) => Err(e),
                Ok(p2) => match money_step(t, p2, depth + 1) {
                    Err(e) => Err(e),
                    Ok(p3) => match exact_step(t, p3, Tok::Comma) {
                        Err(e) => Err(e),
                        Ok(p4) => match money_step(t, p4, depth + 1) {
                            Err(e) => Err(e),
                            Ok(p5) => exact_step(t, p5, Tok::RParen),
                        },
                    },
                },
            },
        }
    }
}

/// The pair form that the keyword at `p` picks.
pub open spec fn pair_tail_step(t: Seq<Token>, p: int) -> ParseStep {
    match t[p].kind@ {
        Tok::KwConvert => convert_step(t, p),
        Tok::KwSplit => split_step(t, p),
        Tok::KwSplitRatio => split_ratio_step(t, p),
        _ => Err(unexpected_at(t, p)),
    }
}

/// How far a `let` statement parses from `p`: `(` after the `let` makes it a pair.
pub open spec fn let_or_pair_step(t: Seq<Token>, p: int) -> ParseStep {
    and_then(
        exact_step(t, p, Tok::KwLet),
        |p1: int|
            if t[p1].kind@ == Tok::LParen {
                pair_step(t, p1)
            } else {
                let_rest_step(t, p1)
            },
    )
}

/// How far a statement parses from `p`, by its first keyword.
#[verifier::opaque]
pub open spec fn stmt_step(t: Seq<Token>, p: int) -> ParseStep {
    match t[p].kind@ {
        Tok::KwLet => let_or_pair_step(t, p),
        Tok::KwDebit => debit_step(t, p),
        Tok::KwAbsorb => absorb_step(t, p),
        _ => Err(unexpected_at(t, p)),
    }
}

/// Where statement recovery from `q` stops: past the next `;`, or at the next `}`, end
/// or statement keyword.
pub open spec fn sync_stmt(t: Seq<Token>, q: int) -> int
    decreases t.len() - q,
{
    if q < 0 || q + 1 >= t.len() {
        q
    } else if t[q].kind@ == Tok::Semi {
        q + 1
    } else if is_stmt_stop(t[q].kind@) {
        q
    } else {
        sync_stmt(t, q + 1)
    }
}

/// A transaction body from `q`: the diagnostics of the statements that fail, each
/// followed by recovery, and where the body ends (at its `}`), or the report when the
/// tokens end first.
pub open spec fn body_step(t: Seq<Token>, q: int) -> (Seq<(Code, Span)>, ParseStep)
    decreases t.len() - q,
{
    if q < 0 || q >= t.len() || t[q].kind@ == Tok::RBrace {
        (Seq::empty(), Ok(q))
    } else if t[q].kind@ == Tok::Eof {
        (Seq::empty(), Err(unexpected_at(t, q)))
    } else {
        match stmt_step(t, q) {
            Ok(q2) => if q < q2 <= t.len() {
                body_step(t, q2)
            } else {
                (Seq::empty(), Ok(q))
            },
            Err((c, s, q2)) => {
                let q3 = sync_stmt(t, q2);
                if q < q3 <= t.len() {
                    let (ds, o) = body_step(t, q3);
                    (seq![(c, s)] + ds, o)
                } else {
                    (Seq::empty(), Ok(q))
                }
            },
        }
    }
}

/// A transaction from `p`: its statements' diagnostics, and where it ends or what stops it.
pub open spec fn txn_step(t: Seq<Token>, p: int) -> (Seq<(Code, Span)>, ParseStep) {
    match exact_step(t, p, Tok::KwTxn) {
        Err(e) => (Seq::empty(), Err(e)),
        Ok(p1) => if !(t[p1].kind@ is Str) {
            (Seq::empty(), Err(unexpected_at(t, p1)))
        } else {
            match exact_step(t, p1 + 1, Tok::LBrace) {
                Err(e) => (Seq::empty(), Err(e)),
                Ok(p3) => {
                    let (ds, o) = body_step(t, p3);
                    match o {
                        Err(e) => (ds, Err(e)),
                        Ok(q) => (ds, exact_step(t, q, Tok::RBrace)),
                    }
                },
            }
        },
    }
}

/// Where declaration recovery from `q` stops: at the next declaration keyword or end.
pub open spec fn sync_decl(t: Seq<Token>, q: int) -> int
    decreases t.len() - q,
{
    if q < 0 || q + 1 >= t.len() || is_decl_stop(t[q].kind@) {
        q
    } else {
        sync_decl(t, q + 1)
    }
}

/// One declaration from `p`, by its keyword, before any recovery: the diagnostics of
/// its statements, and where it ends or what stops it.
#[verifier::opaque]
pub open spec fn decl_outcome(t: Seq<Token>, p: int) -> (Seq<(Code, Span)>, ParseStep) {
    match t[p].kind@ {
        Tok::KwCurrency => (Seq::empty(), currency_step(t, p)),
        Tok::KwAccount => (Seq::empty(), account_step(t, p)),
        Tok::KwRate => (Seq::empty(), rate_step(t, p)),
        Tok::KwTxn => txn_step(t, p),
        _ => (Seq::empty(), Err(unexpected_at(t, p))),
    }
}

/// One declaration from `p`: the diagnostics it gives, and where the module goes on,
/// past recovery when it fails.
pub open spec fn decl_step(t: Seq<Token>, p: int) -> (Seq<(Code, Span)>, int) {
    let (ds, o) = decl_outcome(t, p);
    match o {
        Ok(q) => (ds, q),
        Err((c, s, q)) => (ds.push((c, s)), sync_decl(t, q)),
    }
}

/// The diagnostics of the declarations from `p` on, each failing one followed by
/// recovery to the next declaration.
pub open spec fn decls_diags(t: Seq<Token>, p: int) -> Seq<(Code, Span)>
    decreases t.len() - p,
{
    if p < 0 || p >= t.len() || t[p].kind@ == Tok::Eof {
        Seq::empty()
    } else {
        let (ds, q) = decl_step(t, p);
        if p < q <= t.len() {
            ds + decls_diags(t, q)
        } else {
            ds
        }
    }
}

/// What parsing `t` reports, in order: one diagnostic for each declaration or
/// statement that fails, where it fails, with parsing resumed after each.
pub open spec fn parse_diags(t: Seq<Token>) -> Seq<(Code, Span)> {
    decls_diags(t, 0)
}

/// A parsing function's result `r`, leaving the parser at `pos`, is what `s` says.
pub open spec fn step_agrees<T>(r: Result<T, Diagnostic>, s: ParseStep, pos: int) -> bool {
    match s {
        Ok(q) => r is Ok && pos == q,
        Err((c, sp, q)) => r matches Err(d) && d.code == c && d.span == sp && pos == q,
    }
}

/// How far `credit(path, amount)` parses from `p`.
pub open spec fn credit_step(t: Seq<Token>, p: int) -> ParseStep {
    and_then(exact_step(t, p, Tok::KwCredit), |p1: int|
    and_then(exact_step(t, p1, Tok::LParen), |p2: int|
    and_then(path_step(t, p2), |p3: int|
    and_then(exact_step(t, p3, Tok::Comma), |p4: int|
    and_then(decimal_step(t, p4), |p5: int|
    exact_step(t, p5, Tok::RParen))))))
}

/// How far `debit(path, value);` parses from `p`.
pub open spec fn debit_step(t: Seq<Token>, p: int) -> ParseStep {
    and_then(exact_step(t, p, Tok::KwDebit), |p1: int|
    and_then(exact_step(t, p1, Tok::LParen), |p2: int|
    and_then(path_step(t, p2), |p3: int|
    and_then(exact_step(t, p3, Tok::Comma), |p4: int|
    and_then(money_step(t, p4, 0), |p5: int|
    and_then(exact_step(t, p5, Tok::RParen), |p6: int|
    exact_step(t, p6, Tok::Semi)))))))
}

/// How far `absorb(residue, path);` parses from `p`.
pub open spec fn absorb_step(t: Seq<Token>, p: int) -> ParseStep {
    and_then(exact_step(t, p, Tok::KwAbsorb), |p1: int|
    and_then(exact_step(t, p1, Tok::LParen), |p2: int|
    and_then(ident_step(t, p2), |p3: int|
    and_then(exact_step(t, p3, Tok::Comma), |p4: int|
    and_then(path_step(t, p4), |p5: int|
    and_then(exact_step(t, p5, Tok::RParen), |p6: int|
    exact_step(t, p6, Tok::Semi)))))))
}

/// How far `name = value;` parses from `p`, after a `let`.
pub open spec fn let_rest_step(t: Seq<Token>, p: int) -> ParseStep {
    and_then(ident_step(t, p), |p1: int|
    and_then(exact_step(t, p1, Tok::Eq), |p2: int|
    and_then(money_step(t, p2, 0), |p3: int|
    exact_step(t, p3, Tok::Semi))))
}

/// How far `convert(money, rate);` parses from `p`.
pub open spec fn convert_step(t: Seq<Token>, p: int) -> ParseStep {
    and_then(exact_step(t, p, Tok::KwConvert), |p1: int|
    and_then(exact_step(t, p1, Tok::LParen), |p2: int|
    and_then(money_step(t, p2, 0), |p3: int|
    and_then(exact_step(t, p3, Tok::Comma), |p4: int|
    and_then(ident_step(t, p4), |p5: int|
    and_then(exact_step(t, p5, Tok::RParen), |p6: int|
    exact_step(t, p6, Tok::Semi)))))))
}

/// How far `split(money, amount);` parses from `p`.
pub open spec fn split_step(t: Seq<Token>, p: int) -> ParseStep {
    and_then(exact_step(t, p, Tok::KwSplit), |p1: int|
    and_then(exact_step(t, p1, Tok::LParen), |p2: int|
    and_then(money_step(t, p2, 0), |p3: int|
    and_then(exact_step(t, p3, Tok::Comma), |p4: int|
    and_then(decimal_step(t, p4), |p5: int|
    and_then(exact_step(t, p5, Tok::RParen), |p6: int|
    exact_step(t, p6, Tok::Semi)))))))
}

/// How far `split_ratio(money, a, b);` parses from `p`.
pub open spec fn split_ratio_step(t: Seq<Token>, p: int) -> ParseStep {
    and_then(exact_step(t, p, Tok::KwSplitRatio), |p1: int|
    and_then(exact_step(t, p1, Tok::LParen), |p2: int|
    and_then(money_step(t, p2, 0), |p3: int|
    and_then(exact_step(t, p3, Tok::Comma), |p4: int|
    and_then(whole_step(t, p4), |p5: int|
    and_then(exact_step(t, p5, Tok::Comma), |p6: int|
    and_then(whole_step(t, p6), |p7: int|
    and_then(exact_step(t, p7, Tok::RParen), |p8: int|
    exact_step(t, p8, Tok::Semi)))))))))
}

/// How far a pair statement parses from `p`, after its `let`: the head, then the
/// form that the keyword after `=` picks.
pub open spec fn pair_step(t: Seq<Token>, p: int) -> ParseStep {
    and_then(exact_step(t, p, Tok::LParen), |p1: int|
    and_then(ident_step(t, p1), |p2: int|
    and_then(exact_step(t, p2, Tok::Comma), |p3: int|
    and_then(ident_step(t, p3), |p4: int|
    and_then(exact_step(t, p4, Tok::RParen), |p5: int|
    and_then(exact_step(t, p5, Tok::Eq), |p6: int|
    pair_tail_step(t, p6)))))))
}

/// How far a currency declaration parses from `p`.
pub open spec fn currency_step(t: Seq<Token>, p: int) -> ParseStep {
    and_then(exact_step(t, p, Tok::KwCurrency), |p1: int|
    and_then(ident_step(t, p1), |p2: int|
    and_then(exact_step(t, p2, Tok::LBrace), |p3: int|
    and_then(exact_step(t, p3, Tok::KwScale), |p4: int|
    and_then(exact_step(t, p4, Tok::Eq), |p5: int|
    and_then(whole_step(t, p5), |p6: int|
    exact_step(t, p6, Tok::RBrace)))))))
}

/// How far an account declaration parses from `p`.
pub open spec fn account_step(t: Seq<Token>, p: int) -> ParseStep {
    and_then(exact_step(t, p, Tok::KwAccount), |p1: int|
    and_then(path_step(t, p1), |p2: int|
    and_then(exact_step(t, p2, Tok::LBrace), |p3: int|
    and_then(exact_step(t, p3, Tok::KwCurrency), |p4: int|
    and_then(exact_step(t, p4, Tok::Eq), |p5: int|
    and_then(ident_step(t, p5), |p6: int|
    and_then(exact_step(t, p6, Tok::Comma), |p7: int|
    and_then(exact_step(t, p7, Tok::KwKind), |p8: int|
    and_then(exact_step(t, p8, Tok::Eq), |p9: int|
    and_then(ident_step(t, p9), |p10: int|
    and_then(exact_step(t, p10, Tok::Comma), |p11: int|
    and_then(exact_step(t, p11, Tok::KwNormal), |p12: int|
    and_then(exact_step(t, p12, Tok::Eq), |p13: int|
    and_then(normal_step(t, p13), |p14: int|
    exact_step(t, p14, Tok::RBrace)))))))))))))))
}

/// How far a rate declaration parses from `p`.
pub open spec fn rate_step(t: Seq<Token>, p: int) -> ParseStep {
    and_then(exact_step(t, p, Tok::KwRate), |p1: int|
    and_then(ident_step(t, p1), |p2: int|
    and_then(exact_step(t, p2, Tok::KwFrom), |p3: int|
    and_then(ident_step(t, p3), |p4: int|
    and_then(exact_step(t, p4, Tok::KwTo), |p5: int|
    and_then(ident_step(t, p5), |p6: int|
    and_then(exact_step(t, p6, Tok::Eq), |p7: int|
    and_then(decimal_step(t, p7), |p8: int|
    and_then(exact_step(t, p8, Tok::KwRound), |p9: int|
    and_then(exact_step(t, p9, Tok::KwDown), |p10: int|
    exact_step(t, p10, Tok::Semi)))))))))))
}

/// The codes and spans of two runs of diagnostics, one after the other.
pub proof fn lemma_code_spans_append(a: Seq<Diagnostic>, b: Seq<Diagnostic>)
    ensures
        code_spans(a + b) == code_spans(a) + code_spans(b),
{
    assert(code_spans(a + b) =~= code_spans(a) + code_spans(b));
}

/// Diagnostics only appended after `d0`: the first `d0` stay, and the codes and spans
/// after `d0` are those before plus the new ones.
pub proof fn lemma_diags_extend(before: Seq<Diagnostic>, after: Seq<Diagnostic>, d0: int)
    requires
        0 <= d0 <= before.len() <= after.len(),
        after.subrange(0, before.len() as int) == before,
    ensures
        after.subrange(0, d0) == before.subrange(0, d0),
        code_spans(after.subrange(d0, after.len() as int)) == code_spans(before.subrange(d0, before.len() as int))
            + code_spans(after.subrange(before.len() as int, after.len() as int)),
        before.len() > d0 ==> after[d0] == before[d0],
{
    let n = before.len() as int;
    assert(after.subrange(0, d0) =~= after.subrange(0, n).subrange(0, d0));
    assert(after.subrange(d0, after.len() as int) =~= after.subrange(d0, n) + after.subrange(n, after.len() as int));
    assert(after.subrange(d0, n) =~= after.subrange(0, n).subrange(d0, n));
    lemma_code_spans_append(after.subrange(d0, n), after.subrange(n, after.len() as int));
    if n > d0 {
        assert(after[d0] == after.subrange(0, n)[d0]);
    }
}

/// Reading one declaration from `p` moves the module's diagnostics along: those already
/// reported, then this declaration's, then what the rest of the tokens give.
pub proof fn lemma_decls_diags_step<T>(
    t: Seq<Token>,
    p: int,
    before: Seq<Diagnostic>,
    mid: Seq<Diagnostic>,
    after: Seq<Diagnostic>,
    mid_pos: int,
    pos: int,
    result: Result<T, Diagnostic>,
)
    requires
        0 <= p < pos <= t.len(),
        t[p].kind@ != Tok::Eof,
        before.len() <= mid.len(),
        mid.subrange(0, before.len() as int) == before,
        code_spans(mid.subrange(before.len() as int, mid.len() as int)) == decl_outcome(t, p).0,
        step_agrees(result, decl_outcome(t, p).1, mid_pos),
        match result {
            Ok(_) => after == mid && pos == mid_pos,
            Err(d) => after == mid.push(d) && pos == sync_decl(t, mid_pos),
        },
    ensures
        code_spans(after) + decls_diags(t, pos) == code_spans(before) + decls_diags(t, p),
{
    let ds = decl_outcome(t, p).0;
    let n = before.len() as int;
    assert(mid =~= before + mid.subrange(n, mid.len() as int));
    lemma_code_spans_append(before, mid.subrange(n, mid.len() as int));
    assert(decl_step(t, p).1 == pos);
    assert(decls_diags(t, p) == decl_step(t, p).0 + decls_diags(t, pos));
    match result {
        Ok(_) => {
            assert(decl_step(t, p).0 == ds);
            assert(code_spans(after) + decls_diags(t, pos) =~= code_spans(before) + (ds + decls_diags(t, pos)));
        },
        Err(d) => {
            assert(decl_step(t, p).0 == ds.push((d.code, d.span)));
            lemma_code_spans_append(mid, seq![d]);
            assert(mid.push(d) =~= mid + seq![d]);
            assert(code_spans(seq![d]) =~= seq![(d.code, d.span)]);
            assert(code_spans(after) + decls_diags(t, pos) =~= code_spans(before) + (ds.push((d.code, d.span))
                + decls_diags(t, pos)));
        },
    }
}

/// A path of `n >= 1` segments takes `2n - 1` tokens.
pub proof fn lemma_path_len(segs: Seq<Seq<char>>)
    requires
        segs.len() >= 1,
    ensures
        path_pats(segs).len() == 2 * segs.len() - 1,
    decreases segs.len(),
{
    if segs.len() > 1 {
        lemma_path_len(segs.drop_last());
    }
}

/// A declaration read onto one of the lists keeps the spans of those read before it.
pub proof fn lemma_decl_spans_push(
    t: Seq<Token>,
    cs: Seq<CurrencyDecl>,
    accts: Seq<AccountDecl>,
    rs: Seq<RateDecl>,
    ts: Seq<TxnDecl>,
    cs2: Seq<CurrencyDecl>,
    accts2: Seq<AccountDecl>,
    rs2: Seq<RateDecl>,
    ts2: Seq<TxnDecl>,
    order: Seq<DeclKind>,
    kind: DeclKind,
)
    requires
        count_kind(order, DeclKind::Currency) == cs.len() <= cs2.len(),
        count_kind(order, DeclKind::Account) == accts.len() <= accts2.len(),
        count_kind(order, DeclKind::Rate) == rs.len() <= rs2.len(),
        count_kind(order, DeclKind::Txn) == ts.len() <= ts2.len(),
        forall|i: int| 0 <= i < cs.len() ==> cs2[i] == cs[i],
        forall|i: int| 0 <= i < accts.len() ==> accts2[i] == accts[i],
        forall|i: int| 0 <= i < rs.len() ==> rs2[i] == rs[i],
        forall|i: int| 0 <= i < ts.len() ==> ts2[i] == ts[i],
        forall|k: int| 0 <= k < order.len() ==> #[trigger] decl_spans_at(t, cs, accts, rs, ts, order, k),
        decl_spans_at(t, cs2, accts2, rs2, ts2, order.push(kind), order.len() as int),
    ensures
        forall|k: int|
            0 <= k < order.len() + 1 ==> #[trigger] decl_spans_at(t, cs2, accts2, rs2, ts2, order.push(kind), k),
{
    assert forall|k: int| 0 <= k < order.len() + 1 implies #[trigger] decl_spans_at(
        t,
        cs2,
        accts2,
        rs2,
        ts2,
        order.push(kind),
        k,
    ) by {
        if k < order.len() {
            let o2 = order.push(kind);
            assert(o2.take(k) =~= order.take(k));
            assert(o2[k] == order[k]);
            lemma_decls_pats_prefix(cs, accts, rs, ts, order, k + 1);
            assert(order.take(k + 1).drop_last() =~= order.take(k));
            assert(order.take(k + 1).last() == order[k]);
            lemma_decls_pats_prefix(cs, accts, rs, ts, order, k);
            lemma_decls_pats_extend(cs, accts, rs, ts, cs2, accts2, rs2, ts2, order.take(k));
            assert(decl_spans_at(t, cs, accts, rs, ts, order, k));
        }
    }
}

/// A token that begins a statement.
pub open spec fn is_stmt_start(t: Tok) -> bool {
    t == Tok::KwLet || t == Tok::KwDebit || t == Tok::KwAbsorb
}

/// Where statement-level recovery stops without consuming: a `}`, the end, or the
/// start of another statement.
pub open spec fn is_stmt_stop(t: Tok) -> bool {
    t == Tok::RBrace || t == Tok::Eof || is_stmt_start(t)
}

/// A token that begins a declaration, or the end.
pub open spec fn is_decl_stop(t: Tok) -> bool {
    t == Tok::KwCurrency || t == Tok::KwAccount || t == Tok::KwRate || t == Tok::KwTxn || t
        == Tok::Eof
}

/// Any token but `Eof` has a token after it.
proof fn lemma_not_last(tokens: Seq<Token>, pos: int)
    requires
        tokens_wf(tokens),
        0 <= pos < tokens.len(),
        tokens[pos].kind@ != Tok::Eof,
    ensures
        pos + 1 < tokens.len(),
{
    if pos + 1 >= tokens.len() {
        assert(tokens[pos] == tokens.last());
    }
}


/// Parses a whole token stream. A module comes back only when no diagnostic was
/// recorded; then its declarations, in some interleaving of its four lists, are exactly
/// the tokens before the final `Eof`. And one comes back whenever the tokens match a
/// module the grammar produces (account paths with segments, amounts nested fewer
/// than 256 levels deep). Where the first statement the grammar cannot take nests an
/// amount 256 levels or more, the first diagnostic says the expression is too deep.
/// The diagnostics are `parse_diags`: one for each declaration or statement that
/// fails, where it fails, with parsing resumed after each.
pub fn parse(tokens: &[Token]) -> (r: (Option<Module>, Vec<Diagnostic>))
    requires
        tokens_wf(tokens@),
    ensures
        r.0 is Some <==> r.1@.len() == 0,
        r.0 is Some ==> exists|order: Seq<DeclKind>|
            module_parsed_as(tokens@, r.0->0, order) && module_spans_ok(tokens@, r.0->0, order),
        forall|m: Module, order: Seq<DeclKind>|
            module_parsed_as(tokens@, m, order) && module_ok(m) ==> r.0 is Some,
        code_spans(r.1@) == parse_diags(tokens@),
        forall|m: Module, order: Seq<DeclKind>, k: int|
            module_parsed_as(tokens@, m, order) && module_deep_at(m, order, k) ==> r.0 is None
                && r.1@.len() > 0 && r.1@[0].code == Code::ExprTooDeep,
{
    let mut p = Parser { tokens, pos: 0, diags: Vec::new() };
    let module = p.parse_module();
    if p.diags.len() == 0 {
        proof {
            let order = choose|o: Seq<DeclKind>|
                module_parsed_as(p.tokens@, module, o) && module_spans_ok(p.tokens@, module, o);
            assert(module_parsed_as(tokens@, module, order) && module_spans_ok(tokens@, module, order));
        }
        let r = (Some(module), Vec::new());
        proof {
            assert(code_spans(r.1@) =~= code_spans(p.diags@));
        }
        assert(r.0->0 == module);
        r
    } else {
        (None, p.diags)
    }
}

struct Parser<'a> {
    tokens: &'a [Token],
    pos: usize,
    /// Diagnostics recorded during recovery. Only the module loop and the
    /// transaction-body loop fold an `Err` in here instead of propagating it.
    diags: Vec<Diagnostic>,
}

impl<'a> Parser<'a> {
    spec fn wf(&self) -> bool {
        tokens_wf(self.tokens@) && self.pos < self.tokens@.len()
    }

    /// What every parsing step keeps: the same well-formed token stream, a position
    /// that never moves back, and diagnostics only ever added.
    spec fn kept(&self, old: &Self) -> bool {
        &&& self.wf()
        &&& self.tokens@ == old.tokens@
        &&& old.pos <= self.pos
        &&& old.diags@.len() <= self.diags@.len()
    }

    fn peek(&self) -> (t: &Token)
        requires
            self.wf(),
        ensures
            *t == self.tokens@[self.pos as int],
    {
        &self.tokens[self.pos]
    }

    fn advance(&mut self) -> (span: Span)
        requires
            old(self).wf(),
        ensures
            final(self).kept(old(self)),
            final(self).diags == old(self).diags,
            final(self).pos == next_pos(old(self).tokens@, old(self).pos as int),
            span == old(self).tokens@[old(self).pos as int].span,
    {
        let span = self.tokens[self.pos].span;
        if self.pos + 1 < self.tokens.len() {
            self.pos = self.pos + 1;
        }
        span
    }

    /// The diagnostic for a token the grammar cannot use here: `expected X, found Y`,
    /// at the token's span, as an unexpected end of input when the token is `Eof`.
    fn unexpected(&self, expected: &str) -> (d: Diagnostic)
        requires
            self.wf(),
        ensures
            d.span == self.tokens@[self.pos as int].span,
            d.code == (if self.tokens@[self.pos as int].kind@ == Tok::Eof {
                Code::ParseUnexpectedEof
            } else {
                Code::ParseUnexpectedToken
            }),
            d.message@ == "expected "@ + expected@ + ", found "@ + describe_spec(
                self.tokens@[self.pos as int].kind@,
            ),
    {
        let tok = self.peek();
        let code = match &tok.kind {
            TokenKind::Eof => Code::ParseUnexpectedEof,
            _ => Code::ParseUnexpectedToken,
        };
        let found = describe(&tok.kind);
        let mut msg = String::from_str("expected ");
        push_str(&mut msg, expected);
        push_str(&mut msg, ", found ");
        push_str(&mut msg, found.as_str());
        Diagnostic::new(code, msg.as_str(), tok.span)
    }

    fn expect(&mut self, kind: TokenKind, expected: &str) -> (r: Result<Span, Diagnostic>)
        requires
            old(self).wf(),
            kind@ != Tok::Eof,
        ensures
            final(self).kept(old(self)),
            final(self).diags == old(self).diags,
            r is Ok <==> old(self).tokens@[old(self).pos as int].kind@ == kind@,
            match r {
                Ok(span) => parsed_as(
                    old(self).tokens@,
                    old(self).pos as int,
                    final(self).pos as int,
                    ex(kind@),
                ) && span == old(self).tokens@[old(self).pos as int].span,
                Err(_) => final(self).pos == old(self).pos,
            },
            step_agrees(r, exact_step(old(self).tokens@, old(self).pos as int, kind@), final(self).pos as int),
    {
        if kind_eq(&self.peek().kind, &kind) {
            proof {
                if self.pos + 1 >= self.tokens@.len() {
                    assert(self.tokens@[self.pos as int] == self.tokens@.last());
                }
            }
            Ok(self.advance())
        } else {
            Err(self.unexpected(expected))
        }
    }

    fn parse_ident(&mut self) -> (r: Result<(String, Span), Diagnostic>)
        requires
            old(self).wf(),
        ensures
            final(self).kept(old(self)),
            final(self).diags == old(self).diags,
            match r {
                Ok((name, span)) => parsed_as(
                    old(self).tokens@,
                    old(self).pos as int,
                    final(self).pos as int,
                    ident_pats(name@),
                ) && span == old(self).tokens@[old(self).pos as int].span,
                Err(_) => final(self).pos == old(self).pos,
            },
            r is Ok <==> old(self).tokens@[old(self).pos as int].kind@ is Ident,
            step_agrees(r, ident_step(old(self).tokens@, old(self).pos as int), final(self).pos as int),
    {
        match &self.peek().kind {
            TokenKind::Ident(s) => {
                let s = s.clone();
                proof {
                    if self.pos + 1 >= self.tokens@.len() {
                        assert(self.tokens@[self.pos as int] == self.tokens@.last());
                    }
                }
                let span = self.advance();
                Ok((s, span))
            },
            _ => Err(self.unexpected("an identifier")),
        }
    }

    fn parse_amount(&mut self) -> (r: Result<DecimalLiteral, Diagnostic>)
        requires
            old(self).wf(),
        ensures
            final(self).kept(old(self)),
            final(self).diags == old(self).diags,
            match r {
                Ok(lit) => parsed_as(
                    old(self).tokens@,
                    old(self).pos as int,
                    final(self).pos as int,
                    ex(Tok::Decimal(lit.text@)),
                ) && lit.span == old(self).tokens@[old(self).pos as int].span,
                Err(_) => final(self).pos == old(self).pos,
            },
            r is Ok <==> old(self).tokens@[old(self).pos as int].kind@ is Decimal,
            step_agrees(r, decimal_step(old(self).tokens@, old(self).pos as int), final(self).pos as int),
    {
        match &self.peek().kind {
            TokenKind::Decimal(text) => {
                let text = text.clone();
                proof {
                    if self.pos + 1 >= self.tokens@.len() {
                        assert(self.tokens@[self.pos as int] == self.tokens@.last());
                    }
                }
                let span = self.advance();
                Ok(DecimalLiteral { text, span })
            },
            _ => Err(self.unexpected("an amount")),
        }
    }

    /// A bare non-negative integer (no `.`), shared by a currency's `scale` and
    /// `split_ratio`'s two weights.
    fn parse_whole_number(&mut self, expected: &str) -> (r: Result<(u32, Span), Diagnostic>)
        requires
            old(self).wf(),
        ensures
            final(self).kept(old(self)),
            final(self).diags == old(self).diags,
            match r {
                Ok((v, span)) => parsed_as(
                    old(self).tokens@,
                    old(self).pos as int,
                    final(self).pos as int,
                    seq![Pat::Whole(v)],
                ) && span == old(self).tokens@[old(self).pos as int].span,
                Err(_) => true,
            },
            r is Ok <==> (old(self).tokens@[old(self).pos as int].kind@ matches Tok::Decimal(t)
                && !t.contains(
                '.',
            ) && spec_parse_u32(t) is Some),
            step_agrees(r, whole_step(old(self).tokens@, old(self).pos as int), final(self).pos as int),
    {
        match &self.peek().kind {
            TokenKind::Decimal(text) => {
                let chars = chars_of(text.as_str());
                let mut has_point = false;
                let mut i: usize = 0;
                while i < chars.len()
                    invariant
                        i <= chars@.len(),
                        has_point == (exists|k: int| 0 <= k < i && chars@[k] == '.'),
                    decreases chars@.len() - i,
                {
                    if chars[i] == '.' {
                        has_point = true;
                    }
                    i = i + 1;
                }
                if has_point {
                    return Err(self.unexpected(expected));
                }
                assert(!text@.contains('.'));
                let value = parse_u32(chars.as_slice());
                proof {
                    if self.pos + 1 >= self.tokens@.len() {
                        assert(self.tokens@[self.pos as int] == self.tokens@.last());
                    }
                }
                let span = self.advance();
                match value {
                    Some(v) => Ok((v, span)),
                    None => Err(
                        Diagnostic::new(Code::ParseUnexpectedToken, "number is too large", span),
                    ),
                }
            },
            _ => Err(self.unexpected(expected)),
        }
    }

    /// The current token is `kind`.
    fn at(&self, kind: TokenKind) -> (r: bool)
        requires
            self.wf(),
        ensures
            r == (self.tokens@[self.pos as int].kind@ == kind@),
    {
        kind_eq(&self.peek().kind, &kind)
    }

    fn parse_account_path(&mut self) -> (r: Result<AccountPath, Diagnostic>)
        requires
            old(self).wf(),
        ensures
            final(self).kept(old(self)),
            final(self).diags == old(self).diags,
            r matches Ok(p) ==> parsed_as(
                old(self).tokens@,
                old(self).pos as int,
                final(self).pos as int,
                path_pats(p.seg_views()),
            ) && p.seg_views().len() >= 1 && final(self).tokens@[final(self).pos as int].kind@ != Tok::Colon,
            forall|segs: Seq<Seq<char>>, q: int|
                segs.len() >= 1 && parsed_as(old(self).tokens@, old(self).pos as int, q, path_pats(segs)) && q
                    < old(self).tokens@.len() && old(self).tokens@[q].kind@ != Tok::Colon ==> (r matches Ok(
                    x,
                ) && x.seg_views() == segs && final(self).pos == q),
            step_agrees(r, path_step(old(self).tokens@, old(self).pos as int), final(self).pos as int),
            r matches Ok(a) ==> path_spans_ok(old(self).tokens@, old(self).pos as int, a),
    {
        let ghost start = self.pos as int;
        let ghost t = self.tokens@;
        let mut segments: Vec<String> = Vec::new();
        let (first, first_span) = match self.parse_ident() {
            Ok(x) => x,
            Err(e) => {
                proof {
                    assert forall|segs: Seq<Seq<char>>, q: int|
                        segs.len() >= 1 && parsed_as(t, start, q, path_pats(segs)) && q < t.len()
                            && t[q].kind@ != Tok::Colon implies false by {
                        lemma_path_shape(t, start, q, segs);
                        assert(t[start + 2 * 0].kind@ == Tok::Ident(segs[0]));
                    }
                }
                return Err(e);
            },
        };
        let mut span = first_span;
        segments.push(first);
        proof {
            let sv = segments@.map_values(|s: String| s@);
            assert(sv.len() == 1);
            assert(path_pats(sv) == ident_pats(sv[0]));
            assert(path_step(t, start) == path_rest_step(t, start + 1));
        }
        while self.at(TokenKind::Colon)
            invariant
                self.kept(old(self)),
                self.diags == old(self).diags,
                t == self.tokens@,
                start == old(self).pos,
                segments@.len() >= 1,
                parsed_as(
                    self.tokens@,
                    start,
                    self.pos as int,
                    path_pats(segments@.map_values(|s: String| s@)),
                ),
                path_step(t, start) == path_rest_step(t, self.pos as int),
                span == path_span_at(t, start, segments@.len() as nat),
            decreases self.tokens@.len() - self.pos,
        {
            let ghost mid = self.pos as int;
            proof {
                if self.pos + 1 >= self.tokens@.len() {
                    assert(self.tokens@[self.pos as int] == self.tokens@.last());
                }
            }
            self.advance();
            let ghost mid2 = self.pos as int;
            let (seg, seg_span) = match self.parse_ident() {
                Ok(x) => x,
                Err(e) => {
                    proof {
                        let cur = segments@.map_values(|s: String| s@);
                        lemma_path_shape(t, start, mid, cur);
                        assert(mid2 == mid + 1);
                        assert forall|segs: Seq<Seq<char>>, q: int|
                            segs.len() >= 1 && parsed_as(t, start, q, path_pats(segs)) && q < t.len()
                                && t[q].kind@ != Tok::Colon implies false by {
                            lemma_path_shape(t, start, q, segs);
                            if segs.len() < cur.len() {
                                let k = segs.len() - 1;
                                assert(t[start + 2 * k + 1].kind@ == Tok::Colon);
                            } else if segs.len() == cur.len() {
                            } else {
                                let k = cur.len() as int;
                                assert(t[start + 2 * k].kind@ == Tok::Ident(segs[k]));
                            }
                        }
                    }
                    return Err(e);
                },
            };
            proof {
                let prev = segments@.map_values(|s: String| s@);
                lemma_parsed_concat(self.tokens@, start, mid, mid2, path_pats(prev), ex(Tok::Colon));
                lemma_parsed_concat(
                    self.tokens@,
                    start,
                    mid2,
                    self.pos as int,
                    path_pats(prev) + ex(Tok::Colon),
                    ident_pats(seg@),
                );
            }
            let ghost prev_segments = segments@;
            proof {
                let n = segments@.len() as nat;
                assert(path_pats(segments@.map_values(|s: String| s@)).len() == 2 * n - 1) by {
                    lemma_path_len(segments@.map_values(|s: String| s@));
                }
                assert(mid2 == start + 2 * n);
                assert(path_span_at(t, start, n + 1) == joined(path_span_at(t, start, n), t[start + 2 * n].span));
            }
            segments.push(seg);
            span = span.to(seg_span);
            proof {
                let prev = prev_segments.map_values(|s: String| s@);
                let cur = segments@.map_values(|s: String| s@);
                assert(cur.drop_last() =~= prev);
                assert(cur.last() == seg@);
            }
        }
        let p = AccountPath { segments, span };
        assert(p.seg_views() == p.segments@.map_values(|s: String| s@));
        proof {
            let cur = p.seg_views();
            assert forall|segs: Seq<Seq<char>>, q: int|
                segs.len() >= 1 && parsed_as(t, start, q, path_pats(segs)) && q < t.len() && t[q].kind@
                    != Tok::Colon implies cur == segs && self.pos == q by {
                lemma_path_unique(t, start, q, segs, self.pos as int, cur);
            }
        }
        Ok(p)
    }

    fn parse_normal_balance(&mut self) -> (r: Result<(NormalBalance, Span), Diagnostic>)
        requires
            old(self).wf(),
        ensures
            final(self).kept(old(self)),
            final(self).diags == old(self).diags,
            r matches Ok((n, _)) ==> parsed_as(
                old(self).tokens@,
                old(self).pos as int,
                final(self).pos as int,
                ex(normal_tok(n)),
            ),
            r is Ok <==> (old(self).tokens@[old(self).pos as int].kind@ == Tok::KwDebit
                || old(self).tokens@[old(self).pos as int].kind@ == Tok::KwCredit),
            step_agrees(r, normal_step(old(self).tokens@, old(self).pos as int), final(self).pos as int),
            r matches Ok((_, sp)) ==> sp == old(self).tokens@[old(self).pos as int].span,
    {
        match &self.peek().kind {
            TokenKind::KwDebit => {
                proof {
                    if self.pos + 1 >= self.tokens@.len() {
                        assert(self.tokens@[self.pos as int] == self.tokens@.last());
                    }
                }
                Ok((NormalBalance::Debit, self.advance()))
            },
            TokenKind::KwCredit => {
                proof {
                    if self.pos + 1 >= self.tokens@.len() {
                        assert(self.tokens@[self.pos as int] == self.tokens@.last());
                    }
                }
                Ok((NormalBalance::Credit, self.advance()))
            },
            _ => Err(self.unexpected("'debit' or 'credit'")),
        }
    }

    /// `depth` counts how many `merge`s deep this call is nested.
    fn parse_money_expr(&mut self, depth: u32) -> (r: Result<MoneyExpr, Diagnostic>)
        requires
            old(self).wf(),
            depth <= MAX_MONEY_EXPR_DEPTH,
        ensures
            final(self).kept(old(self)),
            final(self).diags == old(self).diags,
            r matches Ok(e) ==> parsed_as(
                old(self).tokens@,
                old(self).pos as int,
                final(self).pos as int,
                money_pats(e),
            ),
            forall|e: MoneyExpr, q: int|
                money_paths_ok(e) && depth + money_nest(e) < MAX_MONEY_EXPR_DEPTH && parsed_as(
                    old(self).tokens@,
                    old(self).pos as int,
                    q,
                    money_pats(e),
                ) ==> (r matches Ok(x) && money_pats(x) == money_pats(e) && final(self).pos == q),
            forall|e: MoneyExpr, q: int|
                money_paths_ok(e) && depth + money_nest(e) >= MAX_MONEY_EXPR_DEPTH && parsed_as(
                    old(self).tokens@,
                    old(self).pos as int,
                    q,
                    money_pats(e),
                ) ==> (r matches Err(d) && d.code == Code::ExprTooDeep),
            step_agrees(r, money_step(old(self).tokens@, old(self).pos as int, depth as int), final(self).pos as int),
            r matches Ok(e) ==> money_spans_ok(old(self).tokens@, old(self).pos as int, e),
        decreases MAX_MONEY_EXPR_DEPTH - depth, 1int,
    {
        let ghost p0 = self.pos as int;
        let ghost t = self.tokens@;
        if depth >= MAX_MONEY_EXPR_DEPTH {
            return Err(
                Diagnostic::new(
                    Code::ExprTooDeep,
                    "expression nested more than 256 levels deep",
                    self.peek().span,
                ),
            );
        }
        match &self.peek().kind {
            TokenKind::KwCredit => {
                let r = self.parse_credit();
                proof {
                    assert forall|e: MoneyExpr, q: int|
                        money_paths_ok(e) && depth + money_nest(e) < MAX_MONEY_EXPR_DEPTH
                        && parsed_as(t, p0, q, money_pats(e))
                            implies e is Credit by {
                        lemma_money_first(t, p0, q, e);
                    }
                    assert forall|e: MoneyExpr, q: int|
                        money_paths_ok(e) && depth + money_nest(e) >= MAX_MONEY_EXPR_DEPTH
                        && parsed_as(t, p0, q, money_pats(e))
                            implies false by {
                        lemma_money_first(t, p0, q, e);
                    }
                }
                r
            },
            TokenKind::KwMerge => {
                let r = self.parse_merge(depth);
                proof {
                    assert forall|e: MoneyExpr, q: int|
                        money_paths_ok(e) && depth + money_nest(e) < MAX_MONEY_EXPR_DEPTH
                        && parsed_as(t, p0, q, money_pats(e))
                            implies e is Merge by {
                        lemma_money_first(t, p0, q, e);
                    }
                    assert forall|e: MoneyExpr, q: int|
                        money_paths_ok(e) && depth + money_nest(e) >= MAX_MONEY_EXPR_DEPTH
                        && parsed_as(t, p0, q, money_pats(e))
                            implies e is Merge by {
                        lemma_money_first(t, p0, q, e);
                    }
                }
                r
            },
            TokenKind::Ident(_) => {
                match self.parse_ident() {
                    Ok((name, span)) => {
                        let x = MoneyExpr::Var { name, span };
                        proof {
                            assert(t[p0 + 0].kind@ == Tok::Ident(x->Var_name@));
                            assert forall|e: MoneyExpr, q: int|
                                money_paths_ok(e) && depth + money_nest(e) < MAX_MONEY_EXPR_DEPTH
                                    && parsed_as(
                                    t,
                                    p0,
                                    q,
                                    money_pats(e),
                                ) implies money_pats(x) == money_pats(e) && self.pos == q by {
                                lemma_money_first(t, p0, q, e);
                            }
                            assert forall|e: MoneyExpr, q: int|
                                money_paths_ok(e) && depth + money_nest(e) >= MAX_MONEY_EXPR_DEPTH
                                && parsed_as(t, p0, q, money_pats(e))
                                    implies false by {
                                lemma_money_first(t, p0, q, e);
                            }
                        }
                        Ok(x)
                    },
                    Err(d) => {
                        proof {
                            assert forall|e: MoneyExpr, q: int|
                                money_paths_ok(e) && depth + money_nest(e) >= MAX_MONEY_EXPR_DEPTH
                                && parsed_as(t, p0, q, money_pats(e))
                                    implies false by {
                                lemma_money_first(t, p0, q, e);
                            }
                        }
                        Err(d)
                    },
                }
            },
            _ => {
                proof {
                    assert forall|e: MoneyExpr, q: int|
                        money_paths_ok(e) && depth + money_nest(e) < MAX_MONEY_EXPR_DEPTH
                        && parsed_as(t, p0, q, money_pats(e))
                            implies false by {
                        lemma_money_first(t, p0, q, e);
                    }
                    assert forall|e: MoneyExpr, q: int|
                        money_paths_ok(e) && depth + money_nest(e) >= MAX_MONEY_EXPR_DEPTH
                        && parsed_as(t, p0, q, money_pats(e))
                            implies false by {
                        lemma_money_first(t, p0, q, e);
                    }
                }
                Err(self.unexpected("'credit(...)', 'merge(...)', or a variable name"))
            },
        }
    }

    fn parse_merge(&mut self, depth: u32) -> (r: Result<MoneyExpr, Diagnostic>)
        requires
            old(self).wf(),
            depth < MAX_MONEY_EXPR_DEPTH,
        ensures
            final(self).kept(old(self)),
            final(self).diags == old(self).diags,
            r matches Ok(e) ==> parsed_as(
                old(self).tokens@,
                old(self).pos as int,
                final(self).pos as int,
                money_pats(e),
            ),
            forall|e: MoneyExpr, q: int|
                e is Merge && money_paths_ok(e) && depth + money_nest(e) < MAX_MONEY_EXPR_DEPTH && parsed_as(
                    old(self).tokens@,
                    old(self).pos as int,
                    q,
                    money_pats(e),
                ) ==> (r matches Ok(x) && money_pats(x) == money_pats(e) && final(self).pos == q),
            forall|e: MoneyExpr, q: int|
                e is Merge && money_paths_ok(e) && depth + money_nest(e) >= MAX_MONEY_EXPR_DEPTH && parsed_as(
                    old(self).tokens@,
                    old(self).pos as int,
                    q,
                    money_pats(e),
                ) ==> (r matches Err(d) && d.code == Code::ExprTooDeep),
            step_agrees(r, merge_body_step(old(self).tokens@, old(self).pos as int, depth as int), final(self).pos as int),
            r matches Ok(e) ==> money_spans_ok(old(self).tokens@, old(self).pos as int, e),
        decreases MAX_MONEY_EXPR_DEPTH - depth, 0int,
    {
        let ghost p0 = self.pos as int;
        let ghost t = self.tokens@;
        let start = match self.expect(TokenKind::KwMerge, "'merge'") {
            Ok(s) => s,
            Err(d) => {
                proof {
                    assert forall|e: MoneyExpr, q: int|
                        e is Merge && money_paths_ok(e) && depth + money_nest(e) < MAX_MONEY_EXPR_DEPTH
                        && parsed_as(t, p0, q, money_pats(e))
                            implies false by {
                        lemma_merge_shape(t, p0, q, e);
                    }
                    assert forall|e: MoneyExpr, q: int|
                        e is Merge && money_paths_ok(e) && depth + money_nest(e) >= MAX_MONEY_EXPR_DEPTH
                        && parsed_as(t, p0, q, money_pats(e))
                            implies d.code == Code::ExprTooDeep by {
                        lemma_merge_shape(t, p0, q, e);
                    }
                }
                return Err(d);
            },
        };
        let ghost p1 = self.pos as int;
        match self.expect(TokenKind::LParen, "'('") {
            Ok(_) => {},
            Err(d) => {
                proof {
                    assert forall|e: MoneyExpr, q: int|
                        e is Merge && money_paths_ok(e) && depth + money_nest(e) < MAX_MONEY_EXPR_DEPTH
                        && parsed_as(t, p0, q, money_pats(e))
                            implies false by {
                        lemma_merge_shape(t, p0, q, e);
                    }
                    assert forall|e: MoneyExpr, q: int|
                        e is Merge && money_paths_ok(e) && depth + money_nest(e) >= MAX_MONEY_EXPR_DEPTH
                        && parsed_as(t, p0, q, money_pats(e))
                            implies d.code == Code::ExprTooDeep by {
                        lemma_merge_shape(t, p0, q, e);
                    }
                }
                return Err(d);
            },
        }
        let ghost p2 = self.pos as int;
        let a = match self.parse_money_expr(depth + 1) {
            Ok(a) => a,
            Err(d) => {
                proof {
                    assert forall|e: MoneyExpr, q: int|
                        e is Merge && money_paths_ok(e) && depth + money_nest(e) < MAX_MONEY_EXPR_DEPTH
                        && parsed_as(t, p0, q, money_pats(e))
                            implies false by {
                        lemma_merge_shape(t, p0, q, e);
                        let ea = *e->Merge_a;
                        assert(parsed_as(t, p2, p0 + 2 + money_pats(ea).len(), money_pats(ea)));
                    }
                    assert forall|e: MoneyExpr, q: int|
                        e is Merge && money_paths_ok(e) && depth + money_nest(e) >= MAX_MONEY_EXPR_DEPTH
                        && parsed_as(t, p0, q, money_pats(e))
                            implies d.code == Code::ExprTooDeep by {
                        lemma_merge_shape(t, p0, q, e);
                        let ea = *e->Merge_a;
                        assert(parsed_as(t, p2, p0 + 2 + money_pats(ea).len(), money_pats(ea)));
                    }
                }
                return Err(d);
            },
        };
        let ghost p3 = self.pos as int;
        match self.expect(TokenKind::Comma, "','") {
            Ok(_) => {},
            Err(d) => {
                proof {
                    assert forall|e: MoneyExpr, q: int|
                        e is Merge && money_paths_ok(e) && depth + money_nest(e) < MAX_MONEY_EXPR_DEPTH
                        && parsed_as(t, p0, q, money_pats(e))
                            implies false by {
                        lemma_merge_shape(t, p0, q, e);
                        let ea = *e->Merge_a;
                        assert(parsed_as(t, p2, p0 + 2 + money_pats(ea).len(), money_pats(ea)));
                    }
                    assert forall|e: MoneyExpr, q: int|
                        e is Merge && money_paths_ok(e) && depth + money_nest(e) >= MAX_MONEY_EXPR_DEPTH
                        && parsed_as(t, p0, q, money_pats(e))
                            implies d.code == Code::ExprTooDeep by {
                        lemma_merge_shape(t, p0, q, e);
                        let ea = *e->Merge_a;
                        assert(parsed_as(t, p2, p0 + 2 + money_pats(ea).len(), money_pats(ea)));
                    }
                }
                return Err(d);
            },
        }
        let ghost p4 = self.pos as int;
        let b = match self.parse_money_expr(depth + 1) {
            Ok(b) => b,
            Err(d) => {
                proof {
                    assert forall|e: MoneyExpr, q: int|
                        e is Merge && money_paths_ok(e) && depth + money_nest(e) < MAX_MONEY_EXPR_DEPTH
                        && parsed_as(t, p0, q, money_pats(e))
                            implies false by {
                        lemma_merge_shape(t, p0, q, e);
                        let ea = *e->Merge_a;
                        let eb = *e->Merge_b;
                        let m1 = p0 + 2 + money_pats(ea).len();
                        assert(parsed_as(t, p2, m1, money_pats(ea)));
                        assert(parsed_as(t, p4, m1 + 1 + money_pats(eb).len(), money_pats(eb)));
                    }
                    assert forall|e: MoneyExpr, q: int|
                        e is Merge && money_paths_ok(e) && depth + money_nest(e) >= MAX_MONEY_EXPR_DEPTH
                        && parsed_as(t, p0, q, money_pats(e))
                            implies d.code == Code::ExprTooDeep by {
                        lemma_merge_shape(t, p0, q, e);
                        let ea = *e->Merge_a;
                        let eb = *e->Merge_b;
                        let m1 = p0 + 2 + money_pats(ea).len();
                        assert(parsed_as(t, p2, m1, money_pats(ea)));
                        assert(parsed_as(t, p4, m1 + 1 + money_pats(eb).len(), money_pats(eb)));
                    }
                }
                return Err(d);
            },
        };
        let ghost p5 = self.pos as int;
        let end = match self.expect(TokenKind::RParen, "')'") {
            Ok(s) => s,
            Err(d) => {
                proof {
                    assert forall|e: MoneyExpr, q: int|
                        e is Merge && money_paths_ok(e) && depth + money_nest(e) < MAX_MONEY_EXPR_DEPTH
                        && parsed_as(t, p0, q, money_pats(e))
                            implies false by {
                        lemma_merge_shape(t, p0, q, e);
                        let ea = *e->Merge_a;
                        let eb = *e->Merge_b;
                        let m1 = p0 + 2 + money_pats(ea).len();
                        assert(parsed_as(t, p2, m1, money_pats(ea)));
                        assert(parsed_as(t, p4, m1 + 1 + money_pats(eb).len(), money_pats(eb)));
                    }
                    assert forall|e: MoneyExpr, q: int|
                        e is Merge && money_paths_ok(e) && depth + money_nest(e) >= MAX_MONEY_EXPR_DEPTH
                        && parsed_as(t, p0, q, money_pats(e))
                            implies d.code == Code::ExprTooDeep by {
                        lemma_merge_shape(t, p0, q, e);
                        let ea = *e->Merge_a;
                        let eb = *e->Merge_b;
                        let m1 = p0 + 2 + money_pats(ea).len();
                        assert(parsed_as(t, p2, m1, money_pats(ea)));
                        assert(parsed_as(t, p4, m1 + 1 + money_pats(eb).len(), money_pats(eb)));
                    }
                }
                return Err(d);
            },
        };
        let ghost p6 = self.pos as int;
        proof {
            lemma_parsed_concat(t, p0, p1, p2, ex(Tok::KwMerge), ex(Tok::LParen));
            let q2 = ex(Tok::KwMerge) + ex(Tok::LParen);
            lemma_parsed_concat(t, p0, p2, p3, q2, money_pats(a));
            let q3 = q2 + money_pats(a);
            lemma_parsed_concat(t, p0, p3, p4, q3, ex(Tok::Comma));
            let q4 = q3 + ex(Tok::Comma);
            lemma_parsed_concat(t, p0, p4, p5, q4, money_pats(b));
            let q5 = q4 + money_pats(b);
            lemma_parsed_concat(t, p0, p5, p6, q5, ex(Tok::RParen));
        }
        let x = MoneyExpr::Merge { a: Box::new(a), b: Box::new(b), span: start.to(end) };
        proof {
            assert forall|e: MoneyExpr, q: int|
                e is Merge && money_paths_ok(e) && depth + money_nest(e) < MAX_MONEY_EXPR_DEPTH
                && parsed_as(t, p0, q, money_pats(e))
                    implies money_pats(x) == money_pats(e) && p6 == q by {
                lemma_merge_shape(t, p0, q, e);
                let ea = *e->Merge_a;
                let eb = *e->Merge_b;
                let m1 = p0 + 2 + money_pats(ea).len();
                assert(parsed_as(t, p2, m1, money_pats(ea)));
                assert(parsed_as(t, p4, m1 + 1 + money_pats(eb).len(), money_pats(eb)));
            }
        }
        proof {
            assert forall|e: MoneyExpr, q: int|
                e is Merge && money_paths_ok(e) && depth + money_nest(e) >= MAX_MONEY_EXPR_DEPTH
                && parsed_as(t, p0, q, money_pats(e)) implies false by {
                lemma_merge_shape(t, p0, q, e);
                let ea = *e->Merge_a;
                let eb = *e->Merge_b;
                let m1 = p0 + 2 + money_pats(ea).len();
                assert(parsed_as(t, p2, m1, money_pats(ea)));
                assert(parsed_as(t, p4, m1 + 1 + money_pats(eb).len(), money_pats(eb)));
            }
        }
        Ok(x)
    }

    fn parse_credit(&mut self) -> (r: Result<MoneyExpr, Diagnostic>)
        requires
            old(self).wf(),
        ensures
            final(self).kept(old(self)),
            final(self).diags == old(self).diags,
            r matches Ok(e) ==> parsed_as(
                old(self).tokens@,
                old(self).pos as int,
                final(self).pos as int,
                money_pats(e),
            ),
            forall|e: MoneyExpr, q: int|
                e is Credit && money_paths_ok(e) && parsed_as(old(self).tokens@, old(self).pos as int, q, money_pats(e))
                    ==> (r matches Ok(x) && money_pats(x) == money_pats(e) && final(self).pos == q),
            step_agrees(r, credit_step(old(self).tokens@, old(self).pos as int), final(self).pos as int),
            r matches Ok(e) ==> money_spans_ok(old(self).tokens@, old(self).pos as int, e),
    {
        let ghost p0 = self.pos as int;
        let ghost t = self.tokens@;
        let start = match self.expect(TokenKind::KwCredit, "'credit'") {
            Ok(s) => s,
            Err(d) => {
                proof {
                    assert forall|e: MoneyExpr, q: int|
                        e is Credit && money_paths_ok(e) && parsed_as(t, p0, q, money_pats(e))
                            implies false by {
                        lemma_credit_shape(t, p0, q, e);
                    }
                }
                return Err(d);
            },
        };
        let ghost p1 = self.pos as int;
        match self.expect(TokenKind::LParen, "'('") {
            Ok(_) => {},
            Err(d) => {
                proof {
                    assert forall|e: MoneyExpr, q: int|
                        e is Credit && money_paths_ok(e) && parsed_as(t, p0, q, money_pats(e))
                            implies false by {
                        lemma_credit_shape(t, p0, q, e);
                    }
                }
                return Err(d);
            },
        }
        let ghost p2 = self.pos as int;
        let account = match self.parse_account_path() {
            Ok(a) => a,
            Err(d) => {
                proof {
                    assert forall|e: MoneyExpr, q: int|
                        e is Credit && money_paths_ok(e) && parsed_as(t, p0, q, money_pats(e))
                            implies false by {
                        lemma_credit_shape(t, p0, q, e);
                        let segs = e->Credit_account.seg_views();
                        let m = p0 + 2 + path_pats(segs).len();
                        assert(parsed_as(t, p2, m, path_pats(segs)));
                    }
                }
                return Err(d);
            },
        };
        let ghost p3 = self.pos as int;
        match self.expect(TokenKind::Comma, "','") {
            Ok(_) => {},
            Err(d) => {
                proof {
                    assert forall|e: MoneyExpr, q: int|
                        e is Credit && money_paths_ok(e) && parsed_as(t, p0, q, money_pats(e))
                            implies false by {
                        lemma_credit_shape(t, p0, q, e);
                        let segs = e->Credit_account.seg_views();
                        let m = p0 + 2 + path_pats(segs).len();
                        assert(parsed_as(t, p2, m, path_pats(segs)));
                    }
                }
                return Err(d);
            },
        }
        let ghost p4 = self.pos as int;
        let amount = match self.parse_amount() {
            Ok(a) => a,
            Err(d) => {
                proof {
                    assert forall|e: MoneyExpr, q: int|
                        e is Credit && money_paths_ok(e) && parsed_as(t, p0, q, money_pats(e))
                            implies false by {
                        lemma_credit_shape(t, p0, q, e);
                        let segs = e->Credit_account.seg_views();
                        let m = p0 + 2 + path_pats(segs).len();
                        assert(parsed_as(t, p2, m, path_pats(segs)));
                    }
                }
                return Err(d);
            },
        };
        let ghost p5 = self.pos as int;
        let end = match self.expect(TokenKind::RParen, "')'") {
            Ok(s) => s,
            Err(d) => {
                proof {
                    assert forall|e: MoneyExpr, q: int|
                        e is Credit && money_paths_ok(e) && parsed_as(t, p0, q, money_pats(e))
                            implies false by {
                        lemma_credit_shape(t, p0, q, e);
                        let segs = e->Credit_account.seg_views();
                        let m = p0 + 2 + path_pats(segs).len();
                        assert(parsed_as(t, p2, m, path_pats(segs)));
                    }
                }
                return Err(d);
            },
        };
        let ghost p6 = self.pos as int;
        proof {
            lemma_parsed_concat(t, p0, p1, p2, ex(Tok::KwCredit), ex(Tok::LParen));
            let q2 = ex(Tok::KwCredit) + ex(Tok::LParen);
            lemma_parsed_concat(t, p0, p2, p3, q2, path_pats(account.seg_views()));
            let q3 = q2 + path_pats(account.seg_views());
            lemma_parsed_concat(t, p0, p3, p4, q3, ex(Tok::Comma));
            let q4 = q3 + ex(Tok::Comma);
            lemma_parsed_concat(t, p0, p4, p5, q4, ex(Tok::Decimal(amount.text@)));
            let q5 = q4 + ex(Tok::Decimal(amount.text@));
            lemma_parsed_concat(t, p0, p5, p6, q5, ex(Tok::RParen));
            assert(t[p4 + 0].kind@ == Tok::Decimal(amount.text@));
        }
        let x = MoneyExpr::Credit { account, amount, span: start.to(end) };
        proof {
            assert forall|e: MoneyExpr, q: int|
                e is Credit && money_paths_ok(e) && parsed_as(t, p0, q, money_pats(e)) implies money_pats(x)
                == money_pats(e) && p6 == q by {
                lemma_credit_shape(t, p0, q, e);
                let segs = e->Credit_account.seg_views();
                let m = p0 + 2 + path_pats(segs).len();
                assert(parsed_as(t, p2, m, path_pats(segs)));
            }
        }
        Ok(x)
    }

    fn parse_debit(&mut self) -> (r: Result<Stmt, Diagnostic>)
        requires
            old(self).wf(),
            old(self).tokens@[old(self).pos as int].kind@ == Tok::KwDebit,
        ensures
            final(self).kept(old(self)),
            final(self).diags == old(self).diags,
            final(self).pos > old(self).pos,
            r matches Ok(s) ==> s is Debit && parsed_as(
                old(self).tokens@,
                old(self).pos as int,
                final(self).pos as int,
                stmt_pats(s),
            ),
            forall|s: Stmt, q: int|
                s is Debit && stmt_ok(s) && parsed_as(old(self).tokens@, old(self).pos as int, q, stmt_pats(s))
                    ==> r is Ok && final(self).pos == q,
            forall|s: Stmt, q: int|
                s is Debit && stmt_too_deep(s) && parsed_as(
                    old(self).tokens@,
                    old(self).pos as int,
                    q,
                    stmt_pats(s),
                ) ==> (r matches Err(d) && d.code == Code::ExprTooDeep),
            step_agrees(r, debit_step(old(self).tokens@, old(self).pos as int), final(self).pos as int),
            r matches Ok(s) ==> stmt_spans_ok(old(self).tokens@, old(self).pos as int, s),
    {
        let ghost p0 = self.pos as int;
        let ghost t = self.tokens@;
        let start = match self.expect(TokenKind::KwDebit, "'debit'") {
            Ok(v) => v,
            Err(d) => {
                proof {
                    assert forall|s: Stmt, q: int|
                        s is Debit && stmt_ok(s) && parsed_as(t, p0, q, stmt_pats(s)) implies false by {
                        lemma_debit_shape(t, p0, q, s);
                    }
                    assert forall|s: Stmt, q: int|
                        s is Debit && stmt_too_deep(s) && parsed_as(t, p0, q, stmt_pats(s))
                            implies d.code == Code::ExprTooDeep by {
                        lemma_debit_shape(t, p0, q, s);
                    }
                }
                return Err(d);
            },
        };
        let ghost p1 = self.pos as int;
        match self.expect(TokenKind::LParen, "'('") {
            Ok(_) => {},
            Err(d) => {
                proof {
                    assert forall|s: Stmt, q: int|
                        s is Debit && stmt_ok(s) && parsed_as(t, p0, q, stmt_pats(s)) implies false by {
                        lemma_debit_shape(t, p0, q, s);
                    }
                    assert forall|s: Stmt, q: int|
                        s is Debit && stmt_too_deep(s) && parsed_as(t, p0, q, stmt_pats(s))
                            implies d.code == Code::ExprTooDeep by {
                        lemma_debit_shape(t, p0, q, s);
                    }
                }
                return Err(d);
            },
        }
        let ghost p2 = self.pos as int;
        let account = match self.parse_account_path() {
            Ok(v) => v,
            Err(d) => {
                proof {
                    assert forall|s: Stmt, q: int|
                        s is Debit && stmt_ok(s) && parsed_as(t, p0, q, stmt_pats(s)) implies false by {
                        lemma_debit_shape(t, p0, q, s);
                    }
                    assert forall|s: Stmt, q: int|
                        s is Debit && stmt_too_deep(s) && parsed_as(t, p0, q, stmt_pats(s))
                            implies d.code == Code::ExprTooDeep by {
                        lemma_debit_shape(t, p0, q, s);
                    }
                }
                return Err(d);
            },
        };
        let ghost p3 = self.pos as int;
        match self.expect(TokenKind::Comma, "','") {
            Ok(_) => {},
            Err(d) => {
                proof {
                    assert forall|s: Stmt, q: int|
                        s is Debit && stmt_ok(s) && parsed_as(t, p0, q, stmt_pats(s)) implies false by {
                        lemma_debit_shape(t, p0, q, s);
                    }
                    assert forall|s: Stmt, q: int|
                        s is Debit && stmt_too_deep(s) && parsed_as(t, p0, q, stmt_pats(s))
                            implies d.code == Code::ExprTooDeep by {
                        lemma_debit_shape(t, p0, q, s);
                    }
                }
                return Err(d);
            },
        }
        let ghost p4 = self.pos as int;
        let value = match self.parse_money_expr(0) {
            Ok(v) => v,
            Err(d) => {
                proof {
                    assert forall|s: Stmt, q: int|
                        s is Debit && stmt_ok(s) && parsed_as(t, p0, q, stmt_pats(s)) implies false by {
                        lemma_debit_shape(t, p0, q, s);
                    }
                    assert forall|s: Stmt, q: int|
                        s is Debit && stmt_too_deep(s) && parsed_as(t, p0, q, stmt_pats(s))
                            implies d.code == Code::ExprTooDeep by {
                        lemma_debit_shape(t, p0, q, s);
                    }
                }
                return Err(d);
            },
        };
        let ghost p5 = self.pos as int;
        match self.expect(TokenKind::RParen, "')'") {
            Ok(_) => {},
            Err(d) => {
                proof {
                    assert forall|s: Stmt, q: int|
                        s is Debit && stmt_ok(s) && parsed_as(t, p0, q, stmt_pats(s)) implies false by {
                        lemma_debit_shape(t, p0, q, s);
                    }
                    assert forall|s: Stmt, q: int|
                        s is Debit && stmt_too_deep(s) && parsed_as(t, p0, q, stmt_pats(s))
                            implies d.code == Code::ExprTooDeep by {
                        lemma_debit_shape(t, p0, q, s);
                    }
                }
                return Err(d);
            },
        }
        let ghost p6 = self.pos as int;
        let end = match self.expect(TokenKind::Semi, "';'") {
            Ok(v) => v,
            Err(d) => {
                proof {
                    assert forall|s: Stmt, q: int|
                        s is Debit && stmt_ok(s) && parsed_as(t, p0, q, stmt_pats(s)) implies false by {
                        lemma_debit_shape(t, p0, q, s);
                    }
                    assert forall|s: Stmt, q: int|
                        s is Debit && stmt_too_deep(s) && parsed_as(t, p0, q, stmt_pats(s))
                            implies d.code == Code::ExprTooDeep by {
                        lemma_debit_shape(t, p0, q, s);
                    }
                }
                return Err(d);
            },
        };
        let ghost p7 = self.pos as int;
        proof {
            let t = self.tokens@;
            let q1 = ex(Tok::LParen);
            lemma_parsed_concat(t, p1, p2, p3, q1, path_pats(account.seg_views()));
            let q2 = q1 + path_pats(account.seg_views());
            lemma_parsed_concat(t, p1, p3, p4, q2, ex(Tok::Comma));
            let q3 = q2 + ex(Tok::Comma);
            lemma_parsed_concat(t, p1, p4, p5, q3, money_pats(value));
            let q4 = q3 + money_pats(value);
            lemma_parsed_concat(t, p1, p5, p6, q4, ex(Tok::RParen));
            let q5 = q4 + ex(Tok::RParen);
            lemma_parsed_concat(t, p1, p6, p7, q5, ex(Tok::Semi));
            lemma_parsed_concat(t, p0, p1, p7, ex(Tok::KwDebit), q5 + ex(Tok::Semi));
        }
        proof {
            assert forall|s: Stmt, q: int|
                s is Debit && stmt_ok(s) && parsed_as(t, p0, q, stmt_pats(s)) implies self.pos == q by {
                lemma_debit_shape(t, p0, q, s);
            }
            assert forall|s: Stmt, q: int|
                s is Debit && stmt_too_deep(s) && parsed_as(t, p0, q, stmt_pats(s)) implies false by {
                lemma_debit_shape(t, p0, q, s);
            }
        }
        Ok(Stmt::Debit { account, value, span: start.to(end) })
    }

    fn parse_absorb(&mut self) -> (r: Result<Stmt, Diagnostic>)
        requires
            old(self).wf(),
            old(self).tokens@[old(self).pos as int].kind@ == Tok::KwAbsorb,
        ensures
            final(self).kept(old(self)),
            final(self).diags == old(self).diags,
            final(self).pos > old(self).pos,
            r matches Ok(s) ==> s is Absorb && parsed_as(
                old(self).tokens@,
                old(self).pos as int,
                final(self).pos as int,
                stmt_pats(s),
            ),
            forall|s: Stmt, q: int|
                s is Absorb && stmt_ok(s) && parsed_as(old(self).tokens@, old(self).pos as int, q, stmt_pats(s))
                    ==> r is Ok && final(self).pos == q,
            step_agrees(r, absorb_step(old(self).tokens@, old(self).pos as int), final(self).pos as int),
            r matches Ok(s) ==> stmt_spans_ok(old(self).tokens@, old(self).pos as int, s),
    {
        let ghost p0 = self.pos as int;
        let ghost t = self.tokens@;
        let start = match self.expect(TokenKind::KwAbsorb, "'absorb'") {
            Ok(v) => v,
            Err(d) => {
                proof {
                    assert forall|s: Stmt, q: int|
                        s is Absorb && stmt_ok(s) && parsed_as(t, p0, q, stmt_pats(s)) implies false by {
                        lemma_absorb_shape(t, p0, q, s);
                    }
                }
                return Err(d);
            },
        };
        let ghost p1 = self.pos as int;
        match self.expect(TokenKind::LParen, "'('") {
            Ok(_) => {},
            Err(d) => {
                proof {
                    assert forall|s: Stmt, q: int|
                        s is Absorb && stmt_ok(s) && parsed_as(t, p0, q, stmt_pats(s)) implies false by {
                        lemma_absorb_shape(t, p0, q, s);
                    }
                }
                return Err(d);
            },
        }
        let ghost p2 = self.pos as int;
        let (residue_name, residue_span) = match self.parse_ident() {
            Ok(v) => v,
            Err(d) => {
                proof {
                    assert forall|s: Stmt, q: int|
                        s is Absorb && stmt_ok(s) && parsed_as(t, p0, q, stmt_pats(s)) implies false by {
                        lemma_absorb_shape(t, p0, q, s);
                    }
                }
                return Err(d);
            },
        };
        let ghost p3 = self.pos as int;
        match self.expect(TokenKind::Comma, "','") {
            Ok(_) => {},
            Err(d) => {
                proof {
                    assert forall|s: Stmt, q: int|
                        s is Absorb && stmt_ok(s) && parsed_as(t, p0, q, stmt_pats(s)) implies false by {
                        lemma_absorb_shape(t, p0, q, s);
                    }
                }
                return Err(d);
            },
        }
        let ghost p4 = self.pos as int;
        let account = match self.parse_account_path() {
            Ok(v) => v,
            Err(d) => {
                proof {
                    assert forall|s: Stmt, q: int|
                        s is Absorb && stmt_ok(s) && parsed_as(t, p0, q, stmt_pats(s)) implies false by {
                        lemma_absorb_shape(t, p0, q, s);
                    }
                }
                return Err(d);
            },
        };
        let ghost p5 = self.pos as int;
        match self.expect(TokenKind::RParen, "')'") {
            Ok(_) => {},
            Err(d) => {
                proof {
                    assert forall|s: Stmt, q: int|
                        s is Absorb && stmt_ok(s) && parsed_as(t, p0, q, stmt_pats(s)) implies false by {
                        lemma_absorb_shape(t, p0, q, s);
                    }
                }
                return Err(d);
            },
        }
        let ghost p6 = self.pos as int;
        let end = match self.expect(TokenKind::Semi, "';'") {
            Ok(v) => v,
            Err(d) => {
                proof {
                    assert forall|s: Stmt, q: int|
                        s is Absorb && stmt_ok(s) && parsed_as(t, p0, q, stmt_pats(s)) implies false by {
                        lemma_absorb_shape(t, p0, q, s);
                    }
                }
                return Err(d);
            },
        };
        let ghost p7 = self.pos as int;
        proof {
            let t = self.tokens@;
            let q1 = ex(Tok::LParen);
            lemma_parsed_concat(t, p1, p2, p3, q1, ident_pats(residue_name@));
            let q2 = q1 + ident_pats(residue_name@);
            lemma_parsed_concat(t, p1, p3, p4, q2, ex(Tok::Comma));
            let q3 = q2 + ex(Tok::Comma);
            lemma_parsed_concat(t, p1, p4, p5, q3, path_pats(account.seg_views()));
            let q4 = q3 + path_pats(account.seg_views());
            lemma_parsed_concat(t, p1, p5, p6, q4, ex(Tok::RParen));
            let q5 = q4 + ex(Tok::RParen);
            lemma_parsed_concat(t, p1, p6, p7, q5, ex(Tok::Semi));
            lemma_parsed_concat(t, p0, p1, p7, ex(Tok::KwAbsorb), q5 + ex(Tok::Semi));
        }
        proof {
            assert forall|s: Stmt, q: int|
                s is Absorb && stmt_ok(s) && parsed_as(t, p0, q, stmt_pats(s)) implies self.pos == q by {
                lemma_absorb_shape(t, p0, q, s);
            }
        }
        Ok(Stmt::Absorb { residue_name, residue_span, account, span: start.to(end) })
    }

    /// `let` followed by `(` is always a `PairStmt` — an ordinary `let`'s left-hand side
    /// is a single `Ident` — so one token of lookahead after `let` decides, with no
    /// backtracking.
    #[verifier::spinoff_prover]
    #[verifier::rlimit(100)]
    fn parse_let_or_pair(&mut self) -> (r: Result<Stmt, Diagnostic>)
        requires
            old(self).wf(),
            old(self).tokens@[old(self).pos as int].kind@ == Tok::KwLet,
        ensures
            final(self).kept(old(self)),
            final(self).diags == old(self).diags,
            final(self).pos > old(self).pos,
            r matches Ok(s) ==> stmt_keyword(s) == Tok::KwLet && parsed_as(
                old(self).tokens@,
                old(self).pos as int,
                final(self).pos as int,
                stmt_pats(s),
            ),
            forall|s: Stmt, q: int|
                stmt_keyword(s) == Tok::KwLet && stmt_ok(s) && parsed_as(
                    old(self).tokens@,
                    old(self).pos as int,
                    q,
                    stmt_pats(s),
                ) ==> r is Ok && final(self).pos == q,
            forall|s: Stmt, q: int|
                stmt_keyword(s) == Tok::KwLet && stmt_too_deep(s) && parsed_as(
                    old(self).tokens@,
                    old(self).pos as int,
                    q,
                    stmt_pats(s),
                ) ==> (r matches Err(d) && d.code == Code::ExprTooDeep),
            step_agrees(r, let_or_pair_step(old(self).tokens@, old(self).pos as int), final(self).pos as int),
            r matches Ok(s) ==> stmt_spans_ok(old(self).tokens@, old(self).pos as int, s),
    {
        let ghost p0 = self.pos as int;
        let ghost t = self.tokens@;
        let start = match self.expect(TokenKind::KwLet, "'let'") {
            Ok(v) => v,
            Err(d) => {
                proof {
                    assert forall|s: Stmt, q: int|
                        stmt_keyword(s) == Tok::KwLet && stmt_ok(s) && parsed_as(t, p0, q, stmt_pats(s))
                            implies false by {
                        if s is Let {
                            lemma_let_shape(t, p0, q, s);
                        } else {
                            lemma_parsed_split(t, p0, q, ex(Tok::KwLet), stmt_rest_pats(s));
                            lemma_pair_shape(t, p0 + 1, q, s);
                        }
                    }
                    assert forall|s: Stmt, q: int|
                        stmt_keyword(s) == Tok::KwLet && stmt_too_deep(s) && parsed_as(t, p0, q, stmt_pats(s))
                            implies d.code == Code::ExprTooDeep by {
                        if s is Let {
                            lemma_let_shape(t, p0, q, s);
                        } else {
                            lemma_parsed_split(t, p0, q, ex(Tok::KwLet), stmt_rest_pats(s));
                            lemma_pair_shape(t, p0 + 1, q, s);
                        }
                    }
                }
                return Err(d);
            },
        };
        let ghost p1 = self.pos as int;
        if self.at(TokenKind::LParen) {
            let s = match self.parse_pair_stmt(start) {
                Ok(v) => v,
                Err(d) => {
                    proof {
                        assert forall|s: Stmt, q: int|
                            stmt_keyword(s) == Tok::KwLet && stmt_ok(s) && parsed_as(t, p0, q, stmt_pats(s))
                                implies false by {
                            if s is Let {
                                lemma_let_shape(t, p0, q, s);
                            } else {
                                lemma_parsed_split(t, p0, q, ex(Tok::KwLet), stmt_rest_pats(s));
                                lemma_pair_shape(t, p0 + 1, q, s);
                            }
                        }
                        assert forall|s: Stmt, q: int|
                            stmt_keyword(s) == Tok::KwLet && stmt_too_deep(s)
                                && parsed_as(t, p0, q, stmt_pats(s))
                                implies d.code == Code::ExprTooDeep by {
                            if s is Let {
                                lemma_let_shape(t, p0, q, s);
                            } else {
                                lemma_parsed_split(t, p0, q, ex(Tok::KwLet), stmt_rest_pats(s));
                                lemma_pair_shape(t, p0 + 1, q, s);
                            }
                        }
                    }
                    return Err(d);
                },
            };
            proof {
                lemma_parsed_concat(
                    self.tokens@,
                    p0,
                    p1,
                    self.pos as int,
                    ex(Tok::KwLet),
                    stmt_rest_pats(s),
                );
            }
            proof {
                assert forall|s: Stmt, q: int|
                    stmt_keyword(s) == Tok::KwLet && stmt_ok(s) && parsed_as(t, p0, q, stmt_pats(s))
                        implies self.pos == q by {
                    if s is Let {
                        lemma_let_shape(t, p0, q, s);
                    } else {
                        lemma_parsed_split(t, p0, q, ex(Tok::KwLet), stmt_rest_pats(s));
                        lemma_pair_shape(t, p0 + 1, q, s);
                    }
                }
                assert forall|s: Stmt, q: int|
                    stmt_keyword(s) == Tok::KwLet && stmt_too_deep(s) && parsed_as(t, p0, q, stmt_pats(s))
                        implies false by {
                    if s is Let {
                        lemma_let_shape(t, p0, q, s);
                    } else {
                        lemma_parsed_split(t, p0, q, ex(Tok::KwLet), stmt_rest_pats(s));
                        lemma_pair_shape(t, p0 + 1, q, s);
                    }
                }
            }
            Ok(s)
        } else {
            let (name, name_span) = match self.parse_ident() {
                Ok(v) => v,
                Err(d) => {
                    proof {
                        assert forall|s: Stmt, q: int|
                            stmt_keyword(s) == Tok::KwLet && stmt_ok(s) && parsed_as(t, p0, q, stmt_pats(s))
                                implies false by {
                            if s is Let {
                                lemma_let_shape(t, p0, q, s);
                            } else {
                                lemma_parsed_split(t, p0, q, ex(Tok::KwLet), stmt_rest_pats(s));
                                lemma_pair_shape(t, p0 + 1, q, s);
                            }
                        }
                        assert forall|s: Stmt, q: int|
                            stmt_keyword(s) == Tok::KwLet && stmt_too_deep(s)
                                && parsed_as(t, p0, q, stmt_pats(s))
                                implies d.code == Code::ExprTooDeep by {
                            if s is Let {
                                lemma_let_shape(t, p0, q, s);
                            } else {
                                lemma_parsed_split(t, p0, q, ex(Tok::KwLet), stmt_rest_pats(s));
                                lemma_pair_shape(t, p0 + 1, q, s);
                            }
                        }
                    }
                    return Err(d);
                },
            };
            let ghost p2 = self.pos as int;
            match self.expect(TokenKind::Eq, "'='") {
                Ok(_) => {},
                Err(d) => {
                    proof {
                        assert forall|s: Stmt, q: int|
                            stmt_keyword(s) == Tok::KwLet && stmt_ok(s) && parsed_as(t, p0, q, stmt_pats(s))
                                implies false by {
                            if s is Let {
                                lemma_let_shape(t, p0, q, s);
                            } else {
                                lemma_parsed_split(t, p0, q, ex(Tok::KwLet), stmt_rest_pats(s));
                                lemma_pair_shape(t, p0 + 1, q, s);
                            }
                        }
                        assert forall|s: Stmt, q: int|
                            stmt_keyword(s) == Tok::KwLet && stmt_too_deep(s)
                                && parsed_as(t, p0, q, stmt_pats(s))
                                implies d.code == Code::ExprTooDeep by {
                            if s is Let {
                                lemma_let_shape(t, p0, q, s);
                            } else {
                                lemma_parsed_split(t, p0, q, ex(Tok::KwLet), stmt_rest_pats(s));
                                lemma_pair_shape(t, p0 + 1, q, s);
                            }
                        }
                    }
                    return Err(d);
                },
            }
            let ghost p3 = self.pos as int;
            let value = match self.parse_money_expr(0) {
                Ok(v) => v,
                Err(d) => {
                    proof {
                        assert forall|s: Stmt, q: int|
                            stmt_keyword(s) == Tok::KwLet && stmt_ok(s) && parsed_as(t, p0, q, stmt_pats(s))
                                implies false by {
                            if s is Let {
                                lemma_let_shape(t, p0, q, s);
                            } else {
                                lemma_parsed_split(t, p0, q, ex(Tok::KwLet), stmt_rest_pats(s));
                                lemma_pair_shape(t, p0 + 1, q, s);
                            }
                        }
                        assert forall|s: Stmt, q: int|
                            stmt_keyword(s) == Tok::KwLet && stmt_too_deep(s)
                                && parsed_as(t, p0, q, stmt_pats(s))
                                implies d.code == Code::ExprTooDeep by {
                            if s is Let {
                                lemma_let_shape(t, p0, q, s);
                            } else {
                                lemma_parsed_split(t, p0, q, ex(Tok::KwLet), stmt_rest_pats(s));
                                lemma_pair_shape(t, p0 + 1, q, s);
                            }
                        }
                    }
                    return Err(d);
                },
            };
            let ghost p4 = self.pos as int;
            let end = match self.expect(TokenKind::Semi, "';'") {
                Ok(v) => v,
                Err(d) => {
                    proof {
                        assert forall|s: Stmt, q: int|
                            stmt_keyword(s) == Tok::KwLet && stmt_ok(s) && parsed_as(t, p0, q, stmt_pats(s))
                                implies false by {
                            if s is Let {
                                lemma_let_shape(t, p0, q, s);
                            } else {
                                lemma_parsed_split(t, p0, q, ex(Tok::KwLet), stmt_rest_pats(s));
                                lemma_pair_shape(t, p0 + 1, q, s);
                            }
                        }
                        assert forall|s: Stmt, q: int|
                            stmt_keyword(s) == Tok::KwLet && stmt_too_deep(s)
                                && parsed_as(t, p0, q, stmt_pats(s))
                                implies d.code == Code::ExprTooDeep by {
                            if s is Let {
                                lemma_let_shape(t, p0, q, s);
                            } else {
                                lemma_parsed_split(t, p0, q, ex(Tok::KwLet), stmt_rest_pats(s));
                                lemma_pair_shape(t, p0 + 1, q, s);
                            }
                        }
                    }
                    return Err(d);
                },
            };
            let ghost p5 = self.pos as int;
            proof {
                let t = self.tokens@;
                lemma_parsed_concat(t, p1, p2, p3, ident_pats(name@), ex(Tok::Eq));
                let q2 = ident_pats(name@) + ex(Tok::Eq);
                lemma_parsed_concat(t, p1, p3, p4, q2, money_pats(value));
                let q3 = q2 + money_pats(value);
                lemma_parsed_concat(t, p1, p4, p5, q3, ex(Tok::Semi));
                lemma_parsed_concat(t, p0, p1, p5, ex(Tok::KwLet), q3 + ex(Tok::Semi));
            }
            proof {
                assert forall|s: Stmt, q: int|
                    stmt_keyword(s) == Tok::KwLet && stmt_ok(s) && parsed_as(t, p0, q, stmt_pats(s))
                        implies self.pos == q by {
                    if s is Let {
                        lemma_let_shape(t, p0, q, s);
                    } else {
                        lemma_parsed_split(t, p0, q, ex(Tok::KwLet), stmt_rest_pats(s));
                        lemma_pair_shape(t, p0 + 1, q, s);
                    }
                }
                assert forall|s: Stmt, q: int|
                    stmt_keyword(s) == Tok::KwLet && stmt_too_deep(s) && parsed_as(t, p0, q, stmt_pats(s))
                        implies false by {
                    if s is Let {
                        lemma_let_shape(t, p0, q, s);
                    } else {
                        lemma_parsed_split(t, p0, q, ex(Tok::KwLet), stmt_rest_pats(s));
                        lemma_pair_shape(t, p0 + 1, q, s);
                    }
                }
            }
            Ok(Stmt::Let { name, name_span, value, span: start.to(end) })
        }
    }

    /// After `let`: `"(" a "," b ")" "="`, then one of the three pair forms, chosen by
    /// the keyword right after `=`.
    #[verifier::spinoff_prover]
    #[verifier::rlimit(100)]
    fn parse_pair_stmt(&mut self, start: Span) -> (r: Result<Stmt, Diagnostic>)
        requires
            old(self).pos >= 1,
            start == old(self).tokens@[old(self).pos - 1].span,
            old(self).wf(),
        ensures
            final(self).kept(old(self)),
            final(self).diags == old(self).diags,
            r matches Ok(s) ==> stmt_keyword(s) == Tok::KwLet && !(s is Let) && parsed_as(
                old(self).tokens@,
                old(self).pos as int,
                final(self).pos as int,
                stmt_rest_pats(s),
            ),
            forall|s: Stmt, q: int|
                pair_stmt_ok(s) && parsed_as(
                    old(self).tokens@,
                    old(self).pos as int,
                    q,
                    stmt_rest_pats(s),
                ) ==> (r matches Ok(x) && stmt_rest_pats(x) == stmt_rest_pats(s)
                    && final(self).pos == q),
            forall|s: Stmt, q: int|
                pair_stmt_too_deep(s) && parsed_as(
                    old(self).tokens@,
                    old(self).pos as int,
                    q,
                    stmt_rest_pats(s),
                ) ==> (r matches Err(d) && d.code == Code::ExprTooDeep),
            step_agrees(r, pair_step(old(self).tokens@, old(self).pos as int), final(self).pos as int),
            r matches Ok(s) ==> stmt_spans_ok(old(self).tokens@, old(self).pos - 1, s),
    {
        let ghost p0 = self.pos as int;
        let ghost t = self.tokens@;
        match self.expect(TokenKind::LParen, "'('") {
            Ok(_) => {},
            Err(d) => {
                proof {
                    assert forall|s: Stmt, q: int|
                        pair_stmt_ok(s) && parsed_as(t, p0, q, stmt_rest_pats(s)) implies false by {
                        lemma_pair_shape(t, p0, q, s);
                    }
                    assert forall|s: Stmt, q: int|
                        pair_stmt_too_deep(s) && parsed_as(t, p0, q, stmt_rest_pats(s))
                            implies d.code == Code::ExprTooDeep by {
                        lemma_pair_shape(t, p0, q, s);
                    }
                }
                return Err(d);
            },
        }
        let ghost p1 = self.pos as int;
        let (a_name, a_span) = match self.parse_ident() {
            Ok(v) => v,
            Err(d) => {
                proof {
                    assert forall|s: Stmt, q: int|
                        pair_stmt_ok(s) && parsed_as(t, p0, q, stmt_rest_pats(s)) implies false by {
                        lemma_pair_shape(t, p0, q, s);
                    }
                    assert forall|s: Stmt, q: int|
                        pair_stmt_too_deep(s) && parsed_as(t, p0, q, stmt_rest_pats(s))
                            implies d.code == Code::ExprTooDeep by {
                        lemma_pair_shape(t, p0, q, s);
                    }
                }
                return Err(d);
            },
        };
        let ghost p2 = self.pos as int;
        match self.expect(TokenKind::Comma, "','") {
            Ok(_) => {},
            Err(d) => {
                proof {
                    assert forall|s: Stmt, q: int|
                        pair_stmt_ok(s) && parsed_as(t, p0, q, stmt_rest_pats(s)) implies false by {
                        lemma_pair_shape(t, p0, q, s);
                    }
                    assert forall|s: Stmt, q: int|
                        pair_stmt_too_deep(s) && parsed_as(t, p0, q, stmt_rest_pats(s))
                            implies d.code == Code::ExprTooDeep by {
                        lemma_pair_shape(t, p0, q, s);
                    }
                }
                return Err(d);
            },
        }
        let ghost p3 = self.pos as int;
        let (b_name, b_span) = match self.parse_ident() {
            Ok(v) => v,
            Err(d) => {
                proof {
                    assert forall|s: Stmt, q: int|
                        pair_stmt_ok(s) && parsed_as(t, p0, q, stmt_rest_pats(s)) implies false by {
                        lemma_pair_shape(t, p0, q, s);
                    }
                    assert forall|s: Stmt, q: int|
                        pair_stmt_too_deep(s) && parsed_as(t, p0, q, stmt_rest_pats(s))
                            implies d.code == Code::ExprTooDeep by {
                        lemma_pair_shape(t, p0, q, s);
                    }
                }
                return Err(d);
            },
        };
        let ghost p4 = self.pos as int;
        match self.expect(TokenKind::RParen, "')'") {
            Ok(_) => {},
            Err(d) => {
                proof {
                    assert forall|s: Stmt, q: int|
                        pair_stmt_ok(s) && parsed_as(t, p0, q, stmt_rest_pats(s)) implies false by {
                        lemma_pair_shape(t, p0, q, s);
                    }
                    assert forall|s: Stmt, q: int|
                        pair_stmt_too_deep(s) && parsed_as(t, p0, q, stmt_rest_pats(s))
                            implies d.code == Code::ExprTooDeep by {
                        lemma_pair_shape(t, p0, q, s);
                    }
                }
                return Err(d);
            },
        }
        let ghost p5 = self.pos as int;
        match self.expect(TokenKind::Eq, "'='") {
            Ok(_) => {},
            Err(d) => {
                proof {
                    assert forall|s: Stmt, q: int|
                        pair_stmt_ok(s) && parsed_as(t, p0, q, stmt_rest_pats(s)) implies false by {
                        lemma_pair_shape(t, p0, q, s);
                    }
                    assert forall|s: Stmt, q: int|
                        pair_stmt_too_deep(s) && parsed_as(t, p0, q, stmt_rest_pats(s))
                            implies d.code == Code::ExprTooDeep by {
                        lemma_pair_shape(t, p0, q, s);
                    }
                }
                return Err(d);
            },
        }
        let ghost p6 = self.pos as int;
        let ghost av = a_name@;
        let ghost bv = b_name@;
        proof {
            lemma_parsed_concat(t, p0, p1, p2, ex(Tok::LParen), ident_pats(av));
            let q2 = ex(Tok::LParen) + ident_pats(av);
            lemma_parsed_concat(t, p0, p2, p3, q2, ex(Tok::Comma));
            let q3 = q2 + ex(Tok::Comma);
            lemma_parsed_concat(t, p0, p3, p4, q3, ident_pats(bv));
            let q4 = q3 + ident_pats(bv);
            lemma_parsed_concat(t, p0, p4, p5, q4, ex(Tok::RParen));
            let q5 = q4 + ex(Tok::RParen);
            lemma_parsed_concat(t, p0, p5, p6, q5, ex(Tok::Eq));
            assert(q5 + ex(Tok::Eq) == pair_head_pats(av, bv));
        }
        match &self.peek().kind {
            TokenKind::KwConvert => {
                let s = match self.parse_convert(start, a_name, a_span, b_name, b_span) {
                    Ok(s) => s,
                    Err(d) => {
                        proof {
                            assert forall|s: Stmt, q: int|
                                pair_stmt_ok(s) && parsed_as(t, p0, q, stmt_rest_pats(s)) implies false by {
                                lemma_pair_shape(t, p0, q, s);
                                if s is Convert {
                                    assert(parsed_as(t, p6, q, convert_tail_pats(s->Convert_money, s->Convert_rate@)));
                                }
                            }
                            assert forall|s: Stmt, q: int|
                                pair_stmt_too_deep(s) && parsed_as(t, p0, q, stmt_rest_pats(s))
                                    implies d.code == Code::ExprTooDeep by {
                                lemma_pair_shape(t, p0, q, s);
                                if s is Convert {
                                    assert(parsed_as(t, p6, q, convert_tail_pats(s->Convert_money, s->Convert_rate@)));
                                }
                            }
                        }
                        return Err(d);
                    },
                };
                proof {
                    lemma_parsed_concat(
                        self.tokens@,
                        p0,
                        p6,
                        self.pos as int,
                        pair_head_pats(av, bv),
                        convert_tail_pats(s->Convert_money, s->Convert_rate@),
                    );
                    assert forall|s2: Stmt, q: int|
                        pair_stmt_ok(s2) && parsed_as(t, p0, q, stmt_rest_pats(s2)) implies stmt_rest_pats(s)
                        == stmt_rest_pats(s2) && self.pos == q by {
                        lemma_pair_shape(t, p0, q, s2);
                        assert(t[p1 + 0].kind@ == Tok::Ident(av));
                        assert(t[p3 + 0].kind@ == Tok::Ident(bv));
                        if s2 is Convert {
                            assert(parsed_as(t, p6, q, convert_tail_pats(s2->Convert_money, s2->Convert_rate@)));
                        }
                    }
                    assert forall|s2: Stmt, q: int|
                        pair_stmt_too_deep(s2) && parsed_as(t, p0, q, stmt_rest_pats(s2)) implies false by {
                        lemma_pair_shape(t, p0, q, s2);
                        assert(t[p1 + 0].kind@ == Tok::Ident(av));
                        assert(t[p3 + 0].kind@ == Tok::Ident(bv));
                        if s2 is Convert {
                            assert(parsed_as(t, p6, q, convert_tail_pats(s2->Convert_money, s2->Convert_rate@)));
                        }
                    }
                }
                Ok(s)
            },
            TokenKind::KwSplit => {
                let s = match self.parse_split(start, a_name, a_span, b_name, b_span) {
                    Ok(s) => s,
                    Err(d) => {
                        proof {
                            assert forall|s: Stmt, q: int|
                                pair_stmt_ok(s) && parsed_as(t, p0, q, stmt_rest_pats(s)) implies false by {
                                lemma_pair_shape(t, p0, q, s);
                                if s is Split {
                                    assert(parsed_as(t, p6, q, split_tail_pats(s->Split_money, s->Split_amount.text@)));
                                }
                            }
                            assert forall|s: Stmt, q: int|
                                pair_stmt_too_deep(s) && parsed_as(t, p0, q, stmt_rest_pats(s))
                                    implies d.code == Code::ExprTooDeep by {
                                lemma_pair_shape(t, p0, q, s);
                                if s is Split {
                                    assert(parsed_as(t, p6, q, split_tail_pats(s->Split_money, s->Split_amount.text@)));
                                }
                            }
                        }
                        return Err(d);
                    },
                };
                proof {
                    lemma_parsed_concat(
                        self.tokens@,
                        p0,
                        p6,
                        self.pos as int,
                        pair_head_pats(av, bv),
                        split_tail_pats(s->Split_money, s->Split_amount.text@),
                    );
                    assert forall|s2: Stmt, q: int|
                        pair_stmt_ok(s2) && parsed_as(t, p0, q, stmt_rest_pats(s2)) implies stmt_rest_pats(s)
                        == stmt_rest_pats(s2) && self.pos == q by {
                        lemma_pair_shape(t, p0, q, s2);
                        assert(t[p1 + 0].kind@ == Tok::Ident(av));
                        assert(t[p3 + 0].kind@ == Tok::Ident(bv));
                        if s2 is Split {
                            assert(parsed_as(t, p6, q, split_tail_pats(s2->Split_money, s2->Split_amount.text@)));
                        }
                    }
                    assert forall|s2: Stmt, q: int|
                        pair_stmt_too_deep(s2) && parsed_as(t, p0, q, stmt_rest_pats(s2)) implies false by {
                        lemma_pair_shape(t, p0, q, s2);
                        assert(t[p1 + 0].kind@ == Tok::Ident(av));
                        assert(t[p3 + 0].kind@ == Tok::Ident(bv));
                        if s2 is Split {
                            assert(parsed_as(t, p6, q, split_tail_pats(s2->Split_money, s2->Split_amount.text@)));
                        }
                    }
                }
                Ok(s)
            },
            TokenKind::KwSplitRatio => {
                let s = match self.parse_split_ratio(start, a_name, a_span, b_name, b_span) {
                    Ok(s) => s,
                    Err(d) => {
                        proof {
                            assert forall|s: Stmt, q: int|
                                pair_stmt_ok(s) && parsed_as(t, p0, q, stmt_rest_pats(s)) implies false by {
                                lemma_pair_shape(t, p0, q, s);
                                if s is SplitRatio {
                                    assert(parsed_as(
                                        t,
                                        p6,
                                        q,
                                        split_ratio_tail_pats(
                                            s->SplitRatio_money,
                                            s->SplitRatio_a_weight,
                                            s->SplitRatio_b_weight,
                                        ),
                                    ));
                                }
                            }
                            assert forall|s: Stmt, q: int|
                                pair_stmt_too_deep(s) && parsed_as(t, p0, q, stmt_rest_pats(s))
                                    implies d.code == Code::ExprTooDeep by {
                                lemma_pair_shape(t, p0, q, s);
                                if s is SplitRatio {
                                    assert(parsed_as(
                                        t,
                                        p6,
                                        q,
                                        split_ratio_tail_pats(
                                            s->SplitRatio_money,
                                            s->SplitRatio_a_weight,
                                            s->SplitRatio_b_weight,
                                        ),
                                    ));
                                }
                            }
                        }
                        return Err(d);
                    },
                };
                proof {
                    lemma_parsed_concat(
                        self.tokens@,
                        p0,
                        p6,
                        self.pos as int,
                        pair_head_pats(av, bv),
                        split_ratio_tail_pats(
                            s->SplitRatio_money,
                            s->SplitRatio_a_weight,
                            s->SplitRatio_b_weight,
                        ),
                    );
                    assert forall|s2: Stmt, q: int|
                        pair_stmt_ok(s2) && parsed_as(t, p0, q, stmt_rest_pats(s2)) implies stmt_rest_pats(s)
                        == stmt_rest_pats(s2) && self.pos == q by {
                        lemma_pair_shape(t, p0, q, s2);
                        assert(t[p1 + 0].kind@ == Tok::Ident(av));
                        assert(t[p3 + 0].kind@ == Tok::Ident(bv));
                        if s2 is SplitRatio {
                            assert(parsed_as(
                                t,
                                p6,
                                q,
                                split_ratio_tail_pats(
                                    s2->SplitRatio_money,
                                    s2->SplitRatio_a_weight,
                                    s2->SplitRatio_b_weight,
                                ),
                            ));
                        }
                    }
                    assert forall|s2: Stmt, q: int|
                        pair_stmt_too_deep(s2) && parsed_as(t, p0, q, stmt_rest_pats(s2)) implies false by {
                        lemma_pair_shape(t, p0, q, s2);
                        assert(t[p1 + 0].kind@ == Tok::Ident(av));
                        assert(t[p3 + 0].kind@ == Tok::Ident(bv));
                        if s2 is SplitRatio {
                            assert(parsed_as(
                                t,
                                p6,
                                q,
                                split_ratio_tail_pats(
                                    s2->SplitRatio_money,
                                    s2->SplitRatio_a_weight,
                                    s2->SplitRatio_b_weight,
                                ),
                            ));
                        }
                    }
                }
                Ok(s)
            },
            _ => {
                proof {
                    assert forall|s: Stmt, q: int|
                        pair_stmt_ok(s) && parsed_as(t, p0, q, stmt_rest_pats(s)) implies false by {
                        lemma_pair_shape(t, p0, q, s);
                    }
                    assert forall|s: Stmt, q: int|
                        pair_stmt_too_deep(s) && parsed_as(t, p0, q, stmt_rest_pats(s)) implies false by {
                        lemma_pair_shape(t, p0, q, s);
                    }
                }
                Err(self.unexpected("'convert', 'split', or 'split_ratio'"))
            },
        }
    }

    #[verifier::spinoff_prover]
    #[verifier::rlimit(100)]
    fn parse_convert(
        &mut self,
        start: Span,
        primary_name: String,
        primary_span: Span,
        residual_name: String,
        residual_span: Span,
    ) -> (r: Result<Stmt, Diagnostic>)
        requires
            old(self).pos >= 7,
            start == old(self).tokens@[old(self).pos - 7].span,
            primary_span == old(self).tokens@[old(self).pos - 5].span,
            residual_span == old(self).tokens@[old(self).pos - 3].span,
            old(self).wf(),
        ensures
            final(self).kept(old(self)),
            final(self).diags == old(self).diags,
            r matches Ok(s) ==> s is Convert && s->Convert_primary_name@ == primary_name@
                && s->Convert_residual_name@ == residual_name@ && parsed_as(
                old(self).tokens@,
                old(self).pos as int,
                final(self).pos as int,
                convert_tail_pats(s->Convert_money, s->Convert_rate@),
            ),
            forall|money: MoneyExpr, rate: Seq<char>, q: int|
                money_paths_ok(money) && money_nest(money) < MAX_MONEY_EXPR_DEPTH && parsed_as(
                    old(self).tokens@,
                    old(self).pos as int,
                    q,
                    convert_tail_pats(money, rate),
                ) ==> (r matches Ok(x) && x is Convert
                    && money_pats(x->Convert_money) == money_pats(money) && x->Convert_rate@ == rate
                    && final(self).pos == q),
            forall|money: MoneyExpr, rate: Seq<char>, q: int|
                money_paths_ok(money) && money_nest(money) >= MAX_MONEY_EXPR_DEPTH && parsed_as(
                    old(self).tokens@,
                    old(self).pos as int,
                    q,
                    convert_tail_pats(money, rate),
                ) ==> (r matches Err(d) && d.code == Code::ExprTooDeep),
            step_agrees(r, convert_step(old(self).tokens@, old(self).pos as int), final(self).pos as int),
            r matches Ok(s) ==> stmt_spans_ok(old(self).tokens@, old(self).pos - 7, s),
    {
        let ghost p0 = self.pos as int;
        let ghost t = self.tokens@;
        match self.expect(TokenKind::KwConvert, "'convert'") {
            Ok(_) => {},
            Err(d) => {
                proof {
                    assert forall|money: MoneyExpr, rate: Seq<char>, q: int|
                        money_paths_ok(money) && money_nest(money) < MAX_MONEY_EXPR_DEPTH
                        && parsed_as(t, p0, q, convert_tail_pats(money, rate)) implies false by {
                        lemma_convert_shape(t, p0, q, money, rate);
                        assert(parsed_as(t, p0 + 2, p0 + 2 + money_pats(money).len(), money_pats(money)));
                    }
                    assert forall|money: MoneyExpr, rate: Seq<char>, q: int|
                        money_paths_ok(money) && money_nest(money) >= MAX_MONEY_EXPR_DEPTH
                        && parsed_as(t, p0, q, convert_tail_pats(money, rate))
                            implies d.code == Code::ExprTooDeep by {
                        lemma_convert_shape(t, p0, q, money, rate);
                        assert(parsed_as(t, p0 + 2, p0 + 2 + money_pats(money).len(), money_pats(money)));
                    }
                }
                return Err(d);
            },
        }
        let ghost p1 = self.pos as int;
        match self.expect(TokenKind::LParen, "'('") {
            Ok(_) => {},
            Err(d) => {
                proof {
                    assert forall|money: MoneyExpr, rate: Seq<char>, q: int|
                        money_paths_ok(money) && money_nest(money) < MAX_MONEY_EXPR_DEPTH
                        && parsed_as(t, p0, q, convert_tail_pats(money, rate)) implies false by {
                        lemma_convert_shape(t, p0, q, money, rate);
                        assert(parsed_as(t, p0 + 2, p0 + 2 + money_pats(money).len(), money_pats(money)));
                    }
                    assert forall|money: MoneyExpr, rate: Seq<char>, q: int|
                        money_paths_ok(money) && money_nest(money) >= MAX_MONEY_EXPR_DEPTH
                        && parsed_as(t, p0, q, convert_tail_pats(money, rate))
                            implies d.code == Code::ExprTooDeep by {
                        lemma_convert_shape(t, p0, q, money, rate);
                        assert(parsed_as(t, p0 + 2, p0 + 2 + money_pats(money).len(), money_pats(money)));
                    }
                }
                return Err(d);
            },
        }
        let ghost p2 = self.pos as int;
        let money = match self.parse_money_expr(0) {
            Ok(v) => v,
            Err(d) => {
                proof {
                    assert forall|money: MoneyExpr, rate: Seq<char>, q: int|
                        money_paths_ok(money) && money_nest(money) < MAX_MONEY_EXPR_DEPTH
                        && parsed_as(t, p0, q, convert_tail_pats(money, rate)) implies false by {
                        lemma_convert_shape(t, p0, q, money, rate);
                        assert(parsed_as(t, p0 + 2, p0 + 2 + money_pats(money).len(), money_pats(money)));
                    }
                    assert forall|money: MoneyExpr, rate: Seq<char>, q: int|
                        money_paths_ok(money) && money_nest(money) >= MAX_MONEY_EXPR_DEPTH
                        && parsed_as(t, p0, q, convert_tail_pats(money, rate))
                            implies d.code == Code::ExprTooDeep by {
                        lemma_convert_shape(t, p0, q, money, rate);
                        assert(parsed_as(t, p0 + 2, p0 + 2 + money_pats(money).len(), money_pats(money)));
                    }
                }
                return Err(d);
            },
        };
        let ghost p3 = self.pos as int;
        match self.expect(TokenKind::Comma, "','") {
            Ok(_) => {},
            Err(d) => {
                proof {
                    assert forall|money: MoneyExpr, rate: Seq<char>, q: int|
                        money_paths_ok(money) && money_nest(money) < MAX_MONEY_EXPR_DEPTH
                        && parsed_as(t, p0, q, convert_tail_pats(money, rate)) implies false by {
                        lemma_convert_shape(t, p0, q, money, rate);
                        assert(parsed_as(t, p0 + 2, p0 + 2 + money_pats(money).len(), money_pats(money)));
                    }
                    assert forall|money: MoneyExpr, rate: Seq<char>, q: int|
                        money_paths_ok(money) && money_nest(money) >= MAX_MONEY_EXPR_DEPTH
                        && parsed_as(t, p0, q, convert_tail_pats(money, rate))
                            implies d.code == Code::ExprTooDeep by {
                        lemma_convert_shape(t, p0, q, money, rate);
                        assert(parsed_as(t, p0 + 2, p0 + 2 + money_pats(money).len(), money_pats(money)));
                    }
                }
                return Err(d);
            },
        }
        let ghost p4 = self.pos as int;
        let (rate, rate_span) = match self.parse_ident() {
            Ok(v) => v,
            Err(d) => {
                proof {
                    assert forall|money: MoneyExpr, rate: Seq<char>, q: int|
                        money_paths_ok(money) && money_nest(money) < MAX_MONEY_EXPR_DEPTH
                        && parsed_as(t, p0, q, convert_tail_pats(money, rate)) implies false by {
                        lemma_convert_shape(t, p0, q, money, rate);
                        assert(parsed_as(t, p0 + 2, p0 + 2 + money_pats(money).len(), money_pats(money)));
                    }
                    assert forall|money: MoneyExpr, rate: Seq<char>, q: int|
                        money_paths_ok(money) && money_nest(money) >= MAX_MONEY_EXPR_DEPTH
                        && parsed_as(t, p0, q, convert_tail_pats(money, rate))
                            implies d.code == Code::ExprTooDeep by {
                        lemma_convert_shape(t, p0, q, money, rate);
                        assert(parsed_as(t, p0 + 2, p0 + 2 + money_pats(money).len(), money_pats(money)));
                    }
                }
                return Err(d);
            },
        };
        let ghost p5 = self.pos as int;
        match self.expect(TokenKind::RParen, "')'") {
            Ok(_) => {},
            Err(d) => {
                proof {
                    assert forall|money: MoneyExpr, rate: Seq<char>, q: int|
                        money_paths_ok(money) && money_nest(money) < MAX_MONEY_EXPR_DEPTH
                        && parsed_as(t, p0, q, convert_tail_pats(money, rate)) implies false by {
                        lemma_convert_shape(t, p0, q, money, rate);
                        assert(parsed_as(t, p0 + 2, p0 + 2 + money_pats(money).len(), money_pats(money)));
                    }
                    assert forall|money: MoneyExpr, rate: Seq<char>, q: int|
                        money_paths_ok(money) && money_nest(money) >= MAX_MONEY_EXPR_DEPTH
                        && parsed_as(t, p0, q, convert_tail_pats(money, rate))
                            implies d.code == Code::ExprTooDeep by {
                        lemma_convert_shape(t, p0, q, money, rate);
                        assert(parsed_as(t, p0 + 2, p0 + 2 + money_pats(money).len(), money_pats(money)));
                    }
                }
                return Err(d);
            },
        }
        let ghost p6 = self.pos as int;
        let end = match self.expect(TokenKind::Semi, "';'") {
            Ok(sp) => sp,
            Err(d) => {
                proof {
                    assert forall|money: MoneyExpr, rate: Seq<char>, q: int|
                        money_paths_ok(money) && money_nest(money) < MAX_MONEY_EXPR_DEPTH
                        && parsed_as(t, p0, q, convert_tail_pats(money, rate)) implies false by {
                        lemma_convert_shape(t, p0, q, money, rate);
                        assert(parsed_as(t, p0 + 2, p0 + 2 + money_pats(money).len(), money_pats(money)));
                    }
                    assert forall|money: MoneyExpr, rate: Seq<char>, q: int|
                        money_paths_ok(money) && money_nest(money) >= MAX_MONEY_EXPR_DEPTH
                        && parsed_as(t, p0, q, convert_tail_pats(money, rate))
                            implies d.code == Code::ExprTooDeep by {
                        lemma_convert_shape(t, p0, q, money, rate);
                        assert(parsed_as(t, p0 + 2, p0 + 2 + money_pats(money).len(), money_pats(money)));
                    }
                }
                return Err(d);
            },
        };
        let ghost p7 = self.pos as int;
        proof {
            let t = self.tokens@;
            lemma_parsed_concat(t, p0, p1, p2, ex(Tok::KwConvert), ex(Tok::LParen));
            let q2 = ex(Tok::KwConvert) + ex(Tok::LParen);
            lemma_parsed_concat(t, p0, p2, p3, q2, money_pats(money));
            let q3 = q2 + money_pats(money);
            lemma_parsed_concat(t, p0, p3, p4, q3, ex(Tok::Comma));
            let q4 = q3 + ex(Tok::Comma);
            lemma_parsed_concat(t, p0, p4, p5, q4, ident_pats(rate@));
            let q5 = q4 + ident_pats(rate@);
            lemma_parsed_concat(t, p0, p5, p6, q5, ex(Tok::RParen));
            let q6 = q5 + ex(Tok::RParen);
            lemma_parsed_concat(t, p0, p6, p7, q6, ex(Tok::Semi));
            assert forall|money2: MoneyExpr, rate2: Seq<char>, q: int|
                money_paths_ok(money2) && money_nest(money2) < MAX_MONEY_EXPR_DEPTH
                && parsed_as(t, p0, q, convert_tail_pats(money2, rate2))
                    implies money_pats(money) == money_pats(money2) && rate@ == rate2 && p7 == q by {
                lemma_convert_shape(t, p0, q, money2, rate2);
                assert(parsed_as(t, p0 + 2, p0 + 2 + money_pats(money2).len(), money_pats(money2)));
                assert(t[p4 + 0].kind@ == Tok::Ident(rate@));
            }
            assert forall|money2: MoneyExpr, rate2: Seq<char>, q: int|
                money_paths_ok(money2) && money_nest(money2) >= MAX_MONEY_EXPR_DEPTH
                && parsed_as(t, p0, q, convert_tail_pats(money2, rate2))
                    implies false by {
                lemma_convert_shape(t, p0, q, money2, rate2);
                assert(parsed_as(t, p0 + 2, p0 + 2 + money_pats(money2).len(), money_pats(money2)));
                assert(t[p4 + 0].kind@ == Tok::Ident(rate@));
            }
        }
        Ok(
            Stmt::Convert {
                primary_name,
                primary_span,
                residual_name,
                residual_span,
                money,
                rate,
                rate_span,
                span: start.to(end),
            },
        )
    }

    #[verifier::spinoff_prover]
    #[verifier::rlimit(100)]
    fn parse_split(
        &mut self,
        start: Span,
        a_name: String,
        a_span: Span,
        b_name: String,
        b_span: Span,
    ) -> (r: Result<Stmt, Diagnostic>)
        requires
            old(self).pos >= 7,
            start == old(self).tokens@[old(self).pos - 7].span,
            a_span == old(self).tokens@[old(self).pos - 5].span,
            b_span == old(self).tokens@[old(self).pos - 3].span,
            old(self).wf(),
        ensures
            final(self).kept(old(self)),
            final(self).diags == old(self).diags,
            r matches Ok(s) ==> s is Split && s->Split_a_name@ == a_name@ && s->Split_b_name@
                == b_name@ && parsed_as(
                old(self).tokens@,
                old(self).pos as int,
                final(self).pos as int,
                split_tail_pats(s->Split_money, s->Split_amount.text@),
            ),
            forall|money: MoneyExpr, amount: Seq<char>, q: int|
                money_paths_ok(money) && money_nest(money) < MAX_MONEY_EXPR_DEPTH && parsed_as(
                    old(self).tokens@,
                    old(self).pos as int,
                    q,
                    split_tail_pats(money, amount),
                ) ==> (r matches Ok(x) && x is Split
                    && money_pats(x->Split_money) == money_pats(money) && x->Split_amount.text@ == amount
                    && final(self).pos == q),
            forall|money: MoneyExpr, amount: Seq<char>, q: int|
                money_paths_ok(money) && money_nest(money) >= MAX_MONEY_EXPR_DEPTH && parsed_as(
                    old(self).tokens@,
                    old(self).pos as int,
                    q,
                    split_tail_pats(money, amount),
                ) ==> (r matches Err(d) && d.code == Code::ExprTooDeep),
            step_agrees(r, split_step(old(self).tokens@, old(self).pos as int), final(self).pos as int),
            r matches Ok(s) ==> stmt_spans_ok(old(self).tokens@, old(self).pos - 7, s),
    {
        let ghost p0 = self.pos as int;
        let ghost t = self.tokens@;
        match self.expect(TokenKind::KwSplit, "'split'") {
            Ok(_) => {},
            Err(d) => {
                proof {
                    assert forall|money: MoneyExpr, amount: Seq<char>, q: int|
                        money_paths_ok(money) && money_nest(money) < MAX_MONEY_EXPR_DEPTH
                        && parsed_as(t, p0, q, split_tail_pats(money, amount)) implies false by {
                        lemma_split_shape(t, p0, q, money, amount);
                        assert(parsed_as(t, p0 + 2, p0 + 2 + money_pats(money).len(), money_pats(money)));
                    }
                    assert forall|money: MoneyExpr, amount: Seq<char>, q: int|
                        money_paths_ok(money) && money_nest(money) >= MAX_MONEY_EXPR_DEPTH
                        && parsed_as(t, p0, q, split_tail_pats(money, amount))
                            implies d.code == Code::ExprTooDeep by {
                        lemma_split_shape(t, p0, q, money, amount);
                        assert(parsed_as(t, p0 + 2, p0 + 2 + money_pats(money).len(), money_pats(money)));
                    }
                }
                return Err(d);
            },
        }
        let ghost p1 = self.pos as int;
        match self.expect(TokenKind::LParen, "'('") {
            Ok(_) => {},
            Err(d) => {
                proof {
                    assert forall|money: MoneyExpr, amount: Seq<char>, q: int|
                        money_paths_ok(money) && money_nest(money) < MAX_MONEY_EXPR_DEPTH
                        && parsed_as(t, p0, q, split_tail_pats(money, amount)) implies false by {
                        lemma_split_shape(t, p0, q, money, amount);
                        assert(parsed_as(t, p0 + 2, p0 + 2 + money_pats(money).len(), money_pats(money)));
                    }
                    assert forall|money: MoneyExpr, amount: Seq<char>, q: int|
                        money_paths_ok(money) && money_nest(money) >= MAX_MONEY_EXPR_DEPTH
                        && parsed_as(t, p0, q, split_tail_pats(money, amount))
                            implies d.code == Code::ExprTooDeep by {
                        lemma_split_shape(t, p0, q, money, amount);
                        assert(parsed_as(t, p0 + 2, p0 + 2 + money_pats(money).len(), money_pats(money)));
                    }
                }
                return Err(d);
            },
        }
        let ghost p2 = self.pos as int;
        let money = match self.parse_money_expr(0) {
            Ok(v) => v,
            Err(d) => {
                proof {
                    assert forall|money: MoneyExpr, amount: Seq<char>, q: int|
                        money_paths_ok(money) && money_nest(money) < MAX_MONEY_EXPR_DEPTH
                        && parsed_as(t, p0, q, split_tail_pats(money, amount)) implies false by {
                        lemma_split_shape(t, p0, q, money, amount);
                        assert(parsed_as(t, p0 + 2, p0 + 2 + money_pats(money).len(), money_pats(money)));
                    }
                    assert forall|money: MoneyExpr, amount: Seq<char>, q: int|
                        money_paths_ok(money) && money_nest(money) >= MAX_MONEY_EXPR_DEPTH
                        && parsed_as(t, p0, q, split_tail_pats(money, amount))
                            implies d.code == Code::ExprTooDeep by {
                        lemma_split_shape(t, p0, q, money, amount);
                        assert(parsed_as(t, p0 + 2, p0 + 2 + money_pats(money).len(), money_pats(money)));
                    }
                }
                return Err(d);
            },
        };
        let ghost p3 = self.pos as int;
        match self.expect(TokenKind::Comma, "','") {
            Ok(_) => {},
            Err(d) => {
                proof {
                    assert forall|money: MoneyExpr, amount: Seq<char>, q: int|
                        money_paths_ok(money) && money_nest(money) < MAX_MONEY_EXPR_DEPTH
                        && parsed_as(t, p0, q, split_tail_pats(money, amount)) implies false by {
                        lemma_split_shape(t, p0, q, money, amount);
                        assert(parsed_as(t, p0 + 2, p0 + 2 + money_pats(money).len(), money_pats(money)));
                    }
                    assert forall|money: MoneyExpr, amount: Seq<char>, q: int|
                        money_paths_ok(money) && money_nest(money) >= MAX_MONEY_EXPR_DEPTH
                        && parsed_as(t, p0, q, split_tail_pats(money, amount))
                            implies d.code == Code::ExprTooDeep by {
                        lemma_split_shape(t, p0, q, money, amount);
                        assert(parsed_as(t, p0 + 2, p0 + 2 + money_pats(money).len(), money_pats(money)));
                    }
                }
                return Err(d);
            },
        }
        let ghost p4 = self.pos as int;
        let amount = match self.parse_amount() {
            Ok(v) => v,
            Err(d) => {
                proof {
                    assert forall|money: MoneyExpr, amount: Seq<char>, q: int|
                        money_paths_ok(money) && money_nest(money) < MAX_MONEY_EXPR_DEPTH
                        && parsed_as(t, p0, q, split_tail_pats(money, amount)) implies false by {
                        lemma_split_shape(t, p0, q, money, amount);
                        assert(parsed_as(t, p0 + 2, p0 + 2 + money_pats(money).len(), money_pats(money)));
                    }
                    assert forall|money: MoneyExpr, amount: Seq<char>, q: int|
                        money_paths_ok(money) && money_nest(money) >= MAX_MONEY_EXPR_DEPTH
                        && parsed_as(t, p0, q, split_tail_pats(money, amount))
                            implies d.code == Code::ExprTooDeep by {
                        lemma_split_shape(t, p0, q, money, amount);
                        assert(parsed_as(t, p0 + 2, p0 + 2 + money_pats(money).len(), money_pats(money)));
                    }
                }
                return Err(d);
            },
        };
        let ghost p5 = self.pos as int;
        match self.expect(TokenKind::RParen, "')'") {
            Ok(_) => {},
            Err(d) => {
                proof {
                    assert forall|money: MoneyExpr, amount: Seq<char>, q: int|
                        money_paths_ok(money) && money_nest(money) < MAX_MONEY_EXPR_DEPTH
                        && parsed_as(t, p0, q, split_tail_pats(money, amount)) implies false by {
                        lemma_split_shape(t, p0, q, money, amount);
                        assert(parsed_as(t, p0 + 2, p0 + 2 + money_pats(money).len(), money_pats(money)));
                    }
                    assert forall|money: MoneyExpr, amount: Seq<char>, q: int|
                        money_paths_ok(money) && money_nest(money) >= MAX_MONEY_EXPR_DEPTH
                        && parsed_as(t, p0, q, split_tail_pats(money, amount))
                            implies d.code == Code::ExprTooDeep by {
                        lemma_split_shape(t, p0, q, money, amount);
                        assert(parsed_as(t, p0 + 2, p0 + 2 + money_pats(money).len(), money_pats(money)));
                    }
                }
                return Err(d);
            },
        }
        let ghost p6 = self.pos as int;
        let end = match self.expect(TokenKind::Semi, "';'") {
            Ok(sp) => sp,
            Err(d) => {
                proof {
                    assert forall|money: MoneyExpr, amount: Seq<char>, q: int|
                        money_paths_ok(money) && money_nest(money) < MAX_MONEY_EXPR_DEPTH
                        && parsed_as(t, p0, q, split_tail_pats(money, amount)) implies false by {
                        lemma_split_shape(t, p0, q, money, amount);
                        assert(parsed_as(t, p0 + 2, p0 + 2 + money_pats(money).len(), money_pats(money)));
                    }
                    assert forall|money: MoneyExpr, amount: Seq<char>, q: int|
                        money_paths_ok(money) && money_nest(money) >= MAX_MONEY_EXPR_DEPTH
                        && parsed_as(t, p0, q, split_tail_pats(money, amount))
                            implies d.code == Code::ExprTooDeep by {
                        lemma_split_shape(t, p0, q, money, amount);
                        assert(parsed_as(t, p0 + 2, p0 + 2 + money_pats(money).len(), money_pats(money)));
                    }
                }
                return Err(d);
            },
        };
        let ghost p7 = self.pos as int;
        proof {
            let t = self.tokens@;
            lemma_parsed_concat(t, p0, p1, p2, ex(Tok::KwSplit), ex(Tok::LParen));
            let q2 = ex(Tok::KwSplit) + ex(Tok::LParen);
            lemma_parsed_concat(t, p0, p2, p3, q2, money_pats(money));
            let q3 = q2 + money_pats(money);
            lemma_parsed_concat(t, p0, p3, p4, q3, ex(Tok::Comma));
            let q4 = q3 + ex(Tok::Comma);
            lemma_parsed_concat(t, p0, p4, p5, q4, ex(Tok::Decimal(amount.text@)));
            let q5 = q4 + ex(Tok::Decimal(amount.text@));
            lemma_parsed_concat(t, p0, p5, p6, q5, ex(Tok::RParen));
            let q6 = q5 + ex(Tok::RParen);
            lemma_parsed_concat(t, p0, p6, p7, q6, ex(Tok::Semi));
            assert forall|money2: MoneyExpr, amount2: Seq<char>, q: int|
                money_paths_ok(money2) && money_nest(money2) < MAX_MONEY_EXPR_DEPTH
                && parsed_as(t, p0, q, split_tail_pats(money2, amount2))
                    implies money_pats(money) == money_pats(money2) && amount.text@ == amount2 && p7 == q by {
                lemma_split_shape(t, p0, q, money2, amount2);
                assert(parsed_as(t, p0 + 2, p0 + 2 + money_pats(money2).len(), money_pats(money2)));
                assert(t[p4 + 0].kind@ == Tok::Decimal(amount.text@));
            }
            assert forall|money2: MoneyExpr, amount2: Seq<char>, q: int|
                money_paths_ok(money2) && money_nest(money2) >= MAX_MONEY_EXPR_DEPTH
                && parsed_as(t, p0, q, split_tail_pats(money2, amount2))
                    implies false by {
                lemma_split_shape(t, p0, q, money2, amount2);
                assert(parsed_as(t, p0 + 2, p0 + 2 + money_pats(money2).len(), money_pats(money2)));
                assert(t[p4 + 0].kind@ == Tok::Decimal(amount.text@));
            }
        }
        Ok(Stmt::Split { a_name, a_span, b_name, b_span, money, amount, span: start.to(end) })
    }

    #[verifier::spinoff_prover]
    #[verifier::rlimit(100)]
    fn parse_split_ratio(
        &mut self,
        start: Span,
        a_name: String,
        a_span: Span,
        b_name: String,
        b_span: Span,
    ) -> (r: Result<Stmt, Diagnostic>)
        requires
            old(self).pos >= 7,
            start == old(self).tokens@[old(self).pos - 7].span,
            a_span == old(self).tokens@[old(self).pos - 5].span,
            b_span == old(self).tokens@[old(self).pos - 3].span,
            old(self).wf(),
        ensures
            final(self).kept(old(self)),
            final(self).diags == old(self).diags,
            r matches Ok(s) ==> s is SplitRatio && s->SplitRatio_a_name@ == a_name@
                && s->SplitRatio_b_name@ == b_name@ && parsed_as(
                old(self).tokens@,
                old(self).pos as int,
                final(self).pos as int,
                split_ratio_tail_pats(
                    s->SplitRatio_money,
                    s->SplitRatio_a_weight,
                    s->SplitRatio_b_weight,
                ),
            ),
            forall|money: MoneyExpr, aw: u32, bw: u32, q: int|
                money_paths_ok(money) && money_nest(money) < MAX_MONEY_EXPR_DEPTH && parsed_as(
                    old(self).tokens@,
                    old(self).pos as int,
                    q,
                    split_ratio_tail_pats(money, aw, bw),
                ) ==> (r matches Ok(x) && x is SplitRatio
                    && money_pats(x->SplitRatio_money) == money_pats(money) && x->SplitRatio_a_weight == aw
                    && x->SplitRatio_b_weight == bw && final(self).pos == q),
            forall|money: MoneyExpr, aw: u32, bw: u32, q: int|
                money_paths_ok(money) && money_nest(money) >= MAX_MONEY_EXPR_DEPTH && parsed_as(
                    old(self).tokens@,
                    old(self).pos as int,
                    q,
                    split_ratio_tail_pats(money, aw, bw),
                ) ==> (r matches Err(d) && d.code == Code::ExprTooDeep),
            step_agrees(r, split_ratio_step(old(self).tokens@, old(self).pos as int), final(self).pos as int),
            r matches Ok(s) ==> stmt_spans_ok(old(self).tokens@, old(self).pos - 7, s),
    {
        let ghost p0 = self.pos as int;
        let ghost t = self.tokens@;
        match self.expect(TokenKind::KwSplitRatio, "'split_ratio'") {
            Ok(_) => {},
            Err(d) => {
                proof {
                    assert forall|money: MoneyExpr, aw: u32, bw: u32, q: int|
                        money_paths_ok(money) && money_nest(money) < MAX_MONEY_EXPR_DEPTH
                        && parsed_as(t, p0, q, split_ratio_tail_pats(money, aw, bw)) implies false by {
                        lemma_split_ratio_shape(t, p0, q, money, aw, bw);
                        assert(parsed_as(t, p0 + 2, p0 + 2 + money_pats(money).len(), money_pats(money)));
                    }
                    assert forall|money: MoneyExpr, aw: u32, bw: u32, q: int|
                        money_paths_ok(money) && money_nest(money) >= MAX_MONEY_EXPR_DEPTH
                        && parsed_as(t, p0, q, split_ratio_tail_pats(money, aw, bw))
                            implies d.code == Code::ExprTooDeep by {
                        lemma_split_ratio_shape(t, p0, q, money, aw, bw);
                        assert(parsed_as(t, p0 + 2, p0 + 2 + money_pats(money).len(), money_pats(money)));
                    }
                }
                return Err(d);
            },
        }
        let ghost p1 = self.pos as int;
        match self.expect(TokenKind::LParen, "'('") {
            Ok(_) => {},
            Err(d) => {
                proof {
                    assert forall|money: MoneyExpr, aw: u32, bw: u32, q: int|
                        money_paths_ok(money) && money_nest(money) < MAX_MONEY_EXPR_DEPTH
                        && parsed_as(t, p0, q, split_ratio_tail_pats(money, aw, bw)) implies false by {
                        lemma_split_ratio_shape(t, p0, q, money, aw, bw);
                        assert(parsed_as(t, p0 + 2, p0 + 2 + money_pats(money).len(), money_pats(money)));
                    }
                    assert forall|money: MoneyExpr, aw: u32, bw: u32, q: int|
                        money_paths_ok(money) && money_nest(money) >= MAX_MONEY_EXPR_DEPTH
                        && parsed_as(t, p0, q, split_ratio_tail_pats(money, aw, bw))
                            implies d.code == Code::ExprTooDeep by {
                        lemma_split_ratio_shape(t, p0, q, money, aw, bw);
                        assert(parsed_as(t, p0 + 2, p0 + 2 + money_pats(money).len(), money_pats(money)));
                    }
                }
                return Err(d);
            },
        }
        let ghost p2 = self.pos as int;
        let money = match self.parse_money_expr(0) {
            Ok(v) => v,
            Err(d) => {
                proof {
                    assert forall|money: MoneyExpr, aw: u32, bw: u32, q: int|
                        money_paths_ok(money) && money_nest(money) < MAX_MONEY_EXPR_DEPTH
                        && parsed_as(t, p0, q, split_ratio_tail_pats(money, aw, bw)) implies false by {
                        lemma_split_ratio_shape(t, p0, q, money, aw, bw);
                        assert(parsed_as(t, p0 + 2, p0 + 2 + money_pats(money).len(), money_pats(money)));
                    }
                    assert forall|money: MoneyExpr, aw: u32, bw: u32, q: int|
                        money_paths_ok(money) && money_nest(money) >= MAX_MONEY_EXPR_DEPTH
                        && parsed_as(t, p0, q, split_ratio_tail_pats(money, aw, bw))
                            implies d.code == Code::ExprTooDeep by {
                        lemma_split_ratio_shape(t, p0, q, money, aw, bw);
                        assert(parsed_as(t, p0 + 2, p0 + 2 + money_pats(money).len(), money_pats(money)));
                    }
                }
                return Err(d);
            },
        };
        let ghost p3 = self.pos as int;
        match self.expect(TokenKind::Comma, "','") {
            Ok(_) => {},
            Err(d) => {
                proof {
                    assert forall|money: MoneyExpr, aw: u32, bw: u32, q: int|
                        money_paths_ok(money) && money_nest(money) < MAX_MONEY_EXPR_DEPTH
                        && parsed_as(t, p0, q, split_ratio_tail_pats(money, aw, bw)) implies false by {
                        lemma_split_ratio_shape(t, p0, q, money, aw, bw);
                        assert(parsed_as(t, p0 + 2, p0 + 2 + money_pats(money).len(), money_pats(money)));
                    }
                    assert forall|money: MoneyExpr, aw: u32, bw: u32, q: int|
                        money_paths_ok(money) && money_nest(money) >= MAX_MONEY_EXPR_DEPTH
                        && parsed_as(t, p0, q, split_ratio_tail_pats(money, aw, bw))
                            implies d.code == Code::ExprTooDeep by {
                        lemma_split_ratio_shape(t, p0, q, money, aw, bw);
                        assert(parsed_as(t, p0 + 2, p0 + 2 + money_pats(money).len(), money_pats(money)));
                    }
                }
                return Err(d);
            },
        }
        let ghost p4 = self.pos as int;
        let (a_weight, a_weight_span) = match self.parse_whole_number("a whole-number ratio weight") {
            Ok(v) => v,
            Err(d) => {
                proof {
                    assert forall|money: MoneyExpr, aw: u32, bw: u32, q: int|
                        money_paths_ok(money) && money_nest(money) < MAX_MONEY_EXPR_DEPTH
                        && parsed_as(t, p0, q, split_ratio_tail_pats(money, aw, bw)) implies false by {
                        lemma_split_ratio_shape(t, p0, q, money, aw, bw);
                        assert(parsed_as(t, p0 + 2, p0 + 2 + money_pats(money).len(), money_pats(money)));
                    }
                    assert forall|money: MoneyExpr, aw: u32, bw: u32, q: int|
                        money_paths_ok(money) && money_nest(money) >= MAX_MONEY_EXPR_DEPTH
                        && parsed_as(t, p0, q, split_ratio_tail_pats(money, aw, bw))
                            implies d.code == Code::ExprTooDeep by {
                        lemma_split_ratio_shape(t, p0, q, money, aw, bw);
                        assert(parsed_as(t, p0 + 2, p0 + 2 + money_pats(money).len(), money_pats(money)));
                    }
                }
                return Err(d);
            },
        };
        let ghost p5 = self.pos as int;
        match self.expect(TokenKind::Comma, "','") {
            Ok(_) => {},
            Err(d) => {
                proof {
                    assert forall|money: MoneyExpr, aw: u32, bw: u32, q: int|
                        money_paths_ok(money) && money_nest(money) < MAX_MONEY_EXPR_DEPTH
                        && parsed_as(t, p0, q, split_ratio_tail_pats(money, aw, bw)) implies false by {
                        lemma_split_ratio_shape(t, p0, q, money, aw, bw);
                        assert(parsed_as(t, p0 + 2, p0 + 2 + money_pats(money).len(), money_pats(money)));
                    }
                    assert forall|money: MoneyExpr, aw: u32, bw: u32, q: int|
                        money_paths_ok(money) && money_nest(money) >= MAX_MONEY_EXPR_DEPTH
                        && parsed_as(t, p0, q, split_ratio_tail_pats(money, aw, bw))
                            implies d.code == Code::ExprTooDeep by {
                        lemma_split_ratio_shape(t, p0, q, money, aw, bw);
                        assert(parsed_as(t, p0 + 2, p0 + 2 + money_pats(money).len(), money_pats(money)));
                    }
                }
                return Err(d);
            },
        }
        let ghost p6 = self.pos as int;
        let (b_weight, b_weight_span) = match self.parse_whole_number("a whole-number ratio weight") {
            Ok(v) => v,
            Err(d) => {
                proof {
                    assert forall|money: MoneyExpr, aw: u32, bw: u32, q: int|
                        money_paths_ok(money) && money_nest(money) < MAX_MONEY_EXPR_DEPTH
                        && parsed_as(t, p0, q, split_ratio_tail_pats(money, aw, bw)) implies false by {
                        lemma_split_ratio_shape(t, p0, q, money, aw, bw);
                        assert(parsed_as(t, p0 + 2, p0 + 2 + money_pats(money).len(), money_pats(money)));
                    }
                    assert forall|money: MoneyExpr, aw: u32, bw: u32, q: int|
                        money_paths_ok(money) && money_nest(money) >= MAX_MONEY_EXPR_DEPTH
                        && parsed_as(t, p0, q, split_ratio_tail_pats(money, aw, bw))
                            implies d.code == Code::ExprTooDeep by {
                        lemma_split_ratio_shape(t, p0, q, money, aw, bw);
                        assert(parsed_as(t, p0 + 2, p0 + 2 + money_pats(money).len(), money_pats(money)));
                    }
                }
                return Err(d);
            },
        };
        let ghost p7 = self.pos as int;
        match self.expect(TokenKind::RParen, "')'") {
            Ok(_) => {},
            Err(d) => {
                proof {
                    assert forall|money: MoneyExpr, aw: u32, bw: u32, q: int|
                        money_paths_ok(money) && money_nest(money) < MAX_MONEY_EXPR_DEPTH
                        && parsed_as(t, p0, q, split_ratio_tail_pats(money, aw, bw)) implies false by {
                        lemma_split_ratio_shape(t, p0, q, money, aw, bw);
                        assert(parsed_as(t, p0 + 2, p0 + 2 + money_pats(money).len(), money_pats(money)));
                    }
                    assert forall|money: MoneyExpr, aw: u32, bw: u32, q: int|
                        money_paths_ok(money) && money_nest(money) >= MAX_MONEY_EXPR_DEPTH
                        && parsed_as(t, p0, q, split_ratio_tail_pats(money, aw, bw))
                            implies d.code == Code::ExprTooDeep by {
                        lemma_split_ratio_shape(t, p0, q, money, aw, bw);
                        assert(parsed_as(t, p0 + 2, p0 + 2 + money_pats(money).len(), money_pats(money)));
                    }
                }
                return Err(d);
            },
        }
        let ghost p8 = self.pos as int;
        let end = match self.expect(TokenKind::Semi, "';'") {
            Ok(sp) => sp,
            Err(d) => {
                proof {
                    assert forall|money: MoneyExpr, aw: u32, bw: u32, q: int|
                        money_paths_ok(money) && money_nest(money) < MAX_MONEY_EXPR_DEPTH
                        && parsed_as(t, p0, q, split_ratio_tail_pats(money, aw, bw)) implies false by {
                        lemma_split_ratio_shape(t, p0, q, money, aw, bw);
                        assert(parsed_as(t, p0 + 2, p0 + 2 + money_pats(money).len(), money_pats(money)));
                    }
                    assert forall|money: MoneyExpr, aw: u32, bw: u32, q: int|
                        money_paths_ok(money) && money_nest(money) >= MAX_MONEY_EXPR_DEPTH
                        && parsed_as(t, p0, q, split_ratio_tail_pats(money, aw, bw))
                            implies d.code == Code::ExprTooDeep by {
                        lemma_split_ratio_shape(t, p0, q, money, aw, bw);
                        assert(parsed_as(t, p0 + 2, p0 + 2 + money_pats(money).len(), money_pats(money)));
                    }
                }
                return Err(d);
            },
        };
        let ghost p9 = self.pos as int;
        proof {
            let t = self.tokens@;
            lemma_parsed_concat(t, p0, p1, p2, ex(Tok::KwSplitRatio), ex(Tok::LParen));
            let q2 = ex(Tok::KwSplitRatio) + ex(Tok::LParen);
            lemma_parsed_concat(t, p0, p2, p3, q2, money_pats(money));
            let q3 = q2 + money_pats(money);
            lemma_parsed_concat(t, p0, p3, p4, q3, ex(Tok::Comma));
            let q4 = q3 + ex(Tok::Comma);
            lemma_parsed_concat(t, p0, p4, p5, q4, seq![Pat::Whole(a_weight)]);
            let q5 = q4 + seq![Pat::Whole(a_weight)];
            lemma_parsed_concat(t, p0, p5, p6, q5, ex(Tok::Comma));
            let q6 = q5 + ex(Tok::Comma);
            lemma_parsed_concat(t, p0, p6, p7, q6, seq![Pat::Whole(b_weight)]);
            let q7 = q6 + seq![Pat::Whole(b_weight)];
            lemma_parsed_concat(t, p0, p7, p8, q7, ex(Tok::RParen));
            let q8 = q7 + ex(Tok::RParen);
            lemma_parsed_concat(t, p0, p8, p9, q8, ex(Tok::Semi));
            assert forall|money2: MoneyExpr, aw2: u32, bw2: u32, q: int|
                money_paths_ok(money2) && money_nest(money2) < MAX_MONEY_EXPR_DEPTH
                && parsed_as(t, p0, q, split_ratio_tail_pats(money2, aw2, bw2))
                    implies money_pats(money) == money_pats(money2) && a_weight == aw2
                    && b_weight == bw2 && p9 == q by {
                lemma_split_ratio_shape(t, p0, q, money2, aw2, bw2);
                assert(parsed_as(t, p0 + 2, p0 + 2 + money_pats(money2).len(), money_pats(money2)));
                assert(pat_matches(t[p4 + 0].kind@, Pat::Whole(a_weight)));
                assert(pat_matches(t[p6 + 0].kind@, Pat::Whole(b_weight)));
            }
            assert forall|money2: MoneyExpr, aw2: u32, bw2: u32, q: int|
                money_paths_ok(money2) && money_nest(money2) >= MAX_MONEY_EXPR_DEPTH
                && parsed_as(t, p0, q, split_ratio_tail_pats(money2, aw2, bw2))
                    implies false by {
                lemma_split_ratio_shape(t, p0, q, money2, aw2, bw2);
                assert(parsed_as(t, p0 + 2, p0 + 2 + money_pats(money2).len(), money_pats(money2)));
                assert(pat_matches(t[p4 + 0].kind@, Pat::Whole(a_weight)));
                assert(pat_matches(t[p6 + 0].kind@, Pat::Whole(b_weight)));
            }
        }
        Ok(
            Stmt::SplitRatio {
                a_name,
                a_span,
                b_name,
                b_span,
                money,
                a_weight,
                a_weight_span,
                b_weight,
                b_weight_span,
                span: start.to(end),
            },
        )
    }

    fn parse_stmt(&mut self) -> (r: Result<Stmt, Diagnostic>)
        requires
            old(self).wf(),
        ensures
            final(self).kept(old(self)),
            final(self).diags == old(self).diags,
            r matches Ok(s) ==> parsed_as(
                old(self).tokens@,
                old(self).pos as int,
                final(self).pos as int,
                stmt_pats(s),
            ),
            is_stmt_start(old(self).tokens@[old(self).pos as int].kind@)
                ==> final(self).pos > old(self).pos,
            !is_stmt_start(old(self).tokens@[old(self).pos as int].kind@)
                ==> r is Err && final(self).pos == old(self).pos,
            forall|s: Stmt, q: int|
                stmt_ok(s) && parsed_as(old(self).tokens@, old(self).pos as int, q, stmt_pats(s))
                    ==> r is Ok && final(self).pos == q,
            forall|s: Stmt, q: int|
                stmt_too_deep(s) && parsed_as(old(self).tokens@, old(self).pos as int, q, stmt_pats(s))
                    ==> (r matches Err(d) && d.code == Code::ExprTooDeep),
            step_agrees(r, stmt_step(old(self).tokens@, old(self).pos as int), final(self).pos as int),
            r matches Ok(s) ==> stmt_spans_ok(old(self).tokens@, old(self).pos as int, s),
    {
        proof {
            reveal(stmt_step);
        }
        let ghost p0 = self.pos as int;
        let ghost t = self.tokens@;
        proof {
            assert forall|s: Stmt, q: int| parsed_as(t, p0, q, stmt_pats(s)) implies t[p0].kind@
                == stmt_keyword(s) by {
                assert(stmt_pats(s)[0] == Pat::Exact(stmt_keyword(s)));
                assert(t[p0 + 0].kind@ == t[p0].kind@);
            }
        }
        match &self.peek().kind {
            TokenKind::KwLet => self.parse_let_or_pair(),
            TokenKind::KwDebit => self.parse_debit(),
            TokenKind::KwAbsorb => self.parse_absorb(),
            _ => Err(self.unexpected("'let', 'debit', or 'absorb'")),
        }
    }

    /// Skips tokens until (and including) the next `;`, or up to the next `}`, end, or
    /// statement keyword without consuming it, so one malformed statement doesn't stop
    /// the rest of the transaction body from being parsed.
    fn synchronize_stmt(&mut self)
        requires
            old(self).wf(),
        ensures
            final(self).kept(old(self)),
            final(self).diags == old(self).diags,
            final(self).pos > old(self).pos || is_stmt_stop(
                old(self).tokens@[old(self).pos as int].kind@,
            ),
            final(self).pos == sync_stmt(old(self).tokens@, old(self).pos as int),
    {
        loop
            invariant
                self.kept(old(self)),
                self.diags == old(self).diags,
                sync_stmt(self.tokens@, old(self).pos as int) == sync_stmt(self.tokens@, self.pos as int),
            decreases self.tokens@.len() - self.pos,
        {
            match &self.peek().kind {
                TokenKind::Semi => {
                    proof {
                        lemma_not_last(self.tokens@, self.pos as int);
                    }
                    self.advance();
                    return ;
                },
                TokenKind::RBrace | TokenKind::Eof | TokenKind::KwLet | TokenKind::KwDebit
                | TokenKind::KwAbsorb => {
                    return ;
                },
                _ => {
                    proof {
                        lemma_not_last(self.tokens@, self.pos as int);
                    }
                    self.advance();
                },
            }
        }
    }

    /// The current token begins a declaration, or is the end.
    fn at_decl_stop(&self) -> (r: bool)
        requires
            self.wf(),
        ensures
            r == is_decl_stop(self.tokens@[self.pos as int].kind@),
    {
        match &self.peek().kind {
            TokenKind::KwCurrency | TokenKind::KwAccount | TokenKind::KwRate | TokenKind::KwTxn
            | TokenKind::Eof => true,
            _ => false,
        }
    }

    /// Skips tokens until the next declaration keyword (or `Eof`), so one malformed
    /// declaration doesn't stop the rest of the module from being parsed.
    fn synchronize_decl(&mut self)
        requires
            old(self).wf(),
        ensures
            final(self).kept(old(self)),
            final(self).diags == old(self).diags,
            is_decl_stop(final(self).tokens@[final(self).pos as int].kind@),
            final(self).pos > old(self).pos || is_decl_stop(
                old(self).tokens@[old(self).pos as int].kind@,
            ),
            final(self).pos == sync_decl(old(self).tokens@, old(self).pos as int),
    {
        while !self.at_decl_stop()
            invariant
                self.kept(old(self)),
                self.diags == old(self).diags,
                sync_decl(self.tokens@, old(self).pos as int) == sync_decl(self.tokens@, self.pos as int),
            decreases self.tokens@.len() - self.pos,
        {
            proof {
                lemma_not_last(self.tokens@, self.pos as int);
            }
            self.advance();
        }
    }

    /// One statement of a transaction body: parsed onto `stmts`, or, where it fails, its
    /// diagnostic recorded and the parser moved past it.
    #[verifier::spinoff_prover]
    fn parse_body_stmt(&mut self, stmts: &mut Vec<Stmt>)
        requires
            old(self).wf(),
            old(self).tokens@[old(self).pos as int].kind@ != Tok::RBrace,
            old(self).tokens@[old(self).pos as int].kind@ != Tok::Eof,
        ensures
            final(self).kept(old(self)),
            final(self).pos > old(self).pos,
            final(self).diags@.subrange(0, old(self).diags@.len() as int) == old(self).diags@,
            code_spans(final(self).diags@.subrange(old(self).diags@.len() as int, final(self).diags@.len() as int))
                + body_step(old(self).tokens@, final(self).pos as int).0 == body_step(
                old(self).tokens@,
                old(self).pos as int,
            ).0,
            body_step(old(self).tokens@, final(self).pos as int).1 == body_step(
                old(self).tokens@,
                old(self).pos as int,
            ).1,
            final(self).diags@.len() == old(self).diags@.len() ==> final(stmts)@.len() == old(stmts)@.len()
                + 1 && final(stmts)@.drop_last() == old(stmts)@ && parsed_as(
                old(self).tokens@,
                old(self).pos as int,
                final(self).pos as int,
                stmt_pats(final(stmts)@.last()),
            ) && stmt_spans_ok(old(self).tokens@, old(self).pos as int, final(stmts)@.last()),
            final(self).diags@.len() != old(self).diags@.len() ==> final(self).diags@.len()
                == old(self).diags@.len() + 1 && final(stmts)@ == old(stmts)@,
            forall|s: Stmt, q: int|
                stmt_ok(s) && parsed_as(old(self).tokens@, old(self).pos as int, q, stmt_pats(s))
                    ==> final(self).diags@.len() == old(self).diags@.len() && final(self).pos == q,
            forall|s: Stmt, q: int|
                stmt_too_deep(s) && parsed_as(old(self).tokens@, old(self).pos as int, q, stmt_pats(s))
                    ==> final(self).diags@.len() > old(self).diags@.len()
                    && final(self).diags@[old(self).diags@.len() as int].code == Code::ExprTooDeep,
    {
        let ghost t = self.tokens@;
        let ghost q0 = self.pos as int;
        match self.parse_stmt() {
            Ok(stmt) => {
                stmts.push(stmt);
                proof {
                    assert(self.diags@.subrange(0, self.diags@.len() as int) =~= self.diags@);
                    assert(self.diags@.subrange(self.diags@.len() as int, self.diags@.len() as int)
                        =~= Seq::<Diagnostic>::empty());
                    assert(code_spans(Seq::<Diagnostic>::empty()) =~= Seq::<(Code, Span)>::empty());
                    assert(Seq::<(Code, Span)>::empty() + body_step(t, self.pos as int).0 =~= body_step(
                        t,
                        self.pos as int,
                    ).0);
                }
            },
            Err(diag) => {
                let ghost d0 = self.diags@;
                self.diags.push(diag);
                self.synchronize_stmt();
                proof {
                    let now = self.diags@;
                    assert(now.subrange(0, d0.len() as int) =~= d0);
                    assert(now.subrange(d0.len() as int, now.len() as int) =~= seq![diag]);
                    assert(code_spans(seq![diag]) =~= seq![(diag.code, diag.span)]);
                }
            },
        }
    }

    #[verifier::spinoff_prover]
    #[verifier::rlimit(100)]
    fn parse_txn(&mut self) -> (r: Result<TxnDecl, Diagnostic>)
        requires
            old(self).wf(),
            old(self).tokens@[old(self).pos as int].kind@ == Tok::KwTxn,
        ensures
            final(self).kept(old(self)),
            final(self).pos > old(self).pos,
            final(self).diags@.len() == old(self).diags@.len() ==> (r matches Ok(t) ==> parsed_as(
                old(self).tokens@,
                old(self).pos as int,
                final(self).pos as int,
                txn_pats(t),
            )),
            forall|tx: TxnDecl, q: int|
                txn_ok(tx) && parsed_as(old(self).tokens@, old(self).pos as int, q, txn_pats(tx))
                    ==> r is Ok && final(self).pos == q && final(self).diags@.len()
                    == old(self).diags@.len(),
            final(self).diags@.subrange(0, old(self).diags@.len() as int) == old(self).diags@,
            forall|tx: TxnDecl, j: int, q: int|
                deep_at(tx.stmts@, j) && parsed_as(old(self).tokens@, old(self).pos as int, q, txn_pats(tx))
                    ==> final(self).diags@.len() > old(self).diags@.len() && final(self).diags@[old(
                    self,
                ).diags@.len() as int].code == Code::ExprTooDeep,
            code_spans(final(self).diags@.subrange(old(self).diags@.len() as int, final(self).diags@.len() as int))
                == txn_step(old(self).tokens@, old(self).pos as int).0,
            step_agrees(r, txn_step(old(self).tokens@, old(self).pos as int).1, final(self).pos as int),
            final(self).diags@.len() == old(self).diags@.len() ==> (r matches Ok(d) ==> txn_spans_ok(
                old(self).tokens@,
                old(self).pos as int,
                d,
            )),
    {
        let ghost p0 = self.pos as int;
        let ghost t = self.tokens@;
        let ghost d0 = self.diags@.len();
        let start = match self.expect(TokenKind::KwTxn, "'txn'") {
            Ok(v) => v,
            Err(d) => {
                proof {
                    assert forall|tx: TxnDecl, q: int|
                        txn_ok(tx) && parsed_as(t, p0, q, txn_pats(tx)) implies false by {
                        lemma_txn_shape(t, p0, q, tx);
                    }
                    assert forall|tx: TxnDecl, j: int, q: int|
                        deep_at(tx.stmts@, j) && parsed_as(t, p0, q, txn_pats(tx)) implies false by {
                        lemma_txn_shape(t, p0, q, tx);
                    }
                }
                return Err(d);
            },
        };
        let ghost p1 = self.pos as int;
        let name = match &self.peek().kind {
            TokenKind::Str(s) => {
                let s = s.clone();
                proof {
                    lemma_not_last(self.tokens@, self.pos as int);
                }
                self.advance();
                s
            },
            _ => {
                proof {
                    assert forall|tx: TxnDecl, q: int|
                        txn_ok(tx) && parsed_as(t, p0, q, txn_pats(tx)) implies false by {
                        lemma_txn_shape(t, p0, q, tx);
                    }
                    assert forall|tx: TxnDecl, j: int, q: int|
                        deep_at(tx.stmts@, j) && parsed_as(t, p0, q, txn_pats(tx)) implies false by {
                        lemma_txn_shape(t, p0, q, tx);
                    }
                }
                return Err(self.unexpected("a transaction name string"));
            },
        };
        let ghost p2 = self.pos as int;
        match self.expect(TokenKind::LBrace, "'{'") {
            Ok(_) => {},
            Err(d) => {
                proof {
                    assert forall|tx: TxnDecl, q: int|
                        txn_ok(tx) && parsed_as(t, p0, q, txn_pats(tx)) implies false by {
                        lemma_txn_shape(t, p0, q, tx);
                    }
                    assert forall|tx: TxnDecl, j: int, q: int|
                        deep_at(tx.stmts@, j) && parsed_as(t, p0, q, txn_pats(tx)) implies false by {
                        lemma_txn_shape(t, p0, q, tx);
                    }
                }
                return Err(d);
            },
        }
        let ghost p3 = self.pos as int;
        proof {
            assert(self.diags@.subrange(d0 as int, d0 as int) =~= Seq::<Diagnostic>::empty());
            assert(code_spans(self.diags@.subrange(d0 as int, d0 as int)) =~= Seq::<(Code, Span)>::empty());
            let t = self.tokens@;
            assert(parsed_as(t, p1, p2, ex(Tok::Str(name@)))) by {
                assert(t[p1 + 0] == t[p1]);
            }
            lemma_parsed_concat(t, p0, p1, p2, ex(Tok::KwTxn), ex(Tok::Str(name@)));
            let q2 = ex(Tok::KwTxn) + ex(Tok::Str(name@));
            lemma_parsed_concat(t, p0, p2, p3, q2, ex(Tok::LBrace));
            assert(parsed_as(t, p3, p3, stmts_pats(Seq::<Stmt>::empty())));
            assert forall|tx: TxnDecl, q: int| #![trigger txn_pats(tx), parsed_as(t, p0, q, txn_pats(tx))]
                txn_ok(tx) && parsed_as(t, p0, q, txn_pats(tx)) implies p3 == p0 + 3 && self.pos
                == p3 + stmts_pats(tx.stmts@.take(0)).len() by {
                lemma_txn_shape(t, p0, q, tx);
                assert(tx.stmts@.take(0) =~= Seq::<Stmt>::empty());
            }
            assert forall|tx: TxnDecl, j: int, q: int|
                #![trigger deep_at(tx.stmts@, j), parsed_as(t, p0, q, txn_pats(tx))]
                deep_at(tx.stmts@, j) && parsed_as(t, p0, q, txn_pats(tx))
                    implies p3 == p0 + 3 && self.pos == p3
                + stmts_pats(tx.stmts@.take(0)).len() by {
                lemma_txn_shape(t, p0, q, tx);
                assert(tx.stmts@.take(0) =~= Seq::<Stmt>::empty());
            }
        }
        let mut stmts: Vec<Stmt> = Vec::new();
        proof {
            reveal(body_progress);
            assert(txn_step(t, p0).0 == body_step(t, p3).0);
            assert(txn_step(t, p0).1 == match body_step(t, p3).1 {
                Err(e) => Err(e),
                Ok(q) => exact_step(t, q, Tok::RBrace),
            });
        }
        while !self.at(TokenKind::RBrace)
            invariant
                self.kept(old(self)),
                t == old(self).tokens@,
                self.pos >= p3,
                p0 == old(self).pos,
                p3 == p0 + 3,
                self.diags@.len() >= d0,
                d0 == old(self).diags@.len(),
                self.diags@.len() == d0 ==> parsed_as(
                    self.tokens@,
                    p3,
                    self.pos as int,
                    stmts_pats(stmts@),
                ),
                self.diags@.len() == d0 ==> parsed_as(
                    self.tokens@,
                    p0,
                    p3,
                    ex(Tok::KwTxn) + ex(Tok::Str(name@)) + ex(Tok::LBrace),
                ),
                self.diags@.subrange(0, d0 as int) == old(self).diags@,
                body_progress(
                    t,
                    p0,
                    stmts@.len() as int,
                    self.pos as int,
                    self.diags@.len() == d0,
                    self.diags@.len() > d0 && self.diags@[d0 as int].code == Code::ExprTooDeep,
                ),
                code_spans(self.diags@.subrange(d0 as int, self.diags@.len() as int)) + body_step(
                    t,
                    self.pos as int,
                ).0 == body_step(t, p3).0,
                body_step(t, self.pos as int).1 == body_step(t, p3).1,
                txn_step(t, p0).0 == body_step(t, p3).0,
                txn_step(t, p0).1 == match body_step(t, p3).1 {
                    Err(e) => Err(e),
                    Ok(q) => exact_step(t, q, Tok::RBrace),
                },
                self.diags@.len() == d0 ==> stmts_spans_ok(t, p3, stmts@),
            decreases self.tokens@.len() - self.pos,
        {
            let ghost k = stmts@.len() as int;
            let ghost q0 = self.pos as int;
            let ghost dl = self.diags@.len();
            let ghost clean = dl == d0;
            let ghost deep0 = dl > d0 && self.diags@[d0 as int].code == Code::ExprTooDeep;
            if self.at(TokenKind::Eof) {
                proof {
                    lemma_body_progress_not_eof(t, p0, k, q0, clean, deep0);
                    let sub = code_spans(self.diags@.subrange(d0 as int, self.diags@.len() as int));
                    assert(sub + Seq::<(Code, Span)>::empty() =~= sub);
                }
                return Err(self.unexpected("'}'"));
            }
            let ghost before = stmts@;
            let ghost before_diags = self.diags@;
            self.parse_body_stmt(&mut stmts);
            proof {
                if self.diags@.len() == dl {
                    assert(stmts@.drop_last() == before);
                    if dl == d0 {
                        assert(stmts_spans_ok(t, p3, stmts@));
                        lemma_parsed_concat(
                            self.tokens@,
                            p3,
                            q0,
                            self.pos as int,
                            stmts_pats(before),
                            stmt_pats(stmts@.last()),
                        );
                    }
                }
                lemma_diags_extend(before_diags, self.diags@, d0 as int);
                lemma_body_progress_step(
                    t,
                    p0,
                    k,
                    q0,
                    clean,
                    deep0,
                    self.pos as int,
                    self.diags@.len() == dl,
                    self.diags@.len() > dl && self.diags@[dl as int].code == Code::ExprTooDeep,
                );
            }
        }
        let ghost p4 = self.pos as int;
        proof {
            lemma_body_progress_end(
                t,
                p0,
                stmts@.len() as int,
                p4,
                self.diags@.len() == d0,
                self.diags@.len() > d0 && self.diags@[d0 as int].code == Code::ExprTooDeep,
            );
            let sub = code_spans(self.diags@.subrange(d0 as int, self.diags@.len() as int));
            assert(sub + Seq::<(Code, Span)>::empty() =~= sub);
        }
        let end = match self.expect(TokenKind::RBrace, "'}'") {
            Ok(v) => v,
            Err(d) => {
                proof {
                    assert forall|tx: TxnDecl, q: int|
                        txn_ok(tx) && parsed_as(t, p0, q, txn_pats(tx)) implies false by {
                        lemma_txn_shape(t, p0, q, tx);
                    }
                }
                return Err(d);
            },
        };
        let ghost p5 = self.pos as int;
        proof {
            if self.diags@.len() == d0 {
                let t = self.tokens@;
                let q3 = ex(Tok::KwTxn) + ex(Tok::Str(name@)) + ex(Tok::LBrace);
                lemma_parsed_concat(t, p0, p3, p4, q3, stmts_pats(stmts@));
                lemma_parsed_concat(t, p0, p4, p5, q3 + stmts_pats(stmts@), ex(Tok::RBrace));
            }
        }
        Ok(TxnDecl { name, stmts, span: start.to(end) })
    }

    fn parse_currency_decl(&mut self) -> (r: Result<CurrencyDecl, Diagnostic>)
        requires
            old(self).wf(),
            old(self).tokens@[old(self).pos as int].kind@ == Tok::KwCurrency,
        ensures
            final(self).kept(old(self)),
            final(self).diags == old(self).diags,
            final(self).pos > old(self).pos,
            r matches Ok(d) ==> parsed_as(
                old(self).tokens@,
                old(self).pos as int,
                final(self).pos as int,
                currency_pats(d),
            ),
            forall|d: CurrencyDecl, q: int|
                parsed_as(old(self).tokens@, old(self).pos as int, q, currency_pats(d))
                    ==> r is Ok && final(self).pos == q,
            step_agrees(r, currency_step(old(self).tokens@, old(self).pos as int), final(self).pos as int),
            r matches Ok(d) ==> currency_spans_ok(old(self).tokens@, old(self).pos as int, d),
    {
        let ghost p0 = self.pos as int;
        let ghost t = self.tokens@;
        let start = match self.expect(TokenKind::KwCurrency, "'currency'") {
            Ok(v) => v,
            Err(d) => {
                proof {
                    assert forall|d: CurrencyDecl, q: int|
                        parsed_as(t, p0, q, currency_pats(d)) implies false by {
                        lemma_currency_shape(t, p0, q, d);
                    }
                }
                return Err(d);
            },
        };
        let ghost p1 = self.pos as int;
        let (name, name_span) = match self.parse_ident() {
            Ok(v) => v,
            Err(d) => {
                proof {
                    assert forall|d: CurrencyDecl, q: int|
                        parsed_as(t, p0, q, currency_pats(d)) implies false by {
                        lemma_currency_shape(t, p0, q, d);
                    }
                }
                return Err(d);
            },
        };
        let ghost p2 = self.pos as int;
        match self.expect(TokenKind::LBrace, "'{'") {
            Ok(_) => {},
            Err(d) => {
                proof {
                    assert forall|d: CurrencyDecl, q: int|
                        parsed_as(t, p0, q, currency_pats(d)) implies false by {
                        lemma_currency_shape(t, p0, q, d);
                    }
                }
                return Err(d);
            },
        }
        let ghost p3 = self.pos as int;
        match self.expect(TokenKind::KwScale, "'scale'") {
            Ok(_) => {},
            Err(d) => {
                proof {
                    assert forall|d: CurrencyDecl, q: int|
                        parsed_as(t, p0, q, currency_pats(d)) implies false by {
                        lemma_currency_shape(t, p0, q, d);
                    }
                }
                return Err(d);
            },
        }
        let ghost p4 = self.pos as int;
        match self.expect(TokenKind::Eq, "'='") {
            Ok(_) => {},
            Err(d) => {
                proof {
                    assert forall|d: CurrencyDecl, q: int|
                        parsed_as(t, p0, q, currency_pats(d)) implies false by {
                        lemma_currency_shape(t, p0, q, d);
                    }
                }
                return Err(d);
            },
        }
        let ghost p5 = self.pos as int;
        let (scale, scale_span) = match self.parse_whole_number("a whole number") {
            Ok(v) => v,
            Err(d) => {
                proof {
                    assert forall|d: CurrencyDecl, q: int|
                        parsed_as(t, p0, q, currency_pats(d)) implies false by {
                        lemma_currency_shape(t, p0, q, d);
                    }
                }
                return Err(d);
            },
        };
        let ghost p6 = self.pos as int;
        let end = match self.expect(TokenKind::RBrace, "'}'") {
            Ok(v) => v,
            Err(d) => {
                proof {
                    assert forall|d: CurrencyDecl, q: int|
                        parsed_as(t, p0, q, currency_pats(d)) implies false by {
                        lemma_currency_shape(t, p0, q, d);
                    }
                }
                return Err(d);
            },
        };
        let ghost p7 = self.pos as int;
        proof {
            let t = self.tokens@;
            lemma_parsed_concat(t, p0, p1, p2, ex(Tok::KwCurrency), ident_pats(name@));
            let q2 = ex(Tok::KwCurrency) + ident_pats(name@);
            lemma_parsed_concat(t, p0, p2, p3, q2, ex(Tok::LBrace));
            let q3 = q2 + ex(Tok::LBrace);
            lemma_parsed_concat(t, p0, p3, p4, q3, ex(Tok::KwScale));
            let q4 = q3 + ex(Tok::KwScale);
            lemma_parsed_concat(t, p0, p4, p5, q4, ex(Tok::Eq));
            let q5 = q4 + ex(Tok::Eq);
            lemma_parsed_concat(t, p0, p5, p6, q5, seq![Pat::Whole(scale)]);
            let q6 = q5 + seq![Pat::Whole(scale)];
            lemma_parsed_concat(t, p0, p6, p7, q6, ex(Tok::RBrace));
        }
        proof {
            assert forall|d: CurrencyDecl, q: int|
                parsed_as(t, p0, q, currency_pats(d)) implies self.pos == q by {
                lemma_currency_shape(t, p0, q, d);
            }
        }
        Ok(CurrencyDecl { name, name_span, scale, scale_span, span: start.to(end) })
    }

    #[verifier::spinoff_prover]
    #[verifier::rlimit(80)]
    fn parse_account_decl(&mut self) -> (r: Result<AccountDecl, Diagnostic>)
        requires
            old(self).wf(),
            old(self).tokens@[old(self).pos as int].kind@ == Tok::KwAccount,
        ensures
            final(self).kept(old(self)),
            final(self).diags == old(self).diags,
            final(self).pos > old(self).pos,
            r matches Ok(d) ==> parsed_as(
                old(self).tokens@,
                old(self).pos as int,
                final(self).pos as int,
                account_pats(d),
            ),
            forall|d: AccountDecl, q: int|
                d.path.seg_views().len() >= 1 && parsed_as(old(self).tokens@, old(self).pos as int, q, account_pats(d))
                    ==> r is Ok && final(self).pos == q,
            step_agrees(r, account_step(old(self).tokens@, old(self).pos as int), final(self).pos as int),
            r matches Ok(d) ==> account_spans_ok(old(self).tokens@, old(self).pos as int, d),
    {
        let ghost p0 = self.pos as int;
        let ghost t = self.tokens@;
        let start = match self.expect(TokenKind::KwAccount, "'account'") {
            Ok(v) => v,
            Err(d) => {
                proof {
                    assert forall|d: AccountDecl, q: int|
                        d.path.seg_views().len() >= 1 && parsed_as(t, p0, q, account_pats(d))
                            implies false by {
                        lemma_account_shape(t, p0, q, d);
                    }
                }
                return Err(d);
            },
        };
        let ghost p1 = self.pos as int;
        let path = match self.parse_account_path() {
            Ok(v) => v,
            Err(d) => {
                proof {
                    assert forall|d: AccountDecl, q: int|
                        d.path.seg_views().len() >= 1 && parsed_as(t, p0, q, account_pats(d))
                            implies false by {
                        lemma_account_shape(t, p0, q, d);
                    }
                }
                return Err(d);
            },
        };
        let ghost p2 = self.pos as int;
        match self.expect(TokenKind::LBrace, "'{'") {
            Ok(_) => {},
            Err(d) => {
                proof {
                    assert forall|d: AccountDecl, q: int|
                        d.path.seg_views().len() >= 1 && parsed_as(t, p0, q, account_pats(d))
                            implies false by {
                        lemma_account_shape(t, p0, q, d);
                    }
                }
                return Err(d);
            },
        }
        let ghost p3 = self.pos as int;
        match self.expect(TokenKind::KwCurrency, "'currency'") {
            Ok(_) => {},
            Err(d) => {
                proof {
                    assert forall|d: AccountDecl, q: int|
                        d.path.seg_views().len() >= 1 && parsed_as(t, p0, q, account_pats(d))
                            implies false by {
                        lemma_account_shape(t, p0, q, d);
                    }
                }
                return Err(d);
            },
        }
        let ghost p4 = self.pos as int;
        match self.expect(TokenKind::Eq, "'='") {
            Ok(_) => {},
            Err(d) => {
                proof {
                    assert forall|d: AccountDecl, q: int|
                        d.path.seg_views().len() >= 1 && parsed_as(t, p0, q, account_pats(d))
                            implies false by {
                        lemma_account_shape(t, p0, q, d);
                    }
                }
                return Err(d);
            },
        }
        let ghost p5 = self.pos as int;
        let (currency, currency_span) = match self.parse_ident() {
            Ok(v) => v,
            Err(d) => {
                proof {
                    assert forall|d: AccountDecl, q: int|
                        d.path.seg_views().len() >= 1 && parsed_as(t, p0, q, account_pats(d))
                            implies false by {
                        lemma_account_shape(t, p0, q, d);
                    }
                }
                return Err(d);
            },
        };
        let ghost p6 = self.pos as int;
        match self.expect(TokenKind::Comma, "','") {
            Ok(_) => {},
            Err(d) => {
                proof {
                    assert forall|d: AccountDecl, q: int|
                        d.path.seg_views().len() >= 1 && parsed_as(t, p0, q, account_pats(d))
                            implies false by {
                        lemma_account_shape(t, p0, q, d);
                    }
                }
                return Err(d);
            },
        }
        let ghost p7 = self.pos as int;
        match self.expect(TokenKind::KwKind, "'kind'") {
            Ok(_) => {},
            Err(d) => {
                proof {
                    assert forall|d: AccountDecl, q: int|
                        d.path.seg_views().len() >= 1 && parsed_as(t, p0, q, account_pats(d))
                            implies false by {
                        lemma_account_shape(t, p0, q, d);
                    }
                }
                return Err(d);
            },
        }
        let ghost p8 = self.pos as int;
        match self.expect(TokenKind::Eq, "'='") {
            Ok(_) => {},
            Err(d) => {
                proof {
                    assert forall|d: AccountDecl, q: int|
                        d.path.seg_views().len() >= 1 && parsed_as(t, p0, q, account_pats(d))
                            implies false by {
                        lemma_account_shape(t, p0, q, d);
                    }
                }
                return Err(d);
            },
        }
        let ghost p9 = self.pos as int;
        let (kind, kind_span) = match self.parse_ident() {
            Ok(v) => v,
            Err(d) => {
                proof {
                    assert forall|d: AccountDecl, q: int|
                        d.path.seg_views().len() >= 1 && parsed_as(t, p0, q, account_pats(d))
                            implies false by {
                        lemma_account_shape(t, p0, q, d);
                    }
                }
                return Err(d);
            },
        };
        let ghost p10 = self.pos as int;
        match self.expect(TokenKind::Comma, "','") {
            Ok(_) => {},
            Err(d) => {
                proof {
                    assert forall|d: AccountDecl, q: int|
                        d.path.seg_views().len() >= 1 && parsed_as(t, p0, q, account_pats(d))
                            implies false by {
                        lemma_account_shape(t, p0, q, d);
                    }
                }
                return Err(d);
            },
        }
        let ghost p11 = self.pos as int;
        match self.expect(TokenKind::KwNormal, "'normal'") {
            Ok(_) => {},
            Err(d) => {
                proof {
                    assert forall|d: AccountDecl, q: int|
                        d.path.seg_views().len() >= 1 && parsed_as(t, p0, q, account_pats(d))
                            implies false by {
                        lemma_account_shape(t, p0, q, d);
                    }
                }
                return Err(d);
            },
        }
        let ghost p12 = self.pos as int;
        match self.expect(TokenKind::Eq, "'='") {
            Ok(_) => {},
            Err(d) => {
                proof {
                    assert forall|d: AccountDecl, q: int|
                        d.path.seg_views().len() >= 1 && parsed_as(t, p0, q, account_pats(d))
                            implies false by {
                        lemma_account_shape(t, p0, q, d);
                    }
                }
                return Err(d);
            },
        }
        let ghost p13 = self.pos as int;
        let (normal, normal_span) = match self.parse_normal_balance() {
            Ok(v) => v,
            Err(d) => {
                proof {
                    assert forall|d: AccountDecl, q: int|
                        d.path.seg_views().len() >= 1 && parsed_as(t, p0, q, account_pats(d))
                            implies false by {
                        lemma_account_shape(t, p0, q, d);
                    }
                }
                return Err(d);
            },
        };
        let ghost p14 = self.pos as int;
        let end = match self.expect(TokenKind::RBrace, "'}'") {
            Ok(v) => v,
            Err(d) => {
                proof {
                    assert forall|d: AccountDecl, q: int|
                        d.path.seg_views().len() >= 1 && parsed_as(t, p0, q, account_pats(d))
                            implies false by {
                        lemma_account_shape(t, p0, q, d);
                    }
                }
                return Err(d);
            },
        };
        let ghost p15 = self.pos as int;
        proof {
            let t = self.tokens@;
            lemma_parsed_concat(t, p0, p1, p2, ex(Tok::KwAccount), path_pats(path.seg_views()));
            let q2 = ex(Tok::KwAccount) + path_pats(path.seg_views());
            lemma_parsed_concat(t, p0, p2, p3, q2, ex(Tok::LBrace));
            let q3 = q2 + ex(Tok::LBrace);
            lemma_parsed_concat(t, p0, p3, p4, q3, ex(Tok::KwCurrency));
            let q4 = q3 + ex(Tok::KwCurrency);
            lemma_parsed_concat(t, p0, p4, p5, q4, ex(Tok::Eq));
            let q5 = q4 + ex(Tok::Eq);
            lemma_parsed_concat(t, p0, p5, p6, q5, ident_pats(currency@));
            let q6 = q5 + ident_pats(currency@);
            lemma_parsed_concat(t, p0, p6, p7, q6, ex(Tok::Comma));
            let q7 = q6 + ex(Tok::Comma);
            lemma_parsed_concat(t, p0, p7, p8, q7, ex(Tok::KwKind));
            let q8 = q7 + ex(Tok::KwKind);
            lemma_parsed_concat(t, p0, p8, p9, q8, ex(Tok::Eq));
            let q9 = q8 + ex(Tok::Eq);
            lemma_parsed_concat(t, p0, p9, p10, q9, ident_pats(kind@));
            let q10 = q9 + ident_pats(kind@);
            lemma_parsed_concat(t, p0, p10, p11, q10, ex(Tok::Comma));
            let q11 = q10 + ex(Tok::Comma);
            lemma_parsed_concat(t, p0, p11, p12, q11, ex(Tok::KwNormal));
            let q12 = q11 + ex(Tok::KwNormal);
            lemma_parsed_concat(t, p0, p12, p13, q12, ex(Tok::Eq));
            let q13 = q12 + ex(Tok::Eq);
            lemma_parsed_concat(t, p0, p13, p14, q13, ex(normal_tok(normal)));
            let q14 = q13 + ex(normal_tok(normal));
            lemma_parsed_concat(t, p0, p14, p15, q14, ex(Tok::RBrace));
        }
        proof {
            assert forall|d: AccountDecl, q: int|
                d.path.seg_views().len() >= 1 && parsed_as(t, p0, q, account_pats(d))
                    implies self.pos == q by {
                lemma_account_shape(t, p0, q, d);
            }
        }
        proof {
            let m = p0 + 1 + path_pats(path.seg_views()).len();
            assert(p2 == m);
            assert(p5 == m + 3 && p9 == m + 7 && p13 == m + 11 && p14 == m + 12);
        }
        Ok(
            AccountDecl {
                path,
                currency,
                currency_span,
                kind,
                kind_span,
                normal,
                normal_span,
                span: start.to(end),
            },
        )
    }

    fn parse_rate_decl(&mut self) -> (r: Result<RateDecl, Diagnostic>)
        requires
            old(self).wf(),
            old(self).tokens@[old(self).pos as int].kind@ == Tok::KwRate,
        ensures
            final(self).kept(old(self)),
            final(self).diags == old(self).diags,
            final(self).pos > old(self).pos,
            r matches Ok(d) ==> parsed_as(
                old(self).tokens@,
                old(self).pos as int,
                final(self).pos as int,
                rate_pats(d),
            ),
            forall|d: RateDecl, q: int|
                parsed_as(old(self).tokens@, old(self).pos as int, q, rate_pats(d))
                    ==> r is Ok && final(self).pos == q,
            step_agrees(r, rate_step(old(self).tokens@, old(self).pos as int), final(self).pos as int),
            r matches Ok(d) ==> rate_spans_ok(old(self).tokens@, old(self).pos as int, d),
    {
        let ghost p0 = self.pos as int;
        let ghost t = self.tokens@;
        let start = match self.expect(TokenKind::KwRate, "'rate'") {
            Ok(v) => v,
            Err(d) => {
                proof {
                    assert forall|d: RateDecl, q: int| parsed_as(t, p0, q, rate_pats(d)) implies false by {
                        lemma_rate_shape(t, p0, q, d);
                    }
                }
                return Err(d);
            },
        };
        let ghost p1 = self.pos as int;
        let (name, name_span) = match self.parse_ident() {
            Ok(v) => v,
            Err(d) => {
                proof {
                    assert forall|d: RateDecl, q: int| parsed_as(t, p0, q, rate_pats(d)) implies false by {
                        lemma_rate_shape(t, p0, q, d);
                    }
                }
                return Err(d);
            },
        };
        let ghost p2 = self.pos as int;
        match self.expect(TokenKind::KwFrom, "'from'") {
            Ok(_) => {},
            Err(d) => {
                proof {
                    assert forall|d: RateDecl, q: int| parsed_as(t, p0, q, rate_pats(d)) implies false by {
                        lemma_rate_shape(t, p0, q, d);
                    }
                }
                return Err(d);
            },
        }
        let ghost p3 = self.pos as int;
        let (from, from_span) = match self.parse_ident() {
            Ok(v) => v,
            Err(d) => {
                proof {
                    assert forall|d: RateDecl, q: int| parsed_as(t, p0, q, rate_pats(d)) implies false by {
                        lemma_rate_shape(t, p0, q, d);
                    }
                }
                return Err(d);
            },
        };
        let ghost p4 = self.pos as int;
        match self.expect(TokenKind::KwTo, "'to'") {
            Ok(_) => {},
            Err(d) => {
                proof {
                    assert forall|d: RateDecl, q: int| parsed_as(t, p0, q, rate_pats(d)) implies false by {
                        lemma_rate_shape(t, p0, q, d);
                    }
                }
                return Err(d);
            },
        }
        let ghost p5 = self.pos as int;
        let (to, to_span) = match self.parse_ident() {
            Ok(v) => v,
            Err(d) => {
                proof {
                    assert forall|d: RateDecl, q: int| parsed_as(t, p0, q, rate_pats(d)) implies false by {
                        lemma_rate_shape(t, p0, q, d);
                    }
                }
                return Err(d);
            },
        };
        let ghost p6 = self.pos as int;
        match self.expect(TokenKind::Eq, "'='") {
            Ok(_) => {},
            Err(d) => {
                proof {
                    assert forall|d: RateDecl, q: int| parsed_as(t, p0, q, rate_pats(d)) implies false by {
                        lemma_rate_shape(t, p0, q, d);
                    }
                }
                return Err(d);
            },
        }
        let ghost p7 = self.pos as int;
        let value = match self.parse_amount() {
            Ok(v) => v,
            Err(d) => {
                proof {
                    assert forall|d: RateDecl, q: int| parsed_as(t, p0, q, rate_pats(d)) implies false by {
                        lemma_rate_shape(t, p0, q, d);
                    }
                }
                return Err(d);
            },
        };
        let ghost p8 = self.pos as int;
        match self.expect(TokenKind::KwRound, "'round'") {
            Ok(_) => {},
            Err(d) => {
                proof {
                    assert forall|d: RateDecl, q: int| parsed_as(t, p0, q, rate_pats(d)) implies false by {
                        lemma_rate_shape(t, p0, q, d);
                    }
                }
                return Err(d);
            },
        }
        let ghost p9 = self.pos as int;
        match self.expect(TokenKind::KwDown, "'down'") {
            Ok(_) => {},
            Err(d) => {
                proof {
                    assert forall|d: RateDecl, q: int| parsed_as(t, p0, q, rate_pats(d)) implies false by {
                        lemma_rate_shape(t, p0, q, d);
                    }
                }
                return Err(d);
            },
        }
        let ghost p10 = self.pos as int;
        let end = match self.expect(TokenKind::Semi, "';'") {
            Ok(v) => v,
            Err(d) => {
                proof {
                    assert forall|d: RateDecl, q: int| parsed_as(t, p0, q, rate_pats(d)) implies false by {
                        lemma_rate_shape(t, p0, q, d);
                    }
                }
                return Err(d);
            },
        };
        let ghost p11 = self.pos as int;
        proof {
            let t = self.tokens@;
            lemma_parsed_concat(t, p0, p1, p2, ex(Tok::KwRate), ident_pats(name@));
            let q2 = ex(Tok::KwRate) + ident_pats(name@);
            lemma_parsed_concat(t, p0, p2, p3, q2, ex(Tok::KwFrom));
            let q3 = q2 + ex(Tok::KwFrom);
            lemma_parsed_concat(t, p0, p3, p4, q3, ident_pats(from@));
            let q4 = q3 + ident_pats(from@);
            lemma_parsed_concat(t, p0, p4, p5, q4, ex(Tok::KwTo));
            let q5 = q4 + ex(Tok::KwTo);
            lemma_parsed_concat(t, p0, p5, p6, q5, ident_pats(to@));
            let q6 = q5 + ident_pats(to@);
            lemma_parsed_concat(t, p0, p6, p7, q6, ex(Tok::Eq));
            let q7 = q6 + ex(Tok::Eq);
            lemma_parsed_concat(t, p0, p7, p8, q7, ex(Tok::Decimal(value.text@)));
            let q8 = q7 + ex(Tok::Decimal(value.text@));
            lemma_parsed_concat(t, p0, p8, p9, q8, ex(Tok::KwRound));
            let q9 = q8 + ex(Tok::KwRound);
            lemma_parsed_concat(t, p0, p9, p10, q9, ex(Tok::KwDown));
            let q10 = q9 + ex(Tok::KwDown);
            lemma_parsed_concat(t, p0, p10, p11, q10, ex(Tok::Semi));
        }
        proof {
            assert forall|d: RateDecl, q: int| parsed_as(t, p0, q, rate_pats(d)) implies self.pos == q by {
                lemma_rate_shape(t, p0, q, d);
            }
        }
        Ok(RateDecl { name, name_span, from, from_span, to, to_span, value, span: start.to(end) })
    }

    #[verifier::spinoff_prover]
    #[verifier::rlimit(100)]
    fn parse_module(&mut self) -> (m: Module)
        requires
            old(self).wf(),
            old(self).pos == 0,
            old(self).diags@.len() == 0,
        ensures
            final(self).kept(old(self)),
            final(self).diags@.len() == 0 ==> exists|order: Seq<DeclKind>|
                module_parsed_as(final(self).tokens@, m, order) && module_spans_ok(final(self).tokens@, m, order),
            forall|mm: Module, oo: Seq<DeclKind>|
                module_parsed_as(old(self).tokens@, mm, oo) && module_ok(mm)
                    ==> final(self).diags@.len() == 0,
            forall|mm: Module, oo: Seq<DeclKind>, kk: int|
                module_parsed_as(old(self).tokens@, mm, oo) && module_deep_at(mm, oo, kk)
                    ==> final(self).diags@.len() > 0 && final(self).diags@[0].code == Code::ExprTooDeep,
            code_spans(final(self).diags@) == decls_diags(old(self).tokens@, 0),
    {
        let ghost t = self.tokens@;
        let mut currencies: Vec<CurrencyDecl> = Vec::new();
        let mut accounts: Vec<AccountDecl> = Vec::new();
        let mut rates: Vec<RateDecl> = Vec::new();
        let mut txns: Vec<TxnDecl> = Vec::new();
        let ghost mut order: Seq<DeclKind> = Seq::empty();
        proof {
            assert(parsed_as(
                self.tokens@,
                0,
                0,
                decls_pats(currencies@, accounts@, rates@, txns@, order),
            ));
            assert forall|mm: Module, oo: Seq<DeclKind>| #![trigger module_parsed_as(t, mm, oo)]
                module_parsed_as(t, mm, oo) && module_ok(mm) implies self.pos == decl_offset(mm, oo, 0) by {
                assert(oo.take(0) =~= Seq::<DeclKind>::empty());
            }
            assert forall|mm: Module, oo: Seq<DeclKind>, kk: int|
                #![trigger module_parsed_as(t, mm, oo), module_deep_at(mm, oo, kk)]
                module_parsed_as(t, mm, oo) && module_deep_at(mm, oo, kk)
                    implies self.pos == decl_offset(mm, oo, 0) by {
                assert(oo.take(0) =~= Seq::<DeclKind>::empty());
            }
        }
        proof {
            assert(code_spans(self.diags@) =~= Seq::<(Code, Span)>::empty());
            assert(code_spans(self.diags@) + decls_diags(t, 0) =~= decls_diags(t, 0));
        }
        while !self.at(TokenKind::Eof)
            invariant
                code_spans(self.diags@) + decls_diags(t, self.pos as int) == decls_diags(t, 0),
                self.kept(old(self)),
                count_kind(order, DeclKind::Currency) == currencies@.len(),
                count_kind(order, DeclKind::Account) == accounts@.len(),
                count_kind(order, DeclKind::Rate) == rates@.len(),
                count_kind(order, DeclKind::Txn) == txns@.len(),
                self.diags@.len() == 0 ==> parsed_as(
                    self.tokens@,
                    0,
                    self.pos as int,
                    decls_pats(currencies@, accounts@, rates@, txns@, order),
                ),
                self.diags@.len() == 0 ==> forall|k: int|
                    0 <= k < order.len() ==> #[trigger] decl_spans_at(
                        self.tokens@,
                        currencies@,
                        accounts@,
                        rates@,
                        txns@,
                        order,
                        k,
                    ),
                t == old(self).tokens@,
                forall|mm: Module, oo: Seq<DeclKind>| #![trigger module_parsed_as(t, mm, oo)]
                    module_parsed_as(t, mm, oo) && module_ok(mm) ==> self.diags@.len() == 0
                        && order.len() <= oo.len() && self.pos == decl_offset(mm, oo, order.len() as int),
                forall|mm: Module, oo: Seq<DeclKind>, kk: int| #![trigger module_parsed_as(t, mm, oo), module_deep_at(mm, oo, kk)]
                    module_parsed_as(t, mm, oo) && module_deep_at(mm, oo, kk)
                        ==> (self.diags@.len() == 0 && order.len() <= kk && self.pos
                        == decl_offset(mm, oo, order.len() as int)) || (self.diags@.len() > 0
                        && self.diags@[0].code == Code::ExprTooDeep),
            decreases self.tokens@.len() - self.pos,
        {
            let ghost p = self.pos as int;
            let ghost k = order.len() as int;
            proof {
                assert forall|mm: Module, oo: Seq<DeclKind>| #![trigger module_parsed_as(t, mm, oo)]
                    module_parsed_as(t, mm, oo) && module_ok(mm) implies k < oo.len() && decl_at(
                    t,
                    mm,
                    oo,
                    k,
                    p,
                    decl_offset(mm, oo, k + 1),
                ) by {
                    if k == oo.len() {
                        assert(oo.take(k) =~= oo);
                    } else {
                        lemma_decls_nth(t, mm, oo, k);
                    }
                }
                assert forall|mm: Module, oo: Seq<DeclKind>, kk: int|
                    #![trigger module_parsed_as(t, mm, oo), module_deep_at(mm, oo, kk)]
                    module_parsed_as(t, mm, oo) && module_deep_at(mm, oo, kk)
                        && self.diags@.len() == 0 && k <= kk && p == decl_offset(mm, oo, k)
                        implies decl_at(t, mm, oo, k, p, decl_offset(mm, oo, k + 1)) && (k < kk ==> decl_ok(
                    mm,
                    oo,
                    k,
                )) by {
                    lemma_decls_nth(t, mm, oo, k);
                }
            }
            let ghost (cs, accts, rs, ts) = (currencies@, accounts@, rates@, txns@);
            let ghost before = self.diags@;
            let result: Result<(), Diagnostic> = match &self.peek().kind {
                TokenKind::KwCurrency => match self.parse_currency_decl() {
                    Ok(d) => {
                        currencies.push(d);
                        proof {
                            lemma_decls_pats_extend(
                                cs,
                                accts,
                                rs,
                                ts,
                                currencies@,
                                accts,
                                rs,
                                ts,
                                order,
                            );
                            lemma_decls_pats_push(
                                currencies@,
                                accts,
                                rs,
                                ts,
                                order,
                                DeclKind::Currency,
                            );
                            if self.diags@.len() == 0 {
                                lemma_parsed_concat(
                                    self.tokens@,
                                    0,
                                    p,
                                    self.pos as int,
                                    decls_pats(cs, accts, rs, ts, order),
                                    currency_pats(d),
                                );
                            }
                            if self.diags@.len() == 0 {
                                assert(order.push(DeclKind::Currency).take(order.len() as int) =~= order);
                                assert(decl_spans_at(self.tokens@, currencies@, accts, rs, ts, order.push(DeclKind::Currency), order.len() as int));
                                lemma_decl_spans_push(self.tokens@, cs, accts, rs, ts, currencies@, accts, rs, ts, order, DeclKind::Currency);
                            }
                            order = order.push(DeclKind::Currency);
                        }
                        Ok(())
                    },
                    Err(e) => Err(e),
                },
                TokenKind::KwAccount => match self.parse_account_decl() {
                    Ok(d) => {
                        accounts.push(d);
                        proof {
                            lemma_decls_pats_extend(
                                cs,
                                accts,
                                rs,
                                ts,
                                cs,
                                accounts@,
                                rs,
                                ts,
                                order,
                            );
                            lemma_decls_pats_push(cs, accounts@, rs, ts, order, DeclKind::Account);
                            if self.diags@.len() == 0 {
                                lemma_parsed_concat(
                                    self.tokens@,
                                    0,
                                    p,
                                    self.pos as int,
                                    decls_pats(cs, accts, rs, ts, order),
                                    account_pats(d),
                                );
                            }
                            if self.diags@.len() == 0 {
                                assert(order.push(DeclKind::Account).take(order.len() as int) =~= order);
                                assert(decl_spans_at(self.tokens@, cs, accounts@, rs, ts, order.push(DeclKind::Account), order.len() as int));
                                lemma_decl_spans_push(self.tokens@, cs, accts, rs, ts, cs, accounts@, rs, ts, order, DeclKind::Account);
                            }
                            order = order.push(DeclKind::Account);
                        }
                        Ok(())
                    },
                    Err(e) => Err(e),
                },
                TokenKind::KwRate => match self.parse_rate_decl() {
                    Ok(d) => {
                        rates.push(d);
                        proof {
                            lemma_decls_pats_extend(
                                cs,
                                accts,
                                rs,
                                ts,
                                cs,
                                accts,
                                rates@,
                                ts,
                                order,
                            );
                            lemma_decls_pats_push(cs, accts, rates@, ts, order, DeclKind::Rate);
                            if self.diags@.len() == 0 {
                                lemma_parsed_concat(
                                    self.tokens@,
                                    0,
                                    p,
                                    self.pos as int,
                                    decls_pats(cs, accts, rs, ts, order),
                                    rate_pats(d),
                                );
                            }
                            if self.diags@.len() == 0 {
                                assert(order.push(DeclKind::Rate).take(order.len() as int) =~= order);
                                assert(decl_spans_at(self.tokens@, cs, accts, rates@, ts, order.push(DeclKind::Rate), order.len() as int));
                                lemma_decl_spans_push(self.tokens@, cs, accts, rs, ts, cs, accts, rates@, ts, order, DeclKind::Rate);
                            }
                            order = order.push(DeclKind::Rate);
                        }
                        Ok(())
                    },
                    Err(e) => Err(e),
                },
                TokenKind::KwTxn => match self.parse_txn() {
                    Ok(d) => {
                        txns.push(d);
                        proof {
                            lemma_decls_pats_extend(
                                cs,
                                accts,
                                rs,
                                ts,
                                cs,
                                accts,
                                rs,
                                txns@,
                                order,
                            );
                            lemma_decls_pats_push(cs, accts, rs, txns@, order, DeclKind::Txn);
                            if self.diags@.len() == 0 {
                                lemma_parsed_concat(
                                    self.tokens@,
                                    0,
                                    p,
                                    self.pos as int,
                                    decls_pats(cs, accts, rs, ts, order),
                                    txn_pats(d),
                                );
                            }
                            if self.diags@.len() == 0 {
                                assert(order.push(DeclKind::Txn).take(order.len() as int) =~= order);
                                assert(decl_spans_at(self.tokens@, cs, accts, rs, txns@, order.push(DeclKind::Txn), order.len() as int));
                                lemma_decl_spans_push(self.tokens@, cs, accts, rs, ts, cs, accts, rs, txns@, order, DeclKind::Txn);
                            }
                            order = order.push(DeclKind::Txn);
                        }
                        Ok(())
                    },
                    Err(e) => Err(e),
                },
                _ => Err(self.unexpected("'currency', 'account', 'rate', or 'txn'")),
            };
            let ghost mid = self.diags@;
            let ghost mid_pos = self.pos as int;
            proof {
                reveal(decl_outcome);
                assert(mid.subrange(0, before.len() as int) == before) by {
                    if mid.len() == before.len() {
                        assert(mid.subrange(0, before.len() as int) =~= mid);
                    }
                }
                assert(code_spans(mid.subrange(before.len() as int, mid.len() as int)) == decl_outcome(t, p).0)
                    by {
                    if mid.len() == before.len() {
                        assert(code_spans(mid.subrange(before.len() as int, mid.len() as int)) =~= Seq::<
                            (Code, Span),
                        >::empty());
                    }
                }
                assert(step_agrees(result, decl_outcome(t, p).1, mid_pos));
            }
            if let Err(diag) = result {
                self.diags.push(diag);
                self.synchronize_decl();
            }
            proof {
                lemma_decls_diags_step(t, p, before, mid, self.diags@, mid_pos, self.pos as int, result);
            }
        }
        proof {
            assert forall|mm: Module, oo: Seq<DeclKind>, kk: int|
                #![trigger module_parsed_as(t, mm, oo), module_deep_at(mm, oo, kk)]
                module_parsed_as(t, mm, oo) && module_deep_at(mm, oo, kk)
                    implies self.diags@.len() > 0 && self.diags@[0].code == Code::ExprTooDeep by {
                let k = order.len() as int;
                if self.diags@.len() == 0 && k <= kk {
                    lemma_decls_nth(t, mm, oo, k);
                }
            }
        }
        let m = Module { currencies, accounts, rates, txns };
        proof {
            if self.diags@.len() == 0 {
                if self.pos as int != self.tokens@.len() - 1 {
                    assert(self.tokens@[self.pos as int].kind@ != Tok::Eof);
                }
                assert(module_parsed_as(self.tokens@, m, order));
                assert(module_spans_ok(self.tokens@, m, order));
            }
        }
        m
    }
}

} // verus!
