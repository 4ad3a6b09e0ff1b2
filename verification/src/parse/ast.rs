//! Untyped syntax tree. `resolve` turns each binding/reference name, and each
//! account/currency name, into an id; `typeck` then checks the result and produces the
//! `T`-prefixed IR `eval` runs.
//!
//! A module is a sequence of `currency`, `account`, and `rate` declarations plus `txn`
//! declarations, in any order. A transaction body is a sequence of `let`, `convert`,
//! `debit`, `absorb`, `split`, and `split_ratio` statements. `credit` and `merge` are
//! the only ways to introduce a `Money` value and can appear either inline in a
//! `debit`/`convert`/`split`/`split_ratio`/`merge` argument or as a `let`'s right-hand
//! side; a bound name can then flow into any of those, or another `let` (a move).
//! `convert` is the only way to introduce a `Residue` value; a bound residue name can
//! flow into `absorb` or another `let`. There is deliberately no statement form for a
//! bare, unconsumed `credit`, `convert`, `merge`, `split`, `split_ratio`, or `Var` —
//! every value is produced only where it can immediately be bound or consumed.
//!
//! A decimal literal is kept as raw text (`DecimalLiteral`) rather than lowered to an
//! `Amount` here, because lowering needs a scale, and scale is a per-currency property
//! not known until the literal's account (and hence currency) resolves.

use vstd::prelude::*;
use crate::span::Span;
use crate::text::{push_char, push_str};

verus! {

pub struct Module {
    pub currencies: Vec<CurrencyDecl>,
    pub accounts: Vec<AccountDecl>,
    pub rates: Vec<RateDecl>,
    pub txns: Vec<TxnDecl>,
}

/// `currency NAME { scale = N }` — declares a currency and its fixed-point scale.
pub struct CurrencyDecl {
    pub name: String,
    pub name_span: Span,
    pub scale: u32,
    pub scale_span: Span,
    pub span: Span,
}

/// Which side of an entry an account's balance is conventionally displayed positive
/// on.
#[derive(Debug, Clone, Copy, PartialEq, Eq, Structural)]
pub enum NormalBalance {
    Debit,
    Credit,
}

/// `account PATH { currency = CURRENCY, kind = KIND, normal = debit|credit }` — binds
/// an account path to a currency, a report category, and a normal balance.
pub struct AccountDecl {
    pub path: AccountPath,
    pub currency: String,
    pub currency_span: Span,
    pub kind: String,
    pub kind_span: Span,
    pub normal: NormalBalance,
    pub normal_span: Span,
    pub span: Span,
}

/// `rate NAME from A to B = VALUE round down;` — `round down` is required syntax even
/// though `down` is currently the only legal value.
pub struct RateDecl {
    pub name: String,
    pub name_span: Span,
    pub from: String,
    pub from_span: Span,
    pub to: String,
    pub to_span: Span,
    pub value: DecimalLiteral,
    pub span: Span,
}

pub struct TxnDecl {
    pub name: String,
    pub stmts: Vec<Stmt>,
    /// Covers the whole `txn "..." { ... }` block.
    pub span: Span,
}

pub enum Stmt {
    /// `let NAME = MoneyExpr;` — binds a fresh `Money` value. `name_span` is exactly
    /// the binding's span, which is what `E_DROPPED` points at if it's never consumed.
    Let { name: String, name_span: Span, value: MoneyExpr, span: Span },
    /// `let (PRIMARY, RESIDUAL) = convert(MoneyExpr, RATE);` — consumes the value
    /// `MoneyExpr` produces, binds `PRIMARY : Money<B>` and `RESIDUAL : Residue<B>`,
    /// where `B` is `RATE`'s declared `to` currency.
    Convert {
        primary_name: String,
        primary_span: Span,
        residual_name: String,
        residual_span: Span,
        money: MoneyExpr,
        rate: String,
        rate_span: Span,
        span: Span,
    },
    /// `debit(ACCOUNT, MoneyExpr);` — consumes the value MoneyExpr produces.
    Debit { account: AccountPath, value: MoneyExpr, span: Span },
    /// `absorb(RESIDUE, ACCOUNT);` — consumes a `Residue` bound by a `Convert`
    /// statement, posting its whole minor units to `ACCOUNT`.
    Absorb { residue_name: String, residue_span: Span, account: AccountPath, span: Span },
    /// `let (A, B) = split(MoneyExpr, AMOUNT);` — consumes the value `MoneyExpr`
    /// produces, binds `A : Money<C>` (worth exactly `AMOUNT`) and `B : Money<C>`
    /// (worth the remainder). `AMOUNT` exceeding the input's actual value is a runtime
    /// error (`E_UNBALANCED`).
    Split {
        a_name: String,
        a_span: Span,
        b_name: String,
        b_span: Span,
        money: MoneyExpr,
        amount: DecimalLiteral,
        span: Span,
    },
    /// `let (A, B) = split_ratio(MoneyExpr, P, Q);` — `P` and `Q` are non-negative
    /// whole-number weights, and the input's value is allocated to `A` and `B` by
    /// largest-remainder allocation in ratio `P : Q`, ties broken toward `A`.
    SplitRatio {
        a_name: String,
        a_span: Span,
        b_name: String,
        b_span: Span,
        money: MoneyExpr,
        a_weight: u32,
        a_weight_span: Span,
        b_weight: u32,
        b_weight_span: Span,
        span: Span,
    },
}

pub enum MoneyExpr {
    /// `credit(ACCOUNT, AMOUNT)` — introduces a fresh linear value. The amount is
    /// still a raw literal; `typeck` lowers it once it knows `ACCOUNT`'s currency's
    /// scale.
    Credit { account: AccountPath, amount: DecimalLiteral, span: Span },
    /// A reference to a previously `let`-bound name.
    Var { name: String, span: Span },
    /// `merge(MoneyExpr, MoneyExpr)` — the one place a `MoneyExpr` nests; see the
    /// parser's depth cap.
    Merge { a: Box<MoneyExpr>, b: Box<MoneyExpr>, span: Span },
}

/// A decimal literal's raw text, e.g. `"45.00"` or `"45"`, not yet lowered to an
/// `Amount` (that needs a scale).
pub struct DecimalLiteral {
    pub text: String,
    pub span: Span,
}

pub struct AccountPath {
    pub segments: Vec<String>,
    pub span: Span,
}

/// The segments of a path joined by `:`.
pub open spec fn join_segments(segs: Seq<Seq<char>>) -> Seq<char>
    decreases segs.len(),
{
    if segs.len() == 0 {
        Seq::empty()
    } else if segs.len() == 1 {
        segs[0]
    } else {
        join_segments(segs.drop_last()) + seq![':'] + segs.last()
    }
}

impl AccountPath {
    pub open spec fn seg_views(&self) -> Seq<Seq<char>> {
        self.segments@.map_values(|s: String| s@)
    }

    /// The rendered form, e.g. `"assets:cash"`.
    pub open spec fn text(&self) -> Seq<char> {
        join_segments(self.seg_views())
    }

    /// The segments joined by `:`, e.g. `"assets:cash"`.
    pub fn to_string(&self) -> (s: String)
        ensures
            s@ == self.text(),
    {
        let mut out = String::new();
        let mut i: usize = 0;
        while i < self.segments.len()
            invariant
                i <= self.segments@.len(),
                out@ == join_segments(self.seg_views().take(i as int)),
            decreases self.segments@.len() - i,
        {
            let ghost prev = self.seg_views().take(i as int);
            if i > 0 {
                push_char(&mut out, ':');
            }
            push_str(&mut out, self.segments[i].as_str());
            i = i + 1;
            proof {
                let cur = self.seg_views().take(i as int);
                assert(cur.drop_last() =~= prev);
                if i == 1 {
                    assert(prev =~= Seq::<Seq<char>>::empty());
                    assert(out@ =~= cur[0]);
                } else {
                    assert(out@ =~= join_segments(prev) + seq![':'] + cur.last());
                }
            }
        }
        assert(self.seg_views().take(i as int) =~= self.seg_views());
        out
    }
}

} // verus!
