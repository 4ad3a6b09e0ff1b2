//! `ResolvedModule` -> `TModule` + `Diagnostic`s. The traversal driver: walks each
//! transaction body left to right, threading Γ (`rules::Context`) through its
//! statements, calling out to `rules` for the premise of each typing rule. This module
//! owns dispatch, Γ-threading and assembling the typed IR (`TStmt`/`TMoneyExpr`);
//! `rules` owns deciding whether a rule's premises hold and building the diagnostic
//! when they don't.
//!
//! `tc_expr`, `tc_stmt` and `tc_stmts` state that traversal over Γ's view; the
//! executable functions compute exactly them. `tmodule_ok`, `lemma_typed_txn_is_linear`
//! and `lemma_typed_txn_currencies_agree` state what a body that type-checks
//! guarantees.

pub mod rules;

use vstd::prelude::*;
use crate::amount::Amount;
use crate::diag::{code_spans, Code, Diagnostic};
use crate::parse::ast;
use crate::resolve::{
    bind_names, find_name, lemma_stmts_next, lemma_txns_next, resolve_ok, scope_lookup,
    stmt_binders, stmts_bindings, txns_bindings, kept_accounts, kept_currencies, kept_rates, lemma_find_from,
    module_account_paths, module_rate_names, resolve_expr_spec, resolve_stmt_spec,
    resolve_stmts_spec, resolve_txns_spec, resolved_from, AccountId, AccountInfo, CurrencyId,
    CurrencyInfo, RateId, RateInfo, ResolvedModule, ResolvedMoneyExpr, ResolvedStmt, ResolvedTxn,
    SymbolId,
};
use crate::span::Span;
use rules::{
    bind_spec, consume_checked, consume_spec, kind_mismatch_diag, lowered, BindingKind, Context,
    CtxView,
};
pub use rules::Ty;

verus! {

pub struct TModule {
    pub currencies: Vec<CurrencyInfo>,
    pub accounts: Vec<AccountInfo>,
    pub rates: Vec<RateInfo>,
    pub txns: Vec<TTxnDecl>,
}

pub struct TTxnDecl {
    pub name: String,
    pub stmts: Vec<TStmt>,
    pub span: Span,
}

pub enum TStmt {
    Let { symbol: SymbolId, value: TMoneyExpr, span: Span },
    /// `let (primary, residual) = convert(money, rate);` The arithmetic happens in
    /// `eval`: `money`'s amount generally isn't known until then.
    Convert { primary: SymbolId, residual: SymbolId, money: TMoneyExpr, rate: RateId, span: Span },
    Debit { account: AccountId, value: TMoneyExpr, span: Span },
    /// `absorb(residual, account);`
    Absorb { residual: SymbolId, account: AccountId, span: Span },
    /// `let (a, b) = split(money, amount);` `amount` is already lowered; whether it fits
    /// inside `money`'s runtime value is `eval`'s check, and `amount_span` is what its
    /// diagnostic points at.
    Split {
        a: SymbolId,
        b: SymbolId,
        money: TMoneyExpr,
        currency: CurrencyId,
        amount: Amount,
        amount_span: Span,
        span: Span,
    },
    /// `let (a, b) = split_ratio(money, a_weight, b_weight);` Always exact.
    SplitRatio { a: SymbolId, b: SymbolId, money: TMoneyExpr, a_weight: u32, b_weight: u32, span: Span },
}

pub enum TMoneyExpr {
    Credit { account: AccountId, amount: Amount },
    Var { symbol: SymbolId },
    /// `merge(a, b)`
    Merge { a: Box<TMoneyExpr>, b: Box<TMoneyExpr> },
}

// ---------------------------------------------------------------------------------
// Well-formed input: every id names an entry of its table.

pub open spec fn expr_ids_ok(e: ResolvedMoneyExpr, na: nat) -> bool
    decreases e,
{
    match e {
        ResolvedMoneyExpr::Credit { account, .. } => account.0 < na,
        ResolvedMoneyExpr::Var { .. } => true,
        ResolvedMoneyExpr::Merge { a, b, .. } => expr_ids_ok(*a, na) && expr_ids_ok(*b, na),
    }
}

pub open spec fn stmt_ids_ok(s: ResolvedStmt, na: nat, nr: nat) -> bool {
    match s {
        ResolvedStmt::Let { value, .. } => expr_ids_ok(value, na),
        ResolvedStmt::Convert { money, rate, .. } => expr_ids_ok(money, na) && rate.0 < nr,
        ResolvedStmt::Debit { account, value, .. } => account.0 < na && expr_ids_ok(value, na),
        ResolvedStmt::Absorb { account, .. } => account.0 < na,
        ResolvedStmt::Split { money, .. } => expr_ids_ok(money, na),
        ResolvedStmt::SplitRatio { money, .. } => expr_ids_ok(money, na),
    }
}

/// Every account's and rate's currencies are declared.
pub open spec fn tables_ok(
    accounts: Seq<AccountInfo>,
    currencies: Seq<CurrencyInfo>,
    rates: Seq<RateInfo>,
) -> bool {
    &&& forall|i: int| 0 <= i < accounts.len() ==> (#[trigger] accounts[i]).currency.0 < currencies.len()
    &&& forall|i: int|
        0 <= i < rates.len() ==> (#[trigger] rates[i]).from.0 < currencies.len() && rates[i].to.0
            < currencies.len()
}

pub open spec fn module_ids_ok(m: ResolvedModule) -> bool {
    &&& tables_ok(m.accounts@, m.currencies@, m.rates@)
    &&& forall|i: int, j: int|
        0 <= i < m.txns@.len() && 0 <= j < m.txns@[i].stmts@.len() ==> stmt_ids_ok(
            #[trigger] m.txns@[i].stmts@[j],
            m.accounts@.len(),
            m.rates@.len(),
        )
}

// ---------------------------------------------------------------------------------
// Resolution hands typeck only ids that index its tables.

proof fn lemma_find_name_lt(names: Seq<Seq<char>>, x: Seq<char>)
    ensures
        find_name(names, x) matches Some(i) ==> i < names.len(),
{
    lemma_find_from(names, x, 0);
}

pub(crate) proof fn lemma_kept_currencies_len(ds: Seq<ast::CurrencyDecl>)
    ensures
        kept_currencies(ds).len() <= ds.len(),
    decreases ds.len(),
{
    if ds.len() > 0 {
        lemma_kept_currencies_len(ds.drop_last());
    }
}

proof fn lemma_kept_accounts_ids(ds: Seq<ast::AccountDecl>, cn: Seq<Seq<char>>)
    ensures
        kept_accounts(ds, cn).len() <= ds.len(),
        forall|i: int| 0 <= i < kept_accounts(ds, cn).len() ==> #[trigger] kept_accounts(ds, cn)[i].1 < cn.len(),
    decreases ds.len(),
{
    if ds.len() > 0 {
        lemma_kept_accounts_ids(ds.drop_last(), cn);
        lemma_find_name_lt(cn, ds.last().currency@);
    }
}

proof fn lemma_kept_rates_ids(ds: Seq<ast::RateDecl>, cn: Seq<Seq<char>>)
    ensures
        kept_rates(ds, cn).len() <= ds.len(),
        forall|i: int|
            0 <= i < kept_rates(ds, cn).len() ==> #[trigger] kept_rates(ds, cn)[i].1 < cn.len()
                && kept_rates(ds, cn)[i].2 < cn.len(),
    decreases ds.len(),
{
    if ds.len() > 0 {
        lemma_kept_rates_ids(ds.drop_last(), cn);
        lemma_find_name_lt(cn, ds.last().from@);
        lemma_find_name_lt(cn, ds.last().to@);
    }
}

proof fn lemma_expr_ids(e: ast::MoneyExpr, scope: Seq<(Seq<char>, SymbolId)>, accts: Seq<Seq<char>>)
    requires
        accts.len() < u32::MAX,
    ensures
        resolve_expr_spec(e, scope, accts) matches Some(x) ==> expr_ids_ok(x, accts.len()),
    decreases e,
{
    match e {
        ast::MoneyExpr::Credit { account, .. } => {
            lemma_find_name_lt(accts, account.text());
        },
        ast::MoneyExpr::Var { .. } => {},
        ast::MoneyExpr::Merge { a, b, .. } => {
            lemma_expr_ids(*a, scope, accts);
            lemma_expr_ids(*b, scope, accts);
        },
    }
}

proof fn lemma_stmt_ids(
    s: ast::Stmt,
    scope: Seq<(Seq<char>, SymbolId)>,
    next: nat,
    accts: Seq<Seq<char>>,
    rates: Seq<Seq<char>>,
)
    requires
        accts.len() < u32::MAX,
        rates.len() < u32::MAX,
    ensures
        resolve_stmt_spec(s, scope, next, accts, rates) matches Some(x) ==> stmt_ids_ok(
            x,
            accts.len(),
            rates.len(),
        ),
{
    match s {
        ast::Stmt::Let { value, .. } => lemma_expr_ids(value, scope, accts),
        ast::Stmt::Convert { money, rate, .. } => {
            lemma_expr_ids(money, scope, accts);
            lemma_find_name_lt(rates, rate@);
        },
        ast::Stmt::Debit { account, value, .. } => {
            lemma_expr_ids(value, scope, accts);
            lemma_find_name_lt(accts, account.text());
        },
        ast::Stmt::Absorb { account, .. } => lemma_find_name_lt(accts, account.text()),
        ast::Stmt::Split { money, .. } => lemma_expr_ids(money, scope, accts),
        ast::Stmt::SplitRatio { money, .. } => lemma_expr_ids(money, scope, accts),
    }
}

proof fn lemma_stmts_ids(ss: Seq<ast::Stmt>, next: nat, accts: Seq<Seq<char>>, rates: Seq<Seq<char>>)
    requires
        accts.len() < u32::MAX,
        rates.len() < u32::MAX,
    ensures
        forall|j: int|
            0 <= j < resolve_stmts_spec(ss, next, accts, rates).0.len() ==> stmt_ids_ok(
                #[trigger] resolve_stmts_spec(ss, next, accts, rates).0[j],
                accts.len(),
                rates.len(),
            ),
    decreases ss.len(),
{
    if ss.len() > 0 {
        let prev = resolve_stmts_spec(ss.drop_last(), next, accts, rates);
        lemma_stmts_ids(ss.drop_last(), next, accts, rates);
        lemma_stmt_ids(ss.last(), prev.1, prev.2, accts, rates);
    }
}

proof fn lemma_txns_ids(ts: Seq<ast::TxnDecl>, accts: Seq<Seq<char>>, rates: Seq<Seq<char>>)
    requires
        accts.len() < u32::MAX,
        rates.len() < u32::MAX,
    ensures
        resolve_txns_spec(ts, accts, rates).0.len() == ts.len(),
        forall|i: int, j: int|
            0 <= i < ts.len() && 0 <= j < resolve_txns_spec(ts, accts, rates).0[i].len()
                ==> stmt_ids_ok(
                #[trigger] resolve_txns_spec(ts, accts, rates).0[i][j],
                accts.len(),
                rates.len(),
            ),
    decreases ts.len(),
{
    if ts.len() > 0 {
        let prev = resolve_txns_spec(ts.drop_last(), accts, rates);
        lemma_txns_ids(ts.drop_last(), accts, rates);
        lemma_stmts_ids(ts.last().stmts@, prev.1, accts, rates);
    }
}

/// What resolution produces refers only to declared accounts, currencies and rates,
/// so type-checking can look every id up.
pub proof fn lemma_resolved_ids_ok(r: ResolvedModule, m: ast::Module)
    requires
        resolved_from(r, m),
        m.currencies@.len() < u32::MAX,
        m.accounts@.len() < u32::MAX,
        m.rates@.len() < u32::MAX,
    ensures
        module_ids_ok(r),
{
    let cs = kept_currencies(m.currencies@);
    let cn = crate::resolve::module_currency_names(m);
    let accts = kept_accounts(m.accounts@, cn);
    let rs = kept_rates(m.rates@, cn);
    lemma_kept_currencies_len(m.currencies@);
    lemma_kept_accounts_ids(m.accounts@, cn);
    lemma_kept_rates_ids(m.rates@, cn);
    assert(cn.len() == cs.len());
    assert forall|i: int| 0 <= i < r.accounts@.len() implies (#[trigger] r.accounts@[i]).currency.0
        < r.currencies@.len() by {
        assert(accts[i].1 < cn.len());
    }
    assert forall|i: int| 0 <= i < r.rates@.len() implies (#[trigger] r.rates@[i]).from.0
        < r.currencies@.len() && r.rates@[i].to.0 < r.currencies@.len() by {
        assert(rs[i].1 < cn.len() && rs[i].2 < cn.len());
    }
    let ap = module_account_paths(m);
    let rn = module_rate_names(m);
    assert(ap.len() == r.accounts@.len());
    assert(rn.len() == r.rates@.len());
    lemma_txns_ids(m.txns@, ap, rn);
    assert forall|i: int, j: int|
        0 <= i < r.txns@.len() && 0 <= j < r.txns@[i].stmts@.len() implies stmt_ids_ok(
        #[trigger] r.txns@[i].stmts@[j],
        r.accounts@.len(),
        r.rates@.len(),
    ) by {
        assert(r.txns@[i].stmts@ == resolve_txns_spec(m.txns@, ap, rn).0[i]);
    }
}

// ---------------------------------------------------------------------------------
// The traversal, over Γ's view

/// Type-checking a money expression in Γ: its typed form, currency, and where that
/// currency was established (when it checks); Γ afterwards; how many diagnostics.
pub open spec fn tc_expr(
    e: ResolvedMoneyExpr,
    ctx: CtxView,
    accounts: Seq<AccountInfo>,
    currencies: Seq<CurrencyInfo>,
) -> (Option<(TMoneyExpr, CurrencyId, Span)>, CtxView, nat)
    decreases e,
{
    match e {
        ResolvedMoneyExpr::Credit { account, amount, span } => {
            let info = accounts[account.0 as int];
            match lowered(amount, currencies[info.currency.0 as int].scale) {
                Some(a) => (
                    Some((TMoneyExpr::Credit { account, amount: a }, info.currency, span)),
                    ctx,
                    0,
                ),
                None => (None, ctx, 1),
            }
        },
        ResolvedMoneyExpr::Var { symbol, span } => {
            let c = consume_spec(ctx, symbol, span, BindingKind::Money);
            match c.0 {
                Some((cs, cur)) => (Some((TMoneyExpr::Var { symbol }, cur, cs)), c.1, c.2),
                None => (None, c.1, c.2),
            }
        },
        ResolvedMoneyExpr::Merge { a, b, span } => {
            let ra = tc_expr(*a, ctx, accounts, currencies);
            let rb = tc_expr(*b, ra.1, accounts, currencies);
            match (ra.0, rb.0) {
                (Some((ea, ca, _sa)), Some((eb, cb, _sb))) => if ca == cb {
                    (
                        Some((TMoneyExpr::Merge { a: Box::new(ea), b: Box::new(eb) }, ca, span)),
                        rb.1,
                        ra.2 + rb.2,
                    )
                } else {
                    (None, rb.1, ra.2 + rb.2 + 1)
                },
                _ => (None, rb.1, ra.2 + rb.2),
            }
        },
    }
}

/// Type-checking one statement in Γ: its typed form (when it checks), Γ afterwards,
/// and how many diagnostics.
pub open spec fn tc_stmt(
    s: ResolvedStmt,
    ctx: CtxView,
    accounts: Seq<AccountInfo>,
    currencies: Seq<CurrencyInfo>,
    rates: Seq<RateInfo>,
) -> (Option<TStmt>, CtxView, nat) {
    match s {
        ResolvedStmt::Let { symbol, name_span, value, span } => {
            let r = tc_expr(value, ctx, accounts, currencies);
            match r.0 {
                Some((v, c, cs)) => (
                    Some(TStmt::Let { symbol, value: v, span }),
                    bind_spec(r.1, symbol, name_span, cs, c, BindingKind::Money),
                    r.2,
                ),
                None => (None, r.1, r.2),
            }
        },
        ResolvedStmt::Convert { primary, primary_span, residual, residual_span, money, rate, span } => {
            let r = tc_expr(money, ctx, accounts, currencies);
            match r.0 {
                Some((m, mc, _cs)) => {
                    let ri = rates[rate.0 as int];
                    if mc == ri.from {
                        (
                            Some(TStmt::Convert { primary, residual, money: m, rate, span }),
                            bind_spec(
                                bind_spec(r.1, primary, primary_span, span, ri.to, BindingKind::Money),
                                residual,
                                residual_span,
                                span,
                                ri.to,
                                BindingKind::Residue,
                            ),
                            r.2,
                        )
                    } else {
                        (None, r.1, r.2 + 1)
                    }
                },
                None => (None, r.1, r.2),
            }
        },
        ResolvedStmt::Debit { account, value, span } => {
            let r = tc_expr(value, ctx, accounts, currencies);
            match r.0 {
                Some((v, vc, _cs)) => if vc == accounts[account.0 as int].currency {
                    (Some(TStmt::Debit { account, value: v, span }), r.1, r.2)
                } else {
                    (None, r.1, r.2 + 1)
                },
                None => (None, r.1, r.2),
            }
        },
        ResolvedStmt::Absorb { residue, residue_span, account, span } => {
            let c = consume_spec(ctx, residue, residue_span, BindingKind::Residue);
            match c.0 {
                Some((_cs, rc)) => if rc == accounts[account.0 as int].currency {
                    (Some(TStmt::Absorb { residual: residue, account, span }), c.1, c.2)
                } else {
                    (None, c.1, c.2 + 1)
                },
                None => (None, c.1, c.2),
            }
        },
        ResolvedStmt::Split { a, a_span, b, b_span, money, amount, span } => {
            let r = tc_expr(money, ctx, accounts, currencies);
            match r.0 {
                Some((m, mc, cs)) => match lowered(amount, currencies[mc.0 as int].scale) {
                    Some(amt) => (
                        Some(
                            TStmt::Split {
                                a,
                                b,
                                money: m,
                                currency: mc,
                                amount: amt,
                                amount_span: amount.span,
                                span,
                            },
                        ),
                        bind_spec(
                            bind_spec(r.1, a, a_span, cs, mc, BindingKind::Money),
                            b,
                            b_span,
                            cs,
                            mc,
                            BindingKind::Money,
                        ),
                        r.2,
                    ),
                    None => (None, r.1, r.2 + 1),
                },
                None => (None, r.1, r.2),
            }
        },
        ResolvedStmt::SplitRatio { a, a_span, b, b_span, money, a_weight, b_weight, span, .. } => {
            let r = tc_expr(money, ctx, accounts, currencies);
            match r.0 {
                Some((m, mc, cs)) => if a_weight == 0 && b_weight == 0 {
                    (None, r.1, r.2 + 1)
                } else {
                    (
                        Some(TStmt::SplitRatio { a, b, money: m, a_weight, b_weight, span }),
                        bind_spec(
                            bind_spec(r.1, a, a_span, cs, mc, BindingKind::Money),
                            b,
                            b_span,
                            cs,
                            mc,
                            BindingKind::Money,
                        ),
                        r.2,
                    )
                },
                None => (None, r.1, r.2),
            }
        },
    }
}

/// Type-checking a body's statements in order from Γ `ctx`: the statements that
/// checked, Γ afterwards, and how many diagnostics.
#[verifier::opaque]
pub open spec fn tc_stmts(
    ss: Seq<ResolvedStmt>,
    ctx: CtxView,
    accounts: Seq<AccountInfo>,
    currencies: Seq<CurrencyInfo>,
    rates: Seq<RateInfo>,
) -> (Seq<TStmt>, CtxView, nat)
    decreases ss.len(),
{
    if ss.len() == 0 {
        (Seq::empty(), ctx, 0)
    } else {
        let prev = tc_stmts(ss.drop_last(), ctx, accounts, currencies, rates);
        let r = tc_stmt(ss.last(), prev.1, accounts, currencies, rates);
        (
            if r.0 is Some {
                prev.0.push(r.0->0)
            } else {
                prev.0
            },
            r.1,
            prev.2 + r.2,
        )
    }
}

/// Every live binding's currency is declared.
pub open spec fn ctx_currencies_ok(ctx: CtxView, n: nat) -> bool {
    forall|k: SymbolId| #[trigger] ctx.0.contains_key(k) ==> ctx.0[k].currency.0 < n
}

/// The empty Γ a body starts from.
pub open spec fn empty_ctx() -> CtxView {
    (Map::empty(), Map::empty())
}

/// A body type-checks: no statement raised a diagnostic and nothing is left live.
pub open spec fn txn_checks(
    ss: Seq<ResolvedStmt>,
    accounts: Seq<AccountInfo>,
    currencies: Seq<CurrencyInfo>,
    rates: Seq<RateInfo>,
) -> bool {
    let r = tc_stmts(ss, empty_ctx(), accounts, currencies, rates);
    r.2 == 0 && r.1.0 =~= Map::<SymbolId, rules::Binding>::empty()
}


// ---------------------------------------------------------------------------------
// Which diagnostics the traversal raises: each one's code and span

/// The code for a value of the wrong linear kind.
pub open spec fn expected_code(expected: BindingKind) -> Code {
    match expected {
        BindingKind::Money => Code::ExpectedMoney,
        BindingKind::Residue => Code::ExpectedResidue,
    }
}

/// The code for a literal that does not lower at `scale`.
pub open spec fn lower_code(literal: ast::DecimalLiteral, scale: u32) -> Code {
    match crate::amount::spec_from_literal(literal.text@, scale) {
        Err(crate::amount::LiteralError::TooManyFractionDigits(_)) => Code::TooManyFractionDigits,
        _ => Code::AmountOutOfRange,
    }
}

/// The smallest span covering both `a` and `b`.
pub open spec fn span_cover(a: Span, b: Span) -> Span {
    Span {
        lo: if a.lo <= b.lo {
            a.lo
        } else {
            b.lo
        },
        hi: if a.hi >= b.hi {
            a.hi
        } else {
            b.hi
        },
    }
}

/// Consuming `symbol`: a value of the wrong kind, or one already consumed, is reported
/// at the use.
pub open spec fn consume_diags(ctx: CtxView, symbol: SymbolId, span: Span, expected: BindingKind) -> Seq<
    (Code, Span),
> {
    if ctx.0.contains_key(symbol) {
        if ctx.0[symbol].kind == expected {
            Seq::empty()
        } else {
            seq![(expected_code(expected), span)]
        }
    } else if ctx.1.contains_key(symbol) {
        seq![(Code::Reused, span)]
    } else {
        Seq::empty()
    }
}

/// The diagnostics type-checking a money expression raises, in order.
pub open spec fn tc_expr_diags(
    e: ResolvedMoneyExpr,
    ctx: CtxView,
    accounts: Seq<AccountInfo>,
    currencies: Seq<CurrencyInfo>,
) -> Seq<(Code, Span)>
    decreases e,
{
    match e {
        ResolvedMoneyExpr::Credit { account, amount, .. } => {
            let scale = currencies[accounts[account.0 as int].currency.0 as int].scale;
            if lowered(amount, scale) is Some {
                Seq::empty()
            } else {
                seq![(lower_code(amount, scale), amount.span)]
            }
        },
        ResolvedMoneyExpr::Var { symbol, span } => consume_diags(ctx, symbol, span, BindingKind::Money),
        ResolvedMoneyExpr::Merge { a, b, span } => {
            let ra = tc_expr(*a, ctx, accounts, currencies);
            let rb = tc_expr(*b, ra.1, accounts, currencies);
            let d = tc_expr_diags(*a, ctx, accounts, currencies) + tc_expr_diags(
                *b,
                ra.1,
                accounts,
                currencies,
            );
            match (ra.0, rb.0) {
                (Some((_, ca, _)), Some((_, cb, _))) => if ca == cb {
                    d
                } else {
                    d.push((Code::CurrencyMismatch, span))
                },
                _ => d,
            }
        },
    }
}

/// The diagnostics type-checking one statement raises, in order.
pub open spec fn tc_stmt_diags(
    s: ResolvedStmt,
    ctx: CtxView,
    accounts: Seq<AccountInfo>,
    currencies: Seq<CurrencyInfo>,
    rates: Seq<RateInfo>,
) -> Seq<(Code, Span)> {
    match s {
        ResolvedStmt::Let { value, .. } => tc_expr_diags(value, ctx, accounts, currencies),
        ResolvedStmt::Convert { money, rate, span, .. } => {
            let d = tc_expr_diags(money, ctx, accounts, currencies);
            match tc_expr(money, ctx, accounts, currencies).0 {
                Some((_, mc, _)) => if mc == rates[rate.0 as int].from {
                    d
                } else {
                    d.push((Code::CurrencyMismatch, span))
                },
                None => d,
            }
        },
        ResolvedStmt::Debit { account, value, span } => {
            let d = tc_expr_diags(value, ctx, accounts, currencies);
            match tc_expr(value, ctx, accounts, currencies).0 {
                Some((_, vc, _)) => if vc == accounts[account.0 as int].currency {
                    d
                } else {
                    d.push((Code::CurrencyMismatch, span))
                },
                None => d,
            }
        },
        ResolvedStmt::Absorb { residue, residue_span, account, span } => {
            let d = consume_diags(ctx, residue, residue_span, BindingKind::Residue);
            match consume_spec(ctx, residue, residue_span, BindingKind::Residue).0 {
                Some((_, rc)) => if rc == accounts[account.0 as int].currency {
                    d
                } else {
                    d.push((Code::CurrencyMismatch, span))
                },
                None => d,
            }
        },
        ResolvedStmt::Split { money, amount, .. } => {
            let d = tc_expr_diags(money, ctx, accounts, currencies);
            match tc_expr(money, ctx, accounts, currencies).0 {
                Some((_, mc, _)) => if lowered(amount, currencies[mc.0 as int].scale) is Some {
                    d
                } else {
                    d.push((lower_code(amount, currencies[mc.0 as int].scale), amount.span))
                },
                None => d,
            }
        },
        ResolvedStmt::SplitRatio { money, a_weight, a_weight_span, b_weight, b_weight_span, .. } => {
            let d = tc_expr_diags(money, ctx, accounts, currencies);
            match tc_expr(money, ctx, accounts, currencies).0 {
                Some(_) => if a_weight == 0 && b_weight == 0 {
                    d.push((Code::ZeroRatio, span_cover(a_weight_span, b_weight_span)))
                } else {
                    d
                },
                None => d,
            }
        },
    }
}

/// The diagnostics type-checking a body's statements raises, in order.
pub open spec fn tc_stmts_diags(
    ss: Seq<ResolvedStmt>,
    ctx: CtxView,
    accounts: Seq<AccountInfo>,
    currencies: Seq<CurrencyInfo>,
    rates: Seq<RateInfo>,
) -> Seq<(Code, Span)>
    decreases ss.len(),
{
    if ss.len() == 0 {
        Seq::empty()
    } else {
        let prev = tc_stmts(ss.drop_last(), ctx, accounts, currencies, rates);
        tc_stmts_diags(ss.drop_last(), ctx, accounts, currencies, rates) + tc_stmt_diags(
            ss.last(),
            prev.1,
            accounts,
            currencies,
            rates,
        )
    }
}

/// `ds` reports the bindings `keys` names as dropped, the `i`-th at the binding site
/// of `keys[i]`, where `keys` lists every symbol still live in `live` once.
pub open spec fn drops_keys(
    ds: Seq<(Code, Span)>,
    live: Map<SymbolId, rules::Binding>,
    keys: Seq<SymbolId>,
) -> bool {
    &&& keys.len() == ds.len()
    &&& keys.no_duplicates()
    &&& forall|k: SymbolId| live.contains_key(k) <==> #[trigger] keys.contains(k)
    &&& forall|i: int| 0 <= i < ds.len() ==> #[trigger] ds[i] == (Code::Dropped, live[keys[i]].binding_span)
}

/// `ds` reports each binding still live in `live` as dropped, once, at its binding
/// site, and nothing else.
pub open spec fn dropped_diags(ds: Seq<(Code, Span)>, live: Map<SymbolId, rules::Binding>) -> bool {
    exists|keys: Seq<SymbolId>| drops_keys(ds, live, keys)
}

/// `ds` is what type-checking the body `ss` reports: its statements' diagnostics in
/// order, then every value still live at the end, as dropped.
#[verifier::opaque]
pub open spec fn txn_diags(
    ds: Seq<(Code, Span)>,
    ss: Seq<ResolvedStmt>,
    accounts: Seq<AccountInfo>,
    currencies: Seq<CurrencyInfo>,
    rates: Seq<RateInfo>,
) -> bool {
    let sd = tc_stmts_diags(ss, empty_ctx(), accounts, currencies, rates);
    &&& sd.len() <= ds.len()
    &&& ds.take(sd.len() as int) == sd
    &&& dropped_diags(ds.skip(sd.len() as int), tc_stmts(ss, empty_ctx(), accounts, currencies, rates).1.0)
}

/// `ds` is what type-checking the transactions `ts` reports: each one's diagnostics,
/// one transaction after another.
pub open spec fn txns_diags(
    ds: Seq<(Code, Span)>,
    ts: Seq<ResolvedTxn>,
    accounts: Seq<AccountInfo>,
    currencies: Seq<CurrencyInfo>,
    rates: Seq<RateInfo>,
) -> bool
    decreases ts.len(),
{
    if ts.len() == 0 {
        ds.len() == 0
    } else {
        exists|cut: int|
            0 <= cut <= ds.len() && txns_diags(#[trigger] ds.take(cut), ts.drop_last(), accounts, currencies, rates)
                && txn_diags(ds.skip(cut), ts.last().stmts@, accounts, currencies, rates)
    }
}


// ---------------------------------------------------------------------------------
// The traversal

/// What `consume_checked` adds to the diagnostics, by code and span.
proof fn lemma_consume_code_spans(
    d0: Seq<Diagnostic>,
    d1: Seq<Diagnostic>,
    ctx: CtxView,
    symbol: SymbolId,
    span: Span,
    expected: BindingKind,
)
    requires
        d1.len() == d0.len() + consume_spec(ctx, symbol, span, expected).2,
        forall|i: int| 0 <= i < d0.len() ==> d1[i] == d0[i],
        ctx.0.contains_key(symbol) && ctx.0[symbol].kind != expected ==> kind_mismatch_diag(
            d1.last(),
            expected,
            span,
        ),
        !ctx.0.contains_key(symbol) && ctx.1.contains_key(symbol) ==> d1.last().code == Code::Reused
            && d1.last().span == span,
    ensures
        code_spans(d1) == code_spans(d0) + consume_diags(ctx, symbol, span, expected),
{
    assert(code_spans(d1) =~= code_spans(d0) + consume_diags(ctx, symbol, span, expected));
}

/// Type-checks a money expression, returning its lowered IR, its currency, and the
/// span where that currency was established — the first `credit`'s span, forwarded
/// through any `let`s. Both sides of a `merge` are checked unconditionally, so a
/// problem on one side doesn't hide a diagnostic on the other.
#[verifier::spinoff_prover]
#[verifier::rlimit(40)]
fn typeck_money_expr(
    expr: ResolvedMoneyExpr,
    accounts: &[AccountInfo],
    currencies: &[CurrencyInfo],
    ctx: &mut Context,
    diags: &mut Vec<Diagnostic>,
) -> (r: Option<(TMoneyExpr, CurrencyId, Span)>)
    requires
        old(ctx).wf(),
        ctx_currencies_ok(old(ctx)@, currencies@.len()),
        expr_ids_ok(expr, accounts@.len()),
        forall|i: int| 0 <= i < accounts@.len() ==> (#[trigger] accounts@[i]).currency.0 < currencies@.len(),
    ensures
        final(ctx).wf(),
        ctx_currencies_ok(final(ctx)@, currencies@.len()),
        r == tc_expr(expr, old(ctx)@, accounts@, currencies@).0,
        final(ctx)@ == tc_expr(expr, old(ctx)@, accounts@, currencies@).1,
        final(diags)@.len() == old(diags)@.len() + tc_expr(expr, old(ctx)@, accounts@, currencies@).2,
        forall|i: int| 0 <= i < old(diags)@.len() ==> final(diags)@[i] == old(diags)@[i],
        code_spans(final(diags)@) == code_spans(old(diags)@) + tc_expr_diags(
            expr,
            old(ctx)@,
            accounts@,
            currencies@,
        ),
        r matches Some((_, c, _)) ==> c.0 < currencies@.len(),
        forall|i: int| old(diags)@.len() <= i < final(diags)@.len() ==> rules::labels_ok(#[trigger] final(diags)@[i]),
    decreases expr,
{
    let ghost d0 = diags@;
    match expr {
        ResolvedMoneyExpr::Credit { account, amount, span } => {
            let info = &accounts[account.0 as usize];
            let currency_info = &currencies[info.currency.0 as usize];
            let checked = rules::check_credit(info.currency, currency_info, &amount, diags);
            proof {
                if checked is None {
                    assert(code_spans(diags@) =~= code_spans(d0).push((diags@.last().code, diags@.last().span)));
                } else {
                    assert(code_spans(diags@) =~= code_spans(d0));
                }
            }
            let (amount, currency) = checked?;
            Some((TMoneyExpr::Credit { account, amount }, currency, span))
        },
        ResolvedMoneyExpr::Var { symbol, span } => {
            let ghost c0 = ctx@;
            let consumed = consume_checked(symbol, span, BindingKind::Money, ctx, diags);
            proof {
                lemma_consume_code_spans(d0, diags@, c0, symbol, span, BindingKind::Money);
            }
            let (currency_span, currency) = consumed?;
            Some((TMoneyExpr::Var { symbol }, currency, currency_span))
        },
        ResolvedMoneyExpr::Merge { a, b, span } => {
            let a_result = typeck_money_expr(*a, accounts, currencies, ctx, diags);
            let b_result = typeck_money_expr(*b, accounts, currencies, ctx, diags);
            let (a_expr, a_currency, a_span) = a_result?;
            let (b_expr, b_currency, b_span) = b_result?;
            let currency = match rules::check_merge(
                currencies,
                a_currency,
                a_span,
                b_currency,
                b_span,
                span,
            ) {
                Ok(currency) => currency,
                Err(d) => {
                    let ghost before = diags@;
                    diags.push(d);
                    proof {
                        assert(code_spans(diags@) =~= code_spans(before).push((d.code, d.span)));
                    }
                    return None;
                },
            };
            Some((TMoneyExpr::Merge { a: Box::new(a_expr), b: Box::new(b_expr) }, currency, span))
        },
    }
}


/// Type-checks one statement, threading Γ: `bind`s a `let`'s (or a pair's) results
/// only once its right-hand side checked.
#[verifier::spinoff_prover]
#[verifier::rlimit(60)]
fn typeck_stmt(
    stmt: ResolvedStmt,
    accounts: &[AccountInfo],
    currencies: &[CurrencyInfo],
    rates: &[RateInfo],
    ctx: &mut Context,
    diags: &mut Vec<Diagnostic>,
) -> (r: Option<TStmt>)
    requires
        old(ctx).wf(),
        ctx_currencies_ok(old(ctx)@, currencies@.len()),
        stmt_ids_ok(stmt, accounts@.len(), rates@.len()),
        tables_ok(accounts@, currencies@, rates@),
    ensures
        final(ctx).wf(),
        ctx_currencies_ok(final(ctx)@, currencies@.len()),
        r == tc_stmt(stmt, old(ctx)@, accounts@, currencies@, rates@).0,
        final(ctx)@ == tc_stmt(stmt, old(ctx)@, accounts@, currencies@, rates@).1,
        final(diags)@.len() == old(diags)@.len() + tc_stmt(
            stmt,
            old(ctx)@,
            accounts@,
            currencies@,
            rates@,
        ).2,
        forall|i: int| 0 <= i < old(diags)@.len() ==> final(diags)@[i] == old(diags)@[i],
        code_spans(final(diags)@) == code_spans(old(diags)@) + tc_stmt_diags(
            stmt,
            old(ctx)@,
            accounts@,
            currencies@,
            rates@,
        ),
        forall|i: int| old(diags)@.len() <= i < final(diags)@.len() ==> rules::labels_ok(#[trigger] final(diags)@[i]),
{
    let ghost d0 = diags@;
    let ghost c0 = ctx@;
    match stmt {
        ResolvedStmt::Let { symbol, name_span, value, span } => {
            let (value, currency, currency_span) = typeck_money_expr(
                value,
                accounts,
                currencies,
                ctx,
                diags,
            )?;
            ctx.bind(symbol, name_span, currency_span, currency, BindingKind::Money);
            Some(TStmt::Let { symbol, value, span })
        },
        ResolvedStmt::Convert { primary, primary_span, residual, residual_span, money, rate, span } => {
            let (money, money_currency, currency_span) = typeck_money_expr(
                money,
                accounts,
                currencies,
                ctx,
                diags,
            )?;
            let rate_info = &rates[rate.0 as usize];
            let result_currency = match rules::check_convert(
                rate_info,
                currencies,
                money_currency,
                currency_span,
                span,
            ) {
                Ok(currency) => currency,
                Err(d) => {
                    let ghost before = diags@;
                    diags.push(d);
                    proof {
                        assert(code_spans(diags@) =~= code_spans(before).push((d.code, d.span)));
                    }
                    return None;
                },
            };
            ctx.bind(primary, primary_span, span, result_currency, BindingKind::Money);
            ctx.bind(residual, residual_span, span, result_currency, BindingKind::Residue);
            Some(TStmt::Convert { primary, residual, money, rate, span })
        },
        ResolvedStmt::Debit { account, value, span } => {
            let (value, value_currency, currency_span) = typeck_money_expr(
                value,
                accounts,
                currencies,
                ctx,
                diags,
            )?;
            let account_info = &accounts[account.0 as usize];
            if let Err(d) = rules::check_account_currency(
                account_info,
                currencies,
                value_currency,
                currency_span,
                span,
            ) {
                let ghost before = diags@;
                diags.push(d);
                proof {
                    assert(code_spans(diags@) =~= code_spans(before).push((d.code, d.span)));
                }
                return None;
            }
            Some(TStmt::Debit { account, value, span })
        },
        ResolvedStmt::Absorb { residue, residue_span, account, span } => {
            let consumed = consume_checked(residue, residue_span, BindingKind::Residue, ctx, diags);
            proof {
                lemma_consume_code_spans(d0, diags@, c0, residue, residue_span, BindingKind::Residue);
            }
            let (currency_span, residue_currency) = consumed?;
            let account_info = &accounts[account.0 as usize];
            if let Err(d) = rules::check_account_currency(
                account_info,
                currencies,
                residue_currency,
                currency_span,
                span,
            ) {
                let ghost before = diags@;
                diags.push(d);
                proof {
                    assert(code_spans(diags@) =~= code_spans(before).push((d.code, d.span)));
                }
                return None;
            }
            Some(TStmt::Absorb { residual: residue, account, span })
        },
        ResolvedStmt::Split { a, a_span, b, b_span, money, amount, span } => {
            let (money, money_currency, currency_span) = typeck_money_expr(
                money,
                accounts,
                currencies,
                ctx,
                diags,
            )?;
            let currency_info = &currencies[money_currency.0 as usize];
            let ghost before = diags@;
            let checked = rules::check_split(currency_info, &amount, diags);
            proof {
                if checked is None {
                    assert(code_spans(diags@) =~= code_spans(before).push((diags@.last().code, diags@.last().span)));
                } else {
                    assert(code_spans(diags@) =~= code_spans(before));
                }
            }
            let lowered_amount = checked?;
            ctx.bind(a, a_span, currency_span, money_currency, BindingKind::Money);
            ctx.bind(b, b_span, currency_span, money_currency, BindingKind::Money);
            Some(
                TStmt::Split {
                    a,
                    b,
                    money,
                    currency: money_currency,
                    amount: lowered_amount,
                    amount_span: amount.span,
                    span,
                },
            )
        },
        ResolvedStmt::SplitRatio {
            a,
            a_span,
            b,
            b_span,
            money,
            a_weight,
            a_weight_span,
            b_weight,
            b_weight_span,
            span,
        } => {
            let (money, money_currency, currency_span) = typeck_money_expr(
                money,
                accounts,
                currencies,
                ctx,
                diags,
            )?;
            let cover = a_weight_span.to(b_weight_span);
            assert(cover == span_cover(a_weight_span, b_weight_span));
            if let Err(d) = rules::check_split_ratio(a_weight, b_weight, cover) {
                let ghost before = diags@;
                diags.push(d);
                proof {
                    assert(code_spans(diags@) =~= code_spans(before).push((d.code, d.span)));
                }
                return None;
            }
            ctx.bind(a, a_span, currency_span, money_currency, BindingKind::Money);
            ctx.bind(b, b_span, currency_span, money_currency, BindingKind::Money);
            Some(TStmt::SplitRatio { a, b, money, a_weight, b_weight, span })
        },
    }
}

/// One more statement's diagnostics follow the earlier ones'.
proof fn lemma_tc_stmts_diags_step(
    ss: Seq<ResolvedStmt>,
    k: int,
    accounts: Seq<AccountInfo>,
    currencies: Seq<CurrencyInfo>,
    rates: Seq<RateInfo>,
)
    requires
        0 <= k < ss.len(),
    ensures
        tc_stmts_diags(ss.take(k + 1), empty_ctx(), accounts, currencies, rates) == tc_stmts_diags(
            ss.take(k),
            empty_ctx(),
            accounts,
            currencies,
            rates,
        ) + tc_stmt_diags(
            ss[k],
            tc_stmts(ss.take(k), empty_ctx(), accounts, currencies, rates).1,
            accounts,
            currencies,
            rates,
        ),
{
    assert(ss.take(k + 1).drop_last() =~= ss.take(k));
    assert(ss.take(k + 1).last() == ss[k]);
}

/// The codes and spans of `finish_txn`'s diagnostics report exactly the live bindings.
proof fn lemma_dropped_code_spans(dv: Seq<Diagnostic>, live: Map<SymbolId, rules::Binding>)
    requires
        exists|keys: Seq<SymbolId>| rules::drops_exactly(dv, live, keys),
    ensures
        dropped_diags(code_spans(dv), live),
{
    let cd = code_spans(dv);
    let keys = choose|keys: Seq<SymbolId>| rules::drops_exactly(dv, live, keys);
    assert forall|i: int| 0 <= i < cd.len() implies #[trigger] cd[i] == (
        Code::Dropped,
        live[keys[i]].binding_span,
    ) by {
        assert(rules::dropped_diag(dv[i], live[keys[i]]));
    }
    assert(drops_keys(cd, live, keys));
}

/// Appending the dropped diagnostics after a body's own.
proof fn lemma_txn_diags_split(
    d0: Seq<Diagnostic>,
    before: Seq<Diagnostic>,
    after: Seq<Diagnostic>,
    dv: Seq<Diagnostic>,
    sd: Seq<(Code, Span)>,
)
    requires
        code_spans(before) == code_spans(d0) + sd,
        after == before + dv,
    ensures
        code_spans(after).skip(d0.len() as int).take(sd.len() as int) == sd,
        code_spans(after).skip(d0.len() as int).skip(sd.len() as int) == code_spans(dv),
        sd.len() <= code_spans(after).skip(d0.len() as int).len(),
{
    assert(code_spans(after) =~= code_spans(before) + code_spans(dv));
    let ds = code_spans(after).skip(d0.len() as int);
    assert(ds =~= sd + code_spans(dv));
    assert(ds.take(sd.len() as int) =~= sd);
    assert(ds.skip(sd.len() as int) =~= code_spans(dv));
}

/// Type-checks one transaction body from an empty Γ, then reports whatever is still
/// live as dropped. The diagnostics added are none exactly when the body checks.
#[verifier::spinoff_prover]
#[verifier::rlimit(60)]
fn typeck_txn(
    txn: ResolvedTxn,
    accounts: &[AccountInfo],
    currencies: &[CurrencyInfo],
    rates: &[RateInfo],
    diags: &mut Vec<Diagnostic>,
) -> (r: TTxnDecl)
    requires
        tables_ok(accounts@, currencies@, rates@),
        forall|j: int|
            0 <= j < txn.stmts@.len() ==> stmt_ids_ok(
                #[trigger] txn.stmts@[j],
                accounts@.len(),
                rates@.len(),
            ),
    ensures
        r.name == txn.name,
        r.span == txn.span,
        r.stmts@ == tc_stmts(txn.stmts@, empty_ctx(), accounts@, currencies@, rates@).0,
        (final(diags)@.len() == old(diags)@.len()) == txn_checks(
            txn.stmts@,
            accounts@,
            currencies@,
            rates@,
        ),
        final(diags)@.len() >= old(diags)@.len(),
        forall|i: int| 0 <= i < old(diags)@.len() ==> final(diags)@[i] == old(diags)@[i],
        txn_diags(
            code_spans(final(diags)@).skip(old(diags)@.len() as int),
            txn.stmts@,
            accounts@,
            currencies@,
            rates@,
        ),
        forall|i: int| old(diags)@.len() <= i < final(diags)@.len() ==> rules::labels_ok(#[trigger] final(diags)@[i]),
{
    let ghost all = txn.stmts@;
    let ghost d0 = diags@;
    let ResolvedTxn { name, stmts: rstmts, span } = txn;
    let mut ctx = Context::default();
    let mut stmts: Vec<TStmt> = Vec::new();
    proof {
        assert(ctx@ == empty_ctx());
        assert(all.take(0) =~= Seq::<ResolvedStmt>::empty());
        reveal(tc_stmts);
    }
    for stmt in it: rstmts.into_iter()
        invariant
            it.seq() == all,
            tables_ok(accounts@, currencies@, rates@),
            forall|j: int|
                0 <= j < all.len() ==> stmt_ids_ok(#[trigger] all[j], accounts@.len(), rates@.len()),
            ctx.wf(),
            ctx_currencies_ok(ctx@, currencies@.len()),
            stmts@ == tc_stmts(all.take(it.index() as int), empty_ctx(), accounts@, currencies@, rates@).0,
            ctx@ == tc_stmts(all.take(it.index() as int), empty_ctx(), accounts@, currencies@, rates@).1,
            diags@.len() == d0.len() + tc_stmts(
                all.take(it.index() as int),
                empty_ctx(),
                accounts@,
                currencies@,
                rates@,
            ).2,
            forall|i: int| 0 <= i < d0.len() ==> diags@[i] == d0[i],
            forall|i: int| d0.len() <= i < diags@.len() ==> rules::labels_ok(#[trigger] diags@[i]),
            code_spans(diags@) == code_spans(d0) + tc_stmts_diags(
                all.take(it.index() as int),
                empty_ctx(),
                accounts@,
                currencies@,
                rates@,
            ),
    {
        let ghost k = it.index() as int;
        proof {
            assert(all.take(k + 1).drop_last() =~= all.take(k));
            assert(all.take(k + 1).last() == stmt);
            assert(stmt == all[k]);
            reveal(tc_stmts);
        }
        let ghost dk = diags@;
        let ghost ck = ctx@;
        if let Some(t) = typeck_stmt(stmt, accounts, currencies, rates, &mut ctx, diags) {
            stmts.push(t);
        }
        proof {
            lemma_tc_stmts_diags_step(all, k, accounts@, currencies@, rates@);
            let a = tc_stmts_diags(all.take(k), empty_ctx(), accounts@, currencies@, rates@);
            let b = tc_stmt_diags(stmt, ck, accounts@, currencies@, rates@);
            assert(code_spans(diags@) =~= code_spans(d0) + (a + b));
        }
    }
    proof {
        assert(all.take(all.len() as int) =~= all);
    }
    let ghost before_drop = diags@;
    let ghost live = ctx@.0;
    let mut dropped = ctx.finish_txn();
    let ghost dv = dropped@;
    diags.append(&mut dropped);
    proof {
        assert forall|i: int| 0 <= i < d0.len() implies diags@[i] == d0[i] by {
            assert(diags@[i] == before_drop[i]);
        }
        reveal(txn_diags);
        let sd = tc_stmts_diags(all, empty_ctx(), accounts@, currencies@, rates@);
        lemma_dropped_code_spans(dv, live);
        lemma_txn_diags_split(d0, before_drop, diags@, dv, sd);
        assert(live == tc_stmts(all, empty_ctx(), accounts@, currencies@, rates@).1.0);
    }
    TTxnDecl { name, stmts, span }
}

/// The whole module type-checks: every body does.
/// `t` is what type-checking `r` produces: the same tables, and each body lowered by
/// `tc_stmts` from an empty context.
pub open spec fn typed_from(t: TModule, r: ResolvedModule) -> bool {
    &&& t.currencies == r.currencies
    &&& t.accounts == r.accounts
    &&& t.rates == r.rates
    &&& tmodule_ok(t)
    &&& t.txns@.len() == r.txns@.len()
    &&& forall|i: int|
        0 <= i < r.txns@.len() ==> {
            &&& (#[trigger] t.txns@[i]).name == r.txns@[i].name
            &&& t.txns@[i].span == r.txns@[i].span
            &&& t.txns@[i].stmts@ == tc_stmts(
                r.txns@[i].stmts@,
                empty_ctx(),
                r.accounts@,
                r.currencies@,
                r.rates@,
            ).0
        }
}

pub open spec fn typeck_ok(m: ResolvedModule) -> bool {
    forall|i: int|
        0 <= i < m.txns@.len() ==> txn_checks(
            #[trigger] m.txns@[i].stmts@,
            m.accounts@,
            m.currencies@,
            m.rates@,
        )
}

/// One more transaction's diagnostics follow the earlier ones'.
proof fn lemma_txns_diags_step(
    before: Seq<Diagnostic>,
    after: Seq<Diagnostic>,
    ts: Seq<ResolvedTxn>,
    k: int,
    accounts: Seq<AccountInfo>,
    currencies: Seq<CurrencyInfo>,
    rates: Seq<RateInfo>,
)
    requires
        0 <= k < ts.len(),
        txns_diags(code_spans(before), ts.take(k), accounts, currencies, rates),
        before.len() <= after.len(),
        forall|i: int| 0 <= i < before.len() ==> after[i] == before[i],
        txn_diags(code_spans(after).skip(before.len() as int), ts[k].stmts@, accounts, currencies, rates),
    ensures
        txns_diags(code_spans(after), ts.take(k + 1), accounts, currencies, rates),
{
    let ds = code_spans(after);
    let j = before.len() as int;
    assert(ts.take(k + 1).drop_last() =~= ts.take(k));
    assert(ts.take(k + 1).last() == ts[k]);
    assert(ds.take(j) =~= code_spans(before));
}

/// Type-checks every transaction, each from its own empty Γ. A typed module comes back
/// exactly when no diagnostic was raised, which is exactly when every body checks; it
/// keeps the tables and holds each body's typed statements. The diagnostics are, by
/// code and span, each transaction's in turn (`txns_diags`).
pub fn typeck(module: ResolvedModule) -> (r: (Option<TModule>, Vec<Diagnostic>))
    requires
        module_ids_ok(module),
    ensures
        r.0 is Some <==> r.1@.len() == 0,
        r.0 is Some <==> typeck_ok(module),
        r.0 matches Some(t) ==> {
            &&& t.currencies == module.currencies
            &&& t.accounts == module.accounts
            &&& t.rates == module.rates
            &&& tmodule_ok(t)
            &&& t.txns@.len() == module.txns@.len()
            &&& forall|i: int|
                0 <= i < module.txns@.len() ==> {
                    &&& (#[trigger] t.txns@[i]).name == module.txns@[i].name
                    &&& t.txns@[i].span == module.txns@[i].span
                    &&& t.txns@[i].stmts@ == tc_stmts(
                        module.txns@[i].stmts@,
                        empty_ctx(),
                        module.accounts@,
                        module.currencies@,
                        module.rates@,
                    ).0
                }
        },
        txns_diags(code_spans(r.1@), module.txns@, module.accounts@, module.currencies@, module.rates@),
        forall|i: int| 0 <= i < r.1@.len() ==> rules::labels_ok(#[trigger] r.1@[i]),
{
    let ghost m = module;
    let mut diags: Vec<Diagnostic> = Vec::new();
    let ResolvedModule { currencies, accounts, rates, txns: rtxns } = module;
    let mut txns: Vec<TTxnDecl> = Vec::new();
    let ghost all = m.txns@;
    proof {
        assert(all.take(0) =~= Seq::<ResolvedTxn>::empty());
        assert(code_spans(diags@) =~= Seq::<(Code, Span)>::empty());
    }
    for txn in it: rtxns.into_iter()
        invariant
            it.seq() == all,
            all == m.txns@,
            currencies == m.currencies,
            accounts == m.accounts,
            rates == m.rates,
            module_ids_ok(m),
            txns@.len() == it.index(),
            forall|i: int|
                0 <= i < it.index() ==> {
                    &&& (#[trigger] txns@[i]).name == all[i].name
                    &&& txns@[i].span == all[i].span
                    &&& txns@[i].stmts@ == tc_stmts(
                        all[i].stmts@,
                        empty_ctx(),
                        accounts@,
                        currencies@,
                        rates@,
                    ).0
                },
            txns_diags(code_spans(diags@), all.take(it.index() as int), accounts@, currencies@, rates@),
            forall|i: int| 0 <= i < diags@.len() ==> rules::labels_ok(#[trigger] diags@[i]),
            (diags@.len() == 0) == forall|i: int|
                0 <= i < it.index() ==> txn_checks(
                    #[trigger] all[i].stmts@,
                    accounts@,
                    currencies@,
                    rates@,
                ),
    {
        let ghost k = it.index() as int;
        let ghost d_before = diags@.len();
        proof {
            assert(txn == all[k]);
            assert forall|j: int| 0 <= j < txn.stmts@.len() implies stmt_ids_ok(
                #[trigger] txn.stmts@[j],
                accounts@.len(),
                rates@.len(),
            ) by {
                assert(stmt_ids_ok(m.txns@[k].stmts@[j], m.accounts@.len(), m.rates@.len()));
            }
        }
        let ghost dv0 = diags@;
        let t = typeck_txn(txn, accounts.as_slice(), currencies.as_slice(), rates.as_slice(), &mut diags);
        proof {
            lemma_txns_diags_step(dv0, diags@, all, k, accounts@, currencies@, rates@);
        }
        let ghost done = txns@;
        txns.push(t);
        proof {
            assert forall|i: int| 0 <= i < k + 1 implies {
                &&& (#[trigger] txns@[i]).name == all[i].name
                &&& txns@[i].span == all[i].span
                &&& txns@[i].stmts@ == tc_stmts(
                    all[i].stmts@,
                    empty_ctx(),
                    accounts@,
                    currencies@,
                    rates@,
                ).0
            } by {
                if i < k {
                    assert(txns@[i] == done[i]);
                }
            }
            if diags@.len() == 0 {
                assert(d_before == 0);
            }
            assert((diags@.len() == 0) == forall|i: int|
                0 <= i < k + 1 ==> txn_checks(
                    #[trigger] all[i].stmts@,
                    accounts@,
                    currencies@,
                    rates@,
                )) by {
                if forall|i: int|
                    0 <= i < k + 1 ==> txn_checks(
                        #[trigger] all[i].stmts@,
                        accounts@,
                        currencies@,
                        rates@,
                    ) {
                    assert(txn_checks(all[k].stmts@, accounts@, currencies@, rates@));
                }
            }
        }
    }
    proof {
        assert(all.take(all.len() as int) =~= all);
    }
    if diags.len() == 0 {
        let t = TModule { currencies, accounts, rates, txns };
        proof {
            assert forall|i: int| 0 <= i < t.txns@.len() implies tstmts_ok(
                #[trigger] t.txns@[i].stmts@,
                Map::empty(),
                t.accounts@.len(),
                t.currencies@.len(),
                t.rates@.len(),
            ) is Some by {
                assert forall|j: int| 0 <= j < m.txns@[i].stmts@.len() implies stmt_ids_ok(
                    #[trigger] m.txns@[i].stmts@[j],
                    m.accounts@.len(),
                    m.rates@.len(),
                ) by {}
                lemma_tc_stmts_ok(m.txns@[i].stmts@, m.accounts@, m.currencies@, m.rates@);
            }
        }
        (Some(t), diags)
    } else {
        (None, diags)
    }
}


// ---------------------------------------------------------------------------------
// What a typed body guarantees

/// Walking a typed expression over the kinds of the live bindings: every account id
/// names an account, every variable is a live `Money` binding, which it consumes.
pub open spec fn texpr_ok(e: TMoneyExpr, k: Map<SymbolId, BindingKind>, na: nat) -> Option<
    Map<SymbolId, BindingKind>,
>
    decreases e,
{
    match e {
        TMoneyExpr::Credit { account, .. } => if account.0 < na {
            Some(k)
        } else {
            None
        },
        TMoneyExpr::Var { symbol } => if k.contains_key(symbol) && k[symbol] == BindingKind::Money {
            Some(k.remove(symbol))
        } else {
            None
        },
        TMoneyExpr::Merge { a, b } => match texpr_ok(*a, k, na) {
            Some(k1) => texpr_ok(*b, k1, na),
            None => None,
        },
    }
}

/// Walking a typed statement the same way: its ids name table entries, what it
/// consumes is live and of the right kind, its bindings become live, and a
/// `split_ratio`'s weights are not both zero.
pub open spec fn tstmt_ok(s: TStmt, k: Map<SymbolId, BindingKind>, na: nat, nc: nat, nr: nat) -> Option<
    Map<SymbolId, BindingKind>,
> {
    match s {
        TStmt::Let { symbol, value, .. } => match texpr_ok(value, k, na) {
            Some(k1) => Some(k1.insert(symbol, BindingKind::Money)),
            None => None,
        },
        TStmt::Convert { primary, residual, money, rate, .. } => match texpr_ok(money, k, na) {
            Some(k1) => if rate.0 < nr {
                Some(k1.insert(primary, BindingKind::Money).insert(residual, BindingKind::Residue))
            } else {
                None
            },
            None => None,
        },
        TStmt::Debit { account, value, .. } => if account.0 < na {
            texpr_ok(value, k, na)
        } else {
            None
        },
        TStmt::Absorb { residual, account, .. } => if account.0 < na && k.contains_key(residual)
            && k[residual] == BindingKind::Residue {
            Some(k.remove(residual))
        } else {
            None
        },
        TStmt::Split { a, b, money, currency, .. } => match texpr_ok(money, k, na) {
            Some(k1) => if currency.0 < nc {
                Some(k1.insert(a, BindingKind::Money).insert(b, BindingKind::Money))
            } else {
                None
            },
            None => None,
        },
        TStmt::SplitRatio { a, b, money, a_weight, b_weight, .. } => match texpr_ok(money, k, na) {
            Some(k1) => if a_weight == 0 && b_weight == 0 {
                None
            } else {
                Some(k1.insert(a, BindingKind::Money).insert(b, BindingKind::Money))
            },
            None => None,
        },
    }
}

pub open spec fn tstmts_ok(ss: Seq<TStmt>, k: Map<SymbolId, BindingKind>, na: nat, nc: nat, nr: nat) -> Option<
    Map<SymbolId, BindingKind>,
>
    decreases ss.len(),
{
    if ss.len() == 0 {
        Some(k)
    } else {
        match tstmts_ok(ss.drop_last(), k, na, nc, nr) {
            Some(k1) => tstmt_ok(ss.last(), k1, na, nc, nr),
            None => None,
        }
    }
}

/// A typed module is safe to run: its tables are consistent, and every body, walked
/// from no live bindings, only ever consumes live values of the right kind.
pub open spec fn tmodule_ok(m: TModule) -> bool {
    &&& tables_ok(m.accounts@, m.currencies@, m.rates@)
    &&& forall|i: int|
        0 <= i < m.txns@.len() ==> tstmts_ok(
            #[trigger] m.txns@[i].stmts@,
            Map::empty(),
            m.accounts@.len(),
            m.currencies@.len(),
            m.rates@.len(),
        ) is Some
}

/// Every binding live in Γ is known to the walk, with its kind.
pub open spec fn covered(ctx: CtxView, k: Map<SymbolId, BindingKind>) -> bool {
    forall|s: SymbolId| #[trigger] ctx.0.contains_key(s) ==> k.contains_key(s) && k[s] == ctx.0[s].kind
}

/// Type-checking an expression only ever removes live bindings.
proof fn lemma_tc_expr_shrinks(
    e: ResolvedMoneyExpr,
    ctx: CtxView,
    accounts: Seq<AccountInfo>,
    currencies: Seq<CurrencyInfo>,
)
    ensures
        forall|s: SymbolId| #[trigger]
            tc_expr(e, ctx, accounts, currencies).1.0.contains_key(s) ==> ctx.0.contains_key(s)
                && tc_expr(e, ctx, accounts, currencies).1.0[s] == ctx.0[s],
    decreases e,
{
    match e {
        ResolvedMoneyExpr::Merge { a, b, .. } => {
            let ra = tc_expr(*a, ctx, accounts, currencies);
            let rb = tc_expr(*b, ra.1, accounts, currencies);
            lemma_tc_expr_shrinks(*a, ctx, accounts, currencies);
            lemma_tc_expr_shrinks(*b, ra.1, accounts, currencies);
            assert(tc_expr(e, ctx, accounts, currencies).1 == rb.1);
            assert forall|s: SymbolId| #[trigger] rb.1.0.contains_key(s) implies ctx.0.contains_key(s)
                && rb.1.0[s] == ctx.0[s] by {
                assert(ra.1.0.contains_key(s));
            }
        },
        _ => {},
    }
}

/// Walking an expression only ever removes bindings from the kinds.
pub(crate) proof fn lemma_texpr_shrinks(e: TMoneyExpr, k: Map<SymbolId, BindingKind>, na: nat)
    ensures
        texpr_ok(e, k, na) matches Some(k1) ==> forall|s: SymbolId| #[trigger] k1.contains_key(s)
            ==> k.contains_key(s) && k1[s] == k[s],
    decreases e,
{
    match e {
        TMoneyExpr::Merge { a, b } => {
            lemma_texpr_shrinks(*a, k, na);
            if let Some(k1) = texpr_ok(*a, k, na) {
                lemma_texpr_shrinks(*b, k1, na);
            }
        },
        _ => {},
    }
}

/// Covering by fewer kinds implies covering by more.
proof fn lemma_covered_weaken(
    ctx: CtxView,
    e: TMoneyExpr,
    k: Map<SymbolId, BindingKind>,
    na: nat,
)
    requires
        texpr_ok(e, k, na) is Some,
        covered(ctx, texpr_ok(e, k, na)->0),
    ensures
        covered(ctx, k),
{
    lemma_texpr_shrinks(e, k, na);
    let k1 = texpr_ok(e, k, na)->0;
    assert forall|s: SymbolId| #[trigger] ctx.0.contains_key(s) implies k.contains_key(s) && k[s]
        == ctx.0[s].kind by {
        assert(k1.contains_key(s));
    }
}

/// Binding a checked value keeps the walk covering Γ and every live currency declared.
proof fn lemma_covered_bind(
    ctx: CtxView,
    k: Map<SymbolId, BindingKind>,
    symbol: SymbolId,
    binding_span: Span,
    currency_span: Span,
    currency: CurrencyId,
    kind: BindingKind,
    nc: nat,
)
    requires
        covered(ctx, k),
        ctx_currencies_ok(ctx, nc),
        currency.0 < nc,
    ensures
        covered(bind_spec(ctx, symbol, binding_span, currency_span, currency, kind), k.insert(symbol, kind)),
        ctx_currencies_ok(bind_spec(ctx, symbol, binding_span, currency_span, currency, kind), nc),
{
    let c2 = bind_spec(ctx, symbol, binding_span, currency_span, currency, kind);
    assert forall|s: SymbolId| #[trigger] c2.0.contains_key(s) implies k.insert(symbol, kind).contains_key(s)
        && k.insert(symbol, kind)[s] == c2.0[s].kind by {
        if s != symbol {
            assert(ctx.0.contains_key(s));
        }
    }
    assert forall|s: SymbolId| #[trigger] c2.0.contains_key(s) implies c2.0[s].currency.0 < nc by {
        if s != symbol {
            assert(ctx.0.contains_key(s));
        }
    }
}

/// A checked expression's typed form walks cleanly over any kinds covering Γ, and the
/// kinds after it cover Γ after it; its currency is declared.
proof fn lemma_tc_expr_ok(
    e: ResolvedMoneyExpr,
    ctx: CtxView,
    k: Map<SymbolId, BindingKind>,
    accounts: Seq<AccountInfo>,
    currencies: Seq<CurrencyInfo>,
)
    requires
        covered(ctx, k),
        ctx_currencies_ok(ctx, currencies.len()),
        expr_ids_ok(e, accounts.len()),
        forall|i: int| 0 <= i < accounts.len() ==> (#[trigger] accounts[i]).currency.0 < currencies.len(),
    ensures
        ctx_currencies_ok(tc_expr(e, ctx, accounts, currencies).1, currencies.len()),
        match tc_expr(e, ctx, accounts, currencies).0 {
            Some((te, c, _)) => c.0 < currencies.len() && texpr_ok(te, k, accounts.len()) is Some
                && covered(
                tc_expr(e, ctx, accounts, currencies).1,
                texpr_ok(te, k, accounts.len())->0,
            ),
            None => covered(tc_expr(e, ctx, accounts, currencies).1, k),
        },
    decreases e,
{
    lemma_tc_expr_shrinks(e, ctx, accounts, currencies);
    match e {
        ResolvedMoneyExpr::Credit { account, .. } => {
            assert(accounts[account.0 as int].currency.0 < currencies.len());
        },
        ResolvedMoneyExpr::Var { symbol, .. } => {
            if ctx.0.contains_key(symbol) {
                assert(ctx.0[symbol].currency.0 < currencies.len());
            }
        },
        ResolvedMoneyExpr::Merge { a, b, .. } => {
            let ra = tc_expr(*a, ctx, accounts, currencies);
            lemma_tc_expr_ok(*a, ctx, k, accounts, currencies);
            match ra.0 {
                Some((ta, _, _)) => {
                    let k1 = texpr_ok(ta, k, accounts.len())->0;
                    lemma_tc_expr_ok(*b, ra.1, k1, accounts, currencies);
                    lemma_tc_expr_shrinks(*b, ra.1, accounts, currencies);
                },
                None => {
                    lemma_tc_expr_ok(*b, ra.1, k, accounts, currencies);
                    lemma_tc_expr_shrinks(*b, ra.1, accounts, currencies);
                },
            }
        },
    }
}

/// A checked statement's typed form walks cleanly, and the walk keeps covering Γ.
#[verifier::spinoff_prover]
#[verifier::rlimit(50)]
proof fn lemma_tc_stmt_ok(
    st: ResolvedStmt,
    ctx: CtxView,
    k: Map<SymbolId, BindingKind>,
    accounts: Seq<AccountInfo>,
    currencies: Seq<CurrencyInfo>,
    rates: Seq<RateInfo>,
)
    requires
        covered(ctx, k),
        ctx_currencies_ok(ctx, currencies.len()),
        stmt_ids_ok(st, accounts.len(), rates.len()),
        tables_ok(accounts, currencies, rates),
    ensures
        ctx_currencies_ok(tc_stmt(st, ctx, accounts, currencies, rates).1, currencies.len()),
        match tc_stmt(st, ctx, accounts, currencies, rates).0 {
            Some(ts) => tstmt_ok(ts, k, accounts.len(), currencies.len(), rates.len()) is Some
                && covered(
                tc_stmt(st, ctx, accounts, currencies, rates).1,
                tstmt_ok(ts, k, accounts.len(), currencies.len(), rates.len())->0,
            ),
            None => covered(tc_stmt(st, ctx, accounts, currencies, rates).1, k),
        },
{
    let na = accounts.len();
    let nc = currencies.len();
    let nr = rates.len();
    match st {
        ResolvedStmt::Let { symbol, name_span, value, .. } => {
            lemma_tc_expr_ok(value, ctx, k, accounts, currencies);
            let r = tc_expr(value, ctx, accounts, currencies);
            if let Some((v, c, cs)) = r.0 {
                let k1 = texpr_ok(v, k, na)->0;
                lemma_covered_bind(r.1, k1, symbol, name_span, cs, c, BindingKind::Money, nc);
            }
        },
        ResolvedStmt::Convert { primary, primary_span, residual, residual_span, money, rate, span } => {
            lemma_tc_expr_ok(money, ctx, k, accounts, currencies);
            assert(rates[rate.0 as int].to.0 < nc);
            let r = tc_expr(money, ctx, accounts, currencies);
            if let Some((m, mc, _cs)) = r.0 {
                let ri = rates[rate.0 as int];
                lemma_covered_weaken(r.1, m, k, na);
                if mc == ri.from {
                    let k1 = texpr_ok(m, k, na)->0;
                    lemma_covered_bind(r.1, k1, primary, primary_span, span, ri.to, BindingKind::Money, nc);
                    let c1 = bind_spec(r.1, primary, primary_span, span, ri.to, BindingKind::Money);
                    lemma_covered_bind(
                        c1,
                        k1.insert(primary, BindingKind::Money),
                        residual,
                        residual_span,
                        span,
                        ri.to,
                        BindingKind::Residue,
                        nc,
                    );
                }
            }
        },
        ResolvedStmt::Debit { value, .. } => {
            lemma_tc_expr_ok(value, ctx, k, accounts, currencies);
            let r = tc_expr(value, ctx, accounts, currencies);
            if let Some((v, _, _)) = r.0 {
                lemma_covered_weaken(r.1, v, k, na);
            }
        },
        ResolvedStmt::Absorb { residue, .. } => {
            if ctx.0.contains_key(residue) {
                assert(ctx.0[residue].currency.0 < nc);
                let c2 = tc_stmt(st, ctx, accounts, currencies, rates).1;
                assert forall|s: SymbolId| #[trigger] c2.0.contains_key(s) implies c2.0[s].currency.0
                    < nc by {
                    assert(ctx.0.contains_key(s));
                }
                if ctx.0[residue].kind == BindingKind::Residue {
                    assert forall|s: SymbolId| #[trigger] c2.0.contains_key(s) implies k.remove(
                        residue,
                    ).contains_key(s) && k.remove(residue)[s] == c2.0[s].kind by {
                        assert(ctx.0.contains_key(s));
                    }
                } else {
                    assert forall|s: SymbolId| #[trigger] c2.0.contains_key(s) implies k.contains_key(
                        s,
                    ) && k[s] == c2.0[s].kind by {
                        assert(ctx.0.contains_key(s));
                    }
                }
            }
        },
        ResolvedStmt::Split { a, a_span, b, b_span, money, .. } => {
            lemma_tc_expr_ok(money, ctx, k, accounts, currencies);
            let r = tc_expr(money, ctx, accounts, currencies);
            if let Some((m, mc, cs)) = r.0 {
                let k1 = texpr_ok(m, k, na)->0;
                lemma_covered_weaken(r.1, m, k, na);
                lemma_covered_bind(r.1, k1, a, a_span, cs, mc, BindingKind::Money, nc);
                let c1 = bind_spec(r.1, a, a_span, cs, mc, BindingKind::Money);
                lemma_covered_bind(c1, k1.insert(a, BindingKind::Money), b, b_span, cs, mc, BindingKind::Money, nc);
            }
        },
        ResolvedStmt::SplitRatio { a, a_span, b, b_span, money, .. } => {
            lemma_tc_expr_ok(money, ctx, k, accounts, currencies);
            let r = tc_expr(money, ctx, accounts, currencies);
            if let Some((m, mc, cs)) = r.0 {
                let k1 = texpr_ok(m, k, na)->0;
                lemma_covered_weaken(r.1, m, k, na);
                lemma_covered_bind(r.1, k1, a, a_span, cs, mc, BindingKind::Money, nc);
                let c1 = bind_spec(r.1, a, a_span, cs, mc, BindingKind::Money);
                lemma_covered_bind(c1, k1.insert(a, BindingKind::Money), b, b_span, cs, mc, BindingKind::Money, nc);
            }
        },
    }
}

/// Whatever a body's statements check to walks cleanly from no live bindings, and
/// the walk covers Γ throughout.
proof fn lemma_tc_stmts_ok(
    ss: Seq<ResolvedStmt>,
    accounts: Seq<AccountInfo>,
    currencies: Seq<CurrencyInfo>,
    rates: Seq<RateInfo>,
)
    requires
        forall|j: int| 0 <= j < ss.len() ==> stmt_ids_ok(#[trigger] ss[j], accounts.len(), rates.len()),
        tables_ok(accounts, currencies, rates),
    ensures
        tstmts_ok(
            tc_stmts(ss, empty_ctx(), accounts, currencies, rates).0,
            Map::empty(),
            accounts.len(),
            currencies.len(),
            rates.len(),
        ) is Some,
        covered(
            tc_stmts(ss, empty_ctx(), accounts, currencies, rates).1,
            tstmts_ok(
                tc_stmts(ss, empty_ctx(), accounts, currencies, rates).0,
                Map::empty(),
                accounts.len(),
                currencies.len(),
                rates.len(),
            )->0,
        ),
        ctx_currencies_ok(tc_stmts(ss, empty_ctx(), accounts, currencies, rates).1, currencies.len()),
    decreases ss.len(),
{
    reveal(tc_stmts);
    let na = accounts.len();
    let nc = currencies.len();
    let nr = rates.len();
    if ss.len() > 0 {
        let prev = ss.drop_last();
        assert forall|j: int| 0 <= j < prev.len() implies stmt_ids_ok(#[trigger] prev[j], na, nr) by {
            assert(prev[j] == ss[j]);
        }
        lemma_tc_stmts_ok(prev, accounts, currencies, rates);
        let p = tc_stmts(prev, empty_ctx(), accounts, currencies, rates);
        let k1 = tstmts_ok(p.0, Map::empty(), na, nc, nr)->0;
        assert(stmt_ids_ok(ss[ss.len() - 1], na, nr));
        lemma_tc_stmt_ok(ss.last(), p.1, k1, accounts, currencies, rates);
        let r = tc_stmt(ss.last(), p.1, accounts, currencies, rates);
        if r.0 is Some {
            assert(p.0.push(r.0->0).drop_last() =~= p.0);
        }
    } else {
        assert(covered(empty_ctx(), Map::empty()));
    }
}


/// Every account id in a typed expression names an account.
pub open spec fn texpr_ids(e: TMoneyExpr, na: nat) -> bool
    decreases e,
{
    match e {
        TMoneyExpr::Credit { account, .. } => account.0 < na,
        TMoneyExpr::Var { .. } => true,
        TMoneyExpr::Merge { a, b } => texpr_ids(*a, na) && texpr_ids(*b, na),
    }
}

/// A typed statement's ids name table entries and a `split_ratio`'s weights are not
/// both zero.
pub open spec fn tstmt_ids(s: TStmt, na: nat, nc: nat, nr: nat) -> bool {
    match s {
        TStmt::Let { value, .. } => texpr_ids(value, na),
        TStmt::Convert { money, rate, .. } => texpr_ids(money, na) && rate.0 < nr,
        TStmt::Debit { account, value, .. } => account.0 < na && texpr_ids(value, na),
        TStmt::Absorb { account, .. } => account.0 < na,
        TStmt::Split { money, currency, .. } => texpr_ids(money, na) && currency.0 < nc,
        TStmt::SplitRatio { money, a_weight, b_weight, .. } => texpr_ids(money, na) && !(a_weight
            == 0 && b_weight == 0),
    }
}

pub proof fn lemma_texpr_ids(e: TMoneyExpr, k: Map<SymbolId, BindingKind>, na: nat)
    requires
        texpr_ok(e, k, na) is Some,
    ensures
        texpr_ids(e, na),
    decreases e,
{
    if let TMoneyExpr::Merge { a, b } = e {
        lemma_texpr_ids(*a, k, na);
        lemma_texpr_ids(*b, texpr_ok(*a, k, na)->0, na);
    }
}

/// In a body that walks cleanly, every statement's ids are good.
pub proof fn lemma_tstmts_ids(ss: Seq<TStmt>, k: Map<SymbolId, BindingKind>, na: nat, nc: nat, nr: nat)
    requires
        tstmts_ok(ss, k, na, nc, nr) is Some,
    ensures
        forall|j: int| 0 <= j < ss.len() ==> tstmt_ids(#[trigger] ss[j], na, nc, nr),
    decreases ss.len(),
{
    if ss.len() > 0 {
        let prev = ss.drop_last();
        lemma_tstmts_ids(prev, k, na, nc, nr);
        let k1 = tstmts_ok(prev, k, na, nc, nr)->0;
        let last = ss.last();
        match last {
            TStmt::Let { value, .. } => lemma_texpr_ids(value, k1, na),
            TStmt::Convert { money, .. } => lemma_texpr_ids(money, k1, na),
            TStmt::Debit { value, .. } => lemma_texpr_ids(value, k1, na),
            TStmt::Absorb { .. } => {},
            TStmt::Split { money, .. } => lemma_texpr_ids(money, k1, na),
            TStmt::SplitRatio { money, .. } => lemma_texpr_ids(money, k1, na),
        }
        assert forall|j: int| 0 <= j < ss.len() implies tstmt_ids(#[trigger] ss[j], na, nc, nr) by {
            if j < ss.len() - 1 {
                assert(ss[j] == prev[j]);
            }
        }
    }
}


// ---------------------------------------------------------------------------------
// Linearity: a body that type-checks consumes every value it binds exactly once.

/// Expression `e` uses the value bound to `s`.
pub open spec fn expr_uses(e: ResolvedMoneyExpr, s: SymbolId) -> bool
    decreases e,
{
    match e {
        ResolvedMoneyExpr::Credit { .. } => false,
        ResolvedMoneyExpr::Var { symbol, .. } => symbol == s,
        ResolvedMoneyExpr::Merge { a, b, .. } => expr_uses(*a, s) || expr_uses(*b, s),
    }
}

/// Statement `st` uses the value bound to `s`.
pub open spec fn stmt_uses(st: ResolvedStmt, s: SymbolId) -> bool {
    match st {
        ResolvedStmt::Let { value, .. } => expr_uses(value, s),
        ResolvedStmt::Convert { money, .. } => expr_uses(money, s),
        ResolvedStmt::Debit { value, .. } => expr_uses(value, s),
        ResolvedStmt::Absorb { residue, .. } => residue == s,
        ResolvedStmt::Split { money, .. } => expr_uses(money, s),
        ResolvedStmt::SplitRatio { money, .. } => expr_uses(money, s),
    }
}

/// Statement `st` binds `s`.
pub open spec fn stmt_binds(st: ResolvedStmt, s: SymbolId) -> bool {
    match st {
        ResolvedStmt::Let { symbol, .. } => symbol == s,
        ResolvedStmt::Convert { primary, residual, .. } => primary == s || residual == s,
        ResolvedStmt::Split { a, b, .. } => a == s || b == s,
        ResolvedStmt::SplitRatio { a, b, .. } => a == s || b == s,
        _ => false,
    }
}

/// Every value a statement uses was bound by an earlier statement of the body.
pub open spec fn well_scoped(ss: Seq<ResolvedStmt>) -> bool {
    forall|j: int, s: SymbolId|
        0 <= j < ss.len() && #[trigger] stmt_uses(ss[j], s) ==> exists|i: int|
            0 <= i < j && #[trigger] stmt_binds(ss[i], s)
}

/// The live bindings of Γ are exactly those of `k`, with the same kinds.
pub open spec fn exact(ctx: CtxView, k: Map<SymbolId, BindingKind>) -> bool {
    &&& covered(ctx, k)
    &&& forall|s: SymbolId| #[trigger] k.contains_key(s) ==> ctx.0.contains_key(s)
}

/// Γ has seen `s`: it is live, or was consumed.
pub open spec fn known(ctx: CtxView, s: SymbolId) -> bool {
    ctx.0.contains_key(s) || ctx.1.contains_key(s)
}

proof fn lemma_tc_expr_exact(
    e: ResolvedMoneyExpr,
    ctx: CtxView,
    k: Map<SymbolId, BindingKind>,
    accounts: Seq<AccountInfo>,
    currencies: Seq<CurrencyInfo>,
)
    requires
        exact(ctx, k),
        expr_ids_ok(e, accounts.len()),
        forall|s: SymbolId| #[trigger] expr_uses(e, s) ==> known(ctx, s),
    ensures
        forall|s: SymbolId| #[trigger] known(ctx, s) ==> known(tc_expr(e, ctx, accounts, currencies).1, s),
        tc_expr(e, ctx, accounts, currencies).2 == 0 ==> {
            &&& tc_expr(e, ctx, accounts, currencies).0 is Some
            &&& texpr_ok((tc_expr(e, ctx, accounts, currencies).0->0).0, k, accounts.len()) is Some
            &&& exact(
                tc_expr(e, ctx, accounts, currencies).1,
                texpr_ok((tc_expr(e, ctx, accounts, currencies).0->0).0, k, accounts.len())->0,
            )
        },
    decreases e,
{
    match e {
        ResolvedMoneyExpr::Credit { .. } => {},
        ResolvedMoneyExpr::Var { symbol, .. } => {
            assert(expr_uses(e, symbol));
            if ctx.0.contains_key(symbol) {
                let after = tc_expr(e, ctx, accounts, currencies).1;
                let k1 = k.remove(symbol);
                assert forall|s: SymbolId| #[trigger] after.0.contains_key(s) implies k1.contains_key(s)
                    && k1[s] == after.0[s].kind by {
                    assert(ctx.0.contains_key(s));
                }
                assert forall|s: SymbolId| #[trigger] k1.contains_key(s) implies after.0.contains_key(
                    s,
                ) by {
                    assert(k.contains_key(s));
                }
            }
        },
        ResolvedMoneyExpr::Merge { a, b, .. } => {
            let ra = tc_expr(*a, ctx, accounts, currencies);
            assert forall|s: SymbolId| #[trigger] expr_uses(*a, s) implies known(ctx, s) by {
                assert(expr_uses(e, s));
            }
            lemma_tc_expr_exact(*a, ctx, k, accounts, currencies);
            assert forall|s: SymbolId| #[trigger] expr_uses(*b, s) implies known(ra.1, s) by {
                assert(expr_uses(e, s));
                assert(known(ctx, s));
            }
            if ra.2 == 0 {
                let k1 = texpr_ok((ra.0->0).0, k, accounts.len())->0;
                lemma_tc_expr_exact(*b, ra.1, k1, accounts, currencies);
            } else {
                lemma_tc_expr_known(*b, ra.1, accounts, currencies);
            }
        },
    }
}

/// Type-checking an expression never forgets a binding it has seen.
proof fn lemma_tc_expr_known(
    e: ResolvedMoneyExpr,
    ctx: CtxView,
    accounts: Seq<AccountInfo>,
    currencies: Seq<CurrencyInfo>,
)
    ensures
        forall|s: SymbolId| #[trigger] known(ctx, s) ==> known(tc_expr(e, ctx, accounts, currencies).1, s),
    decreases e,
{
    match e {
        ResolvedMoneyExpr::Merge { a, b, .. } => {
            let ra = tc_expr(*a, ctx, accounts, currencies);
            lemma_tc_expr_known(*a, ctx, accounts, currencies);
            lemma_tc_expr_known(*b, ra.1, accounts, currencies);
        },
        _ => {},
    }
}


/// Binding a value keeps Γ's live bindings exactly those of the walk.
proof fn lemma_exact_bind(
    ctx: CtxView,
    k: Map<SymbolId, BindingKind>,
    symbol: SymbolId,
    binding_span: Span,
    currency_span: Span,
    currency: CurrencyId,
    kind: BindingKind,
)
    requires
        exact(ctx, k),
    ensures
        exact(bind_spec(ctx, symbol, binding_span, currency_span, currency, kind), k.insert(symbol, kind)),
        forall|s: SymbolId| #[trigger] known(ctx, s) ==> known(
            bind_spec(ctx, symbol, binding_span, currency_span, currency, kind),
            s,
        ),
        bind_spec(ctx, symbol, binding_span, currency_span, currency, kind).0.contains_key(symbol),
{
    let c2 = bind_spec(ctx, symbol, binding_span, currency_span, currency, kind);
    assert forall|s: SymbolId| #[trigger] c2.0.contains_key(s) implies k.insert(symbol, kind).contains_key(s)
        && k.insert(symbol, kind)[s] == c2.0[s].kind by {
        if s != symbol {
            assert(ctx.0.contains_key(s));
        }
    }
}

/// A statement that raises no diagnostic, all of whose uses Γ has seen, checks; its
/// walk keeps Γ's live bindings exact, and what it binds becomes live.
#[verifier::spinoff_prover]
#[verifier::rlimit(50)]
proof fn lemma_tc_stmt_exact(
    st: ResolvedStmt,
    ctx: CtxView,
    k: Map<SymbolId, BindingKind>,
    accounts: Seq<AccountInfo>,
    currencies: Seq<CurrencyInfo>,
    rates: Seq<RateInfo>,
)
    requires
        exact(ctx, k),
        ctx_currencies_ok(ctx, currencies.len()),
        stmt_ids_ok(st, accounts.len(), rates.len()),
        tables_ok(accounts, currencies, rates),
        forall|s: SymbolId| #[trigger] stmt_uses(st, s) ==> known(ctx, s),
    ensures
        forall|s: SymbolId| #[trigger] known(ctx, s) ==> known(tc_stmt(st, ctx, accounts, currencies, rates).1, s),
        tc_stmt(st, ctx, accounts, currencies, rates).2 == 0 ==> {
            &&& tc_stmt(st, ctx, accounts, currencies, rates).0 is Some
            &&& tstmt_ok(
                tc_stmt(st, ctx, accounts, currencies, rates).0->0,
                k,
                accounts.len(),
                currencies.len(),
                rates.len(),
            ) is Some
            &&& exact(
                tc_stmt(st, ctx, accounts, currencies, rates).1,
                tstmt_ok(
                    tc_stmt(st, ctx, accounts, currencies, rates).0->0,
                    k,
                    accounts.len(),
                    currencies.len(),
                    rates.len(),
                )->0,
            )
            &&& forall|s: SymbolId| #[trigger] stmt_binds(st, s) ==> known(
                tc_stmt(st, ctx, accounts, currencies, rates).1,
                s,
            )
            &&& same_binds(tc_stmt(st, ctx, accounts, currencies, rates).0->0, st)
        },
{
    let na = accounts.len();
    lemma_tc_stmt_ok(st, ctx, k, accounts, currencies, rates);
    match st {
        ResolvedStmt::Let { symbol, name_span, value, .. } => {
            assert forall|s: SymbolId| #[trigger] expr_uses(value, s) implies known(ctx, s) by {
                assert(stmt_uses(st, s));
            }
            lemma_tc_expr_exact(value, ctx, k, accounts, currencies);
            let r = tc_expr(value, ctx, accounts, currencies);
            if r.2 == 0 {
                let (v, c, cs) = r.0->0;
                let k1 = texpr_ok(v, k, na)->0;
                lemma_exact_bind(r.1, k1, symbol, name_span, cs, c, BindingKind::Money);
            }
        },
        ResolvedStmt::Convert { primary, primary_span, residual, residual_span, money, rate, span } => {
            assert forall|s: SymbolId| #[trigger] expr_uses(money, s) implies known(ctx, s) by {
                assert(stmt_uses(st, s));
            }
            lemma_tc_expr_exact(money, ctx, k, accounts, currencies);
            let r = tc_expr(money, ctx, accounts, currencies);
            let ri = rates[rate.0 as int];
            if r.2 == 0 && (r.0->0).1 == ri.from {
                let k1 = texpr_ok((r.0->0).0, k, na)->0;
                lemma_exact_bind(r.1, k1, primary, primary_span, span, ri.to, BindingKind::Money);
                let c1 = bind_spec(r.1, primary, primary_span, span, ri.to, BindingKind::Money);
                lemma_exact_bind(
                    c1,
                    k1.insert(primary, BindingKind::Money),
                    residual,
                    residual_span,
                    span,
                    ri.to,
                    BindingKind::Residue,
                );
            }
        },
        ResolvedStmt::Debit { value, .. } => {
            assert forall|s: SymbolId| #[trigger] expr_uses(value, s) implies known(ctx, s) by {
                assert(stmt_uses(st, s));
            }
            lemma_tc_expr_exact(value, ctx, k, accounts, currencies);
        },
        ResolvedStmt::Absorb { residue, .. } => {
            assert(stmt_uses(st, residue));
            if ctx.0.contains_key(residue) {
                let c2 = tc_stmt(st, ctx, accounts, currencies, rates).1;
                let k1 = k.remove(residue);
                assert forall|s: SymbolId| #[trigger] k1.contains_key(s) implies c2.0.contains_key(s) by {
                    assert(k.contains_key(s));
                }
            }
        },
        ResolvedStmt::Split { a, a_span, b, b_span, money, .. } => {
            assert forall|s: SymbolId| #[trigger] expr_uses(money, s) implies known(ctx, s) by {
                assert(stmt_uses(st, s));
            }
            lemma_tc_expr_exact(money, ctx, k, accounts, currencies);
            let r = tc_expr(money, ctx, accounts, currencies);
            if r.2 == 0 {
                let (m, mc, cs) = r.0->0;
                let k1 = texpr_ok(m, k, na)->0;
                lemma_exact_bind(r.1, k1, a, a_span, cs, mc, BindingKind::Money);
                let c1 = bind_spec(r.1, a, a_span, cs, mc, BindingKind::Money);
                lemma_exact_bind(c1, k1.insert(a, BindingKind::Money), b, b_span, cs, mc, BindingKind::Money);
            }
        },
        ResolvedStmt::SplitRatio { a, a_span, b, b_span, money, .. } => {
            assert forall|s: SymbolId| #[trigger] expr_uses(money, s) implies known(ctx, s) by {
                assert(stmt_uses(st, s));
            }
            lemma_tc_expr_exact(money, ctx, k, accounts, currencies);
            let r = tc_expr(money, ctx, accounts, currencies);
            if r.2 == 0 {
                let (m, mc, cs) = r.0->0;
                let k1 = texpr_ok(m, k, na)->0;
                lemma_exact_bind(r.1, k1, a, a_span, cs, mc, BindingKind::Money);
                let c1 = bind_spec(r.1, a, a_span, cs, mc, BindingKind::Money);
                lemma_exact_bind(c1, k1.insert(a, BindingKind::Money), b, b_span, cs, mc, BindingKind::Money);
            }
        },
    }
}

/// The statements before the last of a well-scoped body are well scoped.
proof fn lemma_well_scoped_prefix(ss: Seq<ResolvedStmt>)
    requires
        well_scoped(ss),
        ss.len() > 0,
    ensures
        well_scoped(ss.drop_last()),
{
    let prev = ss.drop_last();
    assert forall|j: int, s: SymbolId|
        0 <= j < prev.len() && #[trigger] stmt_uses(prev[j], s) implies exists|i: int|
            0 <= i < j && #[trigger] stmt_binds(prev[i], s) by {
        assert(prev[j] == ss[j]);
        assert(stmt_uses(ss[j], s));
        let i = choose|i: int| 0 <= i < j && #[trigger] stmt_binds(ss[i], s);
        assert(prev[i] == ss[i]);
    }
}

/// A well-scoped body that raises no diagnostic: its typed statements walk from no
/// live bindings to exactly the bindings Γ still holds, and every value it bound is
/// known to Γ.
#[verifier::spinoff_prover]
#[verifier::rlimit(40)]
proof fn lemma_tc_stmts_exact(
    ss: Seq<ResolvedStmt>,
    accounts: Seq<AccountInfo>,
    currencies: Seq<CurrencyInfo>,
    rates: Seq<RateInfo>,
)
    requires
        forall|j: int| 0 <= j < ss.len() ==> stmt_ids_ok(#[trigger] ss[j], accounts.len(), rates.len()),
        tables_ok(accounts, currencies, rates),
        well_scoped(ss),
        tc_stmts(ss, empty_ctx(), accounts, currencies, rates).2 == 0,
    ensures
        exact(
            tc_stmts(ss, empty_ctx(), accounts, currencies, rates).1,
            tstmts_ok(
                tc_stmts(ss, empty_ctx(), accounts, currencies, rates).0,
                Map::empty(),
                accounts.len(),
                currencies.len(),
                rates.len(),
            )->0,
        ),
        forall|i: int, s: SymbolId|
            0 <= i < ss.len() && #[trigger] stmt_binds(ss[i], s) ==> known(
                tc_stmts(ss, empty_ctx(), accounts, currencies, rates).1,
                s,
            ),
        tc_stmts(ss, empty_ctx(), accounts, currencies, rates).0.len() == ss.len(),
        forall|j: int|
            0 <= j < ss.len() ==> same_binds(
                #[trigger] tc_stmts(ss, empty_ctx(), accounts, currencies, rates).0[j],
                ss[j],
            ),
    decreases ss.len(),
{
    reveal(tc_stmts);
    let na = accounts.len();
    let nc = currencies.len();
    let nr = rates.len();
    lemma_tc_stmts_ok(ss, accounts, currencies, rates);
    if ss.len() > 0 {
        let prev = ss.drop_last();
        assert forall|j: int| 0 <= j < prev.len() implies stmt_ids_ok(#[trigger] prev[j], na, nr) by {
            assert(prev[j] == ss[j]);
        }
        lemma_well_scoped_prefix(ss);
        lemma_tc_stmts_ok(prev, accounts, currencies, rates);
        lemma_tc_stmts_exact(prev, accounts, currencies, rates);
        let p = tc_stmts(prev, empty_ctx(), accounts, currencies, rates);
        let k1 = tstmts_ok(p.0, Map::empty(), na, nc, nr)->0;
        let last = ss.last();
        assert(stmt_ids_ok(ss[ss.len() - 1], na, nr));
        assert forall|s: SymbolId| #[trigger] stmt_uses(last, s) implies known(p.1, s) by {
            assert(stmt_uses(ss[ss.len() - 1], s));
            let i = choose|i: int| 0 <= i < ss.len() - 1 && #[trigger] stmt_binds(ss[i], s);
            assert(prev[i] == ss[i]);
            assert(stmt_binds(prev[i], s));
        }
        lemma_tc_stmt_exact(last, p.1, k1, accounts, currencies, rates);
        let r = tc_stmt(last, p.1, accounts, currencies, rates);
        assert(p.0.push(r.0->0).drop_last() =~= p.0);
        assert forall|i: int, s: SymbolId|
            0 <= i < ss.len() && #[trigger] stmt_binds(ss[i], s) implies known(r.1, s) by {
            if i < ss.len() - 1 {
                assert(prev[i] == ss[i]);
                assert(stmt_binds(prev[i], s));
            }
        }
        let out = tc_stmts(ss, empty_ctx(), accounts, currencies, rates);
        assert(out.0 == p.0.push(r.0->0));
        assert forall|j: int| 0 <= j < ss.len() implies same_binds(#[trigger] out.0[j], ss[j]) by {
            if j < ss.len() - 1 {
                assert(out.0[j] == p.0[j]);
                assert(prev[j] == ss[j]);
            }
        }
    } else {
        assert(exact(empty_ctx(), Map::empty()));
    }
}

/// Linearity: in a well-scoped module that type-checks, every body consumes each
/// value it binds exactly once. Its typed statements, walked from no live bindings,
/// never consume a value that is not live or is of the wrong kind, and leave no
/// binding live at the end.
pub proof fn lemma_typed_txn_is_linear(r: ResolvedModule, t: TModule)
    requires
        module_ids_ok(r),
        forall|i: int| 0 <= i < r.txns@.len() ==> well_scoped(#[trigger] r.txns@[i].stmts@),
        typeck_ok(r),
        typed_from(t, r),
    ensures
        forall|i: int|
            0 <= i < t.txns@.len() ==> tstmts_ok(
                #[trigger] t.txns@[i].stmts@,
                Map::empty(),
                t.accounts@.len(),
                t.currencies@.len(),
                t.rates@.len(),
            ) == Some(Map::<SymbolId, BindingKind>::empty()),
{
    assert forall|i: int| 0 <= i < t.txns@.len() implies tstmts_ok(
        #[trigger] t.txns@[i].stmts@,
        Map::empty(),
        t.accounts@.len(),
        t.currencies@.len(),
        t.rates@.len(),
    ) == Some(Map::<SymbolId, BindingKind>::empty()) by {
        let ss = r.txns@[i].stmts@;
        assert(txn_checks(ss, r.accounts@, r.currencies@, r.rates@));
        assert forall|j: int| 0 <= j < ss.len() implies stmt_ids_ok(
            #[trigger] ss[j],
            r.accounts@.len(),
            r.rates@.len(),
        ) by {
            assert(stmt_ids_ok(r.txns@[i].stmts@[j], r.accounts@.len(), r.rates@.len()));
        }
        lemma_tc_stmts_ok(ss, r.accounts@, r.currencies@, r.rates@);
        lemma_tc_stmts_exact(ss, r.accounts@, r.currencies@, r.rates@);
        let res = tc_stmts(ss, empty_ctx(), r.accounts@, r.currencies@, r.rates@);
        let kf = tstmts_ok(res.0, Map::empty(), r.accounts@.len(), r.currencies@.len(), r.rates@.len())->0;
        assert(kf =~= Map::<SymbolId, BindingKind>::empty()) by {
            assert forall|s: SymbolId| !kf.contains_key(s) by {
                if kf.contains_key(s) {
                    assert(res.1.0.contains_key(s));
                }
            }
        }
    }
}

// ---------------------------------------------------------------------------------
// Resolution hands typeck well-scoped bodies.

/// The symbol a scope lookup finds is one the scope holds.
proof fn lemma_scope_lookup_in(scope: Seq<(Seq<char>, SymbolId)>, name: Seq<char>)
    ensures
        scope_lookup(scope, name) matches Some(x) ==> exists|k: int|
            0 <= k < scope.len() && (#[trigger] scope[k]).1 == x,
    decreases scope.len(),
{
    if scope.len() > 0 {
        if scope.last().0 == name {
            assert(scope[scope.len() - 1].1 == scope.last().1);
        } else {
            lemma_scope_lookup_in(scope.drop_last(), name);
            if let Some(x) = scope_lookup(scope.drop_last(), name) {
                let k = choose|k: int| 0 <= k < scope.drop_last().len() && (#[trigger] scope.drop_last()[k]).1 == x;
                assert(scope[k] == scope.drop_last()[k]);
            }
        }
    }
}

/// Every symbol a resolved expression uses is held by the scope it was resolved in.
proof fn lemma_resolved_expr_uses(e: ast::MoneyExpr, scope: Seq<(Seq<char>, SymbolId)>, accts: Seq<Seq<char>>)
    ensures
        resolve_expr_spec(e, scope, accts) matches Some(x) ==> forall|s: SymbolId|
            #[trigger] expr_uses(x, s) ==> exists|k: int| 0 <= k < scope.len() && (#[trigger] scope[k]).1 == s,
    decreases e,
{
    match e {
        ast::MoneyExpr::Var { name, .. } => lemma_scope_lookup_in(scope, name@),
        ast::MoneyExpr::Merge { a, b, .. } => {
            lemma_resolved_expr_uses(*a, scope, accts);
            lemma_resolved_expr_uses(*b, scope, accts);
            if let Some(x) = resolve_expr_spec(e, scope, accts) {
                let xa = resolve_expr_spec(*a, scope, accts)->0;
                let xb = resolve_expr_spec(*b, scope, accts)->0;
                assert forall|s: SymbolId| #[trigger] expr_uses(x, s) implies exists|k: int|
                    0 <= k < scope.len() && (#[trigger] scope[k]).1 == s by {
                    if expr_uses(xa, s) {
                    } else {
                        assert(expr_uses(xb, s));
                    }
                }
            }
        },
        _ => {},
    }
}

/// Every symbol a resolved statement uses is held by the scope it was resolved in.
proof fn lemma_resolved_stmt_uses(
    st: ast::Stmt,
    scope: Seq<(Seq<char>, SymbolId)>,
    next: nat,
    accts: Seq<Seq<char>>,
    rates: Seq<Seq<char>>,
)
    ensures
        resolve_stmt_spec(st, scope, next, accts, rates) matches Some(x) ==> forall|s: SymbolId|
            #[trigger] stmt_uses(x, s) ==> exists|k: int| 0 <= k < scope.len() && (#[trigger] scope[k]).1 == s,
{
    match st {
        ast::Stmt::Let { value, .. } => lemma_resolved_expr_uses(value, scope, accts),
        ast::Stmt::Convert { money, .. } => lemma_resolved_expr_uses(money, scope, accts),
        ast::Stmt::Debit { value, .. } => lemma_resolved_expr_uses(value, scope, accts),
        ast::Stmt::Absorb { residue_name, .. } => lemma_scope_lookup_in(scope, residue_name@),
        ast::Stmt::Split { money, .. } => lemma_resolved_expr_uses(money, scope, accts),
        ast::Stmt::SplitRatio { money, .. } => lemma_resolved_expr_uses(money, scope, accts),
    }
}

/// A statement that resolves binds the symbols its names enter the scope with.
proof fn lemma_resolved_stmt_binds(
    st: ast::Stmt,
    scope: Seq<(Seq<char>, SymbolId)>,
    next: nat,
    accts: Seq<Seq<char>>,
    rates: Seq<Seq<char>>,
)
    ensures
        resolve_stmt_spec(st, scope, next, accts, rates) matches Some(x) ==> forall|k: int|
            scope.len() <= k < bind_names(scope, stmt_binders(st), next).len() ==> stmt_binds(
                x,
                (#[trigger] bind_names(scope, stmt_binders(st), next)[k]).1,
            ),
{
}

/// Some statement of `ss` binds `s`.
pub open spec fn bound_in(ss: Seq<ResolvedStmt>, s: SymbolId) -> bool {
    exists|i: int| 0 <= i < ss.len() && #[trigger] stmt_binds(ss[i], s)
}

/// When every statement of a body resolves, each one resolves, what each uses was
/// bound by an earlier one, and every symbol the final scope holds was bound by one.
proof fn lemma_resolved_stmts_scoped(ss: Seq<ast::Stmt>, next: nat, accts: Seq<Seq<char>>, rates: Seq<Seq<char>>)
    requires
        resolve_stmts_spec(ss, next, accts, rates).3,
    ensures
        resolve_stmts_spec(ss, next, accts, rates).0.len() == ss.len(),
        well_scoped(resolve_stmts_spec(ss, next, accts, rates).0),
        forall|k: int|
            0 <= k < resolve_stmts_spec(ss, next, accts, rates).1.len() ==> bound_in(
                resolve_stmts_spec(ss, next, accts, rates).0,
                (#[trigger] resolve_stmts_spec(ss, next, accts, rates).1[k]).1,
            ),
    decreases ss.len(),
{
    if ss.len() > 0 {
        let pre = ss.drop_last();
        let prev = resolve_stmts_spec(pre, next, accts, rates);
        lemma_resolved_stmts_scoped(pre, next, accts, rates);
        let st = ss.last();
        let x = resolve_stmt_spec(st, prev.1, prev.2, accts, rates)->0;
        let out = resolve_stmts_spec(ss, next, accts, rates);
        assert(out.0 == prev.0.push(x));
        lemma_resolved_stmt_uses(st, prev.1, prev.2, accts, rates);
        lemma_resolved_stmt_binds(st, prev.1, prev.2, accts, rates);
        assert forall|j: int, s: SymbolId|
            0 <= j < out.0.len() && #[trigger] stmt_uses(out.0[j], s) implies exists|i: int|
                0 <= i < j && #[trigger] stmt_binds(out.0[i], s) by {
            if j < prev.0.len() {
                assert(out.0[j] == prev.0[j]);
                assert(stmt_uses(prev.0[j], s));
                let i = choose|i: int| 0 <= i < j && #[trigger] stmt_binds(prev.0[i], s);
                assert(out.0[i] == prev.0[i]);
            } else {
                assert(out.0[j] == x);
                let k = choose|k: int| 0 <= k < prev.1.len() && (#[trigger] prev.1[k]).1 == s;
                assert(bound_in(prev.0, prev.1[k].1));
                let i = choose|i: int| 0 <= i < prev.0.len() && #[trigger] stmt_binds(prev.0[i], s);
                assert(out.0[i] == prev.0[i]);
                assert(stmt_binds(out.0[i], s));
            }
        }
        assert forall|k: int| 0 <= k < out.1.len() implies bound_in(out.0, (#[trigger] out.1[k]).1) by {
            if k < prev.1.len() {
                assert(out.1[k] == prev.1[k]);
                assert(bound_in(prev.0, prev.1[k].1));
                let i = choose|i: int| 0 <= i < prev.0.len() && #[trigger] stmt_binds(prev.0[i], prev.1[k].1);
                assert(out.0[i] == prev.0[i]);
                assert(stmt_binds(out.0[i], out.1[k].1));
            } else {
                assert(stmt_binds(x, out.1[k].1));
                assert(out.0[ss.len() - 1] == x);
                assert(stmt_binds(out.0[ss.len() - 1], out.1[k].1));
            }
        }
    }
}

/// When a whole module resolves, every body it resolves to is well scoped.
proof fn lemma_resolved_txns_scoped(ts: Seq<ast::TxnDecl>, accts: Seq<Seq<char>>, rates: Seq<Seq<char>>)
    requires
        resolve_txns_spec(ts, accts, rates).2,
    ensures
        resolve_txns_spec(ts, accts, rates).0.len() == ts.len(),
        forall|i: int| 0 <= i < ts.len() ==> well_scoped(#[trigger] resolve_txns_spec(ts, accts, rates).0[i]),
    decreases ts.len(),
{
    if ts.len() > 0 {
        let prev = resolve_txns_spec(ts.drop_last(), accts, rates);
        lemma_resolved_txns_scoped(ts.drop_last(), accts, rates);
        lemma_resolved_stmts_scoped(ts.last().stmts@, prev.1, accts, rates);
        let out = resolve_txns_spec(ts, accts, rates);
        assert forall|i: int| 0 <= i < ts.len() implies well_scoped(#[trigger] out.0[i]) by {
            if i < ts.len() - 1 {
                assert(out.0[i] == prev.0[i]);
            }
        }
    }
}

/// A module that resolves resolves to well-scoped bodies: every value a statement
/// uses was bound by an earlier statement of its body.
pub proof fn lemma_resolved_well_scoped(r: ResolvedModule, m: ast::Module)
    requires
        resolve_ok(m),
        resolved_from(r, m),
    ensures
        forall|i: int| 0 <= i < r.txns@.len() ==> well_scoped(#[trigger] r.txns@[i].stmts@),
{
    let ap = module_account_paths(m);
    let rn = module_rate_names(m);
    lemma_resolved_txns_scoped(m.txns@, ap, rn);
    assert forall|i: int| 0 <= i < r.txns@.len() implies well_scoped(#[trigger] r.txns@[i].stmts@) by {
        assert(r.txns@[i].stmts@ == resolve_txns_spec(m.txns@, ap, rn).0[i]);
    }
}

// ---------------------------------------------------------------------------------
// Each symbol is bound once

/// Statement `st` binds `s`.
pub open spec fn tstmt_binds(st: TStmt, s: SymbolId) -> bool {
    match st {
        TStmt::Let { symbol, .. } => symbol == s,
        TStmt::Convert { primary, residual, .. } => primary == s || residual == s,
        TStmt::Split { a, b, .. } => a == s || b == s,
        TStmt::SplitRatio { a, b, .. } => a == s || b == s,
        _ => false,
    }
}

/// A statement that binds two symbols binds two different ones.
pub open spec fn binds_distinct(st: TStmt) -> bool {
    match st {
        TStmt::Convert { primary, residual, .. } => primary != residual,
        TStmt::Split { a, b, .. } => a != b,
        TStmt::SplitRatio { a, b, .. } => a != b,
        _ => true,
    }
}

/// Every symbol is bound by at most one statement of the body, once.
pub open spec fn binds_once(ss: Seq<TStmt>) -> bool {
    &&& forall|i: int, j: int, s: SymbolId|
        0 <= i < j < ss.len() && #[trigger] tstmt_binds(ss[i], s) ==> !#[trigger] tstmt_binds(ss[j], s)
    &&& forall|j: int| 0 <= j < ss.len() ==> binds_distinct(#[trigger] ss[j])
}

/// A typed statement binds exactly the symbols of the resolved statement it came from.
pub open spec fn same_binds(t: TStmt, r: ResolvedStmt) -> bool {
    match (t, r) {
        (TStmt::Let { symbol: x, .. }, ResolvedStmt::Let { symbol: y, .. }) => x == y,
        (
            TStmt::Convert { primary: p1, residual: r1, .. },
            ResolvedStmt::Convert { primary: p2, residual: r2, .. },
        ) => p1 == p2 && r1 == r2,
        (TStmt::Debit { .. }, ResolvedStmt::Debit { .. }) => true,
        (TStmt::Absorb { .. }, ResolvedStmt::Absorb { .. }) => true,
        (TStmt::Split { a: a1, b: b1, .. }, ResolvedStmt::Split { a: a2, b: b2, .. }) => a1 == a2 && b1
            == b2,
        (
            TStmt::SplitRatio { a: a1, b: b1, .. },
            ResolvedStmt::SplitRatio { a: a2, b: b2, .. },
        ) => a1 == a2 && b1 == b2,
        _ => false,
    }
}

/// A resolved statement that binds two symbols binds two different ones.
pub open spec fn resolved_binds_distinct(st: ResolvedStmt) -> bool {
    match st {
        ResolvedStmt::Convert { primary, residual, .. } => primary != residual,
        ResolvedStmt::Split { a, b, .. } => a != b,
        ResolvedStmt::SplitRatio { a, b, .. } => a != b,
        _ => true,
    }
}

/// Every symbol is bound by at most one statement of a resolved body, once.
pub open spec fn resolved_binds_once(ss: Seq<ResolvedStmt>) -> bool {
    &&& forall|i: int, j: int, s: SymbolId|
        0 <= i < j < ss.len() && #[trigger] stmt_binds(ss[i], s) ==> !#[trigger] stmt_binds(ss[j], s)
    &&& forall|j: int| 0 <= j < ss.len() ==> resolved_binds_distinct(#[trigger] ss[j])
}

/// Resolution numbers a body's bindings from `next` upward without reuse: when every
/// statement resolves and the numbers fit, each symbol is bound once, and every symbol
/// bound lies between `next` and the next free number.
proof fn lemma_resolved_stmts_fresh(ss: Seq<ast::Stmt>, next: nat, accts: Seq<Seq<char>>, rates: Seq<Seq<char>>)
    requires
        resolve_stmts_spec(ss, next, accts, rates).3,
        next + stmts_bindings(ss) < u32::MAX,
    ensures
        resolved_binds_once(resolve_stmts_spec(ss, next, accts, rates).0),
        forall|j: int, s: SymbolId|
            0 <= j < resolve_stmts_spec(ss, next, accts, rates).0.len() && #[trigger] stmt_binds(
                resolve_stmts_spec(ss, next, accts, rates).0[j],
                s,
            ) ==> next <= s.0 < next + stmts_bindings(ss),
    decreases ss.len(),
{
    if ss.len() > 0 {
        let pre = ss.drop_last();
        let prev = resolve_stmts_spec(pre, next, accts, rates);
        lemma_stmts_next(pre, next, accts, rates);
        lemma_resolved_stmts_scoped(pre, next, accts, rates);
        lemma_resolved_stmts_fresh(pre, next, accts, rates);
        let st = ss.last();
        let x = resolve_stmt_spec(st, prev.1, prev.2, accts, rates)->0;
        let out = resolve_stmts_spec(ss, next, accts, rates);
        let hi = next + stmts_bindings(ss);
        assert(out.0 == prev.0.push(x));
        assert(prev.2 + stmt_binders(st).len() == hi);
        assert(forall|s: SymbolId| #[trigger] stmt_binds(x, s) ==> prev.2 <= s.0 < hi);
        assert(resolved_binds_distinct(x));
        assert forall|i: int, j: int, s: SymbolId|
            0 <= i < j < out.0.len() && #[trigger] stmt_binds(out.0[i], s) implies !#[trigger] stmt_binds(
            out.0[j],
            s,
        ) by {
            assert(out.0[i] == prev.0[i]);
            if j < prev.0.len() {
                assert(out.0[j] == prev.0[j]);
            } else {
                assert(stmt_binds(prev.0[i], s));
            }
        }
        assert forall|j: int| 0 <= j < out.0.len() implies resolved_binds_distinct(#[trigger] out.0[j]) by {
            if j < prev.0.len() {
                assert(out.0[j] == prev.0[j]);
            }
        }
        assert forall|j: int, s: SymbolId|
            0 <= j < out.0.len() && #[trigger] stmt_binds(out.0[j], s) implies next <= s.0 < hi by {
            if j < prev.0.len() {
                assert(out.0[j] == prev.0[j]);
                assert(stmt_binds(prev.0[j], s));
            }
        }
    }
}

/// When a whole module resolves and its bindings fit the symbol numbers, every body it
/// resolves to binds each symbol once.
proof fn lemma_resolved_txns_fresh(ts: Seq<ast::TxnDecl>, accts: Seq<Seq<char>>, rates: Seq<Seq<char>>)
    requires
        resolve_txns_spec(ts, accts, rates).2,
        txns_bindings(ts) < u32::MAX,
    ensures
        forall|i: int|
            0 <= i < ts.len() ==> resolved_binds_once(#[trigger] resolve_txns_spec(ts, accts, rates).0[i]),
    decreases ts.len(),
{
    lemma_txns_next(ts, accts, rates);
    if ts.len() > 0 {
        let prev = resolve_txns_spec(ts.drop_last(), accts, rates);
        lemma_txns_next(ts.drop_last(), accts, rates);
        lemma_resolved_txns_fresh(ts.drop_last(), accts, rates);
        lemma_resolved_stmts_fresh(ts.last().stmts@, prev.1, accts, rates);
        let out = resolve_txns_spec(ts, accts, rates);
        assert forall|i: int| 0 <= i < ts.len() implies resolved_binds_once(#[trigger] out.0[i]) by {
            if i < ts.len() - 1 {
                assert(out.0[i] == prev.0[i]);
            }
        }
    }
}

/// A module that resolves, with bindings that fit the symbol numbers, resolves to
/// bodies that bind each symbol once.
pub proof fn lemma_resolved_binds_once(r: ResolvedModule, m: ast::Module)
    requires
        resolve_ok(m),
        resolved_from(r, m),
        txns_bindings(m.txns@) < u32::MAX,
    ensures
        forall|i: int| 0 <= i < r.txns@.len() ==> resolved_binds_once(#[trigger] r.txns@[i].stmts@),
{
    let ap = module_account_paths(m);
    let rn = module_rate_names(m);
    lemma_resolved_txns_fresh(m.txns@, ap, rn);
    assert forall|i: int| 0 <= i < r.txns@.len() implies resolved_binds_once(#[trigger] r.txns@[i].stmts@) by {
        assert(r.txns@[i].stmts@ == resolve_txns_spec(m.txns@, ap, rn).0[i]);
    }
}

/// Type-checking keeps each statement's bindings: a well-scoped module that
/// type-checks, whose bodies bind each symbol once, is typed to bodies that bind each
/// symbol once.
pub proof fn lemma_typed_binds_once(r: ResolvedModule, t: TModule)
    requires
        module_ids_ok(r),
        forall|i: int| 0 <= i < r.txns@.len() ==> well_scoped(#[trigger] r.txns@[i].stmts@),
        forall|i: int| 0 <= i < r.txns@.len() ==> resolved_binds_once(#[trigger] r.txns@[i].stmts@),
        typeck_ok(r),
        typed_from(t, r),
    ensures
        forall|i: int| 0 <= i < t.txns@.len() ==> binds_once(#[trigger] t.txns@[i].stmts@),
{
    assert forall|i: int| 0 <= i < t.txns@.len() implies binds_once(#[trigger] t.txns@[i].stmts@) by {
        let ss = r.txns@[i].stmts@;
        assert(txn_checks(ss, r.accounts@, r.currencies@, r.rates@));
        assert(well_scoped(r.txns@[i].stmts@));
        assert(resolved_binds_once(r.txns@[i].stmts@));
        assert forall|j: int| 0 <= j < ss.len() implies stmt_ids_ok(
            #[trigger] ss[j],
            r.accounts@.len(),
            r.rates@.len(),
        ) by {
            assert(stmt_ids_ok(r.txns@[i].stmts@[j], r.accounts@.len(), r.rates@.len()));
        }
        lemma_tc_stmts_exact(ss, r.accounts@, r.currencies@, r.rates@);
        let ts = t.txns@[i].stmts@;
        assert(ts == tc_stmts(ss, empty_ctx(), r.accounts@, r.currencies@, r.rates@).0);
        assert forall|a: int, b: int, s: SymbolId|
            0 <= a < b < ts.len() && #[trigger] tstmt_binds(ts[a], s) implies !#[trigger] tstmt_binds(
            ts[b],
            s,
        ) by {
            assert(same_binds(ts[a], ss[a]));
            assert(same_binds(ts[b], ss[b]));
            assert(stmt_binds(ss[a], s));
            assert(!stmt_binds(ss[b], s));
        }
        assert forall|j: int| 0 <= j < ts.len() implies binds_distinct(#[trigger] ts[j]) by {
            assert(same_binds(ts[j], ss[j]));
            assert(resolved_binds_distinct(ss[j]));
        }
    }
}

// ---------------------------------------------------------------------------------
// Currencies never mix

/// The currency of a typed money expression, given each bound symbol's currency.
pub open spec fn texpr_currency(
    e: TMoneyExpr,
    cur: Map<SymbolId, CurrencyId>,
    accounts: Seq<AccountInfo>,
) -> CurrencyId
    decreases e,
{
    match e {
        TMoneyExpr::Credit { account, .. } => accounts[account.0 as int].currency,
        TMoneyExpr::Var { symbol } => cur[symbol],
        TMoneyExpr::Merge { a, .. } => texpr_currency(*a, cur, accounts),
    }
}

/// Every variable of `e` has a currency and every `merge` in it joins two values of
/// one currency.
pub open spec fn texpr_one_currency(
    e: TMoneyExpr,
    cur: Map<SymbolId, CurrencyId>,
    accounts: Seq<AccountInfo>,
) -> bool
    decreases e,
{
    match e {
        TMoneyExpr::Credit { .. } => true,
        TMoneyExpr::Var { symbol } => cur.contains_key(symbol),
        TMoneyExpr::Merge { a, b } => texpr_one_currency(*a, cur, accounts) && texpr_one_currency(
            *b,
            cur,
            accounts,
        ) && texpr_currency(*a, cur, accounts) == texpr_currency(*b, cur, accounts),
    }
}

/// Each bound symbol's currency after a statement: what it binds takes the currency of
/// the value it splits or names, or the target currency of its rate.
pub open spec fn tstmt_currencies(
    st: TStmt,
    cur: Map<SymbolId, CurrencyId>,
    accounts: Seq<AccountInfo>,
    rates: Seq<RateInfo>,
) -> Map<SymbolId, CurrencyId> {
    match st {
        TStmt::Let { symbol, value, .. } => cur.insert(symbol, texpr_currency(value, cur, accounts)),
        TStmt::Convert { primary, residual, rate, .. } => cur.insert(primary, rates[rate.0 as int].to).insert(
            residual,
            rates[rate.0 as int].to,
        ),
        TStmt::Split { a, b, money, .. } => cur.insert(a, texpr_currency(money, cur, accounts)).insert(
            b,
            texpr_currency(money, cur, accounts),
        ),
        TStmt::SplitRatio { a, b, money, .. } => cur.insert(a, texpr_currency(money, cur, accounts)).insert(
            b,
            texpr_currency(money, cur, accounts),
        ),
        _ => cur,
    }
}

/// A statement keeps currencies apart: its expression does, a debit or absorb goes to
/// an account of the value's currency, a conversion starts from its rate's source
/// currency, and a split names the currency it splits.
pub open spec fn tstmt_one_currency(
    st: TStmt,
    cur: Map<SymbolId, CurrencyId>,
    accounts: Seq<AccountInfo>,
    rates: Seq<RateInfo>,
) -> bool {
    match st {
        TStmt::Let { value, .. } => texpr_one_currency(value, cur, accounts),
        TStmt::Convert { money, rate, .. } => texpr_one_currency(money, cur, accounts) && texpr_currency(
            money,
            cur,
            accounts,
        ) == rates[rate.0 as int].from,
        TStmt::Debit { account, value, .. } => texpr_one_currency(value, cur, accounts) && texpr_currency(
            value,
            cur,
            accounts,
        ) == accounts[account.0 as int].currency,
        TStmt::Absorb { residual, account, .. } => cur.contains_key(residual) && cur[residual]
            == accounts[account.0 as int].currency,
        TStmt::Split { money, currency, .. } => texpr_one_currency(money, cur, accounts) && texpr_currency(
            money,
            cur,
            accounts,
        ) == currency,
        TStmt::SplitRatio { money, .. } => texpr_one_currency(money, cur, accounts),
    }
}

/// Walking a body's currencies from `cur`: whether every statement keeps currencies
/// apart, and each bound symbol's currency at the end.
pub open spec fn tstmts_currencies(
    ss: Seq<TStmt>,
    cur: Map<SymbolId, CurrencyId>,
    accounts: Seq<AccountInfo>,
    rates: Seq<RateInfo>,
) -> (bool, Map<SymbolId, CurrencyId>)
    decreases ss.len(),
{
    if ss.len() == 0 {
        (true, cur)
    } else {
        let p = tstmts_currencies(ss.drop_last(), cur, accounts, rates);
        (
            p.0 && tstmt_one_currency(ss.last(), p.1, accounts, rates),
            tstmt_currencies(ss.last(), p.1, accounts, rates),
        )
    }
}

/// Γ's live bindings carry the currencies the walk gives them.
pub open spec fn agrees(ctx: CtxView, cur: Map<SymbolId, CurrencyId>) -> bool {
    forall|s: SymbolId| #[trigger] ctx.0.contains_key(s) ==> cur.contains_key(s) && cur[s] == ctx.0[s].currency
}

proof fn lemma_tc_expr_currency(
    e: ResolvedMoneyExpr,
    ctx: CtxView,
    cur: Map<SymbolId, CurrencyId>,
    accounts: Seq<AccountInfo>,
    currencies: Seq<CurrencyInfo>,
)
    requires
        agrees(ctx, cur),
    ensures
        agrees(tc_expr(e, ctx, accounts, currencies).1, cur),
        tc_expr(e, ctx, accounts, currencies).0 matches Some((te, c, _)) ==> texpr_currency(te, cur, accounts)
            == c && texpr_one_currency(te, cur, accounts),
    decreases e,
{
    lemma_tc_expr_shrinks(e, ctx, accounts, currencies);
    match e {
        ResolvedMoneyExpr::Merge { a, b, .. } => {
            let ra = tc_expr(*a, ctx, accounts, currencies);
            lemma_tc_expr_currency(*a, ctx, cur, accounts, currencies);
            lemma_tc_expr_currency(*b, ra.1, cur, accounts, currencies);
        },
        _ => {},
    }
}

proof fn lemma_agrees_bind(
    ctx: CtxView,
    cur: Map<SymbolId, CurrencyId>,
    symbol: SymbolId,
    binding_span: Span,
    currency_span: Span,
    currency: CurrencyId,
    kind: BindingKind,
)
    requires
        agrees(ctx, cur),
    ensures
        agrees(
            bind_spec(ctx, symbol, binding_span, currency_span, currency, kind),
            cur.insert(symbol, currency),
        ),
{
}

/// A statement that type-checks keeps currencies apart, and the walk keeps agreeing
/// with Γ.
#[verifier::spinoff_prover]
#[verifier::rlimit(40)]
proof fn lemma_tc_stmt_currency(
    st: ResolvedStmt,
    ctx: CtxView,
    cur: Map<SymbolId, CurrencyId>,
    accounts: Seq<AccountInfo>,
    currencies: Seq<CurrencyInfo>,
    rates: Seq<RateInfo>,
)
    requires
        agrees(ctx, cur),
    ensures
        match tc_stmt(st, ctx, accounts, currencies, rates).0 {
            Some(ts) => tstmt_one_currency(ts, cur, accounts, rates) && agrees(
                tc_stmt(st, ctx, accounts, currencies, rates).1,
                tstmt_currencies(ts, cur, accounts, rates),
            ),
            None => agrees(tc_stmt(st, ctx, accounts, currencies, rates).1, cur),
        },
{
    match st {
        ResolvedStmt::Let { symbol, name_span, value, .. } => {
            lemma_tc_expr_currency(value, ctx, cur, accounts, currencies);
            let r = tc_expr(value, ctx, accounts, currencies);
            if let Some((v, c, cs)) = r.0 {
                lemma_agrees_bind(r.1, cur, symbol, name_span, cs, c, BindingKind::Money);
            }
        },
        ResolvedStmt::Convert { primary, primary_span, residual, residual_span, money, rate, span } => {
            lemma_tc_expr_currency(money, ctx, cur, accounts, currencies);
            let r = tc_expr(money, ctx, accounts, currencies);
            let ri = rates[rate.0 as int];
            lemma_agrees_bind(r.1, cur, primary, primary_span, span, ri.to, BindingKind::Money);
            let c1 = bind_spec(r.1, primary, primary_span, span, ri.to, BindingKind::Money);
            lemma_agrees_bind(
                c1,
                cur.insert(primary, ri.to),
                residual,
                residual_span,
                span,
                ri.to,
                BindingKind::Residue,
            );
        },
        ResolvedStmt::Debit { value, .. } => {
            lemma_tc_expr_currency(value, ctx, cur, accounts, currencies);
        },
        ResolvedStmt::Absorb { residue, .. } => {
            if ctx.0.contains_key(residue) {
                let c2 = tc_stmt(st, ctx, accounts, currencies, rates).1;
                assert forall|s: SymbolId| #[trigger] c2.0.contains_key(s) implies cur.contains_key(s)
                    && cur[s] == c2.0[s].currency by {
                    assert(ctx.0.contains_key(s));
                }
            }
        },
        ResolvedStmt::Split { a, a_span, b, b_span, money, .. } => {
            lemma_tc_expr_currency(money, ctx, cur, accounts, currencies);
            let r = tc_expr(money, ctx, accounts, currencies);
            if let Some((m, mc, cs)) = r.0 {
                lemma_agrees_bind(r.1, cur, a, a_span, cs, mc, BindingKind::Money);
                let c1 = bind_spec(r.1, a, a_span, cs, mc, BindingKind::Money);
                lemma_agrees_bind(c1, cur.insert(a, mc), b, b_span, cs, mc, BindingKind::Money);
            }
        },
        ResolvedStmt::SplitRatio { a, a_span, b, b_span, money, .. } => {
            lemma_tc_expr_currency(money, ctx, cur, accounts, currencies);
            let r = tc_expr(money, ctx, accounts, currencies);
            if let Some((m, mc, cs)) = r.0 {
                lemma_agrees_bind(r.1, cur, a, a_span, cs, mc, BindingKind::Money);
                let c1 = bind_spec(r.1, a, a_span, cs, mc, BindingKind::Money);
                lemma_agrees_bind(c1, cur.insert(a, mc), b, b_span, cs, mc, BindingKind::Money);
            }
        },
    }
}

/// Whatever a body type-checks to keeps currencies apart.
proof fn lemma_tc_stmts_currency(
    ss: Seq<ResolvedStmt>,
    accounts: Seq<AccountInfo>,
    currencies: Seq<CurrencyInfo>,
    rates: Seq<RateInfo>,
)
    ensures
        tstmts_currencies(tc_stmts(ss, empty_ctx(), accounts, currencies, rates).0, Map::empty(), accounts, rates).0,
        agrees(
            tc_stmts(ss, empty_ctx(), accounts, currencies, rates).1,
            tstmts_currencies(tc_stmts(ss, empty_ctx(), accounts, currencies, rates).0, Map::empty(), accounts, rates).1,
        ),
    decreases ss.len(),
{
    reveal(tc_stmts);
    if ss.len() > 0 {
        let prev = ss.drop_last();
        lemma_tc_stmts_currency(prev, accounts, currencies, rates);
        let p = tc_stmts(prev, empty_ctx(), accounts, currencies, rates);
        let w = tstmts_currencies(p.0, Map::empty(), accounts, rates);
        lemma_tc_stmt_currency(ss.last(), p.1, w.1, accounts, currencies, rates);
        let r = tc_stmt(ss.last(), p.1, accounts, currencies, rates);
        if r.0 is Some {
            assert(p.0.push(r.0->0).drop_last() =~= p.0);
        }
    }
}

/// Currencies never mix in a typed module: in every body, every `merge` joins two
/// values of one currency, every debit and absorb goes to an account of the value's
/// currency, and every conversion starts from its rate's source currency.
pub proof fn lemma_typed_txn_currencies_agree(r: ResolvedModule, t: TModule)
    requires
        typed_from(t, r),
    ensures
        forall|i: int|
            0 <= i < t.txns@.len() ==> tstmts_currencies(
                #[trigger] t.txns@[i].stmts@,
                Map::empty(),
                t.accounts@,
                t.rates@,
            ).0,
{
    assert forall|i: int| 0 <= i < t.txns@.len() implies tstmts_currencies(
        #[trigger] t.txns@[i].stmts@,
        Map::empty(),
        t.accounts@,
        t.rates@,
    ).0 by {
        lemma_tc_stmts_currency(r.txns@[i].stmts@, r.accounts@, r.currencies@, r.rates@);
    }
}

} // verus!
