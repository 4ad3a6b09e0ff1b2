//! `ast::Module` -> id-resolved names. No linearity or currency-*matching* checking
//! yet (that is `typeck`'s job); this stage answers four name-resolution questions:
//! which currency a name refers to, which declared account a path refers to, which
//! declared rate a name refers to, and which `let` (or pair) binding a name refers to —
//! rejecting a name that refers to nothing in each case.
//!
//! Currencies, accounts, and rates are resolved once, module-wide, before any
//! transaction body is walked. Each table keeps a name's first declaration; a later
//! one with the same name is reported and dropped. Ids are positions in these tables.
//!
//! Scope inside a transaction body is flat and per-transaction, and shadowing is
//! allowed: a second `let` with a reused name makes later references resolve to the
//! new binding. Symbols are numbered across the whole module, in binding order, so no
//! two bindings ever share one.
//!
//! `resolve_stmts_spec` and `resolve_txns_spec` state this resolution directly over
//! the syntax tree; `resolve` computes exactly it.

use vstd::prelude::*;
use crate::amount::{parse_fixed_point, spec_parse_fixed_point};
use crate::diag::{code_spans, Code, Diagnostic};
use crate::lex::Token;
use crate::parse::ast::{self, AccountPath, DecimalLiteral, NormalBalance};
use crate::parse::{count_kind, decls_pats, module_parsed_as, stmt_pats, stmts_pats, DeclKind};
use crate::span::Span;
use crate::text::{push_str, string_eq};

verus! {

#[derive(Debug, Clone, Copy, PartialEq, Eq, Structural, Hash, PartialOrd, Ord)]
pub struct SymbolId(pub u32);

#[derive(Debug, Clone, Copy, PartialEq, Eq, Structural, Hash, PartialOrd, Ord)]
pub struct CurrencyId(pub u32);

#[derive(Debug, Clone, Copy, PartialEq, Eq, Structural, Hash, PartialOrd, Ord)]
pub struct AccountId(pub u32);

#[derive(Debug, Clone, Copy, PartialEq, Eq, Structural, Hash, PartialOrd, Ord)]
pub struct RateId(pub u32);

pub struct CurrencyInfo {
    pub name: String,
    pub scale: u32,
}

pub struct AccountInfo {
    /// Rendered form, e.g. `"assets:cash"` — used in diagnostics and reports.
    pub path: String,
    pub currency: CurrencyId,
    /// Report-time category — drives the report's section order.
    pub kind: AccountKind,
    /// Which side of an entry this account's balance is conventionally displayed
    /// positive on — independent of `kind`, so a contra account is representable.
    pub normal: NormalBalance,
}

/// The five closed report categories an `account` declaration's `kind` may name.
#[derive(Debug, Clone, Copy, PartialEq, Eq, Structural)]
pub enum AccountKind {
    Asset,
    Liability,
    Equity,
    Income,
    Expense,
}

/// A declared conversion rate: its literal split into an integer `numerator` and the
/// number of fraction digits it was written with (`scale`).
pub struct RateInfo {
    pub name: String,
    pub from: CurrencyId,
    pub to: CurrencyId,
    pub numerator: i64,
    pub scale: u32,
}

pub struct ResolvedModule {
    pub currencies: Vec<CurrencyInfo>,
    pub accounts: Vec<AccountInfo>,
    pub rates: Vec<RateInfo>,
    pub txns: Vec<ResolvedTxn>,
}

pub struct ResolvedTxn {
    pub name: String,
    pub stmts: Vec<ResolvedStmt>,
    pub span: Span,
}

pub enum ResolvedStmt {
    Let { symbol: SymbolId, name_span: Span, value: ResolvedMoneyExpr, span: Span },
    /// `let (primary, residual) = convert(money, rate);`
    Convert {
        primary: SymbolId,
        primary_span: Span,
        residual: SymbolId,
        residual_span: Span,
        money: ResolvedMoneyExpr,
        rate: RateId,
        span: Span,
    },
    Debit { account: AccountId, value: ResolvedMoneyExpr, span: Span },
    /// `absorb(residue, account);` — `residue` is resolved the way a `Var` is; which
    /// kind of binding it names is checked by `typeck`.
    Absorb { residue: SymbolId, residue_span: Span, account: AccountId, span: Span },
    /// `let (a, b) = split(money, amount);` — `amount` stays a raw literal: lowering it
    /// needs the scale of `money`'s currency, which `typeck` determines.
    Split {
        a: SymbolId,
        a_span: Span,
        b: SymbolId,
        b_span: Span,
        money: ResolvedMoneyExpr,
        amount: DecimalLiteral,
        span: Span,
    },
    /// `let (a, b) = split_ratio(money, a_weight, b_weight);`
    SplitRatio {
        a: SymbolId,
        a_span: Span,
        b: SymbolId,
        b_span: Span,
        money: ResolvedMoneyExpr,
        a_weight: u32,
        a_weight_span: Span,
        b_weight: u32,
        b_weight_span: Span,
        span: Span,
    },
}

pub enum ResolvedMoneyExpr {
    Credit { account: AccountId, amount: DecimalLiteral, span: Span },
    Var { symbol: SymbolId, span: Span },
    /// `merge(a, b)`: both sides are resolved in the same scope, in order.
    Merge { a: Box<ResolvedMoneyExpr>, b: Box<ResolvedMoneyExpr>, span: Span },
}

// ---------------------------------------------------------------------------------
// Name lookup

/// The first position at or after `k` holding `name`.
pub open spec fn find_from(names: Seq<Seq<char>>, name: Seq<char>, k: int) -> Option<nat>
    decreases names.len() - k,
{
    if k < 0 || k >= names.len() {
        None
    } else if names[k] == name {
        Some(k as nat)
    } else {
        find_from(names, name, k + 1)
    }
}

/// The first position holding `name`.
pub open spec fn find_name(names: Seq<Seq<char>>, name: Seq<char>) -> Option<nat> {
    find_from(names, name, 0)
}

pub proof fn lemma_find_from(names: Seq<Seq<char>>, name: Seq<char>, k: int)
    requires
        0 <= k <= names.len(),
    ensures
        find_from(names, name, k) matches Some(i) ==> k <= i < names.len() && names[i as int]
            == name && forall|j: int| k <= j < i ==> names[j] != name,
        find_from(names, name, k) is None ==> forall|j: int| k <= j < names.len() ==> names[j]
            != name,
    decreases names.len() - k,
{
    if k < names.len() {
        lemma_find_from(names, name, k + 1);
    }
}

/// Looking a name up after one more entry: the old answer if there was one, else the
/// new entry if it matches.
pub proof fn lemma_find_push(names: Seq<Seq<char>>, name: Seq<char>, x: Seq<char>)
    ensures
        find_name(names.push(x), name) == (if find_name(names, name) is Some {
            find_name(names, name)
        } else if x == name {
            Some(names.len())
        } else {
            None
        }),
{
    let p = names.push(x);
    lemma_find_from(names, name, 0);
    lemma_find_from(p, name, 0);
    match find_name(names, name) {
        Some(i) => {
            assert(p[i as int] == name);
            match find_name(p, name) {
                Some(k) => {
                    if k < i {
                        assert(p[k as int] == names[k as int]);
                    }
                    if k > i {
                        assert(p[i as int] != name);
                    }
                },
                None => {
                    assert(p[i as int] != name);
                },
            }
        },
        None => {
            match find_name(p, name) {
                Some(k) => {
                    if k < names.len() {
                        assert(p[k as int] == names[k as int]);
                    }
                },
                None => {
                    if x == name {
                        assert(p[names.len() as int] == name);
                    }
                },
            }
        },
    }
}

/// The names of a `(name, first-declared-at)` table.
pub open spec fn table_names(t: Seq<(String, Span)>) -> Seq<Seq<char>> {
    t.map_values(|e: (String, Span)| e.0@)
}

/// The position of `name` in the table (the first, if several).
fn find_in_table(table: &Vec<(String, Span)>, name: &String) -> (r: Option<usize>)
    ensures
        match r {
            Some(i) => find_name(table_names(table@), name@) == Some(i as nat) && i
                < table@.len(),
            None => find_name(table_names(table@), name@) is None,
        },
{
    let ghost names = table_names(table@);
    let mut i: usize = 0;
    while i < table.len()
        invariant
            i <= table@.len(),
            names == table_names(table@),
            find_name(names, name@) == find_from(names, name@, i as int),
        decreases table@.len() - i,
    {
        if string_eq(&table[i].0, name) {
            return Some(i);
        }
        i = i + 1;
    }
    None
}

/// A scope as contracts see it: each binding's name and symbol, oldest first.
pub open spec fn scope_view(s: Seq<(String, SymbolId)>) -> Seq<(Seq<char>, SymbolId)> {
    s.map_values(|e: (String, SymbolId)| (e.0@, e.1))
}

/// The symbol of the latest binding of `name`.
pub open spec fn scope_lookup(scope: Seq<(Seq<char>, SymbolId)>, name: Seq<char>) -> Option<
    SymbolId,
>
    decreases scope.len(),
{
    if scope.len() == 0 {
        None
    } else if scope.last().0 == name {
        Some(scope.last().1)
    } else {
        scope_lookup(scope.drop_last(), name)
    }
}

fn lookup_scope(scope: &Vec<(String, SymbolId)>, name: &String) -> (r: Option<SymbolId>)
    ensures
        r == scope_lookup(scope_view(scope@), name@),
{
    let ghost sv = scope_view(scope@);
    let mut i: usize = scope.len();
    proof {
        assert(sv.take(i as int) =~= sv);
    }
    while i > 0
        invariant
            i <= scope@.len(),
            sv == scope_view(scope@),
            scope_lookup(sv, name@) == scope_lookup(sv.take(i as int), name@),
        decreases i,
    {
        proof {
            assert(sv.take(i as int).drop_last() =~= sv.take(i - 1));
        }
        if string_eq(&scope[i - 1].0, name) {
            return Some(scope[i - 1].1);
        }
        i = i - 1;
    }
    None
}

// ---------------------------------------------------------------------------------
// Module-wide tables

/// The currency declarations that take effect: each name's first declaration.
pub open spec fn kept_currencies(decls: Seq<ast::CurrencyDecl>) -> Seq<ast::CurrencyDecl>
    decreases decls.len(),
{
    if decls.len() == 0 {
        Seq::empty()
    } else {
        let t = kept_currencies(decls.drop_last());
        if find_name(currency_names(t), decls.last().name@) is Some {
            t
        } else {
            t.push(decls.last())
        }
    }
}

pub open spec fn currency_names(t: Seq<ast::CurrencyDecl>) -> Seq<Seq<char>> {
    t.map_values(|d: ast::CurrencyDecl| d.name@)
}

/// The kind an account declaration's `kind` text names, if it is one of the five.
pub open spec fn account_kind_of(text: Seq<char>) -> Option<AccountKind> {
    if text == "asset"@ {
        Some(AccountKind::Asset)
    } else if text == "liability"@ {
        Some(AccountKind::Liability)
    } else if text == "equity"@ {
        Some(AccountKind::Equity)
    } else if text == "income"@ {
        Some(AccountKind::Income)
    } else if text == "expense"@ {
        Some(AccountKind::Expense)
    } else {
        None
    }
}

/// The account declarations that take effect, each with its currency's position and
/// its kind: a path's first declaration, when its currency is declared and its kind is
/// one of the five.
pub open spec fn kept_accounts(decls: Seq<ast::AccountDecl>, currencies: Seq<Seq<char>>) -> Seq<
    (ast::AccountDecl, nat, AccountKind),
>
    decreases decls.len(),
{
    if decls.len() == 0 {
        Seq::empty()
    } else {
        let t = kept_accounts(decls.drop_last(), currencies);
        let d = decls.last();
        if find_name(account_paths(t), d.path.text()) is Some {
            t
        } else {
            match (find_name(currencies, d.currency@), account_kind_of(d.kind@)) {
                (Some(c), Some(k)) => t.push((d, c, k)),
                _ => t,
            }
        }
    }
}

pub open spec fn account_paths(t: Seq<(ast::AccountDecl, nat, AccountKind)>) -> Seq<Seq<char>> {
    t.map_values(|e: (ast::AccountDecl, nat, AccountKind)| e.0.path.text())
}

/// The rate declarations that take effect, each with its two currencies' positions
/// and its literal split into numerator and fraction digits: a name's first
/// declaration, when both currencies are declared and the literal fits.
pub open spec fn kept_rates(decls: Seq<ast::RateDecl>, currencies: Seq<Seq<char>>) -> Seq<
    (ast::RateDecl, nat, nat, (i64, u32)),
>
    decreases decls.len(),
{
    if decls.len() == 0 {
        Seq::empty()
    } else {
        let t = kept_rates(decls.drop_last(), currencies);
        let d = decls.last();
        if find_name(rate_names(t), d.name@) is Some {
            t
        } else {
            match (
                find_name(currencies, d.from@),
                find_name(currencies, d.to@),
                spec_parse_fixed_point(d.value.text@),
            ) {
                (Some(f), Some(to), Some(v)) => t.push((d, f, to, v)),
                _ => t,
            }
        }
    }
}

pub open spec fn rate_names(t: Seq<(ast::RateDecl, nat, nat, (i64, u32))>) -> Seq<Seq<char>> {
    t.map_values(|e: (ast::RateDecl, nat, nat, (i64, u32))| e.0.name@)
}

// ---------------------------------------------------------------------------------
// Which diagnostics resolution raises: each one's code and span

/// The currency declarations' diagnostics, in order: each repeated name, at the repeat.
pub open spec fn currency_decls_diags(decls: Seq<ast::CurrencyDecl>) -> Seq<(Code, Span)>
    decreases decls.len(),
{
    if decls.len() == 0 {
        Seq::empty()
    } else {
        let prev = currency_decls_diags(decls.drop_last());
        let d = decls.last();
        if find_name(currency_names(kept_currencies(decls.drop_last())), d.name@) is Some {
            prev.push((Code::DuplicateCurrency, d.name_span))
        } else {
            prev
        }
    }
}

/// The account declarations' diagnostics, in order: a repeated path, else an unknown
/// currency, else an unknown kind.
pub open spec fn account_decls_diags(decls: Seq<ast::AccountDecl>, currencies: Seq<Seq<char>>) -> Seq<
    (Code, Span),
>
    decreases decls.len(),
{
    if decls.len() == 0 {
        Seq::empty()
    } else {
        let prev = account_decls_diags(decls.drop_last(), currencies);
        let d = decls.last();
        if find_name(account_paths(kept_accounts(decls.drop_last(), currencies)), d.path.text()) is Some {
            prev.push((Code::DuplicateAccount, d.path.span))
        } else if find_name(currencies, d.currency@) is None {
            prev.push((Code::UnknownCurrency, d.currency_span))
        } else if account_kind_of(d.kind@) is None {
            prev.push((Code::UnknownAccountKind, d.kind_span))
        } else {
            prev
        }
    }
}

/// The rate declarations' diagnostics, in order: a repeated name, else an unknown
/// source currency, else an unknown target currency, else a value too large.
pub open spec fn rate_decls_diags(decls: Seq<ast::RateDecl>, currencies: Seq<Seq<char>>) -> Seq<
    (Code, Span),
>
    decreases decls.len(),
{
    if decls.len() == 0 {
        Seq::empty()
    } else {
        let prev = rate_decls_diags(decls.drop_last(), currencies);
        let d = decls.last();
        if find_name(rate_names(kept_rates(decls.drop_last(), currencies)), d.name@) is Some {
            prev.push((Code::DuplicateRate, d.name_span))
        } else if find_name(currencies, d.from@) is None {
            prev.push((Code::UnknownCurrency, d.from_span))
        } else if find_name(currencies, d.to@) is None {
            prev.push((Code::UnknownCurrency, d.to_span))
        } else if spec_parse_fixed_point(d.value.text@) is None {
            prev.push((Code::AmountOutOfRange, d.value.span))
        } else {
            prev
        }
    }
}

/// Diagnostics only ever appended: the old ones stay, in place.
pub open spec fn appended(old_d: Seq<Diagnostic>, new_d: Seq<Diagnostic>) -> bool {
    &&& old_d.len() <= new_d.len()
    &&& forall|i: int| 0 <= i < old_d.len() ==> new_d[i] == old_d[i]
}

fn resolve_currencies(decls: Vec<ast::CurrencyDecl>, diags: &mut Vec<Diagnostic>) -> (r: (
    Vec<CurrencyInfo>,
    Vec<(String, Span)>,
))
    requires
        decls@.len() < u32::MAX,
    ensures
        r.0@.len() == r.1@.len() == kept_currencies(decls@).len(),
        forall|i: int|
            0 <= i < r.0@.len() ==> {
                let d = #[trigger] kept_currencies(decls@)[i];
                &&& r.0@[i].name@ == d.name@
                &&& r.0@[i].scale == d.scale
                &&& r.1@[i].0@ == d.name@
                &&& r.1@[i].1 == d.name_span
            },
        appended(old(diags)@, final(diags)@),
        final(diags)@.len() == old(diags)@.len() + decls@.len() - kept_currencies(decls@).len(),
        code_spans(final(diags)@) == code_spans(old(diags)@) + currency_decls_diags(decls@),
{
    let ghost all = decls@;
    let mut currencies: Vec<CurrencyInfo> = Vec::new();
    let mut ids: Vec<(String, Span)> = Vec::new();
    let ghost d0 = diags@;
    for decl in it: decls.into_iter()
        invariant
            it.seq() == all,
            all.len() < u32::MAX,
            currencies@.len() == ids@.len() == kept_currencies(all.take(it.index() as int)).len(),
            currencies@.len() <= it.index(),
            forall|i: int|
                0 <= i < currencies@.len() ==> {
                    let d = #[trigger] kept_currencies(all.take(it.index() as int))[i];
                    &&& currencies@[i].name@ == d.name@
                    &&& currencies@[i].scale == d.scale
                    &&& ids@[i].0@ == d.name@
                    &&& ids@[i].1 == d.name_span
                },
            appended(d0, diags@),
            diags@.len() == d0.len() + it.index() - currencies@.len(),
            code_spans(diags@) == code_spans(d0) + currency_decls_diags(all.take(it.index() as int)),
    {
        let ghost k = it.index() as int;
        let ghost prev = kept_currencies(all.take(k));
        proof {
            assert(all.take(k + 1).drop_last() =~= all.take(k));
            assert(all.take(k + 1).last() == decl);
            assert(table_names(ids@) =~= currency_names(prev));
        }
        match find_in_table(&ids, &decl.name) {
            Some(i) => {
                let mut msg = String::from_str("currency '");
                push_str(&mut msg, decl.name.as_str());
                push_str(&mut msg, "' is already declared");
                let d = Diagnostic::new(Code::DuplicateCurrency, msg.as_str(), decl.name_span)
                    .with_secondary("first declared here", ids[i].1);
                let ghost before = diags@;
                diags.push(d);
                proof {
                    assert(code_spans(diags@) =~= code_spans(before).push((d.code, d.span)));
                }
            },
            None => {
                let id_name = decl.name.clone();
                let ghost before = currencies@;
                ids.push((id_name, decl.name_span));
                currencies.push(CurrencyInfo { name: decl.name, scale: decl.scale });
                proof {
                    let cur = kept_currencies(all.take(k + 1));
                    assert(cur == prev.push(decl));
                    assert forall|i: int| 0 <= i < currencies@.len() implies {
                        let d = #[trigger] kept_currencies(all.take(k + 1))[i];
                        &&& currencies@[i].name@ == d.name@
                        &&& currencies@[i].scale == d.scale
                        &&& ids@[i].0@ == d.name@
                        &&& ids@[i].1 == d.name_span
                    } by {
                        if i < before.len() {
                            assert(cur[i] == prev[i]);
                        }
                    }
                }
            },
        }
    }
    proof {
        assert(all.take(all.len() as int) =~= all);
    }
    (currencies, ids)
}

/// Matches an `account` declaration's `kind` text against the five closed values.
fn resolve_account_kind(text: &String, span: Span, diags: &mut Vec<Diagnostic>) -> (r: Option<
    AccountKind,
>)
    ensures
        r == account_kind_of(text@),
        r is Some ==> final(diags)@ == old(diags)@,
        r is None ==> final(diags)@ == old(diags)@.push(final(diags)@.last())
            && final(diags)@.last().code == Code::UnknownAccountKind
            && final(diags)@.last().span == span
            && final(diags)@.last().message@ == "no such account kind '"@ + text@
            + "' (expected one of: asset, liability, equity, income, expense)"@,
{
    let t = text.as_str();
    proof {
        reveal_strlit("asset");
        reveal_strlit("liability");
        reveal_strlit("equity");
        reveal_strlit("income");
        reveal_strlit("expense");
    }
    if str_eq(t, "asset") {
        Some(AccountKind::Asset)
    } else if str_eq(t, "liability") {
        Some(AccountKind::Liability)
    } else if str_eq(t, "equity") {
        Some(AccountKind::Equity)
    } else if str_eq(t, "income") {
        Some(AccountKind::Income)
    } else if str_eq(t, "expense") {
        Some(AccountKind::Expense)
    } else {
        let mut msg = String::from_str("no such account kind '");
        push_str(&mut msg, t);
        push_str(&mut msg, "' (expected one of: asset, liability, equity, income, expense)");
        diags.push(Diagnostic::new(Code::UnknownAccountKind, msg.as_str(), span));
        None
    }
}

/// The two strings hold the same characters.
fn str_eq(a: &str, b: &str) -> (r: bool)
    ensures
        r == (a@ == b@),
{
    let x = String::from_str(a);
    let y = String::from_str(b);
    string_eq(&x, &y)
}

fn resolve_accounts(
    decls: Vec<ast::AccountDecl>,
    currency_ids: &Vec<(String, Span)>,
    diags: &mut Vec<Diagnostic>,
) -> (r: (Vec<AccountInfo>, Vec<(String, Span)>))
    requires
        decls@.len() < u32::MAX,
        currency_ids@.len() < u32::MAX,
    ensures
        r.0@.len() == r.1@.len() == kept_accounts(decls@, table_names(currency_ids@)).len(),
        forall|i: int|
            0 <= i < r.0@.len() ==> {
                let e = #[trigger] kept_accounts(decls@, table_names(currency_ids@))[i];
                &&& r.0@[i].path@ == e.0.path.text()
                &&& r.0@[i].currency == CurrencyId(e.1 as u32)
                &&& r.0@[i].kind == e.2
                &&& r.0@[i].normal == e.0.normal
                &&& r.1@[i].0@ == e.0.path.text()
                &&& r.1@[i].1 == e.0.path.span
            },
        appended(old(diags)@, final(diags)@),
        final(diags)@.len() == old(diags)@.len() + decls@.len() - kept_accounts(
            decls@,
            table_names(currency_ids@),
        ).len(),
        code_spans(final(diags)@) == code_spans(old(diags)@) + account_decls_diags(
            decls@,
            table_names(currency_ids@),
        ),
{
    let ghost all = decls@;
    let ghost cn = table_names(currency_ids@);
    let mut accounts: Vec<AccountInfo> = Vec::new();
    let mut ids: Vec<(String, Span)> = Vec::new();
    let ghost d0 = diags@;
    for decl in it: decls.into_iter()
        invariant
            it.seq() == all,
            all.len() < u32::MAX,
            cn == table_names(currency_ids@),
            currency_ids@.len() < u32::MAX,
            accounts@.len() == ids@.len() == kept_accounts(all.take(it.index() as int), cn).len(),
            accounts@.len() <= it.index(),
            forall|i: int|
                0 <= i < accounts@.len() ==> {
                    let e = #[trigger] kept_accounts(all.take(it.index() as int), cn)[i];
                    &&& accounts@[i].path@ == e.0.path.text()
                    &&& accounts@[i].currency == CurrencyId(e.1 as u32)
                    &&& accounts@[i].kind == e.2
                    &&& accounts@[i].normal == e.0.normal
                    &&& ids@[i].0@ == e.0.path.text()
                    &&& ids@[i].1 == e.0.path.span
                },
            appended(d0, diags@),
            diags@.len() == d0.len() + it.index() - accounts@.len(),
            code_spans(diags@) == code_spans(d0) + account_decls_diags(all.take(it.index() as int), cn),
    {
        let ghost dk = diags@;
        let ghost k = it.index() as int;
        let ghost prev = kept_accounts(all.take(k), cn);
        proof {
            assert(all.take(k + 1).drop_last() =~= all.take(k));
            assert(all.take(k + 1).last() == decl);
            assert(table_names(ids@) =~= account_paths(prev));
        }
        let path = decl.path.to_string();
        match find_in_table(&ids, &path) {
            Some(i) => {
                let mut msg = String::from_str("account '");
                push_str(&mut msg, path.as_str());
                push_str(&mut msg, "' is already declared");
                let d = Diagnostic::new(Code::DuplicateAccount, msg.as_str(), decl.path.span)
                    .with_secondary("first declared here", ids[i].1);
                diags.push(d);
                proof {
                    assert(code_spans(diags@) =~= code_spans(dk).push((d.code, d.span)));
                }
            },
            None => {
                match find_in_table(currency_ids, &decl.currency) {
                    None => {
                        let mut msg = String::from_str("no currency named '");
                        push_str(&mut msg, decl.currency.as_str());
                        push_str(&mut msg, "' is declared");
                        let d = Diagnostic::new(Code::UnknownCurrency, msg.as_str(), decl.currency_span);
                        diags.push(d);
                        proof {
                            assert(code_spans(diags@) =~= code_spans(dk).push((d.code, d.span)));
                        }
                    },
                    Some(c) => {
                        let ghost dbefore = diags@;
                        match resolve_account_kind(&decl.kind, decl.kind_span, diags) {
                            None => {
                                proof {
                                    assert(code_spans(diags@) =~= code_spans(dk).push(
                                        (diags@.last().code, diags@.last().span),
                                    ));
                                }
                            },
                            Some(kind) => {
                                let ghost before = accounts@;
                                let path_copy = path.clone();
                                ids.push((path_copy, decl.path.span));
                                accounts.push(
                                    AccountInfo {
                                        path,
                                        currency: CurrencyId(c as u32),
                                        kind,
                                        normal: decl.normal,
                                    },
                                );
                                proof {
                                    let cur = kept_accounts(all.take(k + 1), cn);
                                    assert(cur == prev.push((decl, c as nat, kind)));
                                    assert forall|i: int| 0 <= i < accounts@.len() implies {
                                        let e = #[trigger] kept_accounts(all.take(k + 1), cn)[i];
                                        &&& accounts@[i].path@ == e.0.path.text()
                                        &&& accounts@[i].currency == CurrencyId(e.1 as u32)
                                        &&& accounts@[i].kind == e.2
                                        &&& accounts@[i].normal == e.0.normal
                                        &&& ids@[i].0@ == e.0.path.text()
                                        &&& ids@[i].1 == e.0.path.span
                                    } by {
                                        if i < before.len() {
                                            assert(cur[i] == prev[i]);
                                        }
                                    }
                                }
                            },
                        }
                    },
                }
            },
        }
    }
    proof {
        assert(all.take(all.len() as int) =~= all);
    }
    (accounts, ids)
}

fn resolve_rates(
    decls: Vec<ast::RateDecl>,
    currency_ids: &Vec<(String, Span)>,
    diags: &mut Vec<Diagnostic>,
) -> (r: (Vec<RateInfo>, Vec<(String, Span)>))
    requires
        decls@.len() < u32::MAX,
        currency_ids@.len() < u32::MAX,
    ensures
        r.0@.len() == r.1@.len() == kept_rates(decls@, table_names(currency_ids@)).len(),
        forall|i: int|
            0 <= i < r.0@.len() ==> {
                let e = #[trigger] kept_rates(decls@, table_names(currency_ids@))[i];
                &&& r.0@[i].name@ == e.0.name@
                &&& r.0@[i].from == CurrencyId(e.1 as u32)
                &&& r.0@[i].to == CurrencyId(e.2 as u32)
                &&& r.0@[i].numerator == e.3.0
                &&& r.0@[i].scale == e.3.1
                &&& r.1@[i].0@ == e.0.name@
                &&& r.1@[i].1 == e.0.name_span
            },
        appended(old(diags)@, final(diags)@),
        final(diags)@.len() == old(diags)@.len() + decls@.len() - kept_rates(
            decls@,
            table_names(currency_ids@),
        ).len(),
        code_spans(final(diags)@) == code_spans(old(diags)@) + rate_decls_diags(
            decls@,
            table_names(currency_ids@),
        ),
{
    let ghost all = decls@;
    let ghost cn = table_names(currency_ids@);
    let mut rates: Vec<RateInfo> = Vec::new();
    let mut ids: Vec<(String, Span)> = Vec::new();
    let ghost d0 = diags@;
    for decl in it: decls.into_iter()
        invariant
            it.seq() == all,
            all.len() < u32::MAX,
            cn == table_names(currency_ids@),
            currency_ids@.len() < u32::MAX,
            rates@.len() == ids@.len() == kept_rates(all.take(it.index() as int), cn).len(),
            rates@.len() <= it.index(),
            forall|i: int|
                0 <= i < rates@.len() ==> {
                    let e = #[trigger] kept_rates(all.take(it.index() as int), cn)[i];
                    &&& rates@[i].name@ == e.0.name@
                    &&& rates@[i].from == CurrencyId(e.1 as u32)
                    &&& rates@[i].to == CurrencyId(e.2 as u32)
                    &&& rates@[i].numerator == e.3.0
                    &&& rates@[i].scale == e.3.1
                    &&& ids@[i].0@ == e.0.name@
                    &&& ids@[i].1 == e.0.name_span
                },
            appended(d0, diags@),
            diags@.len() == d0.len() + it.index() - rates@.len(),
            code_spans(diags@) == code_spans(d0) + rate_decls_diags(all.take(it.index() as int), cn),
    {
        let ghost dk = diags@;
        let ghost k = it.index() as int;
        let ghost prev = kept_rates(all.take(k), cn);
        proof {
            assert(all.take(k + 1).drop_last() =~= all.take(k));
            assert(all.take(k + 1).last() == decl);
            assert(table_names(ids@) =~= rate_names(prev));
        }
        if let Some(i) = find_in_table(&ids, &decl.name) {
            let mut msg = String::from_str("rate '");
            push_str(&mut msg, decl.name.as_str());
            push_str(&mut msg, "' is already declared");
            let d = Diagnostic::new(Code::DuplicateRate, msg.as_str(), decl.name_span)
                .with_secondary("first declared here", ids[i].1);
            diags.push(d);
            proof {
                assert(code_spans(diags@) =~= code_spans(dk).push((d.code, d.span)));
            }
        } else if let Some(from) = find_in_table(currency_ids, &decl.from) {
            if let Some(to) = find_in_table(currency_ids, &decl.to) {
                if let Some((numerator, scale)) = parse_fixed_point(decl.value.text.as_str()) {
                    let ghost before = rates@;
                    let name_copy = decl.name.clone();
                    ids.push((name_copy, decl.name_span));
                    rates.push(
                        RateInfo {
                            name: decl.name,
                            from: CurrencyId(from as u32),
                            to: CurrencyId(to as u32),
                            numerator,
                            scale,
                        },
                    );
                    proof {
                        let cur = kept_rates(all.take(k + 1), cn);
                        assert(cur == prev.push((decl, from as nat, to as nat, (numerator, scale))));
                        assert forall|i: int| 0 <= i < rates@.len() implies {
                            let e = #[trigger] kept_rates(all.take(k + 1), cn)[i];
                            &&& rates@[i].name@ == e.0.name@
                            &&& rates@[i].from == CurrencyId(e.1 as u32)
                            &&& rates@[i].to == CurrencyId(e.2 as u32)
                            &&& rates@[i].numerator == e.3.0
                            &&& rates@[i].scale == e.3.1
                            &&& ids@[i].0@ == e.0.name@
                            &&& ids@[i].1 == e.0.name_span
                        } by {
                            if i < before.len() {
                                assert(cur[i] == prev[i]);
                            }
                        }
                    }
                } else {
                    let d = Diagnostic::new(
                        Code::AmountOutOfRange,
                        "this rate is too large to represent",
                        decl.value.span,
                    );
                    diags.push(d);
                    proof {
                        assert(code_spans(diags@) =~= code_spans(dk).push((d.code, d.span)));
                    }
                }
            } else {
                let mut msg = String::from_str("no currency named '");
                push_str(&mut msg, decl.to.as_str());
                push_str(&mut msg, "' is declared");
                let d = Diagnostic::new(Code::UnknownCurrency, msg.as_str(), decl.to_span);
                diags.push(d);
                proof {
                    assert(code_spans(diags@) =~= code_spans(dk).push((d.code, d.span)));
                }
            }
        } else {
            let mut msg = String::from_str("no currency named '");
            push_str(&mut msg, decl.from.as_str());
            push_str(&mut msg, "' is declared");
            let d = Diagnostic::new(Code::UnknownCurrency, msg.as_str(), decl.from_span);
            diags.push(d);
            proof {
                assert(code_spans(diags@) =~= code_spans(dk).push((d.code, d.span)));
            }
        }
    }
    proof {
        assert(all.take(all.len() as int) =~= all);
    }
    (rates, ids)
}


// ---------------------------------------------------------------------------------
// Transaction bodies

/// What a money expression resolves to in `scope`, given the declared account paths:
/// `None` when some name in it refers to nothing.
pub open spec fn resolve_expr_spec(
    e: ast::MoneyExpr,
    scope: Seq<(Seq<char>, SymbolId)>,
    accts: Seq<Seq<char>>,
) -> Option<ResolvedMoneyExpr>
    decreases e,
{
    match e {
        ast::MoneyExpr::Credit { account, amount, span } => match find_name(
            accts,
            account.text(),
        ) {
            Some(i) => Some(ResolvedMoneyExpr::Credit { account: AccountId(i as u32), amount, span }),
            None => None,
        },
        ast::MoneyExpr::Var { name, span } => match scope_lookup(scope, name@) {
            Some(s) => Some(ResolvedMoneyExpr::Var { symbol: s, span }),
            None => None,
        },
        ast::MoneyExpr::Merge { a, b, span } => match (
            resolve_expr_spec(*a, scope, accts),
            resolve_expr_spec(*b, scope, accts),
        ) {
            (Some(x), Some(y)) => Some(
                ResolvedMoneyExpr::Merge { a: Box::new(x), b: Box::new(y), span },
            ),
            _ => None,
        },
    }
}

/// The names a statement binds, in binding order.
pub open spec fn stmt_binders(s: ast::Stmt) -> Seq<Seq<char>> {
    match s {
        ast::Stmt::Let { name, .. } => seq![name@],
        ast::Stmt::Convert { primary_name, residual_name, .. } => seq![
            primary_name@,
            residual_name@,
        ],
        ast::Stmt::Split { a_name, b_name, .. } => seq![a_name@, b_name@],
        ast::Stmt::SplitRatio { a_name, b_name, .. } => seq![a_name@, b_name@],
        _ => Seq::empty(),
    }
}

/// `scope` with `names` bound, in order, to the symbols numbered from `next`.
pub open spec fn bind_names(
    scope: Seq<(Seq<char>, SymbolId)>,
    names: Seq<Seq<char>>,
    next: nat,
) -> Seq<(Seq<char>, SymbolId)> {
    scope + Seq::new(names.len(), |i: int| (names[i], SymbolId((next + i) as u32)))
}

/// What a statement resolves to in `scope`, its bindings taking the symbols numbered
/// from `next`: `None` when some name it uses refers to nothing.
pub open spec fn resolve_stmt_spec(
    s: ast::Stmt,
    scope: Seq<(Seq<char>, SymbolId)>,
    next: nat,
    accts: Seq<Seq<char>>,
    rates: Seq<Seq<char>>,
) -> Option<ResolvedStmt> {
    match s {
        ast::Stmt::Let { name, name_span, value, span } => match resolve_expr_spec(
            value,
            scope,
            accts,
        ) {
            Some(v) => Some(
                ResolvedStmt::Let { symbol: SymbolId(next as u32), name_span, value: v, span },
            ),
            None => None,
        },
        ast::Stmt::Convert {
            primary_span,
            residual_span,
            money,
            rate,
            span,
            ..
        } => match (resolve_expr_spec(money, scope, accts), find_name(rates, rate@)) {
            (Some(m), Some(r)) => Some(
                ResolvedStmt::Convert {
                    primary: SymbolId(next as u32),
                    primary_span,
                    residual: SymbolId((next + 1) as u32),
                    residual_span,
                    money: m,
                    rate: RateId(r as u32),
                    span,
                },
            ),
            _ => None,
        },
        ast::Stmt::Debit { account, value, span } => match (
            resolve_expr_spec(value, scope, accts),
            find_name(accts, account.text()),
        ) {
            (Some(v), Some(a)) => Some(
                ResolvedStmt::Debit { account: AccountId(a as u32), value: v, span },
            ),
            _ => None,
        },
        ast::Stmt::Absorb { residue_name, residue_span, account, span } => match (
            scope_lookup(scope, residue_name@),
            find_name(accts, account.text()),
        ) {
            (Some(x), Some(a)) => Some(
                ResolvedStmt::Absorb {
                    residue: x,
                    residue_span,
                    account: AccountId(a as u32),
                    span,
                },
            ),
            _ => None,
        },
        ast::Stmt::Split { a_span, b_span, money, amount, span, .. } => match resolve_expr_spec(
            money,
            scope,
            accts,
        ) {
            Some(m) => Some(
                ResolvedStmt::Split {
                    a: SymbolId(next as u32),
                    a_span,
                    b: SymbolId((next + 1) as u32),
                    b_span,
                    money: m,
                    amount,
                    span,
                },
            ),
            None => None,
        },
        ast::Stmt::SplitRatio {
            a_span,
            b_span,
            money,
            a_weight,
            a_weight_span,
            b_weight,
            b_weight_span,
            span,
            ..
        } => match resolve_expr_spec(money, scope, accts) {
            Some(m) => Some(
                ResolvedStmt::SplitRatio {
                    a: SymbolId(next as u32),
                    a_span,
                    b: SymbolId((next + 1) as u32),
                    b_span,
                    money: m,
                    a_weight,
                    a_weight_span,
                    b_weight,
                    b_weight_span,
                    span,
                },
            ),
            None => None,
        },
    }
}

/// A money expression's diagnostics, left to right: each undeclared account and each
/// unbound name.
pub open spec fn expr_diags(e: ast::MoneyExpr, scope: Seq<(Seq<char>, SymbolId)>, accts: Seq<Seq<char>>) -> Seq<
    (Code, Span),
>
    decreases e,
{
    match e {
        ast::MoneyExpr::Credit { account, .. } => if find_name(accts, account.text()) is Some {
            Seq::empty()
        } else {
            seq![(Code::UndeclaredAccount, account.span)]
        },
        ast::MoneyExpr::Var { name, span } => if scope_lookup(scope, name@) is Some {
            Seq::empty()
        } else {
            seq![(Code::UnboundName, span)]
        },
        ast::MoneyExpr::Merge { a, b, .. } => expr_diags(*a, scope, accts) + expr_diags(*b, scope, accts),
    }
}

/// An undeclared account's diagnostic, if `account` is one.
pub open spec fn account_ref_diags(account: ast::AccountPath, accts: Seq<Seq<char>>) -> Seq<(Code, Span)> {
    if find_name(accts, account.text()) is Some {
        Seq::empty()
    } else {
        seq![(Code::UndeclaredAccount, account.span)]
    }
}

/// A statement's diagnostics, in the order its names are resolved.
pub open spec fn stmt_diags(
    s: ast::Stmt,
    scope: Seq<(Seq<char>, SymbolId)>,
    accts: Seq<Seq<char>>,
    rates: Seq<Seq<char>>,
) -> Seq<(Code, Span)> {
    match s {
        ast::Stmt::Let { value, .. } => expr_diags(value, scope, accts),
        ast::Stmt::Convert { money, rate, rate_span, .. } => expr_diags(money, scope, accts) + (if find_name(
            rates,
            rate@,
        ) is Some {
            Seq::empty()
        } else {
            seq![(Code::UndeclaredRate, rate_span)]
        }),
        ast::Stmt::Debit { account, value, .. } => expr_diags(value, scope, accts) + account_ref_diags(
            account,
            accts,
        ),
        ast::Stmt::Absorb { residue_name, residue_span, account, .. } => (if scope_lookup(
            scope,
            residue_name@,
        ) is Some {
            Seq::empty()
        } else {
            seq![(Code::UnboundName, residue_span)]
        }) + account_ref_diags(account, accts),
        ast::Stmt::Split { money, .. } => expr_diags(money, scope, accts),
        ast::Stmt::SplitRatio { money, .. } => expr_diags(money, scope, accts),
    }
}

/// A body's diagnostics, statement by statement.
pub open spec fn stmts_diags(ss: Seq<ast::Stmt>, next: nat, accts: Seq<Seq<char>>, rates: Seq<Seq<char>>) -> Seq<
    (Code, Span),
>
    decreases ss.len(),
{
    if ss.len() == 0 {
        Seq::empty()
    } else {
        let prev = resolve_stmts_spec(ss.drop_last(), next, accts, rates);
        stmts_diags(ss.drop_last(), next, accts, rates) + stmt_diags(ss.last(), prev.1, accts, rates)
    }
}

/// Every body's diagnostics, transaction by transaction.
pub open spec fn txns_resolve_diags(ts: Seq<ast::TxnDecl>, accts: Seq<Seq<char>>, rates: Seq<Seq<char>>) -> Seq<
    (Code, Span),
>
    decreases ts.len(),
{
    if ts.len() == 0 {
        Seq::empty()
    } else {
        let prev = resolve_txns_spec(ts.drop_last(), accts, rates);
        txns_resolve_diags(ts.drop_last(), accts, rates) + stmts_diags(ts.last().stmts@, prev.1, accts, rates)
    }
}

/// Resolving a body's statements in order from an empty scope, numbering symbols from
/// `next`: the statements that resolved, the scope after them, the next free symbol
/// number, and whether every statement resolved. A statement's bindings enter the
/// scope whether or not its own names resolved.
pub open spec fn resolve_stmts_spec(
    ss: Seq<ast::Stmt>,
    next: nat,
    accts: Seq<Seq<char>>,
    rates: Seq<Seq<char>>,
) -> (Seq<ResolvedStmt>, Seq<(Seq<char>, SymbolId)>, nat, bool)
    decreases ss.len(),
{
    if ss.len() == 0 {
        (Seq::empty(), Seq::empty(), next, true)
    } else {
        let prev = resolve_stmts_spec(ss.drop_last(), next, accts, rates);
        let s = ss.last();
        let r = resolve_stmt_spec(s, prev.1, prev.2, accts, rates);
        (
            if r is Some {
                prev.0.push(r->0)
            } else {
                prev.0
            },
            bind_names(prev.1, stmt_binders(s), prev.2),
            prev.2 + stmt_binders(s).len(),
            prev.3 && r is Some,
        )
    }
}

/// Resolving every transaction in order, each from an empty scope, symbols numbered
/// across the whole module: each body's resolved statements, the next free symbol
/// number, and whether everything resolved.
pub open spec fn resolve_txns_spec(
    ts: Seq<ast::TxnDecl>,
    accts: Seq<Seq<char>>,
    rates: Seq<Seq<char>>,
) -> (Seq<Seq<ResolvedStmt>>, nat, bool)
    decreases ts.len(),
{
    if ts.len() == 0 {
        (Seq::empty(), 0, true)
    } else {
        let prev = resolve_txns_spec(ts.drop_last(), accts, rates);
        let body = resolve_stmts_spec(ts.last().stmts@, prev.1, accts, rates);
        (prev.0.push(body.0), body.2, prev.2 && body.3)
    }
}

/// How many bindings the statements make.
pub open spec fn stmts_bindings(ss: Seq<ast::Stmt>) -> nat
    decreases ss.len(),
{
    if ss.len() == 0 {
        0
    } else {
        stmts_bindings(ss.drop_last()) + stmt_binders(ss.last()).len()
    }
}

/// How many bindings the transactions make.
pub open spec fn txns_bindings(ts: Seq<ast::TxnDecl>) -> nat
    decreases ts.len(),
{
    if ts.len() == 0 {
        0
    } else {
        txns_bindings(ts.drop_last()) + stmts_bindings(ts.last().stmts@)
    }
}

pub proof fn lemma_stmts_next(
    ss: Seq<ast::Stmt>,
    next: nat,
    accts: Seq<Seq<char>>,
    rates: Seq<Seq<char>>,
)
    ensures
        resolve_stmts_spec(ss, next, accts, rates).2 == next + stmts_bindings(ss),
    decreases ss.len(),
{
    if ss.len() > 0 {
        lemma_stmts_next(ss.drop_last(), next, accts, rates);
    }
}

pub proof fn lemma_txns_next(ts: Seq<ast::TxnDecl>, accts: Seq<Seq<char>>, rates: Seq<Seq<char>>)
    ensures
        resolve_txns_spec(ts, accts, rates).1 == txns_bindings(ts),
        resolve_txns_spec(ts, accts, rates).0.len() == ts.len(),
    decreases ts.len(),
{
    if ts.len() > 0 {
        lemma_txns_next(ts.drop_last(), accts, rates);
        lemma_stmts_next(ts.last().stmts@, txns_bindings(ts.drop_last()), accts, rates);
    }
}

pub proof fn lemma_stmts_bindings_prefix(ss: Seq<ast::Stmt>, j: int)
    requires
        0 <= j <= ss.len(),
    ensures
        stmts_bindings(ss.take(j)) <= stmts_bindings(ss),
    decreases ss.len(),
{
    if j < ss.len() {
        assert(ss.drop_last().take(j) =~= ss.take(j));
        lemma_stmts_bindings_prefix(ss.drop_last(), j);
    } else {
        assert(ss.take(j) =~= ss);
    }
}

pub proof fn lemma_txns_bindings_prefix(ts: Seq<ast::TxnDecl>, i: int)
    requires
        0 <= i < ts.len(),
    ensures
        txns_bindings(ts.take(i)) + stmts_bindings(ts[i].stmts@) <= txns_bindings(ts),
    decreases ts.len(),
{
    if i + 1 < ts.len() {
        assert(ts.drop_last().take(i) =~= ts.take(i));
        assert(ts.drop_last()[i] == ts[i]);
        lemma_txns_bindings_prefix(ts.drop_last(), i);
    } else {
        assert(ts.drop_last() =~= ts.take(i));
    }
}

fn resolve_var_ref(
    name: &String,
    span: Span,
    scope: &Vec<(String, SymbolId)>,
    diags: &mut Vec<Diagnostic>,
) -> (r: Option<SymbolId>)
    ensures
        r == scope_lookup(scope_view(scope@), name@),
        r is Some ==> final(diags)@ == old(diags)@,
        r is None ==> final(diags)@ == old(diags)@.push(final(diags)@.last())
            && final(diags)@.last().code == Code::UnboundName
            && final(diags)@.last().span == span
            && final(diags)@.last().message@ == "no binding named '"@ + name@ + "' in scope"@,
{
    match lookup_scope(scope, name) {
        Some(symbol) => Some(symbol),
        None => {
            let mut msg = String::from_str("no binding named '");
            push_str(&mut msg, name.as_str());
            push_str(&mut msg, "' in scope");
            diags.push(Diagnostic::new(Code::UnboundName, msg.as_str(), span));
            None
        },
    }
}

fn resolve_rate_ref(
    name: &String,
    span: Span,
    rate_ids: &Vec<(String, Span)>,
    diags: &mut Vec<Diagnostic>,
) -> (r: Option<RateId>)
    requires
        rate_ids@.len() < u32::MAX,
    ensures
        match find_name(table_names(rate_ids@), name@) {
            Some(i) => r == Some(RateId(i as u32)) && final(diags)@ == old(diags)@,
            None => r is None && final(diags)@ == old(diags)@.push(final(diags)@.last())
                && final(diags)@.last().code == Code::UndeclaredRate
                && final(diags)@.last().span == span
                && final(diags)@.last().message@ == "no rate named '"@ + name@ + "' is declared"@,
        },
{
    match find_in_table(rate_ids, name) {
        Some(i) => Some(RateId(i as u32)),
        None => {
            let mut msg = String::from_str("no rate named '");
            push_str(&mut msg, name.as_str());
            push_str(&mut msg, "' is declared");
            diags.push(Diagnostic::new(Code::UndeclaredRate, msg.as_str(), span));
            None
        },
    }
}

fn resolve_account_ref(
    account: &AccountPath,
    account_ids: &Vec<(String, Span)>,
    diags: &mut Vec<Diagnostic>,
) -> (r: Option<AccountId>)
    requires
        account_ids@.len() < u32::MAX,
    ensures
        match find_name(table_names(account_ids@), account.text()) {
            Some(i) => r == Some(AccountId(i as u32)) && final(diags)@ == old(diags)@,
            None => r is None && final(diags)@ == old(diags)@.push(final(diags)@.last())
                && final(diags)@.last().code == Code::UndeclaredAccount
                && final(diags)@.last().span == account.span
                && final(diags)@.last().message@ == "no account named '"@ + account.text()
                + "' is declared"@,
        },
{
    let path = account.to_string();
    match find_in_table(account_ids, &path) {
        Some(i) => Some(AccountId(i as u32)),
        None => {
            let mut msg = String::from_str("no account named '");
            push_str(&mut msg, path.as_str());
            push_str(&mut msg, "' is declared");
            diags.push(Diagnostic::new(Code::UndeclaredAccount, msg.as_str(), account.span));
            None
        },
    }
}

/// Resolves both sides of a `merge` unconditionally, so an unresolved name on one side
/// doesn't hide the other side's diagnostics.
fn resolve_money_expr(
    expr: ast::MoneyExpr,
    scope: &Vec<(String, SymbolId)>,
    account_ids: &Vec<(String, Span)>,
    diags: &mut Vec<Diagnostic>,
) -> (r: Option<ResolvedMoneyExpr>)
    requires
        account_ids@.len() < u32::MAX,
    ensures
        r == resolve_expr_spec(expr, scope_view(scope@), table_names(account_ids@)),
        appended(old(diags)@, final(diags)@),
        r is Some <==> final(diags)@.len() == old(diags)@.len(),
        code_spans(final(diags)@) == code_spans(old(diags)@) + expr_diags(
            expr,
            scope_view(scope@),
            table_names(account_ids@),
        ),
    decreases expr,
{
    let ghost d0 = diags@;
    match expr {
        ast::MoneyExpr::Credit { account, amount, span } => {
            let resolved = resolve_account_ref(&account, account_ids, diags);
            proof {
                if resolved is None {
                    assert(code_spans(diags@) =~= code_spans(d0).push((diags@.last().code, diags@.last().span)));
                } else {
                    assert(code_spans(diags@) =~= code_spans(d0));
                }
            }
            let account = resolved?;
            Some(ResolvedMoneyExpr::Credit { account, amount, span })
        },
        ast::MoneyExpr::Var { name, span } => {
            let resolved = resolve_var_ref(&name, span, scope, diags);
            proof {
                if resolved is None {
                    assert(code_spans(diags@) =~= code_spans(d0).push((diags@.last().code, diags@.last().span)));
                } else {
                    assert(code_spans(diags@) =~= code_spans(d0));
                }
            }
            let symbol = resolved?;
            Some(ResolvedMoneyExpr::Var { symbol, span })
        },
        ast::MoneyExpr::Merge { a, b, span } => {
            let a = resolve_money_expr(*a, scope, account_ids, diags);
            let b = resolve_money_expr(*b, scope, account_ids, diags);
            match (a, b) {
                (Some(a), Some(b)) => Some(
                    ResolvedMoneyExpr::Merge { a: Box::new(a), b: Box::new(b), span },
                ),
                _ => None,
            }
        },
    }
}

/// Adds a fresh binding of `name`, taking the next symbol number.
fn bind(scope: &mut Vec<(String, SymbolId)>, next_id: &mut u32, name: String) -> (s: SymbolId)
    requires
        *old(next_id) < u32::MAX,
    ensures
        s == SymbolId(*old(next_id)),
        *final(next_id) == *old(next_id) + 1,
        scope_view(final(scope)@) == scope_view(old(scope)@).push((name@, s)),
{
    let s = SymbolId(*next_id);
    *next_id = *next_id + 1;
    scope.push((name, s));
    proof {
        assert(scope_view(scope@) =~= scope_view(old(scope)@).push((name@, s)));
    }
    s
}

/// A name lookup adds nothing, or one diagnostic at the end.
proof fn lemma_ref_code_spans(before: Seq<Diagnostic>, after: Seq<Diagnostic>)
    requires
        after == before || after == before.push(after.last()),
    ensures
        after == before ==> code_spans(after) == code_spans(before),
        after != before ==> code_spans(after) == code_spans(before).push((after.last().code, after.last().span)),
{
    if after == before {
    } else {
        assert(code_spans(after) =~= code_spans(before).push((after.last().code, after.last().span)));
    }
}

/// Resolves one statement of a body, then adds its bindings to the scope.
fn resolve_stmt(
    stmt: ast::Stmt,
    scope: &mut Vec<(String, SymbolId)>,
    next_id: &mut u32,
    account_ids: &Vec<(String, Span)>,
    rate_ids: &Vec<(String, Span)>,
    diags: &mut Vec<Diagnostic>,
) -> (r: Option<ResolvedStmt>)
    requires
        account_ids@.len() < u32::MAX,
        rate_ids@.len() < u32::MAX,
        *old(next_id) + stmt_binders(stmt).len() <= u32::MAX,
    ensures
        r == resolve_stmt_spec(
            stmt,
            scope_view(old(scope)@),
            *old(next_id) as nat,
            table_names(account_ids@),
            table_names(rate_ids@),
        ),
        scope_view(final(scope)@) == bind_names(
            scope_view(old(scope)@),
            stmt_binders(stmt),
            *old(next_id) as nat,
        ),
        *final(next_id) == *old(next_id) + stmt_binders(stmt).len(),
        appended(old(diags)@, final(diags)@),
        r is Some <==> final(diags)@.len() == old(diags)@.len(),
        code_spans(final(diags)@) == code_spans(old(diags)@) + stmt_diags(
            stmt,
            scope_view(old(scope)@),
            table_names(account_ids@),
            table_names(rate_ids@),
        ),
{
    let ghost sv0 = scope_view(scope@);
    let ghost n0 = *next_id as nat;
    match stmt {
        ast::Stmt::Let { name, name_span, value, span } => {
            let value = resolve_money_expr(value, scope, account_ids, diags);
            let symbol = bind(scope, next_id, name);
            proof {
                assert(bind_names(sv0, stmt_binders(stmt), n0) =~= sv0.push((name@, symbol)));
            }
            match value {
                Some(value) => Some(ResolvedStmt::Let { symbol, name_span, value, span }),
                None => None,
            }
        },
        ast::Stmt::Convert {
            primary_name,
            primary_span,
            residual_name,
            residual_span,
            money,
            rate,
            rate_span,
            span,
        } => {
            let money = resolve_money_expr(money, scope, account_ids, diags);
            let ghost d1 = diags@;
            let rate_id = resolve_rate_ref(&rate, rate_span, rate_ids, diags);
            proof {
                lemma_ref_code_spans(d1, diags@);
            }
            let primary = bind(scope, next_id, primary_name);
            let residual = bind(scope, next_id, residual_name);
            proof {
                assert(bind_names(sv0, stmt_binders(stmt), n0) =~= sv0.push(
                    (primary_name@, primary),
                ).push((residual_name@, residual)));
            }
            match (money, rate_id) {
                (Some(money), Some(rate)) => Some(
                    ResolvedStmt::Convert {
                        primary,
                        primary_span,
                        residual,
                        residual_span,
                        money,
                        rate,
                        span,
                    },
                ),
                _ => None,
            }
        },
        ast::Stmt::Debit { account, value, span } => {
            let value = resolve_money_expr(value, scope, account_ids, diags);
            let ghost d1 = diags@;
            let account = resolve_account_ref(&account, account_ids, diags);
            proof {
                lemma_ref_code_spans(d1, diags@);
            }
            proof {
                assert(bind_names(sv0, stmt_binders(stmt), n0) =~= sv0);
            }
            match (account, value) {
                (Some(account), Some(value)) => Some(ResolvedStmt::Debit { account, value, span }),
                _ => None,
            }
        },
        ast::Stmt::Absorb { residue_name, residue_span, account, span } => {
            let ghost d0 = diags@;
            let residue = resolve_var_ref(&residue_name, residue_span, scope, diags);
            let ghost d1 = diags@;
            proof {
                lemma_ref_code_spans(d0, d1);
            }
            let account = resolve_account_ref(&account, account_ids, diags);
            proof {
                lemma_ref_code_spans(d1, diags@);
            }
            proof {
                assert(bind_names(sv0, stmt_binders(stmt), n0) =~= sv0);
            }
            match (residue, account) {
                (Some(residue), Some(account)) => Some(
                    ResolvedStmt::Absorb { residue, residue_span, account, span },
                ),
                _ => None,
            }
        },
        ast::Stmt::Split { a_name, a_span, b_name, b_span, money, amount, span } => {
            let money = resolve_money_expr(money, scope, account_ids, diags);
            let a = bind(scope, next_id, a_name);
            let b = bind(scope, next_id, b_name);
            proof {
                assert(bind_names(sv0, stmt_binders(stmt), n0) =~= sv0.push((a_name@, a)).push(
                    (b_name@, b),
                ));
            }
            match money {
                Some(money) => Some(
                    ResolvedStmt::Split { a, a_span, b, b_span, money, amount, span },
                ),
                None => None,
            }
        },
        ast::Stmt::SplitRatio {
            a_name,
            a_span,
            b_name,
            b_span,
            money,
            a_weight,
            a_weight_span,
            b_weight,
            b_weight_span,
            span,
        } => {
            let money = resolve_money_expr(money, scope, account_ids, diags);
            let a = bind(scope, next_id, a_name);
            let b = bind(scope, next_id, b_name);
            proof {
                assert(bind_names(sv0, stmt_binders(stmt), n0) =~= sv0.push((a_name@, a)).push(
                    (b_name@, b),
                ));
            }
            match money {
                Some(money) => Some(
                    ResolvedStmt::SplitRatio {
                        a,
                        a_span,
                        b,
                        b_span,
                        money,
                        a_weight,
                        a_weight_span,
                        b_weight,
                        b_weight_span,
                        span,
                    },
                ),
                None => None,
            }
        },
    }
}


// ---------------------------------------------------------------------------------
// The whole module

/// The declared currencies' names, the account paths and the rate names that take
/// effect in `m`.
pub open spec fn module_currency_names(m: ast::Module) -> Seq<Seq<char>> {
    currency_names(kept_currencies(m.currencies@))
}

pub open spec fn module_account_paths(m: ast::Module) -> Seq<Seq<char>> {
    account_paths(kept_accounts(m.accounts@, module_currency_names(m)))
}

pub open spec fn module_rate_names(m: ast::Module) -> Seq<Seq<char>> {
    rate_names(kept_rates(m.rates@, module_currency_names(m)))
}

/// Everything resolution reports, in order: the currencies', the accounts' and the
/// rates' declarations, then the bodies.
pub open spec fn resolve_diags(m: ast::Module) -> Seq<(Code, Span)> {
    currency_decls_diags(m.currencies@) + account_decls_diags(m.accounts@, module_currency_names(m))
        + rate_decls_diags(m.rates@, module_currency_names(m)) + txns_resolve_diags(
        m.txns@,
        module_account_paths(m),
        module_rate_names(m),
    )
}

/// Resolution succeeds: no declaration is dropped and every name used resolves.
pub open spec fn resolve_ok(m: ast::Module) -> bool {
    &&& kept_currencies(m.currencies@).len() == m.currencies@.len()
    &&& kept_accounts(m.accounts@, module_currency_names(m)).len() == m.accounts@.len()
    &&& kept_rates(m.rates@, module_currency_names(m)).len() == m.rates@.len()
    &&& resolve_txns_spec(m.txns@, module_account_paths(m), module_rate_names(m)).2
}

/// `r` holds exactly the tables and the resolved bodies that `m` describes.
pub open spec fn resolved_from(r: ResolvedModule, m: ast::Module) -> bool {
    let cs = kept_currencies(m.currencies@);
    let accts = kept_accounts(m.accounts@, module_currency_names(m));
    let rs = kept_rates(m.rates@, module_currency_names(m));
    let bodies = resolve_txns_spec(m.txns@, module_account_paths(m), module_rate_names(m)).0;
    &&& r.currencies@.len() == cs.len()
    &&& forall|i: int|
        0 <= i < cs.len() ==> #[trigger] r.currencies@[i].name@ == cs[i].name@
            && r.currencies@[i].scale == cs[i].scale
    &&& r.accounts@.len() == accts.len()
    &&& forall|i: int|
        0 <= i < accts.len() ==> {
            let e = accts[i];
            &&& (#[trigger] r.accounts@[i]).path@ == e.0.path.text()
            &&& r.accounts@[i].currency == CurrencyId(e.1 as u32)
            &&& r.accounts@[i].kind == e.2
            &&& r.accounts@[i].normal == e.0.normal
        }
    &&& r.rates@.len() == rs.len()
    &&& forall|i: int|
        0 <= i < rs.len() ==> {
            let e = rs[i];
            &&& (#[trigger] r.rates@[i]).name@ == e.0.name@
            &&& r.rates@[i].from == CurrencyId(e.1 as u32)
            &&& r.rates@[i].to == CurrencyId(e.2 as u32)
            &&& r.rates@[i].numerator == e.3.0
            &&& r.rates@[i].scale == e.3.1
        }
    &&& r.txns@.len() == m.txns@.len()
    &&& forall|i: int|
        0 <= i < m.txns@.len() ==> {
            &&& (#[trigger] r.txns@[i]).name@ == m.txns@[i].name@
            &&& r.txns@[i].span == m.txns@[i].span
            &&& r.txns@[i].stmts@ == bodies[i]
        }
}

// ---------------------------------------------------------------------------------
// Sizes: a parsed module never holds more declarations or bindings than tokens.

proof fn lemma_stmt_pats_binders(s: ast::Stmt)
    ensures
        stmt_binders(s).len() < stmt_pats(s).len(),
{
}

proof fn lemma_stmts_pats_bindings(ss: Seq<ast::Stmt>)
    ensures
        stmts_bindings(ss) <= stmts_pats(ss).len(),
    decreases ss.len(),
{
    if ss.len() > 0 {
        lemma_stmts_pats_bindings(ss.drop_last());
        lemma_stmt_pats_binders(ss.last());
    }
}

proof fn lemma_count_kind_le(order: Seq<DeclKind>, k: DeclKind)
    ensures
        count_kind(order, k) <= order.len(),
    decreases order.len(),
{
    if order.len() > 0 {
        lemma_count_kind_le(order.drop_last(), k);
    }
}

proof fn lemma_decls_pats_size(
    cs: Seq<ast::CurrencyDecl>,
    accts: Seq<ast::AccountDecl>,
    rs: Seq<ast::RateDecl>,
    ts: Seq<ast::TxnDecl>,
    order: Seq<DeclKind>,
)
    requires
        count_kind(order, DeclKind::Txn) <= ts.len(),
    ensures
        order.len() + txns_bindings(ts.take(count_kind(order, DeclKind::Txn) as int)) <= decls_pats(
            cs,
            accts,
            rs,
            ts,
            order,
        ).len(),
    decreases order.len(),
{
    if order.len() == 0 {
        assert(ts.take(0) =~= Seq::<ast::TxnDecl>::empty());
    } else {
        let prev = order.drop_last();
        let c = count_kind(prev, DeclKind::Txn);
        lemma_decls_pats_size(cs, accts, rs, ts, prev);
        if order.last() == DeclKind::Txn {
            assert(ts.take(c + 1int).drop_last() =~= ts.take(c as int));
            assert(ts.take(c + 1int).last() == ts[c as int]);
            lemma_stmts_pats_bindings(ts[c as int].stmts@);
        }
    }
}

/// A parsed module has fewer declarations, and makes fewer bindings, than there are
/// tokens.
pub proof fn lemma_parsed_module_sizes(tokens: Seq<Token>, m: ast::Module, order: Seq<DeclKind>)
    requires
        module_parsed_as(tokens, m, order),
    ensures
        m.currencies@.len() < tokens.len(),
        m.accounts@.len() < tokens.len(),
        m.rates@.len() < tokens.len(),
        txns_bindings(m.txns@) < tokens.len(),
{
    lemma_decls_pats_size(m.currencies@, m.accounts@, m.rates@, m.txns@, order);
    lemma_count_kind_le(order, DeclKind::Currency);
    lemma_count_kind_le(order, DeclKind::Account);
    lemma_count_kind_le(order, DeclKind::Rate);
    assert(m.txns@.take(m.txns@.len() as int) =~= m.txns@);
}

/// Resolves every name in `module`. A resolved module comes back exactly when no
/// diagnostic was raised, which is exactly when `resolve_ok` holds; it then holds the
/// tables and bodies `resolved_from` describes. The diagnostics are, by code and span,
/// exactly `resolve_diags`, in order. Every id must fit a `u32`.
pub fn resolve(module: ast::Module) -> (r: (Option<ResolvedModule>, Vec<Diagnostic>))
    requires
        module.currencies@.len() < u32::MAX,
        module.accounts@.len() < u32::MAX,
        module.rates@.len() < u32::MAX,
        txns_bindings(module.txns@) < u32::MAX,
    ensures
        r.0 is Some <==> r.1@.len() == 0,
        r.0 is Some <==> resolve_ok(module),
        r.0 matches Some(m) ==> resolved_from(m, module),
        code_spans(r.1@) == resolve_diags(module),
{
    let ghost m0 = module;
    let mut diags: Vec<Diagnostic> = Vec::new();
    let ast::Module { currencies: cdecls, accounts: adecls, rates: rdecls, txns: tdecls } = module;
    let (currencies, currency_ids) = resolve_currencies(cdecls, &mut diags);
    proof {
        assert(table_names(currency_ids@) =~= module_currency_names(m0));
    }
    let (accounts, account_ids) = resolve_accounts(adecls, &currency_ids, &mut diags);
    let (rates, rate_ids) = resolve_rates(rdecls, &currency_ids, &mut diags);
    let ghost an = table_names(account_ids@);
    let ghost rn = table_names(rate_ids@);
    proof {
        assert(an =~= module_account_paths(m0));
        assert(rn =~= module_rate_names(m0));
    }
    let ghost tables_diags = currency_decls_diags(m0.currencies@) + account_decls_diags(
        m0.accounts@,
        module_currency_names(m0),
    ) + rate_decls_diags(m0.rates@, module_currency_names(m0));
    proof {
        assert(code_spans(diags@) =~= tables_diags);
        assert(m0.txns@.take(0) =~= Seq::<ast::TxnDecl>::empty());
    }
    let ghost d_tables = diags@.len();
    let ghost tables_ok = d_tables == 0;
    let ghost all = m0.txns@;
    let mut next_id: u32 = 0;
    let mut txns: Vec<ResolvedTxn> = Vec::new();
    for txn in it: tdecls.into_iter()
        invariant
            it.seq() == all,
            all == m0.txns@,
            txns_bindings(all) < u32::MAX,
            account_ids@.len() < u32::MAX,
            rate_ids@.len() < u32::MAX,
            an == table_names(account_ids@),
            rn == table_names(rate_ids@),
            txns@.len() == it.index(),
            next_id == resolve_txns_spec(all.take(it.index() as int), an, rn).1,
            forall|k: int|
                0 <= k < it.index() ==> {
                    &&& (#[trigger] txns@[k]).name@ == all[k].name@
                    &&& txns@[k].span == all[k].span
                    &&& txns@[k].stmts@ == resolve_txns_spec(
                        all.take(it.index() as int),
                        an,
                        rn,
                    ).0[k]
                },
            diags@.len() >= d_tables,
            (diags@.len() == d_tables) <== resolve_txns_spec(all.take(it.index() as int), an, rn).2,
            (diags@.len() == d_tables) ==> resolve_txns_spec(all.take(it.index() as int), an, rn).2,
            code_spans(diags@) == tables_diags + txns_resolve_diags(all.take(it.index() as int), an, rn),
    {
        let ghost i = it.index() as int;
        let ghost before = resolve_txns_spec(all.take(i), an, rn);
        proof {
            assert(all.take(i + 1).drop_last() =~= all.take(i));
            assert(all.take(i + 1).last() == txn);
            lemma_txns_next(all.take(i), an, rn);
            lemma_txns_bindings_prefix(all, i);
        }
        let ast::TxnDecl { name, stmts: sdecls, span } = txn;
        let ghost body_all = sdecls@;
        let mut scope: Vec<(String, SymbolId)> = Vec::new();
        let mut stmts: Vec<ResolvedStmt> = Vec::new();
        let ghost d_txn = diags@.len();
        let ghost next0 = next_id as nat;
        proof {
            assert(scope_view(scope@) =~= Seq::<(Seq<char>, SymbolId)>::empty());
            assert(body_all.take(0) =~= Seq::<ast::Stmt>::empty());
        }
        for stmt in it2: sdecls.into_iter()
            invariant
                it2.seq() == body_all,
                next0 + stmts_bindings(body_all) < u32::MAX,
                account_ids@.len() < u32::MAX,
                rate_ids@.len() < u32::MAX,
                an == table_names(account_ids@),
                rn == table_names(rate_ids@),
                stmts@ == resolve_stmts_spec(body_all.take(it2.index() as int), next0, an, rn).0,
                scope_view(scope@) == resolve_stmts_spec(
                    body_all.take(it2.index() as int),
                    next0,
                    an,
                    rn,
                ).1,
                next_id == resolve_stmts_spec(body_all.take(it2.index() as int), next0, an, rn).2,
                diags@.len() >= d_txn,
                (diags@.len() == d_txn) == resolve_stmts_spec(
                    body_all.take(it2.index() as int),
                    next0,
                    an,
                    rn,
                ).3,
                code_spans(diags@) == tables_diags + txns_resolve_diags(all.take(i), an, rn) + stmts_diags(
                    body_all.take(it2.index() as int),
                    next0,
                    an,
                    rn,
                ),
        {
            let ghost j = it2.index() as int;
            proof {
                assert(body_all.take(j + 1).drop_last() =~= body_all.take(j));
                assert(body_all.take(j + 1).last() == stmt);
                lemma_stmts_next(body_all.take(j + 1), next0, an, rn);
                lemma_stmts_bindings_prefix(body_all, j + 1);
            }
            let ghost dj = diags@;
            let r = resolve_stmt(stmt, &mut scope, &mut next_id, &account_ids, &rate_ids, &mut diags);
            proof {
                let p = tables_diags + txns_resolve_diags(all.take(i), an, rn);
                let sd = stmts_diags(body_all.take(j), next0, an, rn);
                let x = stmt_diags(stmt, resolve_stmts_spec(body_all.take(j), next0, an, rn).1, an, rn);
                assert(stmts_diags(body_all.take(j + 1), next0, an, rn) == sd + x);
                assert(code_spans(diags@) =~= p + (sd + x));
            }
            if let Some(s) = r {
                stmts.push(s);
            }
        }
        proof {
            assert(body_all.take(body_all.len() as int) =~= body_all);
            assert(txns_resolve_diags(all.take(i + 1), an, rn) == txns_resolve_diags(all.take(i), an, rn)
                + stmts_diags(body_all, next0, an, rn));
            assert(code_spans(diags@) =~= tables_diags + txns_resolve_diags(all.take(i + 1), an, rn));
        }
        let ghost done = txns@;
        txns.push(ResolvedTxn { name, stmts, span });
        proof {
            let after = resolve_txns_spec(all.take(i + 1), an, rn);
            assert(after.0 == before.0.push(txns@.last().stmts@));
            assert forall|k: int| 0 <= k < i + 1 implies {
                &&& (#[trigger] txns@[k]).name@ == all[k].name@
                &&& txns@[k].span == all[k].span
                &&& txns@[k].stmts@ == after.0[k]
            } by {
                if k < i {
                    assert(txns@[k] == done[k]);
                }
            }
        }
    }
    proof {
        assert(all.take(all.len() as int) =~= all);
        lemma_txns_next(all, an, rn);
    }
    if diags.len() == 0 {
        let m = ResolvedModule { currencies, accounts, rates, txns };
        (Some(m), diags)
    } else {
        (None, diags)
    }
}

} // verus!
