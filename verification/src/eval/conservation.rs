//! Conservation: without conversions, evaluation only moves amounts between accounts.
//! A credit takes an amount out of its account's balance and into a value, `merge`,
//! `split` and `split_ratio` only regroup values, and a debit puts a value back into a
//! balance. So the sum of every balance plus every live value never changes, and a
//! transaction that ends with nothing live leaves the sum of the balances as it found
//! it. Since a typed body keeps currencies apart, the same holds currency by currency
//! (`ledger_total_in`), with each live value counted at the currency it was bound at.

use vstd::prelude::*;
use vstd::set::fold::{is_fun_commutative, lemma_fold_empty, lemma_fold_insert};
use crate::amount::{amount_of, i64_fits, lemma_amount_of, pow10};
use crate::eval::{
    eval_expr_spec, eval_stmt_spec, eval_stmts_spec, eval_txns_spec, lemma_split_ratio_conserves, post_spec,
    split_ratio_spec, balance, trunc_div, Value,
};
use crate::parse::ast;
use crate::resolve::{
    account_paths, kept_accounts, lemma_find_from, module_currency_names, resolved_from, AccountInfo,
    CurrencyId, CurrencyInfo, RateInfo, ResolvedModule, SymbolId,
};
use crate::typeck::rules::BindingKind;
use crate::typeck::{
    binds_distinct, binds_once, lemma_tstmts_ids, texpr_currency, texpr_ids, texpr_ok, tstmt_ids, texpr_one_currency, tstmt_binds,
    tstmt_currencies, tstmt_ok, tstmt_one_currency, tstmts_currencies, tstmts_ok, TMoneyExpr, TStmt,
    TTxnDecl,
};

verus! {

// ---------------------------------------------------------------------------------
// Sums over finite maps

/// Adds one entry's weight to a running sum.
pub open spec fn sum_step<K, V>(w: spec_fn((K, V)) -> int) -> spec_fn(int, (K, V)) -> int {
    |acc: int, p: (K, V)| acc + w(p)
}

/// The sum of the weights of a finite map's entries.
pub open spec fn map_sum<K, V>(m: Map<K, V>, w: spec_fn((K, V)) -> int) -> int {
    m.kv_pairs().fold(0int, sum_step::<K, V>(w))
}

proof fn lemma_sum_step_commutes<K, V>(w: spec_fn((K, V)) -> int)
    ensures
        is_fun_commutative(sum_step::<K, V>(w)),
{
    let f = sum_step::<K, V>(w);
    assert forall|a1: (K, V), a2: (K, V), b: int| #[trigger] f(f(b, a2), a1) == f(f(b, a1), a2) by {}
}

proof fn lemma_kv_pairs_finite<K, V>(m: Map<K, V>)
    requires
        m.dom().finite(),
    ensures
        m.kv_pairs().finite(),
{
    let f = |k: K| (k, m[k]);
    m.dom().lemma_map_finite(f);
    assert forall|p: (K, V)| #[trigger] m.kv_pairs().contains(p) implies m.dom().map(f).contains(p) by {
        assert(m.dom().contains(p.0) && p == f(p.0));
    }
    assert(m.kv_pairs() =~= m.dom().map(f));
}

proof fn lemma_map_sum_empty<K, V>(m: Map<K, V>, w: spec_fn((K, V)) -> int)
    requires
        m.dom() =~= Set::<K>::empty(),
    ensures
        map_sum(m, w) == 0,
{
    assert(m.kv_pairs() =~= Set::<(K, V)>::empty());
    lemma_fold_empty(0int, sum_step::<K, V>(w));
}

/// Taking an entry out of a finite map takes its weight out of the sum.
proof fn lemma_map_sum_remove<K, V>(m: Map<K, V>, k: K, w: spec_fn((K, V)) -> int)
    requires
        m.dom().finite(),
    ensures
        map_sum(m, w) == map_sum(m.remove(k), w) + (if m.contains_key(k) {
            w((k, m[k]))
        } else {
            0
        }),
{
    if m.contains_key(k) {
        let r = m.remove(k);
        let p = (k, m[k]);
        lemma_kv_pairs_finite(r);
        lemma_sum_step_commutes::<K, V>(w);
        assert(!r.kv_pairs().contains(p));
        assert(m.kv_pairs() =~= r.kv_pairs().insert(p));
        lemma_fold_insert(r.kv_pairs(), 0int, sum_step::<K, V>(w), p);
    } else {
        assert(m.remove(k) =~= m);
    }
}

/// Setting an entry of a finite map replaces its weight in the sum.
proof fn lemma_map_sum_insert<K, V>(m: Map<K, V>, k: K, v: V, w: spec_fn((K, V)) -> int)
    requires
        m.dom().finite(),
    ensures
        m.insert(k, v).dom().finite(),
        map_sum(m.insert(k, v), w) == map_sum(m, w) - (if m.contains_key(k) {
            w((k, m[k]))
        } else {
            0
        }) + w((k, v)),
{
    lemma_map_sum_remove(m, k, w);
    lemma_map_sum_remove(m.insert(k, v), k, w);
    assert(m.insert(k, v).remove(k) =~= m.remove(k));
}

// ---------------------------------------------------------------------------------
// The balances and the live values

/// A live value's amount in minor units; a conversion residue counts nothing.
pub open spec fn value_amount(v: Value) -> int {
    match v {
        Value::Money(a) => a@,
        Value::Residue { .. } => 0,
    }
}

pub open spec fn balance_weight() -> spec_fn((Seq<char>, int)) -> int {
    |p: (Seq<char>, int)| p.1
}

pub open spec fn value_weight() -> spec_fn((SymbolId, Value)) -> int {
    |p: (SymbolId, Value)| value_amount(p.1)
}

/// The sum of every balance of a ledger.
pub open spec fn ledger_total(l: Map<Seq<char>, int>) -> int {
    map_sum(l, balance_weight())
}

/// The sum of every live value's amount.
pub open spec fn live_total(env: Map<SymbolId, Value>) -> int {
    map_sum(env, value_weight())
}

/// Posting `delta` to one balance adds `delta` to the ledger's total.
proof fn lemma_post_total(l: Map<Seq<char>, int>, p: Seq<char>, delta: int)
    requires
        l.dom().finite(),
        post_spec(l, p, delta) is Some,
    ensures
        post_spec(l, p, delta)->0.dom().finite(),
        ledger_total(post_spec(l, p, delta)->0) == ledger_total(l) + delta,
{
    lemma_map_sum_insert(l, p, balance(l, p) + delta, balance_weight());
}

/// Binding a fresh value adds its amount to the live total.
proof fn lemma_bind_total(env: Map<SymbolId, Value>, s: SymbolId, v: Value)
    requires
        env.dom().finite(),
        !env.contains_key(s),
    ensures
        env.insert(s, v).dom().finite(),
        live_total(env.insert(s, v)) == live_total(env) + value_amount(v),
{
    lemma_map_sum_insert(env, s, v, value_weight());
}

/// Evaluating a money expression moves amounts out of balances and live values into
/// its result, and nothing else: what it takes from the ledger and the bindings is
/// exactly its value. Its bindings shrink as the typed walk's do.
proof fn lemma_expr_conserves(
    e: TMoneyExpr,
    env: Map<SymbolId, Value>,
    l: Map<Seq<char>, int>,
    accounts: Seq<AccountInfo>,
    k: Map<SymbolId, BindingKind>,
)
    requires
        env.dom().finite(),
        l.dom().finite(),
        env.dom() =~= k.dom(),
        texpr_ok(e, k, accounts.len()) is Some,
    ensures
        eval_expr_spec(e, env, l, accounts).0 matches Some(v) ==> {
            let r = eval_expr_spec(e, env, l, accounts);
            &&& r.1.dom().finite()
            &&& r.2.dom().finite()
            &&& r.1.dom() =~= texpr_ok(e, k, accounts.len())->0.dom()
            &&& i64_fits(v)
            &&& ledger_total(r.2) + live_total(r.1) + v == ledger_total(l) + live_total(env)
        },
    decreases e,
{
    match e {
        TMoneyExpr::Credit { account, amount } => {
            crate::amount::lemma_amount_range(amount);
            let p = accounts[account.0 as int].path@;
            if i64_fits(-amount@) && post_spec(l, p, -amount@) is Some {
                lemma_post_total(l, p, -amount@);
            }
        },
        TMoneyExpr::Var { symbol } => {
            if env.contains_key(symbol) && env[symbol] is Money {
                crate::amount::lemma_amount_range(env[symbol]->Money_0);
                lemma_map_sum_remove(env, symbol, value_weight());
                assert(env.remove(symbol).dom() =~= k.remove(symbol).dom());
            }
        },
        TMoneyExpr::Merge { a, b } => {
            let na = accounts.len();
            lemma_expr_conserves(*a, env, l, accounts, k);
            let ra = eval_expr_spec(*a, env, l, accounts);
            if let Some(x) = ra.0 {
                let k1 = texpr_ok(*a, k, na)->0;
                lemma_expr_conserves(*b, ra.1, ra.2, accounts, k1);
            }
        },
    }
}

// ---------------------------------------------------------------------------------
// Statements and bodies

/// No statement of the body converts between currencies or absorbs a residue.
pub open spec fn conversion_free(ss: Seq<TStmt>) -> bool {
    forall|j: int| 0 <= j < ss.len() ==> !(#[trigger] ss[j] is Convert) && !(ss[j] is Absorb)
}

/// A statement that does not convert and completes moves amounts between balances and
/// live values without changing their sum; its bindings follow the typed walk's.
#[verifier::spinoff_prover]
#[verifier::rlimit(40)]
proof fn lemma_stmt_conserves(
    st: TStmt,
    env: Map<SymbolId, Value>,
    l: Map<Seq<char>, int>,
    accounts: Seq<AccountInfo>,
    currencies: Seq<CurrencyInfo>,
    rates: Seq<RateInfo>,
    k: Map<SymbolId, BindingKind>,
)
    requires
        env.dom().finite(),
        l.dom().finite(),
        env.dom() =~= k.dom(),
        tstmt_ok(st, k, accounts.len(), currencies.len(), rates.len()) is Some,
        !(st is Convert),
        !(st is Absorb),
        forall|s: SymbolId| #[trigger] tstmt_binds(st, s) ==> !k.contains_key(s),
        binds_distinct(st),
        eval_stmt_spec(st, env, l, accounts, currencies, rates).0 is None,
    ensures
        ({
            let r = eval_stmt_spec(st, env, l, accounts, currencies, rates);
            &&& r.1.dom().finite()
            &&& r.2.dom().finite()
            &&& r.1.dom() =~= tstmt_ok(st, k, accounts.len(), currencies.len(), rates.len())->0.dom()
            &&& ledger_total(r.2) + live_total(r.1) == ledger_total(l) + live_total(env)
        }),
{
    let na = accounts.len();
    match st {
        TStmt::Let { symbol, value, .. } => {
            lemma_expr_conserves(value, env, l, accounts, k);
            crate::typeck::lemma_texpr_shrinks(value, k, na);
            let r = eval_expr_spec(value, env, l, accounts);
            let v = r.0->0;
            assert(tstmt_binds(st, symbol));
            lemma_amount_of(v);
            lemma_bind_total(r.1, symbol, Value::Money(amount_of(v)));
        },
        TStmt::Debit { account, value, .. } => {
            lemma_expr_conserves(value, env, l, accounts, k);
            let r = eval_expr_spec(value, env, l, accounts);
            lemma_post_total(r.2, accounts[account.0 as int].path@, r.0->0);
        },
        TStmt::Split { a, b, money, amount, .. } => {
            lemma_expr_conserves(money, env, l, accounts, k);
            crate::typeck::lemma_texpr_shrinks(money, k, na);
            let r = eval_expr_spec(money, env, l, accounts);
            let t = r.0->0;
            assert(tstmt_binds(st, a) && tstmt_binds(st, b));
            lemma_amount_of(t - amount@);
            lemma_bind_total(r.1, a, Value::Money(amount));
            lemma_bind_total(r.1.insert(a, Value::Money(amount)), b, Value::Money(amount_of(t - amount@)));
        },
        TStmt::SplitRatio { a, b, money, a_weight, b_weight, .. } => {
            lemma_expr_conserves(money, env, l, accounts, k);
            crate::typeck::lemma_texpr_shrinks(money, k, na);
            let r = eval_expr_spec(money, env, l, accounts);
            let t = r.0->0;
            let parts = split_ratio_spec(t, a_weight as nat, b_weight as nat);
            assert(tstmt_binds(st, a) && tstmt_binds(st, b));
            lemma_split_ratio_conserves(t, a_weight as nat, b_weight as nat);
            lemma_amount_of(parts.0);
            lemma_amount_of(parts.1);
            lemma_bind_total(r.1, a, Value::Money(amount_of(parts.0)));
            lemma_bind_total(
                r.1.insert(a, Value::Money(amount_of(parts.0))),
                b,
                Value::Money(amount_of(parts.1)),
            );
        },
        _ => {},
    }
}

/// Some statement of the body binds `s`.
pub open spec fn bound_by(ss: Seq<TStmt>, s: SymbolId) -> bool {
    exists|i: int| 0 <= i < ss.len() && #[trigger] tstmt_binds(ss[i], s)
}

/// What is live after a statement was live before it or is bound by it.
proof fn lemma_tstmt_keys(st: TStmt, k: Map<SymbolId, BindingKind>, na: nat, nc: nat, nr: nat)
    requires
        tstmt_ok(st, k, na, nc, nr) is Some,
    ensures
        forall|s: SymbolId| #[trigger] tstmt_ok(st, k, na, nc, nr)->0.contains_key(s) ==> k.contains_key(s)
            || tstmt_binds(st, s),
{
    match st {
        TStmt::Let { value, .. } => crate::typeck::lemma_texpr_shrinks(value, k, na),
        TStmt::Convert { money, .. } => crate::typeck::lemma_texpr_shrinks(money, k, na),
        TStmt::Debit { value, .. } => crate::typeck::lemma_texpr_shrinks(value, k, na),
        TStmt::Absorb { .. } => {},
        TStmt::Split { money, .. } => crate::typeck::lemma_texpr_shrinks(money, k, na),
        TStmt::SplitRatio { money, .. } => crate::typeck::lemma_texpr_shrinks(money, k, na),
    }
}

/// Evaluating a conversion-free body whose typed walk succeeds and which binds each
/// symbol once: as long as it completes, the balances plus the live values sum to
/// what the balances did before, and the live values are those the walk holds live.
#[verifier::spinoff_prover]
#[verifier::rlimit(40)]
proof fn lemma_stmts_conserve(
    ss: Seq<TStmt>,
    l: Map<Seq<char>, int>,
    accounts: Seq<AccountInfo>,
    currencies: Seq<CurrencyInfo>,
    rates: Seq<RateInfo>,
)
    requires
        l.dom().finite(),
        tstmts_ok(ss, Map::empty(), accounts.len(), currencies.len(), rates.len()) is Some,
        binds_once(ss),
        conversion_free(ss),
        eval_stmts_spec(ss, Map::empty(), l, accounts, currencies, rates).0 is None,
    ensures
        ({
            let r = eval_stmts_spec(ss, Map::empty(), l, accounts, currencies, rates);
            let k = tstmts_ok(ss, Map::empty(), accounts.len(), currencies.len(), rates.len())->0;
            &&& r.1.dom().finite()
            &&& r.2.dom().finite()
            &&& r.1.dom() =~= k.dom()
            &&& forall|s: SymbolId| #[trigger] k.contains_key(s) ==> bound_by(ss, s)
            &&& ledger_total(r.2) + live_total(r.1) == ledger_total(l)
        }),
    decreases ss.len(),
{
    let na = accounts.len();
    let nc = currencies.len();
    let nr = rates.len();
    if ss.len() == 0 {
        lemma_map_sum_empty(Map::<SymbolId, Value>::empty(), value_weight());
    } else {
        let prev = ss.drop_last();
        let st = ss.last();
        assert forall|i: int, j: int, s: SymbolId|
            0 <= i < j < prev.len() && #[trigger] tstmt_binds(prev[i], s) implies !#[trigger] tstmt_binds(
            prev[j],
            s,
        ) by {
            assert(prev[i] == ss[i] && prev[j] == ss[j]);
        }
        assert forall|j: int| 0 <= j < prev.len() implies binds_distinct(#[trigger] prev[j]) by {
            assert(prev[j] == ss[j]);
        }
        assert forall|j: int| 0 <= j < prev.len() implies !(#[trigger] prev[j] is Convert) && !(
        prev[j] is Absorb) by {
            assert(prev[j] == ss[j]);
        }
        lemma_stmts_conserve(prev, l, accounts, currencies, rates);
        let p = eval_stmts_spec(prev, Map::empty(), l, accounts, currencies, rates);
        let k = tstmts_ok(prev, Map::empty(), na, nc, nr)->0;
        assert(st == ss[ss.len() - 1]);
        assert forall|s: SymbolId| #[trigger] tstmt_binds(st, s) implies !k.contains_key(s) by {
            if k.contains_key(s) {
                assert(bound_by(prev, s));
                let i = choose|i: int| 0 <= i < prev.len() && #[trigger] tstmt_binds(prev[i], s);
                assert(prev[i] == ss[i]);
                assert(tstmt_binds(ss[i], s));
            }
        }
        lemma_stmt_conserves(st, p.1, p.2, accounts, currencies, rates, k);
        lemma_tstmt_keys(st, k, na, nc, nr);
        let k2 = tstmt_ok(st, k, na, nc, nr)->0;
        assert forall|s: SymbolId| #[trigger] k2.contains_key(s) implies bound_by(ss, s) by {
            if k.contains_key(s) {
                let i = choose|i: int| 0 <= i < prev.len() && #[trigger] tstmt_binds(prev[i], s);
                assert(prev[i] == ss[i]);
                assert(tstmt_binds(ss[i], s));
            } else {
                assert(tstmt_binds(ss[ss.len() - 1], s));
            }
        }
    }
}

/// Conservation: a conversion-free transaction whose typed walk consumes every value
/// it binds, which binds each symbol once and which evaluates to completion leaves the
/// sum of all balances exactly as it found it — every amount credited out of one
/// account was debited into another.
pub proof fn lemma_balanced_txn_conserves(
    ss: Seq<TStmt>,
    l: Map<Seq<char>, int>,
    accounts: Seq<AccountInfo>,
    currencies: Seq<CurrencyInfo>,
    rates: Seq<RateInfo>,
)
    requires
        l.dom().finite(),
        tstmts_ok(ss, Map::empty(), accounts.len(), currencies.len(), rates.len()) == Some(
            Map::<SymbolId, BindingKind>::empty(),
        ),
        binds_once(ss),
        conversion_free(ss),
        eval_stmts_spec(ss, Map::empty(), l, accounts, currencies, rates).0 is None,
    ensures
        eval_stmts_spec(ss, Map::empty(), l, accounts, currencies, rates).2.dom().finite(),
        ledger_total(eval_stmts_spec(ss, Map::empty(), l, accounts, currencies, rates).2)
            == ledger_total(l),
{
    lemma_stmts_conserve(ss, l, accounts, currencies, rates);
    let r = eval_stmts_spec(ss, Map::empty(), l, accounts, currencies, rates);
    lemma_map_sum_empty(r.1, value_weight());
}

/// Over a whole run: when every transaction is conversion-free, consumes every value
/// it binds, binds each symbol once, and none stops, the balances of the final ledger
/// sum to zero.
pub proof fn lemma_balanced_run(
    ts: Seq<TTxnDecl>,
    accounts: Seq<AccountInfo>,
    currencies: Seq<CurrencyInfo>,
    rates: Seq<RateInfo>,
)
    requires
        forall|i: int|
            0 <= i < ts.len() ==> tstmts_ok(
                #[trigger] ts[i].stmts@,
                Map::empty(),
                accounts.len(),
                currencies.len(),
                rates.len(),
            ) == Some(Map::<SymbolId, BindingKind>::empty()),
        forall|i: int| 0 <= i < ts.len() ==> binds_once(#[trigger] ts[i].stmts@),
        forall|i: int| 0 <= i < ts.len() ==> conversion_free(#[trigger] ts[i].stmts@),
        eval_txns_spec(ts, accounts, currencies, rates).0.len() == 0,
    ensures
        eval_txns_spec(ts, accounts, currencies, rates).1.dom().finite(),
        ledger_total(eval_txns_spec(ts, accounts, currencies, rates).1) == 0,
    decreases ts.len(),
{
    if ts.len() == 0 {
        lemma_map_sum_empty(Map::<Seq<char>, int>::empty(), balance_weight());
    } else {
        let pre = ts.drop_last();
        let prev = eval_txns_spec(pre, accounts, currencies, rates);
        let last = ts.last();
        let r = eval_stmts_spec(last.stmts@, Map::empty(), prev.1, accounts, currencies, rates);
        assert(prev.0.len() == 0) by {
            if r.0 is Some {
                assert(prev.0.push(r.0->0).len() > 0);
            }
        }
        assert forall|i: int| 0 <= i < pre.len() implies tstmts_ok(
            #[trigger] pre[i].stmts@,
            Map::empty(),
            accounts.len(),
            currencies.len(),
            rates.len(),
        ) == Some(Map::<SymbolId, BindingKind>::empty()) && binds_once(pre[i].stmts@) && conversion_free(
            pre[i].stmts@,
        ) by {
            assert(pre[i] == ts[i]);
        }
        lemma_balanced_run(pre, accounts, currencies, rates);
        assert(last == ts[ts.len() - 1]);
        assert(r.0 is None) by {
            if r.0 is Some {
                assert(prev.0.push(r.0->0).len() > 0);
            }
        }
        lemma_balanced_txn_conserves(last.stmts@, prev.1, accounts, currencies, rates);
    }
}

// ---------------------------------------------------------------------------------
// Currency by currency

/// `p` is the path of an account of currency `c`.
pub open spec fn path_in_currency(accounts: Seq<AccountInfo>, p: Seq<char>, c: CurrencyId) -> bool {
    exists|i: int| #![trigger accounts[i]] 0 <= i < accounts.len() && accounts[i].path@ == p && accounts[i].currency == c
}

/// No two accounts share a path.
pub open spec fn paths_unique(accounts: Seq<AccountInfo>) -> bool {
    forall|i: int, j: int|
        0 <= i < accounts.len() && 0 <= j < accounts.len() && #[trigger] accounts[i].path@
            == #[trigger] accounts[j].path@ ==> i == j
}

/// `small`'s symbols keep their currencies in `big`.
pub open spec fn currencies_within(small: Map<SymbolId, CurrencyId>, big: Map<SymbolId, CurrencyId>) -> bool {
    forall|s: SymbolId| #[trigger] small.contains_key(s) ==> big.contains_key(s) && big[s] == small[s]
}

pub open spec fn balance_weight_in(accounts: Seq<AccountInfo>, c: CurrencyId) -> spec_fn((Seq<char>, int)) -> int {
    |p: (Seq<char>, int)| if path_in_currency(accounts, p.0, c) {
        p.1
    } else {
        0
    }
}

pub open spec fn value_weight_in(cur: Map<SymbolId, CurrencyId>, c: CurrencyId) -> spec_fn((SymbolId, Value)) -> int {
    |p: (SymbolId, Value)| if cur.contains_key(p.0) && cur[p.0] == c {
        value_amount(p.1)
    } else {
        0
    }
}

/// The sum of the balances of the accounts of currency `c`.
pub open spec fn ledger_total_in(l: Map<Seq<char>, int>, accounts: Seq<AccountInfo>, c: CurrencyId) -> int {
    map_sum(l, balance_weight_in(accounts, c))
}

/// The sum of the live values of currency `c`, given each symbol's currency.
pub open spec fn live_total_in(env: Map<SymbolId, Value>, cur: Map<SymbolId, CurrencyId>, c: CurrencyId) -> int {
    map_sum(env, value_weight_in(cur, c))
}

/// An empty ledger totals nothing in any currency.
pub proof fn lemma_ledger_total_in_empty(l: Map<Seq<char>, int>, accounts: Seq<AccountInfo>, c: CurrencyId)
    requires
        l.dom() =~= Set::<Seq<char>>::empty(),
    ensures
        ledger_total_in(l, accounts, c) == 0,
{
    lemma_map_sum_empty(l, balance_weight_in(accounts, c));
}

/// Taking one balance out of a finite ledger takes it out of its currency's total.
pub proof fn lemma_ledger_total_in_remove(l: Map<Seq<char>, int>, accounts: Seq<AccountInfo>, c: CurrencyId, p: Seq<char>)
    requires
        l.dom().finite(),
        l.contains_key(p),
    ensures
        ledger_total_in(l, accounts, c) == ledger_total_in(l.remove(p), accounts, c) + (if path_in_currency(
            accounts,
            p,
            c,
        ) {
            l[p]
        } else {
            0
        }),
{
    lemma_map_sum_remove(l, p, balance_weight_in(accounts, c));
}

/// Posting `delta` to an account adds it to the total of the account's currency only.
proof fn lemma_post_total_in(l: Map<Seq<char>, int>, accounts: Seq<AccountInfo>, j: int, delta: int, c: CurrencyId)
    requires
        l.dom().finite(),
        paths_unique(accounts),
        0 <= j < accounts.len(),
        post_spec(l, accounts[j].path@, delta) is Some,
    ensures
        ledger_total_in(post_spec(l, accounts[j].path@, delta)->0, accounts, c) == ledger_total_in(l, accounts, c)
            + (if accounts[j].currency == c {
            delta
        } else {
            0
        }),
{
    let p = accounts[j].path@;
    lemma_map_sum_insert(l, p, balance(l, p) + delta, balance_weight_in(accounts, c));
    if path_in_currency(accounts, p, c) {
        let i = choose|i: int| #![trigger accounts[i]] 0 <= i < accounts.len() && accounts[i].path@ == p && accounts[i].currency == c;
        assert(accounts[i].path@ == accounts[j].path@);
    } else if accounts[j].currency == c {
        assert(accounts[j].path@ == p);
    }
}

/// Per currency, a money expression takes from the balances and live values of its
/// own currency exactly its value, and nothing from other currencies.
proof fn lemma_expr_conserves_in(
    e: TMoneyExpr,
    env: Map<SymbolId, Value>,
    l: Map<Seq<char>, int>,
    accounts: Seq<AccountInfo>,
    k: Map<SymbolId, BindingKind>,
    cur: Map<SymbolId, CurrencyId>,
    curf: Map<SymbolId, CurrencyId>,
    c: CurrencyId,
)
    requires
        env.dom().finite(),
        l.dom().finite(),
        env.dom() =~= k.dom(),
        texpr_ok(e, k, accounts.len()) is Some,
        paths_unique(accounts),
        texpr_one_currency(e, cur, accounts),
        currencies_within(cur, curf),
    ensures
        eval_expr_spec(e, env, l, accounts).0 matches Some(v) ==> {
            let r = eval_expr_spec(e, env, l, accounts);
            ledger_total_in(r.2, accounts, c) + live_total_in(r.1, curf, c) + (if texpr_currency(
                e,
                cur,
                accounts,
            ) == c {
                v
            } else {
                0
            }) == ledger_total_in(l, accounts, c) + live_total_in(env, curf, c)
        },
    decreases e,
{
    match e {
        TMoneyExpr::Credit { account, amount } => {
            let p = accounts[account.0 as int].path@;
            if i64_fits(-amount@) && post_spec(l, p, -amount@) is Some {
                lemma_post_total_in(l, accounts, account.0 as int, -amount@, c);
            }
        },
        TMoneyExpr::Var { symbol } => {
            if env.contains_key(symbol) && env[symbol] is Money {
                lemma_map_sum_remove(env, symbol, value_weight_in(curf, c));
            }
        },
        TMoneyExpr::Merge { a, b } => {
            let na = accounts.len();
            lemma_expr_conserves(*a, env, l, accounts, k);
            lemma_expr_conserves_in(*a, env, l, accounts, k, cur, curf, c);
            let ra = eval_expr_spec(*a, env, l, accounts);
            if let Some(x) = ra.0 {
                let k1 = texpr_ok(*a, k, na)->0;
                lemma_expr_conserves_in(*b, ra.1, ra.2, accounts, k1, cur, curf, c);
            }
        },
    }
}

/// Per currency, a statement that does not convert and completes moves amounts
/// between the balances and live values of one currency without changing their sum.
#[verifier::spinoff_prover]
#[verifier::rlimit(50)]
proof fn lemma_stmt_conserves_in(
    st: TStmt,
    env: Map<SymbolId, Value>,
    l: Map<Seq<char>, int>,
    accounts: Seq<AccountInfo>,
    currencies: Seq<CurrencyInfo>,
    rates: Seq<RateInfo>,
    k: Map<SymbolId, BindingKind>,
    cur: Map<SymbolId, CurrencyId>,
    curf: Map<SymbolId, CurrencyId>,
    c: CurrencyId,
)
    requires
        env.dom().finite(),
        l.dom().finite(),
        env.dom() =~= k.dom(),
        tstmt_ok(st, k, accounts.len(), currencies.len(), rates.len()) is Some,
        !(st is Convert),
        !(st is Absorb),
        forall|s: SymbolId| #[trigger] tstmt_binds(st, s) ==> !k.contains_key(s),
        binds_distinct(st),
        eval_stmt_spec(st, env, l, accounts, currencies, rates).0 is None,
        paths_unique(accounts),
        tstmt_one_currency(st, cur, accounts, rates),
        currencies_within(cur, curf),
        currencies_within(tstmt_currencies(st, cur, accounts, rates), curf),
    ensures
        ({
            let r = eval_stmt_spec(st, env, l, accounts, currencies, rates);
            ledger_total_in(r.2, accounts, c) + live_total_in(r.1, curf, c) == ledger_total_in(l, accounts, c)
                + live_total_in(env, curf, c)
        }),
{
    let na = accounts.len();
    let wv = value_weight_in(curf, c);
    match st {
        TStmt::Let { symbol, value, .. } => {
            lemma_expr_conserves(value, env, l, accounts, k);
            lemma_expr_conserves_in(value, env, l, accounts, k, cur, curf, c);
            crate::typeck::lemma_texpr_shrinks(value, k, na);
            let r = eval_expr_spec(value, env, l, accounts);
            let v = r.0->0;
            assert(tstmt_binds(st, symbol));
            lemma_amount_of(v);
            assert(tstmt_currencies(st, cur, accounts, rates).contains_key(symbol));
            lemma_map_sum_insert(r.1, symbol, Value::Money(amount_of(v)), wv);
        },
        TStmt::Debit { account, value, .. } => {
            lemma_expr_conserves(value, env, l, accounts, k);
            lemma_expr_conserves_in(value, env, l, accounts, k, cur, curf, c);
            let r = eval_expr_spec(value, env, l, accounts);
            lemma_post_total_in(r.2, accounts, account.0 as int, r.0->0, c);
        },
        TStmt::Split { a, b, money, amount, .. } => {
            lemma_expr_conserves(money, env, l, accounts, k);
            lemma_expr_conserves_in(money, env, l, accounts, k, cur, curf, c);
            crate::typeck::lemma_texpr_shrinks(money, k, na);
            let r = eval_expr_spec(money, env, l, accounts);
            let t = r.0->0;
            assert(tstmt_binds(st, a) && tstmt_binds(st, b));
            lemma_amount_of(t - amount@);
            let step = tstmt_currencies(st, cur, accounts, rates);
            assert(step.contains_key(a) && step.contains_key(b));
            lemma_map_sum_insert(r.1, a, Value::Money(amount), wv);
            lemma_map_sum_insert(r.1.insert(a, Value::Money(amount)), b, Value::Money(amount_of(t - amount@)), wv);
        },
        TStmt::SplitRatio { a, b, money, a_weight, b_weight, .. } => {
            lemma_expr_conserves(money, env, l, accounts, k);
            lemma_expr_conserves_in(money, env, l, accounts, k, cur, curf, c);
            crate::typeck::lemma_texpr_shrinks(money, k, na);
            let r = eval_expr_spec(money, env, l, accounts);
            let t = r.0->0;
            let parts = split_ratio_spec(t, a_weight as nat, b_weight as nat);
            assert(tstmt_binds(st, a) && tstmt_binds(st, b));
            lemma_split_ratio_conserves(t, a_weight as nat, b_weight as nat);
            lemma_amount_of(parts.0);
            lemma_amount_of(parts.1);
            let step = tstmt_currencies(st, cur, accounts, rates);
            assert(step.contains_key(a) && step.contains_key(b));
            lemma_map_sum_insert(r.1, a, Value::Money(amount_of(parts.0)), wv);
            lemma_map_sum_insert(
                r.1.insert(a, Value::Money(amount_of(parts.0))),
                b,
                Value::Money(amount_of(parts.1)),
                wv,
            );
        },
        _ => {},
    }
}

/// The walk gives currencies only to symbols the body binds.
proof fn lemma_currencies_bound(ss: Seq<TStmt>, accounts: Seq<AccountInfo>, rates: Seq<RateInfo>)
    ensures
        forall|s: SymbolId| #[trigger] tstmts_currencies(ss, Map::empty(), accounts, rates).1.contains_key(s)
            ==> bound_by(ss, s),
    decreases ss.len(),
{
    if ss.len() > 0 {
        let prev = ss.drop_last();
        lemma_currencies_bound(prev, accounts, rates);
        let cp = tstmts_currencies(prev, Map::empty(), accounts, rates).1;
        let cs = tstmts_currencies(ss, Map::empty(), accounts, rates).1;
        assert forall|s: SymbolId| #[trigger] cs.contains_key(s) implies bound_by(ss, s) by {
            if cp.contains_key(s) {
                let i = choose|i: int| 0 <= i < prev.len() && #[trigger] tstmt_binds(prev[i], s);
                assert(prev[i] == ss[i]);
                assert(tstmt_binds(ss[i], s));
            } else {
                assert(tstmt_binds(ss[ss.len() - 1], s));
            }
        }
    }
}

/// Per currency: evaluating a conversion-free body that keeps currencies apart leaves
/// the balances plus the live values of each currency summing to what the balances of
/// that currency did before.
#[verifier::spinoff_prover]
#[verifier::rlimit(50)]
proof fn lemma_stmts_conserve_in(
    ss: Seq<TStmt>,
    l: Map<Seq<char>, int>,
    accounts: Seq<AccountInfo>,
    currencies: Seq<CurrencyInfo>,
    rates: Seq<RateInfo>,
    curf: Map<SymbolId, CurrencyId>,
    c: CurrencyId,
)
    requires
        l.dom().finite(),
        tstmts_ok(ss, Map::empty(), accounts.len(), currencies.len(), rates.len()) is Some,
        binds_once(ss),
        conversion_free(ss),
        eval_stmts_spec(ss, Map::empty(), l, accounts, currencies, rates).0 is None,
        paths_unique(accounts),
        tstmts_currencies(ss, Map::empty(), accounts, rates).0,
        currencies_within(tstmts_currencies(ss, Map::empty(), accounts, rates).1, curf),
    ensures
        ({
            let r = eval_stmts_spec(ss, Map::empty(), l, accounts, currencies, rates);
            ledger_total_in(r.2, accounts, c) + live_total_in(r.1, curf, c) == ledger_total_in(l, accounts, c)
        }),
    decreases ss.len(),
{
    let na = accounts.len();
    let nc = currencies.len();
    let nr = rates.len();
    if ss.len() == 0 {
        lemma_map_sum_empty(Map::<SymbolId, Value>::empty(), value_weight_in(curf, c));
    } else {
        let prev = ss.drop_last();
        let st = ss.last();
        assert forall|i: int, j: int, s: SymbolId|
            0 <= i < j < prev.len() && #[trigger] tstmt_binds(prev[i], s) implies !#[trigger] tstmt_binds(
            prev[j],
            s,
        ) by {
            assert(prev[i] == ss[i] && prev[j] == ss[j]);
        }
        assert forall|j: int| 0 <= j < prev.len() implies binds_distinct(#[trigger] prev[j]) by {
            assert(prev[j] == ss[j]);
        }
        assert forall|j: int| 0 <= j < prev.len() implies !(#[trigger] prev[j] is Convert) && !(
        prev[j] is Absorb) by {
            assert(prev[j] == ss[j]);
        }
        let cp = tstmts_currencies(prev, Map::empty(), accounts, rates).1;
        let cs = tstmt_currencies(st, cp, accounts, rates);
        lemma_currencies_bound(prev, accounts, rates);
        assert(st == ss[ss.len() - 1]);
        assert forall|s: SymbolId| #[trigger] tstmt_binds(st, s) implies !cp.contains_key(s) by {
            if cp.contains_key(s) {
                let i = choose|i: int| 0 <= i < prev.len() && #[trigger] tstmt_binds(prev[i], s);
                assert(prev[i] == ss[i]);
                assert(tstmt_binds(ss[i], s));
            }
        }
        assert forall|s: SymbolId| #[trigger] cp.contains_key(s) implies curf.contains_key(s) && curf[s]
            == cp[s] by {
            assert(!tstmt_binds(st, s));
            assert(cs.contains_key(s) && cs[s] == cp[s]);
        }
        lemma_stmts_conserve(prev, l, accounts, currencies, rates);
        lemma_stmts_conserve_in(prev, l, accounts, currencies, rates, curf, c);
        let p = eval_stmts_spec(prev, Map::empty(), l, accounts, currencies, rates);
        let k = tstmts_ok(prev, Map::empty(), na, nc, nr)->0;
        assert forall|s: SymbolId| #[trigger] tstmt_binds(st, s) implies !k.contains_key(s) by {
            if k.contains_key(s) {
                assert(bound_by(prev, s));
                let i = choose|i: int| 0 <= i < prev.len() && #[trigger] tstmt_binds(prev[i], s);
                assert(prev[i] == ss[i]);
                assert(tstmt_binds(ss[i], s));
            }
        }
        lemma_stmt_conserves_in(st, p.1, p.2, accounts, currencies, rates, k, cp, curf, c);
    }
}

/// Per currency: a conversion-free transaction that keeps currencies apart, consumes
/// every value it binds, binds each symbol once and completes leaves the sum of the
/// balances of each currency exactly as it found it.
pub proof fn lemma_balanced_txn_conserves_in(
    ss: Seq<TStmt>,
    l: Map<Seq<char>, int>,
    accounts: Seq<AccountInfo>,
    currencies: Seq<CurrencyInfo>,
    rates: Seq<RateInfo>,
    c: CurrencyId,
)
    requires
        l.dom().finite(),
        tstmts_ok(ss, Map::empty(), accounts.len(), currencies.len(), rates.len()) == Some(
            Map::<SymbolId, BindingKind>::empty(),
        ),
        binds_once(ss),
        conversion_free(ss),
        paths_unique(accounts),
        tstmts_currencies(ss, Map::empty(), accounts, rates).0,
        eval_stmts_spec(ss, Map::empty(), l, accounts, currencies, rates).0 is None,
    ensures
        ledger_total_in(eval_stmts_spec(ss, Map::empty(), l, accounts, currencies, rates).2, accounts, c)
            == ledger_total_in(l, accounts, c),
{
    let curf = tstmts_currencies(ss, Map::empty(), accounts, rates).1;
    lemma_stmts_conserve(ss, l, accounts, currencies, rates);
    lemma_stmts_conserve_in(ss, l, accounts, currencies, rates, curf, c);
    let r = eval_stmts_spec(ss, Map::empty(), l, accounts, currencies, rates);
    lemma_map_sum_empty(r.1, value_weight_in(curf, c));
}

/// Per currency, over a whole run: when every transaction is conversion-free, keeps
/// currencies apart, consumes every value it binds, binds each symbol once, and none
/// stops, the balances of the accounts of each currency sum to zero.
pub proof fn lemma_balanced_run_in(
    ts: Seq<TTxnDecl>,
    accounts: Seq<AccountInfo>,
    currencies: Seq<CurrencyInfo>,
    rates: Seq<RateInfo>,
    c: CurrencyId,
)
    requires
        paths_unique(accounts),
        forall|i: int|
            0 <= i < ts.len() ==> tstmts_ok(
                #[trigger] ts[i].stmts@,
                Map::empty(),
                accounts.len(),
                currencies.len(),
                rates.len(),
            ) == Some(Map::<SymbolId, BindingKind>::empty()),
        forall|i: int| 0 <= i < ts.len() ==> binds_once(#[trigger] ts[i].stmts@),
        forall|i: int| 0 <= i < ts.len() ==> conversion_free(#[trigger] ts[i].stmts@),
        forall|i: int| 0 <= i < ts.len() ==> tstmts_currencies(#[trigger] ts[i].stmts@, Map::empty(), accounts, rates).0,
        eval_txns_spec(ts, accounts, currencies, rates).0.len() == 0,
    ensures
        ledger_total_in(eval_txns_spec(ts, accounts, currencies, rates).1, accounts, c) == 0,
    decreases ts.len(),
{
    lemma_balanced_run(ts, accounts, currencies, rates);
    if ts.len() == 0 {
        lemma_map_sum_empty(Map::<Seq<char>, int>::empty(), balance_weight_in(accounts, c));
    } else {
        let pre = ts.drop_last();
        let prev = eval_txns_spec(pre, accounts, currencies, rates);
        let last = ts.last();
        let r = eval_stmts_spec(last.stmts@, Map::empty(), prev.1, accounts, currencies, rates);
        assert(prev.0.len() == 0) by {
            if r.0 is Some {
                assert(prev.0.push(r.0->0).len() > 0);
            }
        }
        assert forall|i: int| 0 <= i < pre.len() implies tstmts_ok(
            #[trigger] pre[i].stmts@,
            Map::empty(),
            accounts.len(),
            currencies.len(),
            rates.len(),
        ) == Some(Map::<SymbolId, BindingKind>::empty()) && binds_once(pre[i].stmts@) && conversion_free(
            pre[i].stmts@,
        ) && tstmts_currencies(pre[i].stmts@, Map::empty(), accounts, rates).0 by {
            assert(pre[i] == ts[i]);
        }
        lemma_balanced_run(pre, accounts, currencies, rates);
        lemma_balanced_run_in(pre, accounts, currencies, rates, c);
        assert(last == ts[ts.len() - 1]);
        assert(r.0 is None) by {
            if r.0 is Some {
                assert(prev.0.push(r.0->0).len() > 0);
            }
        }
        lemma_balanced_txn_conserves_in(last.stmts@, prev.1, accounts, currencies, rates, c);
    }
}

/// The account declarations that take effect never share a path.
proof fn lemma_kept_accounts_unique(ds: Seq<ast::AccountDecl>, cn: Seq<Seq<char>>)
    ensures
        forall|i: int, j: int|
            0 <= i < kept_accounts(ds, cn).len() && 0 <= j < kept_accounts(ds, cn).len()
                && #[trigger] account_paths(kept_accounts(ds, cn))[i] == #[trigger] account_paths(
                kept_accounts(ds, cn),
            )[j] ==> i == j,
    decreases ds.len(),
{
    if ds.len() > 0 {
        let t = kept_accounts(ds.drop_last(), cn);
        lemma_kept_accounts_unique(ds.drop_last(), cn);
        let d = ds.last();
        let out = kept_accounts(ds, cn);
        let names = account_paths(t);
        lemma_find_from(names, d.path.text(), 0);
        if out.len() > t.len() {
            let on = account_paths(out);
            assert(on =~= names.push(d.path.text()));
            assert forall|i: int, j: int|
                0 <= i < out.len() && 0 <= j < out.len() && #[trigger] on[i] == #[trigger] on[j] implies i
                == j by {
                if i < t.len() && j < t.len() {
                    assert(on[i] == names[i] && on[j] == names[j]);
                } else if i < t.len() {
                    assert(on[i] == names[i]);
                } else if j < t.len() {
                    assert(on[j] == names[j]);
                }
            }
        }
    }
}

/// What resolution produces never has two accounts with one path.
pub proof fn lemma_resolved_paths_unique(r: ResolvedModule, m: ast::Module)
    requires
        resolved_from(r, m),
    ensures
        paths_unique(r.accounts@),
{
    let accts = kept_accounts(m.accounts@, module_currency_names(m));
    lemma_kept_accounts_unique(m.accounts@, module_currency_names(m));
    let names = account_paths(accts);
    assert forall|i: int, j: int|
        0 <= i < r.accounts@.len() && 0 <= j < r.accounts@.len() && #[trigger] r.accounts@[i].path@
            == #[trigger] r.accounts@[j].path@ implies i == j by {
        assert(names[i] == accts[i].0.path.text());
        assert(names[j] == accts[j].0.path.text());
    }
}

/// Every balance of the ledger belongs to an account.
pub open spec fn keys_are_paths(l: Map<Seq<char>, int>, accounts: Seq<AccountInfo>) -> bool {
    forall|p: Seq<char>| #[trigger] l.contains_key(p) ==> exists|i: int| 0 <= i < accounts.len() && accounts[i].path@ == p
}

proof fn lemma_post_keys(l: Map<Seq<char>, int>, accounts: Seq<AccountInfo>, j: int, delta: int)
    requires
        keys_are_paths(l, accounts),
        0 <= j < accounts.len(),
    ensures
        post_spec(l, accounts[j].path@, delta) matches Some(l2) ==> keys_are_paths(l2, accounts),
{
    if let Some(l2) = post_spec(l, accounts[j].path@, delta) {
        assert forall|p: Seq<char>| #[trigger] l2.contains_key(p) implies exists|i: int|
            0 <= i < accounts.len() && accounts[i].path@ == p by {
            if p != accounts[j].path@ {
                assert(l.contains_key(p));
            }
        }
    }
}

proof fn lemma_expr_keys(e: TMoneyExpr, env: Map<SymbolId, Value>, l: Map<Seq<char>, int>, accounts: Seq<AccountInfo>)
    requires
        keys_are_paths(l, accounts),
        texpr_ids(e, accounts.len()),
    ensures
        keys_are_paths(eval_expr_spec(e, env, l, accounts).2, accounts),
    decreases e,
{
    match e {
        TMoneyExpr::Credit { account, amount } => {
            lemma_post_keys(l, accounts, account.0 as int, -amount@);
        },
        TMoneyExpr::Var { .. } => {},
        TMoneyExpr::Merge { a, b } => {
            lemma_expr_keys(*a, env, l, accounts);
            let ra = eval_expr_spec(*a, env, l, accounts);
            lemma_expr_keys(*b, ra.1, ra.2, accounts);
        },
    }
}

proof fn lemma_stmt_keys(
    st: TStmt,
    env: Map<SymbolId, Value>,
    l: Map<Seq<char>, int>,
    accounts: Seq<AccountInfo>,
    currencies: Seq<CurrencyInfo>,
    rates: Seq<RateInfo>,
)
    requires
        keys_are_paths(l, accounts),
        tstmt_ids(st, accounts.len(), currencies.len(), rates.len()),
    ensures
        keys_are_paths(eval_stmt_spec(st, env, l, accounts, currencies, rates).2, accounts),
{
    match st {
        TStmt::Let { value, .. } => lemma_expr_keys(value, env, l, accounts),
        TStmt::Convert { money, .. } => lemma_expr_keys(money, env, l, accounts),
        TStmt::Debit { account, value, .. } => {
            lemma_expr_keys(value, env, l, accounts);
            let r = eval_expr_spec(value, env, l, accounts);
            if let Some(v) = r.0 {
                lemma_post_keys(r.2, accounts, account.0 as int, v);
            }
        },
        TStmt::Absorb { residual, account, .. } => {
            if env.contains_key(residual) && env[residual] is Residue {
                let amount = env[residual]->Residue_amount as int;
                let extra = env[residual]->Residue_extra_scale;
                lemma_post_keys(l, accounts, account.0 as int, trunc_div(amount, pow10(extra as nat) as int));
            }
        },
        TStmt::Split { money, .. } => lemma_expr_keys(money, env, l, accounts),
        TStmt::SplitRatio { money, .. } => lemma_expr_keys(money, env, l, accounts),
    }
}

proof fn lemma_stmts_keys(
    ss: Seq<TStmt>,
    env: Map<SymbolId, Value>,
    l: Map<Seq<char>, int>,
    accounts: Seq<AccountInfo>,
    currencies: Seq<CurrencyInfo>,
    rates: Seq<RateInfo>,
)
    requires
        keys_are_paths(l, accounts),
        forall|j: int| 0 <= j < ss.len() ==> tstmt_ids(#[trigger] ss[j], accounts.len(), currencies.len(), rates.len()),
    ensures
        keys_are_paths(eval_stmts_spec(ss, env, l, accounts, currencies, rates).2, accounts),
    decreases ss.len(),
{
    if ss.len() > 0 {
        let prev = ss.drop_last();
        assert forall|j: int| 0 <= j < prev.len() implies tstmt_ids(
            #[trigger] prev[j],
            accounts.len(),
            currencies.len(),
            rates.len(),
        ) by {
            assert(prev[j] == ss[j]);
        }
        lemma_stmts_keys(prev, env, l, accounts, currencies, rates);
        let p = eval_stmts_spec(prev, env, l, accounts, currencies, rates);
        assert(tstmt_ids(ss[ss.len() - 1], accounts.len(), currencies.len(), rates.len()));
        lemma_stmt_keys(ss.last(), p.1, p.2, accounts, currencies, rates);
    }
}

/// Evaluation only ever posts to declared accounts.
pub proof fn lemma_run_keys(
    ts: Seq<TTxnDecl>,
    accounts: Seq<AccountInfo>,
    currencies: Seq<CurrencyInfo>,
    rates: Seq<RateInfo>,
)
    requires
        forall|i: int|
            0 <= i < ts.len() ==> tstmts_ok(
                #[trigger] ts[i].stmts@,
                Map::empty(),
                accounts.len(),
                currencies.len(),
                rates.len(),
            ) is Some,
    ensures
        keys_are_paths(eval_txns_spec(ts, accounts, currencies, rates).1, accounts),
    decreases ts.len(),
{
    if ts.len() > 0 {
        let pre = ts.drop_last();
        assert forall|i: int| 0 <= i < pre.len() implies tstmts_ok(
            #[trigger] pre[i].stmts@,
            Map::empty(),
            accounts.len(),
            currencies.len(),
            rates.len(),
        ) is Some by {
            assert(pre[i] == ts[i]);
        }
        lemma_run_keys(pre, accounts, currencies, rates);
        let prev = eval_txns_spec(pre, accounts, currencies, rates);
        let last = ts.last();
        assert(last == ts[ts.len() - 1]);
        lemma_tstmts_ids(last.stmts@, Map::empty(), accounts.len(), currencies.len(), rates.len());
        lemma_stmts_keys(last.stmts@, Map::empty(), prev.1, accounts, currencies, rates);
    } else {
        assert(keys_are_paths(Map::<Seq<char>, int>::empty(), accounts));
    }
}

} // verus!
