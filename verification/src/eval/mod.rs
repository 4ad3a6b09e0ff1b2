//! `typeck::TModule` -> `LedgerState`, tree-walking. `eval` never fabricates a `Money`
//! or `Residue` value and never re-checks linearity: `typeck` already guaranteed that
//! every binding is live, and of the right kind, where it is used (`tmodule_ok`).
//!
//! `convert`'s arithmetic lives here, not in `typeck`: the money flowing into
//! `convert` is often a variable whose amount isn't known until this stage. `split`'s
//! side condition (the amount handed to one half can't exceed what the input is
//! worth) is the same story, and is the first check `eval` can fail on its own. Where
//! a running balance, a `merge` sum or a conversion does not fit the fixed-point
//! representation, evaluation of that transaction stops with `E_AMOUNT_OUT_OF_RANGE`.
//!
//! `eval_stmt_spec` and `eval_txns_spec` state the evaluation over maps; `eval`
//! computes exactly them.

pub mod conservation;

use vstd::prelude::*;
use crate::amount::{amount_of, i64_fits, lemma_i64_product_fits_i128, lemma_pow10_positive, pow10, spec_format, Amount};
use crate::diag::{Code, Diagnostic};
use crate::resolve::{find_from, find_name, lemma_find_from, lemma_find_push, AccountInfo, CurrencyInfo, RateInfo, SymbolId};
use crate::span::Span;
use crate::text::{push_str, string_eq};
use crate::typeck::rules::{assoc, assoc_map, keys_unique, lemma_assoc_unique, remove_key};
use crate::typeck::{lemma_tstmts_ids, tables_ok, texpr_ids, tmodule_ok, tstmt_ids, TModule, TMoneyExpr, TStmt, TTxnDecl};

verus! {

/// A binding's runtime value: an ordinary `Money` amount, or a `convert`-produced
/// `Residue` — the fractional leftover from rounding, an integer at `extra_scale`
/// digits beyond its currency's nominal scale.
#[derive(Clone, Copy)]
pub enum Value {
    Money(Amount),
    Residue { amount: i64, extra_scale: u32 },
}

/// Per-account running balance, keyed by the account path's rendered form
/// (`"assets:cash"`). Debits (and `absorb`s) increase a balance, credits decrease it.
pub struct LedgerState {
    paths: Vec<String>,
    balances: Vec<Amount>,
}

pub open spec fn path_views(ps: Seq<String>) -> Seq<Seq<char>> {
    ps.map_values(|p: String| p@)
}

impl View for LedgerState {
    type V = Map<Seq<char>, int>;

    /// Each posted account's balance, in minor units.
    closed spec fn view(&self) -> Map<Seq<char>, int> {
        Map::new(
            |p: Seq<char>| find_name(path_views(self.paths@), p) is Some,
            |p: Seq<char>| self.balances@[find_name(path_views(self.paths@), p)->0 as int]@,
        )
    }
}

impl LedgerState {
    pub closed spec fn wf(&self) -> bool {
        self.paths@.len() == self.balances@.len()
    }

    /// No account posted yet.
    pub fn new() -> (l: LedgerState)
        ensures
            l.wf(),
            l@ == Map::<Seq<char>, int>::empty(),
    {
        let l = LedgerState { paths: Vec::new(), balances: Vec::new() };
        proof {
            assert(l@ =~= Map::<Seq<char>, int>::empty());
        }
        l
    }

    fn find(&self, account: &str) -> (r: Option<usize>)
        requires
            self.wf(),
        ensures
            match r {
                Some(i) => find_name(path_views(self.paths@), account@) == Some(i as nat) && i
                    < self.paths@.len(),
                None => find_name(path_views(self.paths@), account@) is None,
            },
    {
        let ghost names = path_views(self.paths@);
        let key = String::from_str(account);
        let mut i: usize = 0;
        while i < self.paths.len()
            invariant
                i <= self.paths@.len(),
                names == path_views(self.paths@),
                key@ == account@,
                find_name(names, account@) == find_from(names, account@, i as int),
            decreases self.paths@.len() - i,
        {
            if string_eq(&self.paths[i], &key) {
                return Some(i);
            }
            i = i + 1;
        }
        None
    }

    /// The balance of `account`, if anything was ever posted to it.
    pub fn get(&self, account: &str) -> (r: Option<Amount>)
        requires
            self.wf(),
        ensures
            match r {
                Some(a) => self@.contains_key(account@) && a@ == self@[account@],
                None => !self@.contains_key(account@),
            },
    {
        match self.find(account) {
            Some(i) => Some(self.balances[i]),
            None => None,
        }
    }

    /// Adds `delta` to `account`'s balance (from zero, if never posted), unless the new
    /// balance does not fit; reports whether it was posted.
    fn post(&mut self, account: &String, delta: Amount) -> (ok: bool)
        requires
            old(self).wf(),
        ensures
            final(self).wf(),
            ok == (post_spec(old(self)@, account@, delta@) is Some),
            ok ==> final(self)@ == post_spec(old(self)@, account@, delta@)->0,
            !ok ==> final(self)@ == old(self)@,
    {
        broadcast use crate::amount::group_amount;
        match self.find(account.as_str()) {
            Some(i) => {
                let bal = self.balances[i];
                assert(old(self)@.contains_key(account@));
                match bal.cents().checked_add(delta.cents()) {
                    Some(sum) => {
                        let ghost pv = path_views(self.paths@);
                        self.balances.set(i, Amount::from_cents(sum));
                        proof {
                            assert(self@ =~= old(self)@.insert(account@, sum as int)) by {
                                assert forall|p: Seq<char>| #[trigger] self@.contains_key(p) implies self@[p]
                                    == old(self)@.insert(account@, sum as int)[p] by {
                                    let j = find_name(pv, p)->0;
                                    lemma_find_from(pv, p, 0);
                                    lemma_find_from(pv, account@, 0);
                                    if p != account@ {
                                        assert(j != i);
                                    }
                                }
                            }
                        }
                        true
                    },
                    None => false,
                }
            },
            None => {
                let ghost pv = path_views(self.paths@);
                self.paths.push(account.clone());
                self.balances.push(delta);
                proof {
                    assert(path_views(self.paths@) =~= pv.push(account@));
                    lemma_find_from(pv, account@, 0);
                    assert forall|p: Seq<char>| true implies find_name(path_views(self.paths@), p) == (
                    if find_name(pv, p) is Some {
                        find_name(pv, p)
                    } else if account@ == p {
                        Some(pv.len())
                    } else {
                        None
                    }) by {
                        lemma_find_push(pv, p, account@);
                    }
                    assert forall|p: Seq<char>| #[trigger] find_name(pv, p) is Some implies find_name(
                        pv,
                        p,
                    )->0 < pv.len() by {
                        lemma_find_from(pv, p, 0);
                    }
                    assert(self@ =~= old(self)@.insert(account@, delta@));
                }
                true
            },
        }
    }
}

/// `account`'s balance, zero when never posted.
pub open spec fn balance(l: Map<Seq<char>, int>, p: Seq<char>) -> int {
    if l.contains_key(p) {
        l[p]
    } else {
        0
    }
}

/// Posting `delta` to `p`: the new ledger, or `None` when the balance would not fit.
pub open spec fn post_spec(l: Map<Seq<char>, int>, p: Seq<char>, delta: int) -> Option<
    Map<Seq<char>, int>,
> {
    if i64_fits(balance(l, p) + delta) {
        Some(l.insert(p, balance(l, p) + delta))
    } else {
        None
    }
}

// ---------------------------------------------------------------------------------
// Integer division as Rust's `/` and `%` do it: rounding toward zero.

pub open spec fn trunc_div(x: int, y: int) -> int {
    if x >= 0 {
        x / y
    } else {
        -((-x) / y)
    }
}

pub open spec fn trunc_rem(x: int, y: int) -> int {
    if x >= 0 {
        x % y
    } else {
        -((-x) % y)
    }
}

pub proof fn lemma_trunc(x: int, y: int)
    requires
        y > 0,
    ensures
        x == trunc_div(x, y) * y + trunc_rem(x, y),
        x >= 0 ==> 0 <= trunc_rem(x, y) < y && 0 <= trunc_div(x, y) <= x,
        x < 0 ==> -y < trunc_rem(x, y) <= 0 && x <= trunc_div(x, y) <= 0,
{
    if x >= 0 {
        assert(x == (x / y) * y + x % y && 0 <= x % y < y && 0 <= x / y <= x) by (nonlinear_arith)
            requires
                x >= 0,
                y > 0,
        ;
    } else {
        let u = -x;
        assert(u == (u / y) * y + u % y && 0 <= u % y < y && 0 <= u / y <= u) by (nonlinear_arith)
            requires
                u > 0,
                y > 0,
        ;
        assert((-(u / y)) * y == -((u / y) * y)) by (nonlinear_arith);
    }
}

/// `x / y` and `x % y` as Rust computes them on `i128`, for a positive divisor.
fn trunc_div_rem(x: i128, y: i128) -> (r: (i128, i128))
    requires
        y > 0,
        x > i128::MIN,
    ensures
        r.0 == trunc_div(x as int, y as int),
        r.1 == trunc_rem(x as int, y as int),
{
    proof {
        lemma_trunc(x as int, y as int);
    }
    if x >= 0 {
        (x / y, x % y)
    } else {
        let u = -x;
        (-(u / y), -(u % y))
    }
}

// ---------------------------------------------------------------------------------
// split_ratio

/// Largest-remainder allocation of `t` minor units in ratio `aw : bw`: both ideal
/// shares rounded toward zero, then the shortfall handed to whichever side's ideal
/// share had the larger remainder — ties toward the first.
pub open spec fn split_ratio_spec(t: int, aw: nat, bw: nat) -> (int, int) {
    let tw = (aw + bw) as int;
    let af = trunc_div(t * aw, tw);
    let bf = trunc_div(t * bw, tw);
    let ar = trunc_rem(t * aw, tw);
    let br = trunc_rem(t * bw, tw);
    let shortfall = t - af - bf;
    if ar >= br {
        (af + shortfall, bf)
    } else {
        (af, bf + shortfall)
    }
}

/// `split_ratio` hands out exactly its input: the two parts sum to the total, each lies
/// between zero and the total, and (for a non-negative total) each is within one minor
/// unit of its exact share.
pub proof fn lemma_split_ratio_conserves(t: int, aw: nat, bw: nat)
    requires
        aw + bw > 0,
    ensures
        split_ratio_spec(t, aw, bw).0 + split_ratio_spec(t, aw, bw).1 == t,
        t >= 0 ==> 0 <= split_ratio_spec(t, aw, bw).0 <= t && 0 <= split_ratio_spec(t, aw, bw).1
            <= t,
        t < 0 ==> t <= split_ratio_spec(t, aw, bw).0 <= 0 && t <= split_ratio_spec(t, aw, bw).1
            <= 0,
        t >= 0 ==> -(aw + bw) < split_ratio_spec(t, aw, bw).0 * (aw + bw) - t * aw < aw + bw,
        t >= 0 ==> -(aw + bw) < split_ratio_spec(t, aw, bw).1 * (aw + bw) - t * bw < aw + bw,
{
    let tw = (aw + bw) as int;
    let an = t * aw;
    let bn = t * bw;
    lemma_trunc(an, tw);
    lemma_trunc(bn, tw);
    let af = trunc_div(an, tw);
    let bf = trunc_div(bn, tw);
    let ar = trunc_rem(an, tw);
    let br = trunc_rem(bn, tw);
    assert(an + bn == t * tw) by (nonlinear_arith)
        requires
            an == t * aw,
            bn == t * bw,
            tw == aw + bw,
    ;
    let sf = t - af - bf;
    assert(ar + br == sf * tw) by (nonlinear_arith)
        requires
            an == af * tw + ar,
            bn == bf * tw + br,
            an + bn == t * tw,
            sf == t - af - bf,
    ;
    if t >= 0 {
        assert(an >= 0 && bn >= 0 && an <= t * tw && bn <= t * tw) by (nonlinear_arith)
            requires
                t >= 0,
                an == t * aw,
                bn == t * bw,
                tw == aw + bw,
                aw >= 0,
                bw >= 0,
        ;
        assert(af <= t && bf <= t) by (nonlinear_arith)
            requires
                an == af * tw + ar,
                bn == bf * tw + br,
                0 <= ar,
                0 <= br,
                an <= t * tw,
                bn <= t * tw,
                tw > 0,
        ;
        assert(0 <= sf <= 1) by (nonlinear_arith)
            requires
                ar + br == sf * tw,
                0 <= ar < tw,
                0 <= br < tw,
                tw > 0,
        ;
        if sf == 1 {
            assert(ar + br == tw) by (nonlinear_arith)
                requires
                    ar + br == sf * tw,
                    sf == 1,
            ;
            assert((af + 1) * tw == af * tw + tw && (bf + 1) * tw == bf * tw + tw) by (nonlinear_arith);
        } else {
            assert(ar + br == 0) by (nonlinear_arith)
                requires
                    ar + br == sf * tw,
                    sf == 0,
            ;
        }
    } else {
        assert(an <= 0 && bn <= 0 && an >= t * tw && bn >= t * tw) by (nonlinear_arith)
            requires
                t < 0,
                an == t * aw,
                bn == t * bw,
                tw == aw + bw,
                aw >= 0,
                bw >= 0,
        ;
        assert(af >= t && bf >= t) by (nonlinear_arith)
            requires
                an == af * tw + ar,
                bn == bf * tw + br,
                ar <= 0,
                br <= 0,
                an >= t * tw,
                bn >= t * tw,
                tw > 0,
        ;
    }
}

/// T-SplitRatio's largest-remainder allocation: splits `total` in ratio
/// `a_weight : b_weight` as exactly as whole minor units allow, the one unit of
/// rounding shortfall (if any) going to whichever side's ideal share had the larger
/// fractional remainder, ties toward `a`. The weights are not both zero.
pub fn split_ratio(total: Amount, a_weight: u32, b_weight: u32) -> (r: (Amount, Amount))
    requires
        a_weight as int + b_weight as int > 0,
    ensures
        (r.0@, r.1@) == split_ratio_spec(total@, a_weight as nat, b_weight as nat),
{
    broadcast use crate::amount::group_amount;
    let total_weight: i128 = a_weight as i128 + b_weight as i128;
    let t: i128 = total.cents() as i128;
    proof {
        assert(-0x8000_0000_0000_0000 * 0xffff_ffff <= t * a_weight <= 0x7fff_ffff_ffff_ffff
            * 0xffff_ffff) by (nonlinear_arith)
            requires
                -0x8000_0000_0000_0000 <= t <= 0x7fff_ffff_ffff_ffff,
                0 <= a_weight <= 0xffff_ffff,
        ;
        assert(-0x8000_0000_0000_0000 * 0xffff_ffff <= t * b_weight <= 0x7fff_ffff_ffff_ffff
            * 0xffff_ffff) by (nonlinear_arith)
            requires
                -0x8000_0000_0000_0000 <= t <= 0x7fff_ffff_ffff_ffff,
                0 <= b_weight <= 0xffff_ffff,
        ;
    }
    let a_num = t * a_weight as i128;
    let b_num = t * b_weight as i128;
    let (a_floor, a_rem) = trunc_div_rem(a_num, total_weight);
    let (b_floor, b_rem) = trunc_div_rem(b_num, total_weight);
    proof {
        lemma_split_ratio_conserves(t as int, a_weight as nat, b_weight as nat);
        lemma_trunc(a_num as int, total_weight as int);
        lemma_trunc(b_num as int, total_weight as int);
    }
    let shortfall = t - a_floor - b_floor;
    let (a_final, b_final) = if a_rem >= b_rem {
        (a_floor + shortfall, b_floor)
    } else {
        (a_floor, b_floor + shortfall)
    };
    (Amount::from_cents(a_final as i64), Amount::from_cents(b_final as i64))
}


// ---------------------------------------------------------------------------------
// Bindings

/// The bindings as contracts see them.
pub open spec fn env_view(env: Seq<(SymbolId, Value)>) -> Map<SymbolId, Value> {
    assoc_map(env)
}

fn env_insert(env: &mut Vec<(SymbolId, Value)>, symbol: SymbolId, value: Value)
    requires
        keys_unique(old(env)@),
    ensures
        keys_unique(final(env)@),
        env_view(final(env)@) == env_view(old(env)@).insert(symbol, value),
{
    let mut e = remove_key(env, symbol);
    let ghost before = e@;
    e.push((symbol, value));
    proof {
        assert forall|i: int, j: int| 0 <= i < j < e@.len() implies e@[i].0 != e@[j].0 by {
            if j == e@.len() - 1 {
                assert(e@[i] == before[i]);
                if before[i].0 == symbol {
                    lemma_assoc_unique(before, i);
                }
            } else {
                assert(e@[i] == before[i] && e@[j] == before[j]);
            }
        }
        assert(e@.drop_last() == before);
        assert forall|j: SymbolId| assoc(e@, j) == (if j == symbol {
            Some(value)
        } else {
            assoc(old(env)@, j)
        }) by {
            assert(assoc(before, j) == (if j == symbol {
                None
            } else {
                assoc(old(env)@, j)
            }));
        }
        assert(env_view(e@) =~= env_view(old(env)@).insert(symbol, value));
    }
    *env = e;
}

/// Takes `symbol`'s value out of the bindings, if it is bound.
fn env_take(env: &mut Vec<(SymbolId, Value)>, symbol: SymbolId) -> (r: Option<Value>)
    requires
        keys_unique(old(env)@),
    ensures
        keys_unique(final(env)@),
        r == (if env_view(old(env)@).contains_key(symbol) {
            Some(env_view(old(env)@)[symbol])
        } else {
            None
        }),
        env_view(final(env)@) == env_view(old(env)@).remove(symbol),
{
    let mut i: usize = 0;
    let mut found: Option<Value> = None;
    while i < env.len()
        invariant
            i <= env@.len(),
            keys_unique(env@),
            found matches Some(v) ==> assoc(env@, symbol) == Some(v),
            found is None ==> forall|m: int| 0 <= m < i ==> env@[m].0 != symbol,
        decreases env@.len() - i,
    {
        if env[i].0 == symbol {
            proof {
                lemma_assoc_unique(env@, i as int);
            }
            found = Some(env[i].1);
        }
        i = i + 1;
    }
    proof {
        if found is None && assoc(env@, symbol) is Some {
            crate::typeck::rules::lemma_assoc_some(env@, symbol);
        }
    }
    let e = remove_key(env, symbol);
    proof {
        assert(env_view(e@) =~= env_view(env@).remove(symbol));
    }
    *env = e;
    found
}

// ---------------------------------------------------------------------------------
// The evaluation, over maps

/// Evaluating a money expression: its amount (when it evaluates), then the bindings
/// and balances afterwards. A `credit` posts to its source account at once; a variable
/// moves its amount out of the bindings.
pub open spec fn eval_expr_spec(
    e: TMoneyExpr,
    env: Map<SymbolId, Value>,
    l: Map<Seq<char>, int>,
    accounts: Seq<AccountInfo>,
) -> (Option<int>, Map<SymbolId, Value>, Map<Seq<char>, int>)
    decreases e,
{
    match e {
        TMoneyExpr::Credit { account, amount } => if !i64_fits(-amount@) {
            (None, env, l)
        } else {
            match post_spec(l, accounts[account.0 as int].path@, -amount@) {
                Some(l2) => (Some(amount@), env, l2),
                None => (None, env, l),
            }
        },
        TMoneyExpr::Var { symbol } => if env.contains_key(symbol) && env[symbol] is Money {
            (Some(env[symbol]->Money_0@), env.remove(symbol), l)
        } else {
            (None, env.remove(symbol), l)
        },
        TMoneyExpr::Merge { a, b } => {
            let ra = eval_expr_spec(*a, env, l, accounts);
            match ra.0 {
                None => ra,
                Some(x) => {
                    let rb = eval_expr_spec(*b, ra.1, ra.2, accounts);
                    match rb.0 {
                        None => rb,
                        Some(y) => if i64_fits(x + y) {
                            (Some(x + y), rb.1, rb.2)
                        } else {
                            (None, rb.1, rb.2)
                        },
                    }
                },
            }
        },
    }
}

/// The conversion math: the exact value of `cents` (in `rate.from`'s minor units) at
/// `rate`, as one fraction over a power of ten, split into the `rate.to` minor units
/// (rounded toward zero), the exact remainder, and the remainder's extra digits of
/// precision. `None` when an intermediate does not fit an `i128`.
pub open spec fn convert_spec(cents: int, rate: RateInfo, currencies: Seq<CurrencyInfo>) -> Option<
    (int, int, u32),
> {
    let from_scale = currencies[rate.from.0 as int].scale as int;
    let to_scale = currencies[rate.to.0 as int].scale as int;
    let extra = from_scale + rate.scale;
    let num = cents * rate.numerator * pow10(to_scale as nat);
    let den = pow10(extra as nat) as int;
    if extra > u32::MAX || pow10(to_scale as nat) > i128::MAX || den > i128::MAX || num
        <= i128::MIN || num > i128::MAX {
        None
    } else {
        Some(
            (
                (trunc_div(num, den) as i64) as int,
                (trunc_rem(num, den) as i64) as int,
                extra as u32,
            ),
        )
    }
}

/// Evaluating one statement: whether it stops the transaction (with the code and span
/// of its diagnostic), then the bindings and balances afterwards.
pub open spec fn eval_stmt_spec(
    s: TStmt,
    env: Map<SymbolId, Value>,
    l: Map<Seq<char>, int>,
    accounts: Seq<AccountInfo>,
    currencies: Seq<CurrencyInfo>,
    rates: Seq<RateInfo>,
) -> (Option<(Code, Span)>, Map<SymbolId, Value>, Map<Seq<char>, int>) {
    match s {
        TStmt::Let { symbol, value, span } => {
            let r = eval_expr_spec(value, env, l, accounts);
            match r.0 {
                Some(v) => (None, r.1.insert(symbol, Value::Money(amount_of(v))), r.2),
                None => (Some((Code::AmountOutOfRange, span)), r.1, r.2),
            }
        },
        TStmt::Convert { primary, residual, money, rate, span } => {
            let r = eval_expr_spec(money, env, l, accounts);
            match r.0 {
                Some(v) => match convert_spec(v, rates[rate.0 as int], currencies) {
                    Some((p, res, extra)) => (
                        None,
                        r.1.insert(primary, Value::Money(amount_of(p))).insert(
                            residual,
                            Value::Residue { amount: res as i64, extra_scale: extra },
                        ),
                        r.2,
                    ),
                    None => (Some((Code::AmountOutOfRange, span)), r.1, r.2),
                },
                None => (Some((Code::AmountOutOfRange, span)), r.1, r.2),
            }
        },
        TStmt::Debit { account, value, span } => {
            let r = eval_expr_spec(value, env, l, accounts);
            match r.0 {
                Some(v) => match post_spec(r.2, accounts[account.0 as int].path@, v) {
                    Some(l2) => (None, r.1, l2),
                    None => (Some((Code::AmountOutOfRange, span)), r.1, r.2),
                },
                None => (Some((Code::AmountOutOfRange, span)), r.1, r.2),
            }
        },
        TStmt::Absorb { residual, account, span } => if env.contains_key(residual)
            && env[residual] is Residue {
            let amount = env[residual]->Residue_amount as int;
            let extra = env[residual]->Residue_extra_scale;
            let rest = env.remove(residual);
            if pow10(extra as nat) > i64::MAX {
                (Some((Code::AmountOutOfRange, span)), rest, l)
            } else {
                match post_spec(
                    l,
                    accounts[account.0 as int].path@,
                    trunc_div(amount, pow10(extra as nat) as int),
                ) {
                    Some(l2) => (None, rest, l2),
                    None => (Some((Code::AmountOutOfRange, span)), rest, l),
                }
            }
        } else {
            (Some((Code::AmountOutOfRange, span)), env.remove(residual), l)
        },
        TStmt::Split { a, b, money, amount, amount_span, span, .. } => {
            let r = eval_expr_spec(money, env, l, accounts);
            match r.0 {
                Some(t) => if amount@ > t {
                    (Some((Code::Unbalanced, amount_span)), r.1, r.2)
                } else if !i64_fits(t - amount@) {
                    (Some((Code::AmountOutOfRange, span)), r.1, r.2)
                } else {
                    (
                        None,
                        r.1.insert(a, Value::Money(amount)).insert(
                            b,
                            Value::Money(amount_of(t - amount@)),
                        ),
                        r.2,
                    )
                },
                None => (Some((Code::AmountOutOfRange, span)), r.1, r.2),
            }
        },
        TStmt::SplitRatio { a, b, money, a_weight, b_weight, span } => {
            let r = eval_expr_spec(money, env, l, accounts);
            match r.0 {
                Some(t) => {
                    let parts = split_ratio_spec(t, a_weight as nat, b_weight as nat);
                    (
                        None,
                        r.1.insert(a, Value::Money(amount_of(parts.0))).insert(
                            b,
                            Value::Money(amount_of(parts.1)),
                        ),
                        r.2,
                    )
                },
                None => (Some((Code::AmountOutOfRange, span)), r.1, r.2),
            }
        },
    }
}

/// Evaluating a body's statements in order until one stops it: the stopping code and
/// span (if any), then the bindings and balances.
pub open spec fn eval_stmts_spec(
    ss: Seq<TStmt>,
    env: Map<SymbolId, Value>,
    l: Map<Seq<char>, int>,
    accounts: Seq<AccountInfo>,
    currencies: Seq<CurrencyInfo>,
    rates: Seq<RateInfo>,
) -> (Option<(Code, Span)>, Map<SymbolId, Value>, Map<Seq<char>, int>)
    decreases ss.len(),
{
    if ss.len() == 0 {
        (None, env, l)
    } else {
        let prev = eval_stmts_spec(ss.drop_last(), env, l, accounts, currencies, rates);
        if prev.0 is Some {
            prev
        } else {
            eval_stmt_spec(ss.last(), prev.1, prev.2, accounts, currencies, rates)
        }
    }
}

/// Evaluating every transaction in order, each from no bindings, over one shared
/// ledger: the code and span of each transaction's stopping diagnostic, and the ledger.
pub open spec fn eval_txns_spec(
    ts: Seq<TTxnDecl>,
    accounts: Seq<AccountInfo>,
    currencies: Seq<CurrencyInfo>,
    rates: Seq<RateInfo>,
) -> (Seq<(Code, Span)>, Map<Seq<char>, int>)
    decreases ts.len(),
{
    if ts.len() == 0 {
        (Seq::empty(), Map::empty())
    } else {
        let prev = eval_txns_spec(ts.drop_last(), accounts, currencies, rates);
        let r = eval_stmts_spec(ts.last().stmts@, Map::empty(), prev.1, accounts, currencies, rates);
        (
            if r.0 is Some {
                prev.0.push(r.0->0)
            } else {
                prev.0
            },
            r.2,
        )
    }
}


// ---------------------------------------------------------------------------------
// The evaluation

/// `10^e` when it fits an `i128`.
fn pow10_i128(e: u32) -> (r: Option<i128>)
    ensures
        r == (if pow10(e as nat) <= i128::MAX {
            Some(pow10(e as nat) as i128)
        } else {
            None::<i128>
        }),
{
    let mut acc: i128 = 1;
    let mut i: u32 = 0;
    while i < e
        invariant
            i <= e,
            acc >= 1,
            acc as nat == pow10(i as nat),
        decreases e - i,
    {
        if acc > i128::MAX / 10 {
            proof {
                crate::amount::lemma_pow10_monotone((i + 1) as nat, e as nat);
                assert(acc * 10 > i128::MAX) by (nonlinear_arith)
                    requires
                        acc > i128::MAX / 10,
                ;
            }
            return None;
        }
        assert(acc * 10 <= i128::MAX) by (nonlinear_arith)
            requires
                acc <= i128::MAX / 10,
        ;
        acc = acc * 10;
        i = i + 1;
    }
    Some(acc)
}

/// The conversion math (T-Convert): the exact value of `amount` at `rate`, split into
/// the `rate.to` minor units (rounded toward zero — never more than was there) and the
/// exact remainder, at `from`'s scale plus the rate's own digits of extra precision.
/// `None` when an intermediate does not fit.
pub fn convert(amount: Amount, rate: &RateInfo, currencies: &[CurrencyInfo]) -> (r: Option<
    (Amount, i64, u32),
>)
    requires
        rate.from.0 < currencies@.len(),
        rate.to.0 < currencies@.len(),
    ensures
        match r {
            Some((p, res, extra)) => convert_spec(amount@, *rate, currencies@) == Some(
                (p@, res as int, extra),
            ),
            None => convert_spec(amount@, *rate, currencies@) is None,
        },
{
    broadcast use crate::amount::group_amount;
    let from_scale = currencies[rate.from.0 as usize].scale;
    let to_scale = currencies[rate.to.0 as usize].scale;
    let extra_scale = from_scale.checked_add(rate.scale)?;
    let p_to = pow10_i128(to_scale)?;
    let den = pow10_i128(extra_scale)?;
    proof {
        lemma_i64_product_fits_i128(amount@, rate.numerator as int);
        lemma_pow10_positive(extra_scale as nat);
    }
    let base: i128 = amount.cents() as i128 * rate.numerator as i128;
    let num = base.checked_mul(p_to)?;
    if num == i128::MIN {
        return None;
    }
    let (q, rem) = trunc_div_rem(num, den);
    Some((Amount::from_cents(q as i64), rem as i64, extra_scale))
}

/// Conversion keeps value. Converting `cents` minor units of `rate.from` at
/// `rate.numerator / 10^rate.scale` gives a primary amount `p` in `rate.to`'s minor
/// units and a residue `res` with `p * 10^(s_from + rate.scale) + res` equal to
/// `cents * numerator * 10^s_to`, where `s_from` and `s_to` are the two currencies'
/// scales: the residue is at `s_from + rate.scale` digits, smaller than one unit of
/// `rate.to`, and of the value's sign, so `p` is the exact value rounded toward
/// zero. Wherever the exact results fit an `i64` (and the powers of ten their types),
/// the conversion succeeds and all this holds.
pub proof fn lemma_convert_keeps_value(cents: int, rate: RateInfo, currencies: Seq<CurrencyInfo>)
    requires
        rate.from.0 < currencies.len(),
        rate.to.0 < currencies.len(),
        pow10((currencies[rate.from.0 as int].scale + rate.scale) as nat) <= i64::MAX,
        pow10(currencies[rate.to.0 as int].scale as nat) <= i128::MAX,
        -(i64::MAX * pow10((currencies[rate.from.0 as int].scale + rate.scale) as nat)) <= cents
            * rate.numerator * pow10(currencies[rate.to.0 as int].scale as nat) <= i64::MAX * pow10(
            (currencies[rate.from.0 as int].scale + rate.scale) as nat,
        ),
    ensures
        ({
            let s_from = currencies[rate.from.0 as int].scale as int;
            let s_to = currencies[rate.to.0 as int].scale as int;
            let unit = pow10((s_from + rate.scale) as nat) as int;
            let value = cents * rate.numerator * pow10(s_to as nat);
            let (p, res, extra) = convert_spec(cents, rate, currencies)->0;
            &&& convert_spec(cents, rate, currencies) is Some
            &&& extra == s_from + rate.scale
            &&& p * unit + res == value
            &&& -unit < res < unit
            &&& value >= 0 ==> res >= 0
            &&& value <= 0 ==> res <= 0
        }),
{
    let s_from = currencies[rate.from.0 as int].scale as int;
    let s_to = currencies[rate.to.0 as int].scale as int;
    let unit = pow10((s_from + rate.scale) as nat) as int;
    let value = cents * rate.numerator * pow10(s_to as nat);
    lemma_pow10_positive((s_from + rate.scale) as nat);
    lemma_trunc(value, unit);
    let q = trunc_div(value, unit);
    let r = trunc_rem(value, unit);
    let m = i64::MAX as int;
    assert(-(m * m) <= value <= m * m) by (nonlinear_arith)
        requires
            -(m * unit) <= value <= m * unit,
            1 <= unit <= m,
            m == i64::MAX,
    ;
    crate::amount::lemma_pow10_fits_i64((s_from + rate.scale) as nat);
    if value >= 0 {
        assert(q <= m) by (nonlinear_arith)
            requires
                q * unit + r == value,
                r >= 0,
                unit >= 1,
                value <= m * unit,
        ;
    } else {
        assert(q >= -m) by (nonlinear_arith)
            requires
                q * unit + r == value,
                r <= 0,
                unit >= 1,
                value >= -(m * unit),
        ;
    }
    assert((q as i64) as int == q);
    assert((r as i64) as int == r);
}

pub open spec fn opt_cents(r: Option<Amount>) -> Option<int> {
    match r {
        Some(a) => Some(a@),
        None => None,
    }
}

/// Evaluating a `credit` posts it to its source account at once and hands back its
/// amount; a variable moves its amount out of the bindings; a `merge` evaluates both
/// sides in order and adds them.
fn eval_money_expr(
    expr: &TMoneyExpr,
    accounts: &[AccountInfo],
    env: &mut Vec<(SymbolId, Value)>,
    ledger: &mut LedgerState,
) -> (r: Option<Amount>)
    requires
        keys_unique(old(env)@),
        old(ledger).wf(),
        texpr_ids(*expr, accounts@.len()),
    ensures
        keys_unique(final(env)@),
        final(ledger).wf(),
        opt_cents(r) == eval_expr_spec(*expr, env_view(old(env)@), old(ledger)@, accounts@).0,
        env_view(final(env)@) == eval_expr_spec(*expr, env_view(old(env)@), old(ledger)@, accounts@).1,
        final(ledger)@ == eval_expr_spec(*expr, env_view(old(env)@), old(ledger)@, accounts@).2,
    decreases expr,
{
    broadcast use crate::amount::group_amount;
    match expr {
        TMoneyExpr::Credit { account, amount } => {
            if amount.cents() == i64::MIN {
                return None;
            }
            let neg = Amount::from_cents(-amount.cents());
            if ledger.post(&accounts[account.0 as usize].path, neg) {
                Some(*amount)
            } else {
                None
            }
        },
        TMoneyExpr::Var { symbol } => {
            match env_take(env, *symbol) {
                Some(Value::Money(amount)) => Some(amount),
                _ => None,
            }
        },
        TMoneyExpr::Merge { a, b } => {
            let x = eval_money_expr(a, accounts, env, ledger)?;
            let y = eval_money_expr(b, accounts, env, ledger)?;
            match x.cents().checked_add(y.cents()) {
                Some(sum) => Some(Amount::from_cents(sum)),
                None => None,
            }
        },
    }
}

/// What `eval` says when a split asks for `amount` minor units of a value holding
/// only `total`, both shown at `scale`.
pub open spec fn unbalanced_text(amount: int, total: int, scale: nat) -> Seq<char> {
    "cannot split off "@ + spec_format(amount, scale) + " — only "@ + spec_format(total, scale)
        + " is available"@
}

/// The messages `eval` writes: a value past `i64` is "too large to represent"; a split
/// larger than its value names both amounts, the larger first.
pub open spec fn eval_diag_ok(d: Diagnostic) -> bool {
    &&& d.secondary@.len() == 0
    &&& d.code == Code::AmountOutOfRange ==> d.message@ == "this amount is too large to represent"@
    &&& d.code == Code::Unbalanced ==> exists|amount: int, total: int, scale: nat|
        total < amount && d.message@ == unbalanced_text(amount, total, scale)
}

/// Evaluates one statement; reports whether it stopped the transaction, pushing its
/// diagnostic when it did.
fn eval_stmt(
    stmt: &TStmt,
    accounts: &[AccountInfo],
    currencies: &[CurrencyInfo],
    rates: &[RateInfo],
    env: &mut Vec<(SymbolId, Value)>,
    ledger: &mut LedgerState,
    diags: &mut Vec<Diagnostic>,
) -> (stop: bool)
    requires
        keys_unique(old(env)@),
        old(ledger).wf(),
        tstmt_ids(*stmt, accounts@.len(), currencies@.len(), rates@.len()),
        tables_ok(accounts@, currencies@, rates@),
    ensures
        keys_unique(final(env)@),
        final(ledger).wf(),
        ({
            let sp = eval_stmt_spec(
                *stmt,
                env_view(old(env)@),
                old(ledger)@,
                accounts@,
                currencies@,
                rates@,
            );
            &&& stop == sp.0 is Some
            &&& env_view(final(env)@) == sp.1
            &&& final(ledger)@ == sp.2
            &&& !stop ==> final(diags)@ == old(diags)@
            &&& stop ==> final(diags)@ == old(diags)@.push(final(diags)@.last()) && (
            final(diags)@.last().code,
            final(diags)@.last().span,
        ) == sp.0->0
        }),
        stop ==> eval_diag_ok(final(diags)@.last()),
{
    broadcast use crate::amount::group_amount;
    match stmt {
        TStmt::Let { symbol, value, span } => {
            match eval_money_expr(value, accounts, env, ledger) {
                Some(amount) => {
                    env_insert(env, *symbol, Value::Money(amount));
                    false
                },
                None => {
                    diags.push(out_of_range(*span));
                    true
                },
            }
        },
        TStmt::Convert { primary, residual, money, rate, span } => {
            let amount = match eval_money_expr(money, accounts, env, ledger) {
                Some(a) => a,
                None => {
                    diags.push(out_of_range(*span));
                    return true;
                },
            };
            let rate_info = &rates[rate.0 as usize];
            match convert(amount, rate_info, currencies) {
                Some((primary_amount, residual_amount, extra_scale)) => {
                    env_insert(env, *primary, Value::Money(primary_amount));
                    env_insert(
                        env,
                        *residual,
                        Value::Residue { amount: residual_amount, extra_scale },
                    );
                    false
                },
                None => {
                    diags.push(out_of_range(*span));
                    true
                },
            }
        },
        TStmt::Debit { account, value, span } => {
            let amount = match eval_money_expr(value, accounts, env, ledger) {
                Some(a) => a,
                None => {
                    diags.push(out_of_range(*span));
                    return true;
                },
            };
            if ledger.post(&accounts[account.0 as usize].path, amount) {
                false
            } else {
                diags.push(out_of_range(*span));
                true
            }
        },
        TStmt::Absorb { residual, account, span } => {
            match env_take(env, *residual) {
                Some(Value::Residue { amount, extra_scale }) => {
                    let divisor = match crate::amount::checked_pow10(extra_scale) {
                        Some(d) => d,
                        None => {
                            diags.push(out_of_range(*span));
                            return true;
                        },
                    };
                    proof {
                        lemma_pow10_positive(extra_scale as nat);
                    }
                    let (whole, _) = trunc_div_rem(amount as i128, divisor as i128);
                    if ledger.post(&accounts[account.0 as usize].path, Amount::from_cents(whole as i64)) {
                        false
                    } else {
                        diags.push(out_of_range(*span));
                        true
                    }
                },
                _ => {
                    diags.push(out_of_range(*span));
                    true
                },
            }
        },
        TStmt::Split { a, b, money, currency, amount, amount_span, span } => {
            let total = match eval_money_expr(money, accounts, env, ledger) {
                Some(t) => t,
                None => {
                    diags.push(out_of_range(*span));
                    return true;
                },
            };
            if amount.cents() > total.cents() {
                let scale = currencies[currency.0 as usize].scale;
                let mut msg = String::from_str("cannot split off ");
                let shown = amount.format(scale);
                push_str(&mut msg, shown.as_str());
                push_str(&mut msg, " — only ");
                let available = total.format(scale);
                push_str(&mut msg, available.as_str());
                push_str(&mut msg, " is available");
                proof {
                    reveal_strlit("cannot split off ");
                    assert(msg@ =~= unbalanced_text(amount@, total@, scale as nat));
                }
                diags.push(Diagnostic::new(Code::Unbalanced, msg.as_str(), *amount_span));
                proof {
                    assert(eval_diag_ok(diags@.last()));
                }
                return true;
            }
            match total.cents().checked_sub(amount.cents()) {
                Some(rest) => {
                    env_insert(env, *a, Value::Money(*amount));
                    env_insert(env, *b, Value::Money(Amount::from_cents(rest)));
                    false
                },
                None => {
                    diags.push(out_of_range(*span));
                    true
                },
            }
        },
        TStmt::SplitRatio { a, b, money, a_weight, b_weight, span } => {
            let total = match eval_money_expr(money, accounts, env, ledger) {
                Some(t) => t,
                None => {
                    diags.push(out_of_range(*span));
                    return true;
                },
            };
            let (a_amount, b_amount) = split_ratio(total, *a_weight, *b_weight);
            env_insert(env, *a, Value::Money(a_amount));
            env_insert(env, *b, Value::Money(b_amount));
            false
        },
    }
}

/// The diagnostic for a value that does not fit the fixed-point representation.
fn out_of_range(span: Span) -> (d: Diagnostic)
    ensures
        d.code == Code::AmountOutOfRange,
        d.span == span,
        d.message@ == "this amount is too large to represent"@,
        d.secondary@.len() == 0,
{
    Diagnostic::new(Code::AmountOutOfRange, "this amount is too large to represent", span)
}


/// Evaluates one transaction from no bindings; a statement that stops it ends it,
/// its postings so far staying in the ledger.
fn eval_txn(
    txn: &TTxnDecl,
    accounts: &[AccountInfo],
    currencies: &[CurrencyInfo],
    rates: &[RateInfo],
    ledger: &mut LedgerState,
    diags: &mut Vec<Diagnostic>,
)
    requires
        old(ledger).wf(),
        tables_ok(accounts@, currencies@, rates@),
        forall|j: int|
            0 <= j < txn.stmts@.len() ==> tstmt_ids(
                #[trigger] txn.stmts@[j],
                accounts@.len(),
                currencies@.len(),
                rates@.len(),
            ),
    ensures
        final(ledger).wf(),
        ({
            let r = eval_stmts_spec(
                txn.stmts@,
                Map::empty(),
                old(ledger)@,
                accounts@,
                currencies@,
                rates@,
            );
            &&& final(ledger)@ == r.2
            &&& r.0 is None ==> final(diags)@ == old(diags)@
            &&& r.0 is Some ==> final(diags)@ == old(diags)@.push(final(diags)@.last()) && (
            final(diags)@.last().code,
            final(diags)@.last().span,
        ) == r.0->0
            &&& r.0 is Some ==> eval_diag_ok(final(diags)@.last())
        }),
{
    let ghost all = txn.stmts@;
    let ghost l0 = ledger@;
    let mut env: Vec<(SymbolId, Value)> = Vec::new();
    proof {
        assert(env_view(env@) =~= Map::<SymbolId, Value>::empty());
        assert(all.take(0) =~= Seq::<TStmt>::empty());
    }
    let mut i: usize = 0;
    let mut stopped = false;
    while !stopped && i < txn.stmts.len()
        invariant
            i <= all.len(),
            all == txn.stmts@,
            keys_unique(env@),
            ledger.wf(),
            tables_ok(accounts@, currencies@, rates@),
            forall|j: int|
                0 <= j < all.len() ==> tstmt_ids(
                    #[trigger] all[j],
                    accounts@.len(),
                    currencies@.len(),
                    rates@.len(),
                ),
            !stopped ==> eval_stmts_spec(
                all.take(i as int),
                Map::empty(),
                l0,
                accounts@,
                currencies@,
                rates@,
            ).0 is None,
            !stopped ==> env_view(env@) == eval_stmts_spec(
                all.take(i as int),
                Map::empty(),
                l0,
                accounts@,
                currencies@,
                rates@,
            ).1,
            !stopped ==> ledger@ == eval_stmts_spec(
                all.take(i as int),
                Map::empty(),
                l0,
                accounts@,
                currencies@,
                rates@,
            ).2,
            !stopped ==> diags@ == old(diags)@,
            stopped ==> ({
                let r = eval_stmts_spec(all, Map::empty(), l0, accounts@, currencies@, rates@);
                &&& r.0 is Some
                &&& ledger@ == r.2
                &&& diags@ == old(diags)@.push(diags@.last())
                &&& (diags@.last().code, diags@.last().span) == r.0->0
                &&& eval_diag_ok(diags@.last())
            }),
        decreases all.len() - i, if stopped { 0int } else { 1int },
    {
        proof {
            assert(all.take(i + 1).drop_last() =~= all.take(i as int));
            assert(all.take(i + 1).last() == all[i as int]);
        }
        let ghost env0 = env_view(env@);
        let ghost led0 = ledger@;
        let stop = eval_stmt(&txn.stmts[i], accounts, currencies, rates, &mut env, ledger, diags);
        proof {
            assert(eval_stmts_spec(all.take(i + 1), Map::empty(), l0, accounts@, currencies@, rates@)
                == eval_stmt_spec(all[i as int], env0, led0, accounts@, currencies@, rates@));
        }
        if stop {
            proof {
                lemma_eval_stmts_stopped(all, i as int + 1, l0, accounts@, currencies@, rates@);
            }
            stopped = true;
        } else {
            i = i + 1;
        }
    }
    proof {
        if !stopped {
            assert(all.take(all.len() as int) =~= all);
        }
    }
}

/// Once a statement stops a body, the statements after it change nothing.
proof fn lemma_eval_stmts_stopped(
    ss: Seq<TStmt>,
    i: int,
    l: Map<Seq<char>, int>,
    accounts: Seq<AccountInfo>,
    currencies: Seq<CurrencyInfo>,
    rates: Seq<RateInfo>,
)
    requires
        0 <= i <= ss.len(),
        eval_stmts_spec(ss.take(i), Map::empty(), l, accounts, currencies, rates).0 is Some,
    ensures
        eval_stmts_spec(ss, Map::empty(), l, accounts, currencies, rates) == eval_stmts_spec(
            ss.take(i),
            Map::empty(),
            l,
            accounts,
            currencies,
            rates,
        ),
    decreases ss.len() - i,
{
    if i < ss.len() {
        assert(ss.take(i + 1).drop_last() =~= ss.take(i));
        lemma_eval_stmts_stopped(ss, i + 1, l, accounts, currencies, rates);
    } else {
        assert(ss.take(i) =~= ss);
    }
}

/// Evaluates every transaction independently, in order, over one ledger: a statement
/// that stops a transaction ends that transaction, but later ones still run, so a
/// source file with two independent errors reports both. A ledger comes back only
/// when no diagnostic was raised; the diagnostics carry exactly the codes and spans
/// `eval_txns_spec` gives, with the messages `eval_diag_ok` describes, and the ledger
/// is its balances.
pub fn eval(module: &TModule) -> (r: (Option<LedgerState>, Vec<Diagnostic>))
    requires
        tmodule_ok(*module),
    ensures
        r.0 is Some <==> r.1@.len() == 0,
        r.1@.map_values(|d: Diagnostic| (d.code, d.span)) == eval_txns_spec(
            module.txns@,
            module.accounts@,
            module.currencies@,
            module.rates@,
        ).0,
        r.0 matches Some(l) ==> l.wf() && l@ == eval_txns_spec(
            module.txns@,
            module.accounts@,
            module.currencies@,
            module.rates@,
        ).1,
        forall|k: int| 0 <= k < r.1@.len() ==> eval_diag_ok(#[trigger] r.1@[k]),
{
    let ghost all = module.txns@;
    let ghost (accts, curs, rts) = (module.accounts@, module.currencies@, module.rates@);
    let mut ledger = LedgerState::new();
    let mut diags: Vec<Diagnostic> = Vec::new();
    proof {
        assert(all.take(0) =~= Seq::<TTxnDecl>::empty());
        assert(diags@.map_values(|d: Diagnostic| (d.code, d.span)) =~= Seq::<(Code, Span)>::empty());
    }
    let mut i: usize = 0;
    while i < module.txns.len()
        invariant
            i <= all.len(),
            all == module.txns@,
            accts == module.accounts@,
            curs == module.currencies@,
            rts == module.rates@,
            tmodule_ok(*module),
            ledger.wf(),
            diags@.map_values(|d: Diagnostic| (d.code, d.span)) == eval_txns_spec(
                all.take(i as int),
                accts,
                curs,
                rts,
            ).0,
            ledger@ == eval_txns_spec(all.take(i as int), accts, curs, rts).1,
            forall|k: int| 0 <= k < diags@.len() ==> eval_diag_ok(#[trigger] diags@[k]),
        decreases all.len() - i,
    {
        proof {
            assert(all.take(i + 1).drop_last() =~= all.take(i as int));
            assert(all.take(i + 1).last() == all[i as int]);
            assert(tstmts_ok_at(*module, i as int));
            lemma_tstmts_ids(
                all[i as int].stmts@,
                Map::empty(),
                accts.len(),
                curs.len(),
                rts.len(),
            );
        }
        let ghost before = diags@;
        eval_txn(
            &module.txns[i],
            module.accounts.as_slice(),
            module.currencies.as_slice(),
            module.rates.as_slice(),
            &mut ledger,
            &mut diags,
        );
        proof {
            let f = |d: Diagnostic| (d.code, d.span);
            if diags@.len() > before.len() {
                assert(diags@.map_values(f) =~= before.map_values(f).push(f(diags@.last())));
                assert forall|k: int| 0 <= k < diags@.len() implies eval_diag_ok(#[trigger] diags@[k]) by {
                    if k < before.len() {
                        assert(diags@[k] == before[k]);
                    }
                }
            }
        }
        i = i + 1;
    }
    proof {
        assert(all.take(all.len() as int) =~= all);
    }
    if diags.len() == 0 {
        (Some(ledger), diags)
    } else {
        (None, diags)
    }
}

/// The `i`th body of `m` walks cleanly.
pub open spec fn tstmts_ok_at(m: TModule, i: int) -> bool {
    crate::typeck::tstmts_ok(
        m.txns@[i].stmts@,
        Map::empty(),
        m.accounts@.len(),
        m.currencies@.len(),
        m.rates@.len(),
    ) is Some
}

} // verus!
