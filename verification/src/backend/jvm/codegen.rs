//! A type-checked module -> `.class` bytes. Emits one class per module: a
//! `private final balanc.runtime.Ledger ledger` field (indexed by account id, so no
//! name lookup is needed at runtime), one public no-argument method per transaction,
//! and a `run()` that calls them all in declaration order and returns the trial
//! balance as a `String`.
//!
//! Every generated method is straight-line bytecode. Every place the language has a
//! data-dependent choice (`split_ratio`'s tie-break, `split`'s bound check) is a single
//! `invokestatic` into `balanc.runtime.Ledger`, which carries the branch instead.
//! Money is a `long` of minor units by this point: a `let`/`convert`/`split`/
//! `split_ratio` binding becomes one `long` local variable, keyed by its symbol.
//!
//! What each construct compiles to is stated as a sequence of instructions
//! (`money_insns`, `stmt_insns`, ...); `code::run` says what emitting them does to the
//! method's bytecode and the constant pool.

use vstd::prelude::*;
use crate::amount::{checked_pow10, pow10};
use crate::parse::ast::NormalBalance;
use crate::resolve::{AccountInfo, AccountKind, CurrencyInfo, RateInfo, SymbolId};
use crate::lex::{is_ascii_alphabetic, is_ascii_digit};
use crate::text::{chars_of, push_char, push_decimal, push_str, spec_decimal, string_eq};
use crate::typeck::rules::{assoc, lemma_assoc_some};
use crate::typeck::{TModule, TMoneyExpr, TStmt, TTxnDecl};
use super::class::{
    class_bytes, ClassFile, FieldView, MethodView, ACC_FINAL, ACC_PRIVATE, ACC_PUBLIC, ACC_STATIC,
};
use super::code::{
    args_words, call_words_spec, field_words, find_char, lemma_run_append, lemma_run_push,
    run, skip_brackets, CodeBuilder, CodeView, Insn, T_BOOLEAN, T_INT,
};
use super::pool::{with_class, with_utf8, ConstantPool, Const};

verus! {

pub open spec fn ledger_class() -> Seq<char> {
    "balanc/runtime/Ledger"@
}

pub open spec fn ledger_desc() -> Seq<char> {
    "Lbalanc/runtime/Ledger;"@
}

pub open spec fn string_arr() -> Seq<char> {
    "[Ljava/lang/String;"@
}

pub open spec fn report_desc() -> Seq<char> {
    "([Ljava/lang/String;[I[I[Z[Ljava/lang/String;[I)Ljava/lang/String;"@
}

/// What the descriptors of `Ledger.post` and the `ledger` field read as.
pub proof fn lemma_post_descriptors()
    ensures
        call_words_spec("(IJ)V"@) == Some((3nat, 0nat)),
        field_words(ledger_desc()) == 1,
        ledger_desc().len() > 0,
{
    reveal_strlit("(IJ)V");
    reveal_strlit("Lbalanc/runtime/Ledger;");
    reveal_with_fuel(find_char, 6);
    reveal_with_fuel(args_words, 4);
    let d = "(IJ)V"@;
    assert(d.subrange(1, 3) =~= seq!['I', 'J']);
    assert(d.subrange(4, 5) =~= seq!['V']);
}

/// What the descriptors of `Ledger`'s two splitting helpers read as.
pub proof fn lemma_split_descriptors()
    ensures
        call_words_spec("(JJ)J"@) == Some((4nat, 2nat)),
        call_words_spec("(JJJ)[J"@) == Some((6nat, 1nat)),
{
    reveal_strlit("(JJ)J");
    reveal_strlit("(JJJ)[J");
    reveal_with_fuel(find_char, 7);
    reveal_with_fuel(args_words, 5);
    let d = "(JJ)J"@;
    assert(d.subrange(1, 3) =~= seq!['J', 'J']);
    assert(d.subrange(4, 5) =~= seq!['J']);
    let d = "(JJJ)[J"@;
    assert(d.subrange(1, 4) =~= seq!['J', 'J', 'J']);
    assert(d.subrange(5, 7) =~= seq!['[', 'J']);
}

/// What the descriptors of the class's own methods, and of what they call, read as.
pub proof fn lemma_method_descriptors()
    ensures
        call_words_spec("()V"@) == Some((0nat, 0nat)),
        call_words_spec("(I)V"@) == Some((1nat, 0nat)),
        call_words_spec("()Ljava/lang/String;"@) == Some((0nat, 1nat)),
        call_words_spec("(Ljava/lang/String;)V"@) == Some((1nat, 0nat)),
        call_words_spec(report_desc()) == Some((6nat, 1nat)),
        field_words(ledger_desc()) == 1,
        field_words(string_arr()) == 1,
        field_words("[I"@) == 1,
        field_words("[Z"@) == 1,
        field_words("Ljava/io/PrintStream;"@) == 1,
        ledger_desc().len() > 0,
        string_arr().len() > 0,
        "[I"@.len() > 0,
        "[Z"@.len() > 0,
        "Ljava/io/PrintStream;"@.len() > 0,
{
    reveal_strlit("()V");
    reveal_strlit("(I)V");
    reveal_strlit("()Ljava/lang/String;");
    reveal_strlit("(Ljava/lang/String;)V");
    reveal_strlit("([Ljava/lang/String;[I[I[Z[Ljava/lang/String;[I)Ljava/lang/String;");
    reveal_strlit("Lbalanc/runtime/Ledger;");
    reveal_strlit("[Ljava/lang/String;");
    reveal_strlit("[I");
    reveal_strlit("[Z");
    reveal_strlit("Ljava/io/PrintStream;");
    reveal_with_fuel(find_char, 70);
    reveal_with_fuel(args_words, 12);
    reveal_with_fuel(skip_brackets, 3);
    let d = "()V"@;
    assert(d.subrange(1, 1) =~= Seq::<char>::empty());
    assert(d.subrange(2, 3) =~= seq!['V']);
    let d = "(I)V"@;
    assert(d.subrange(1, 2) =~= seq!['I']);
    assert(d.subrange(3, 4) =~= seq!['V']);
    let d = "()Ljava/lang/String;"@;
    assert(d.subrange(1, 1) =~= Seq::<char>::empty());
    assert(d.subrange(2, 20) != seq!['V']);
    let d = "(Ljava/lang/String;)V"@;
    assert(find_char(d, ')', 0) == 19);
    assert(d.subrange(20, 21) =~= seq!['V']);
    let d = report_desc();
    assert(find_char(d, ')', 0) == 47);
    assert(d.subrange(48, 66) != seq!['V']);
}

/// Per-transaction codegen state: each symbol's local slot (every bound value is a
/// `long`, so slots advance by 2), the next free slot, and which extra scale each
/// residue binding carries, needed again at its `absorb`.
pub struct SlotEnv {
    pub slots: Seq<(SymbolId, u16)>,
    pub next: nat,
    pub scales: Seq<(SymbolId, u32)>,
}

/// A fresh transaction: slot 0 is `this`.
pub open spec fn initial_env() -> SlotEnv {
    SlotEnv { slots: Seq::empty(), next: 1, scales: Seq::empty() }
}

/// The slot of `s`, allocating the next two when it has none yet.
pub open spec fn slot_of(env: SlotEnv, s: SymbolId) -> (u16, SlotEnv) {
    match assoc(env.slots, s) {
        Some(n) => (n, env),
        None => (
            env.next as u16,
            SlotEnv { slots: env.slots.push((s, env.next as u16)), next: env.next + 2, ..env },
        ),
    }
}

/// A slot of `width` that no symbol owns.
pub open spec fn fresh_slot(env: SlotEnv, width: nat) -> (u16, SlotEnv) {
    (env.next as u16, SlotEnv { next: env.next + width, ..env })
}

/// `this.ledger.post(account, delta)`.
pub open spec fn post_insns(class: Seq<char>, account: u32, delta: i64) -> Seq<Insn> {
    seq![
        Insn::AloadThis,
        Insn::GetField(class, "ledger"@, ledger_desc()),
        Insn::PushInt(account as i32),
        Insn::PushLong(delta),
        Insn::InvokeVirtual(ledger_class(), "post"@, "(IJ)V"@),
    ]
}

/// A money expression's code, which leaves its `long` value on the stack: a
/// `credit` posts its negated amount to its account and pushes the amount, a
/// variable loads its slot, a `merge` adds its two parts. `None` where a credit's
/// amount has no negation in an `i64`.
pub open spec fn money_insns(e: TMoneyExpr, class: Seq<char>, env: SlotEnv) -> Option<
    (Seq<Insn>, SlotEnv),
>
    decreases e,
{
    match e {
        TMoneyExpr::Credit { account, amount } => if amount@ == i64::MIN {
            None
        } else {
            Some(
                (
                    post_insns(class, account.0, (-amount@) as i64).push(
                        Insn::PushLong(amount@ as i64),
                    ),
                    env,
                ),
            )
        },
        TMoneyExpr::Var { symbol } => {
            let (n, e1) = slot_of(env, symbol);
            Some((seq![Insn::Lload(n)], e1))
        },
        TMoneyExpr::Merge { a, b } => match money_insns(*a, class, env) {
            Some((ia, e1)) => match money_insns(*b, class, e1) {
                Some((ib, e2)) => Some(((ia + ib).push(Insn::Ladd), e2)),
                None => None,
            },
            None => None,
        },
    }
}

/// The constants a `convert` through `rate` folds in: its multiplier
/// `numerator * 10^to_scale`, its divisor `10^(from_scale + rate scale)`, and that
/// extra scale. `None` where the rate or a currency is not in the tables, or one of
/// them does not fit.
pub open spec fn convert_constants(
    rate: u32,
    currencies: Seq<CurrencyInfo>,
    rates: Seq<RateInfo>,
) -> Option<(i64, i64, u32)> {
    if rate >= rates.len() {
        None
    } else {
        let info = rates[rate as int];
        if info.from.0 >= currencies.len() || info.to.0 >= currencies.len() {
            None
        } else {
            let extra = currencies[info.from.0 as int].scale + info.scale;
            let p = pow10(currencies[info.to.0 as int].scale as nat);
            let m = info.numerator * p;
            if extra > u32::MAX || p > i64::MAX || m > i64::MAX || m < i64::MIN || pow10(
                extra as nat,
            ) > i64::MAX {
                None
            } else {
                Some((m as i64, pow10(extra as nat) as i64, extra as u32))
            }
        }
    }
}

/// The compiled `convert` computes what the interpreter computes: multiplying a value
/// of `cents` minor units by the multiplier and dividing by the divisor (as the JVM's
/// `lmul`, `ldiv` and `lrem` do, rounding toward zero) gives `eval`'s primary amount
/// and residue, and the residue's scale is `eval`'s. Wherever the constants and the
/// product fit a `long`, the constants exist and all this holds.
pub proof fn lemma_convert_constants_agree(
    rate: u32,
    cents: int,
    currencies: Seq<CurrencyInfo>,
    rates: Seq<RateInfo>,
)
    requires
        rate < rates.len(),
        rates[rate as int].from.0 < currencies.len(),
        rates[rate as int].to.0 < currencies.len(),
        pow10(
            (currencies[rates[rate as int].from.0 as int].scale + rates[rate as int].scale) as nat,
        ) <= i64::MAX,
        pow10(currencies[rates[rate as int].to.0 as int].scale as nat) <= i64::MAX,
        i64::MIN <= rates[rate as int].numerator * pow10(
            currencies[rates[rate as int].to.0 as int].scale as nat,
        ) <= i64::MAX,
        i64::MIN < cents * (rates[rate as int].numerator * pow10(
            currencies[rates[rate as int].to.0 as int].scale as nat,
        )) <= i64::MAX,
    ensures
        ({
            let (m, d, extra) = convert_constants(rate, currencies, rates)->0;
            &&& convert_constants(rate, currencies, rates) is Some
            &&& d > 0
            &&& crate::eval::convert_spec(cents, rates[rate as int], currencies) == Some(
                (
                    crate::eval::trunc_div(cents * m, d as int),
                    crate::eval::trunc_rem(cents * m, d as int),
                    extra,
                ),
            )
        }),
{
    let info = rates[rate as int];
    let pt = pow10(currencies[info.to.0 as int].scale as nat);
    let e = currencies[info.from.0 as int].scale + info.scale;
    crate::amount::lemma_pow10_fits_i64(e as nat);
    let (m, d, extra) = convert_constants(rate, currencies, rates)->0;
    crate::amount::lemma_pow10_positive(e as nat);
    crate::amount::lemma_pow10_positive(currencies[info.to.0 as int].scale as nat);
    assert(cents * info.numerator * pt == cents * (info.numerator * pt)) by (nonlinear_arith);
    let num = cents * m;
    crate::eval::lemma_trunc(num, d as int);
    let q = crate::eval::trunc_div(num, d as int);
    let r = crate::eval::trunc_rem(num, d as int);
    assert((q as i64) as int == q);
    assert((r as i64) as int == r);
}

/// How many nodes an expression has: each costs at most a few pool entries and
/// local slots when emitted.
pub open spec fn money_size(e: TMoneyExpr) -> nat
    decreases e,
{
    match e {
        TMoneyExpr::Merge { a, b } => 1 + money_size(*a) + money_size(*b),
        _ => 1,
    }
}

/// The size of the money expression a statement evaluates (none for `absorb`).
pub open spec fn stmt_size(s: TStmt) -> nat {
    match s {
        TStmt::Let { value, .. } => money_size(value),
        TStmt::Convert { money, .. } => money_size(money),
        TStmt::Debit { value, .. } => money_size(value),
        TStmt::Absorb { .. } => 0,
        TStmt::Split { money, .. } => money_size(money),
        TStmt::SplitRatio { money, .. } => money_size(money),
    }
}

/// At most how many constant-pool indices a statement's code takes.
pub open spec fn stmt_pool_cost(s: TStmt) -> nat {
    17 * stmt_size(s) + 20
}

/// At most how many local slots a statement's code takes.
pub open spec fn stmt_slot_cost(s: TStmt) -> nat {
    2 * stmt_size(s) + 8
}

/// A method with `pool_next` pool indices and `next_slot` slots in use is far enough
/// from the class-file limits for the statement's code.
pub open spec fn stmt_fits(s: TStmt, pool_next: nat, next_slot: nat) -> bool {
    &&& pool_next + stmt_pool_cost(s) <= 65400
    &&& next_slot + stmt_slot_cost(s) <= 65400
    &&& 2 * stmt_size(s) + 4 <= 65400
}

/// A statement's code, which leaves the stack as it found it. `None` where a table
/// lookup or a folded constant fails, or an `absorb` names no live residue.
#[verifier::opaque]
pub open spec fn stmt_insns(
    s: TStmt,
    class: Seq<char>,
    currencies: Seq<CurrencyInfo>,
    rates: Seq<RateInfo>,
    env: SlotEnv,
) -> Option<(Seq<Insn>, SlotEnv)> {
    match s {
        TStmt::Let { symbol, value, .. } => match money_insns(value, class, env) {
            Some((mi, e1)) => {
                let (n, e2) = slot_of(e1, symbol);
                Some((mi.push(Insn::Lstore(n)), e2))
            },
            None => None,
        },
        TStmt::Convert { primary, residual, money, rate, .. } => {
            let (amt, e0) = fresh_slot(env, 2);
            match (money_insns(money, class, e0), convert_constants(rate.0, currencies, rates)) {
                (Some((mi, e1)), Some((m, d, extra))) => {
                    let (p, e2) = slot_of(e1, primary);
                    let (r, e3) = slot_of(e2, residual);
                    Some(
                        (
                            mi + seq![
                                Insn::Lstore(amt),
                                Insn::Lload(amt),
                                Insn::PushLong(m),
                                Insn::Lmul,
                                Insn::PushLong(d),
                                Insn::Ldiv,
                                Insn::Lstore(p),
                                Insn::Lload(amt),
                                Insn::PushLong(m),
                                Insn::Lmul,
                                Insn::PushLong(d),
                                Insn::Lrem,
                                Insn::Lstore(r),
                            ],
                            SlotEnv { scales: e3.scales.push((residual, extra)), ..e3 },
                        ),
                    )
                },
                _ => None,
            }
        },
        TStmt::Debit { account, value, .. } => match money_insns(value, class, env) {
            Some((mi, e1)) => Some(
                (
                    seq![
                        Insn::AloadThis,
                        Insn::GetField(class, "ledger"@, ledger_desc()),
                        Insn::PushInt(account.0 as i32),
                    ] + mi.push(Insn::InvokeVirtual(ledger_class(), "post"@, "(IJ)V"@)),
                    e1,
                ),
            ),
            None => None,
        },
        TStmt::Absorb { residual, account, .. } => match assoc(env.scales, residual) {
            Some(extra) => {
                let (n, e1) = slot_of(env, residual);
                let head = seq![
                    Insn::AloadThis,
                    Insn::GetField(class, "ledger"@, ledger_desc()),
                    Insn::PushInt(account.0 as i32),
                    Insn::Lload(n),
                ];
                let post = Insn::InvokeVirtual(ledger_class(), "post"@, "(IJ)V"@);
                if extra == 0 {
                    Some((head.push(post), e1))
                } else if pow10(extra as nat) > i64::MAX {
                    None
                } else {
                    Some(
                        (
                            head + seq![
                                Insn::PushLong(pow10(extra as nat) as i64),
                                Insn::Ldiv,
                                post,
                            ],
                            e1,
                        ),
                    )
                }
            },
            None => None,
        },
        TStmt::Split { a, b, money, amount, .. } => match money_insns(money, class, env) {
            Some((mi, e1)) => {
                let (bs, e2) = slot_of(e1, b);
                let (as_, e3) = slot_of(e2, a);
                Some(
                    (
                        mi + seq![
                            Insn::PushLong(amount@ as i64),
                            Insn::InvokeStatic(ledger_class(), "checkedSplitRemainder"@, "(JJ)J"@),
                            Insn::Lstore(bs),
                            Insn::PushLong(amount@ as i64),
                            Insn::Lstore(as_),
                        ],
                        e3,
                    ),
                )
            },
            None => None,
        },
        TStmt::SplitRatio { a, b, money, a_weight, b_weight, .. } => match money_insns(
            money,
            class,
            env,
        ) {
            Some((mi, e1)) => {
                let (arr, e2) = fresh_slot(e1, 1);
                let (as_, e3) = slot_of(e2, a);
                let (bs, e4) = slot_of(e3, b);
                Some(
                    (
                        mi + seq![
                            Insn::PushLong(a_weight as i64),
                            Insn::PushLong(b_weight as i64),
                            Insn::InvokeStatic(ledger_class(), "splitRatio"@, "(JJJ)[J"@),
                            Insn::Astore(arr),
                            Insn::Aload(arr),
                            Insn::PushInt(0),
                            Insn::LaLoad,
                            Insn::Lstore(as_),
                            Insn::Aload(arr),
                            Insn::PushInt(1),
                            Insn::LaLoad,
                            Insn::Lstore(bs),
                        ],
                        e4,
                    ),
                )
            },
            None => None,
        },
    }
}

/// The statements' code, one after another.
pub open spec fn stmts_insns(
    ss: Seq<TStmt>,
    class: Seq<char>,
    currencies: Seq<CurrencyInfo>,
    rates: Seq<RateInfo>,
    env: SlotEnv,
) -> Option<(Seq<Insn>, SlotEnv)>
    decreases ss.len(),
{
    if ss.len() == 0 {
        Some((Seq::empty(), env))
    } else {
        match stmts_insns(ss.drop_last(), class, currencies, rates, env) {
            Some((is, e1)) => match stmt_insns(ss.last(), class, currencies, rates, e1) {
                Some((js, e2)) => Some((is + js, e2)),
                None => None,
            },
            None => None,
        }
    }
}

/// A transaction's method body: its statements from a fresh slot environment, then
/// `return`.
pub open spec fn txn_insns(
    txn: TTxnDecl,
    class: Seq<char>,
    currencies: Seq<CurrencyInfo>,
    rates: Seq<RateInfo>,
) -> Option<Seq<Insn>> {
    match stmts_insns(txn.stmts@, class, currencies, rates, initial_env()) {
        Some((is, _)) => Some(is.push(Insn::Return)),
        None => None,
    }
}

/// What a run of statements takes at most from the constant pool.
pub open spec fn stmts_pool_cost(ss: Seq<TStmt>) -> nat
    decreases ss.len(),
{
    if ss.len() == 0 {
        0
    } else {
        stmts_pool_cost(ss.drop_last()) + stmt_pool_cost(ss.last())
    }
}

/// What a run of statements takes at most from the local slots.
pub open spec fn stmts_slot_cost(ss: Seq<TStmt>) -> nat
    decreases ss.len(),
{
    if ss.len() == 0 {
        0
    } else {
        stmts_slot_cost(ss.drop_last()) + stmt_slot_cost(ss.last())
    }
}

/// A transaction's method, started with `pool_next` pool indices in use, stays far
/// enough from the class-file limits.
pub open spec fn txn_fits(t: TTxnDecl, pool_next: nat) -> bool {
    &&& pool_next + stmts_pool_cost(t.stmts@) <= 65400
    &&& 1 + stmts_slot_cost(t.stmts@) <= 65400
    &&& forall|i: int| 0 <= i < t.stmts@.len() ==> 2 * stmt_size(#[trigger] t.stmts@[i]) + 4 <= 65400
}

/// A prefix of the statements costs no more than all of them.
pub proof fn lemma_stmts_cost_prefix(ss: Seq<TStmt>, j: int)
    requires
        0 <= j <= ss.len(),
    ensures
        stmts_pool_cost(ss.take(j)) <= stmts_pool_cost(ss),
        stmts_slot_cost(ss.take(j)) <= stmts_slot_cost(ss),
    decreases ss.len(),
{
    if j == ss.len() {
        assert(ss.take(j) =~= ss);
    } else {
        lemma_stmts_cost_prefix(ss.drop_last(), j);
        assert(ss.drop_last().take(j) =~= ss.take(j));
    }
}

/// Where all the statements have code, so does every prefix of them.
pub proof fn lemma_stmts_insns_prefix(
    ss: Seq<TStmt>,
    class: Seq<char>,
    currencies: Seq<CurrencyInfo>,
    rates: Seq<RateInfo>,
    env: SlotEnv,
    j: int,
)
    requires
        0 <= j <= ss.len(),
        stmts_insns(ss, class, currencies, rates, env) is Some,
    ensures
        stmts_insns(ss.take(j), class, currencies, rates, env) is Some,
    decreases ss.len(),
{
    if j == ss.len() {
        assert(ss.take(j) =~= ss);
    } else {
        lemma_stmts_insns_prefix(ss.drop_last(), class, currencies, rates, env, j);
        assert(ss.drop_last().take(j) =~= ss.take(j));
    }
}

/// A builder with nothing emitted yet: slot 0 (`this`, or `main`'s `args`) counted.
pub open spec fn new_code() -> CodeView {
    CodeView { code: Seq::empty(), stack: 0, max_stack: 0, max_locals: 1 }
}

/// The six static arrays of account and currency metadata `Ledger.report` reads.
#[derive(Clone, Copy, PartialEq, Eq, Structural)]
pub enum ArrayField {
    Paths,
    CurrencyIndex,
    KindOrder,
    IsDebitNormal,
    CurrencyNames,
    CurrencyScales,
}

pub open spec fn array_name(f: ArrayField) -> Seq<char> {
    match f {
        ArrayField::Paths => "PATHS"@,
        ArrayField::CurrencyIndex => "CURRENCY_INDEX"@,
        ArrayField::KindOrder => "KIND_ORDER"@,
        ArrayField::IsDebitNormal => "IS_DEBIT_NORMAL"@,
        ArrayField::CurrencyNames => "CURRENCY_NAMES"@,
        ArrayField::CurrencyScales => "CURRENCY_SCALES"@,
    }
}

pub open spec fn array_desc(f: ArrayField) -> Seq<char> {
    match f {
        ArrayField::Paths | ArrayField::CurrencyNames => string_arr(),
        ArrayField::IsDebitNormal => "[Z"@,
        _ => "[I"@,
    }
}

/// The report's position of each account kind: asset, liability, equity, income,
/// expense.
pub open spec fn kind_ordinal_spec(k: AccountKind) -> i32 {
    match k {
        AccountKind::Asset => 0,
        AccountKind::Liability => 1,
        AccountKind::Equity => 2,
        AccountKind::Income => 3,
        AccountKind::Expense => 4,
    }
}

/// How many elements an array holds: one per account, or one per currency.
pub open spec fn array_len(f: ArrayField, m: TModule) -> nat {
    match f {
        ArrayField::CurrencyNames | ArrayField::CurrencyScales => m.currencies@.len(),
        _ => m.accounts@.len(),
    }
}

/// The instruction that pushes element `i`.
pub open spec fn elem_insn(f: ArrayField, m: TModule, i: int) -> Insn {
    match f {
        ArrayField::Paths => Insn::PushString(m.accounts@[i].path@),
        ArrayField::CurrencyIndex => Insn::PushInt(m.accounts@[i].currency.0 as i32),
        ArrayField::KindOrder => Insn::PushInt(kind_ordinal_spec(m.accounts@[i].kind)),
        ArrayField::IsDebitNormal => Insn::PushInt(
            if m.accounts@[i].normal == NormalBalance::Debit {
                1
            } else {
                0
            },
        ),
        ArrayField::CurrencyNames => Insn::PushString(m.currencies@[i].name@),
        ArrayField::CurrencyScales => Insn::PushInt(m.currencies@[i].scale as i32),
    }
}

/// The instruction that stores an element into the array.
pub open spec fn store_insn(f: ArrayField) -> Insn {
    match f {
        ArrayField::Paths | ArrayField::CurrencyNames => Insn::AaStore,
        ArrayField::IsDebitNormal => Insn::BaStore,
        _ => Insn::IaStore,
    }
}

/// The instruction that makes the empty array.
pub open spec fn new_array_insn(f: ArrayField) -> Insn {
    match f {
        ArrayField::Paths | ArrayField::CurrencyNames => Insn::ANewArray("java/lang/String"@),
        ArrayField::IsDebitNormal => Insn::NewArray(T_BOOLEAN),
        _ => Insn::NewArray(T_INT),
    }
}

/// `{ dup; push index; push element; store }` for the first `n` elements.
pub open spec fn elems_insns(f: ArrayField, m: TModule, n: nat) -> Seq<Insn>
    decreases n,
{
    if n == 0 {
        Seq::empty()
    } else {
        elems_insns(f, m, (n - 1) as nat) + seq![
            Insn::Dup,
            Insn::PushInt((n - 1) as i32),
            elem_insn(f, m, n - 1),
            store_insn(f),
        ]
    }
}

/// `push length; (a)newarray; { dup; push index; push element; store }*; putstatic`.
pub open spec fn array_insns(f: ArrayField, class: Seq<char>, m: TModule) -> Seq<Insn> {
    seq![Insn::PushInt(array_len(f, m) as i32), new_array_insn(f)] + elems_insns(
        f,
        m,
        array_len(f, m),
    ) + seq![Insn::PutStatic(class, array_name(f), array_desc(f))]
}

/// The static initializer: the six metadata arrays, all known at compile time.
pub open spec fn clinit_insns(class: Seq<char>, m: TModule) -> Seq<Insn> {
    (array_insns(ArrayField::Paths, class, m) + array_insns(ArrayField::CurrencyIndex, class, m)
        + array_insns(ArrayField::KindOrder, class, m) + array_insns(
        ArrayField::IsDebitNormal,
        class,
        m,
    ) + array_insns(ArrayField::CurrencyNames, class, m) + array_insns(
        ArrayField::CurrencyScales,
        class,
        m,
    )).push(Insn::Return)
}

/// The constructor: `super()`, then `this.ledger = new Ledger(accounts)`.
pub open spec fn init_insns(class: Seq<char>, accounts: nat) -> Seq<Insn> {
    seq![
        Insn::AloadThis,
        Insn::InvokeSpecial("java/lang/Object"@, "<init>"@, "()V"@),
        Insn::AloadThis,
        Insn::New(ledger_class()),
        Insn::Dup,
        Insn::PushInt(accounts as i32),
        Insn::InvokeSpecial(ledger_class(), "<init>"@, "(I)V"@),
        Insn::PutField(class, "ledger"@, ledger_desc()),
        Insn::Return,
    ]
}

/// `this.m()` for each transaction method, in order.
pub open spec fn calls_insns(class: Seq<char>, names: Seq<Seq<char>>) -> Seq<Insn>
    decreases names.len(),
{
    if names.len() == 0 {
        Seq::empty()
    } else {
        calls_insns(class, names.drop_last()) + seq![
            Insn::AloadThis,
            Insn::InvokeVirtual(class, names.last(), "()V"@),
        ]
    }
}

/// `run()`: every transaction in declaration order, then the ledger's report.
pub open spec fn run_insns(class: Seq<char>, names: Seq<Seq<char>>) -> Seq<Insn> {
    calls_insns(class, names) + seq![
        Insn::AloadThis,
        Insn::GetField(class, "ledger"@, ledger_desc()),
        Insn::GetStatic(class, "PATHS"@, string_arr()),
        Insn::GetStatic(class, "CURRENCY_INDEX"@, "[I"@),
        Insn::GetStatic(class, "KIND_ORDER"@, "[I"@),
        Insn::GetStatic(class, "IS_DEBIT_NORMAL"@, "[Z"@),
        Insn::GetStatic(class, "CURRENCY_NAMES"@, string_arr()),
        Insn::GetStatic(class, "CURRENCY_SCALES"@, "[I"@),
        Insn::InvokeVirtual(ledger_class(), "report"@, report_desc()),
        Insn::AReturn,
    ]
}

/// `main(String[] args)`: prints `new C().run()`.
pub open spec fn main_insns(class: Seq<char>) -> Seq<Insn> {
    seq![
        Insn::New(class),
        Insn::Dup,
        Insn::InvokeSpecial(class, "<init>"@, "()V"@),
        Insn::Astore(1),
        Insn::GetStatic("java/lang/System"@, "out"@, "Ljava/io/PrintStream;"@),
        Insn::Aload(1),
        Insn::InvokeVirtual(class, "run"@, "()Ljava/lang/String;"@),
        Insn::InvokeVirtual("java/io/PrintStream"@, "print"@, "(Ljava/lang/String;)V"@),
        Insn::Return,
    ]
}

pub open spec fn is_ascii_alphanumeric(c: char) -> bool {
    is_ascii_alphabetic(c) || is_ascii_digit(c)
}

/// A transaction name with every character but ASCII letters and digits replaced by
/// `_`.
pub open spec fn sanitized(name: Seq<char>) -> Seq<char> {
    name.map_values(
        |c: char|
            if is_ascii_alphanumeric(c) {
                c
            } else {
                '_'
            },
    )
}

/// A transaction's method name before it is made unique: the sanitized name, prefixed
/// with `txn<index>_` when that is empty or starts with a digit, then `Txn`.
pub open spec fn method_base(name: Seq<char>, index: nat) -> Seq<char> {
    let id = sanitized(name);
    (if id.len() == 0 || is_ascii_digit(id[0]) {
        "txn"@ + spec_decimal(index) + "_"@ + id
    } else {
        id
    }) + "Txn"@
}

/// The first suffix from `k` on that makes `base` a name not used yet, trying no more
/// suffixes than there are used names, plus one.
pub open spec fn first_free(base: Seq<char>, used: Seq<Seq<char>>, k: nat) -> Option<nat>
    decreases used.len() + 2 - k,
{
    if k > used.len() + 1 {
        None
    } else if !used.contains(base + spec_decimal(k)) {
        Some(k)
    } else {
        first_free(base, used, k + 1)
    }
}

/// `base` itself when no method has it yet, else `base` with the first numeric suffix
/// that no method has.
pub open spec fn method_name(base: Seq<char>, used: Seq<Seq<char>>) -> Option<Seq<char>> {
    if !used.contains(base) {
        Some(base)
    } else {
        match first_free(base, used, 1) {
            Some(k) => Some(base + spec_decimal(k)),
            None => None,
        }
    }
}

/// When no suffix from `k` on is free, every such suffixed name is used.
proof fn lemma_first_free_none(base: Seq<char>, used: Seq<Seq<char>>, k: nat)
    requires
        first_free(base, used, k) is None,
    ensures
        forall|j: nat| k <= j <= used.len() + 1 ==> used.contains(#[trigger] (base + spec_decimal(j))),
    decreases used.len() + 2 - k,
{
    if k <= used.len() + 1 {
        lemma_first_free_none(base, used, k + 1);
    }
}

/// Some suffix is always free: more suffixes are tried than there are used names, and
/// different suffixes give different names.
pub proof fn lemma_first_free_found(base: Seq<char>, used: Seq<Seq<char>>)
    ensures
        first_free(base, used, 1) is Some,
{
    if first_free(base, used, 1) is None {
        lemma_first_free_none(base, used, 1);
        let n = used.len();
        let cands = Seq::new(n + 1, |i: int| base + spec_decimal((i + 1) as nat));
        assert forall|i: int, j: int| 0 <= i < cands.len() && 0 <= j < cands.len() && i != j implies cands[i]
            != cands[j] by {
            if cands[i] == cands[j] {
                assert(spec_decimal((i + 1) as nat) =~= cands[i].skip(base.len() as int));
                assert(spec_decimal((j + 1) as nat) =~= cands[j].skip(base.len() as int));
                crate::text::lemma_decimal_injective((i + 1) as nat, (j + 1) as nat);
            }
        }
        assert(cands.no_duplicates());
        cands.unique_seq_to_set();
        used.lemma_cardinality_of_set();
        vstd::seq_lib::seq_to_set_is_finite(used);
        assert forall|x: Seq<char>| #[trigger] cands.to_set().contains(x) implies used.to_set().contains(x) by {
            let i = choose|i: int| 0 <= i < cands.len() && cands[i] == x;
            assert(used.contains(base + spec_decimal((i + 1) as nat)));
        }
        vstd::set_lib::lemma_len_subset(cands.to_set(), used.to_set());
    }
}

/// Every transaction gets a method name.
pub proof fn lemma_method_name_found(base: Seq<char>, used: Seq<Seq<char>>)
    ensures
        method_name(base, used) is Some,
{
    lemma_first_free_found(base, used);
}

/// A class under construction: its pool, fields and methods.
pub type ClassSt = (Seq<Const>, Seq<FieldView>, Seq<MethodView>);

/// Adding a field: its name and descriptor interned in that order.
pub open spec fn add_field_st(st: ClassSt, access: u16, name: Seq<char>, desc: Seq<char>) -> ClassSt {
    let (p1, n) = with_utf8(st.0, name);
    let (p2, d) = with_utf8(p1, desc);
    (p2, st.1.push((access, n as u16, d as u16)), st.2)
}

/// Adding a method whose body emits `is`: the body is built first, then the name and
/// descriptor are interned.
pub open spec fn add_method_st(
    st: ClassSt,
    access: u16,
    name: Seq<char>,
    desc: Seq<char>,
    is: Seq<Insn>,
) -> ClassSt {
    let (v, p) = run((new_code(), st.0), is);
    let (p1, n) = with_utf8(p, name);
    let (p2, d) = with_utf8(p1, desc);
    (
        p2,
        st.1,
        st.2.push((access, n as u16, d as u16, v.max_stack as u16, v.max_locals as u16, v.code)),
    )
}

/// One public method per transaction, in order, with the names they got.
pub open spec fn txn_methods_st(
    st: ClassSt,
    class: Seq<char>,
    txns: Seq<TTxnDecl>,
    currencies: Seq<CurrencyInfo>,
    rates: Seq<RateInfo>,
) -> Option<(ClassSt, Seq<Seq<char>>)>
    decreases txns.len(),
{
    if txns.len() == 0 {
        Some((st, Seq::empty()))
    } else {
        match txn_methods_st(st, class, txns.drop_last(), currencies, rates) {
            Some((st1, names)) => match method_name(
                method_base(txns.last().name@, (txns.len() - 1) as nat),
                names,
            ) {
                Some(nm) => match txn_insns(txns.last(), class, currencies, rates) {
                    Some(is) => Some(
                        (add_method_st(st1, ACC_PUBLIC, nm, "()V"@, is), names.push(nm)),
                    ),
                    None => None,
                },
                None => None,
            },
            None => None,
        }
    }
}

/// What all the transactions' methods take at most from the constant pool, their
/// names included.
pub open spec fn txns_pool_cost(ts: Seq<TTxnDecl>) -> nat
    decreases ts.len(),
{
    if ts.len() == 0 {
        0
    } else {
        txns_pool_cost(ts.drop_last()) + stmts_pool_cost(ts.last().stmts@) + 2
    }
}

/// The module's class stays far enough from the class-file limits: the constant pool
/// that all its methods share, and each transaction's stack and local slots.
pub open spec fn module_fits(m: TModule) -> bool {
    &&& 300 + 12 * m.accounts@.len() + 6 * m.currencies@.len() + 6 * m.txns@.len()
        + txns_pool_cost(m.txns@) <= 65400
    &&& forall|i: int| 0 <= i < m.txns@.len() ==> txn_fits(#[trigger] m.txns@[i], 0)
}

/// A prefix of the transactions costs no more than all of them.
pub proof fn lemma_txns_cost_prefix(ts: Seq<TTxnDecl>, j: int)
    requires
        0 <= j <= ts.len(),
    ensures
        txns_pool_cost(ts.take(j)) <= txns_pool_cost(ts),
    decreases ts.len(),
{
    if j == ts.len() {
        assert(ts.take(j) =~= ts);
    } else {
        lemma_txns_cost_prefix(ts.drop_last(), j);
        assert(ts.drop_last().take(j) =~= ts.take(j));
    }
}

/// Where all the transactions have methods, so does every prefix of them.
pub proof fn lemma_txn_methods_prefix(
    st: ClassSt,
    class: Seq<char>,
    ts: Seq<TTxnDecl>,
    currencies: Seq<CurrencyInfo>,
    rates: Seq<RateInfo>,
    j: int,
)
    requires
        0 <= j <= ts.len(),
        txn_methods_st(st, class, ts, currencies, rates) is Some,
    ensures
        txn_methods_st(st, class, ts.take(j), currencies, rates) is Some,
    decreases ts.len(),
{
    if j == ts.len() {
        assert(ts.take(j) =~= ts);
    } else {
        lemma_txn_methods_prefix(st, class, ts.drop_last(), currencies, rates, j);
        assert(ts.drop_last().take(j) =~= ts.take(j));
    }
}

/// The class file for `m`, named `class`: the fields, the static initializer, the
/// constructor, one method per transaction, `run` and `main`. `None` where some
/// transaction has no code.
pub open spec fn compile_spec(m: TModule, class: Seq<char>) -> Option<Seq<u8>> {
    let (p1, this) = with_class(Seq::empty(), class);
    let (p2, sup) = with_class(p1, "java/lang/Object"@);
    let (p3, code) = with_utf8(p2, "Code"@);
    let st0: ClassSt = (p3, Seq::empty(), Seq::empty());
    let st1 = add_field_st(st0, ACC_PRIVATE | ACC_FINAL, "ledger"@, ledger_desc());
    let st2 = add_field_st(st1, ACC_PRIVATE | ACC_STATIC | ACC_FINAL, "PATHS"@, string_arr());
    let st3 = add_field_st(st2, ACC_PRIVATE | ACC_STATIC | ACC_FINAL, "CURRENCY_INDEX"@, "[I"@);
    let st4 = add_field_st(st3, ACC_PRIVATE | ACC_STATIC | ACC_FINAL, "KIND_ORDER"@, "[I"@);
    let st5 = add_field_st(st4, ACC_PRIVATE | ACC_STATIC | ACC_FINAL, "IS_DEBIT_NORMAL"@, "[Z"@);
    let st6 = add_field_st(
        st5,
        ACC_PRIVATE | ACC_STATIC | ACC_FINAL,
        "CURRENCY_NAMES"@,
        string_arr(),
    );
    let st7 = add_field_st(st6, ACC_PRIVATE | ACC_STATIC | ACC_FINAL, "CURRENCY_SCALES"@, "[I"@);
    let st8 = add_method_st(st7, ACC_STATIC, "<clinit>"@, "()V"@, clinit_insns(class, m));
    let st9 = add_method_st(st8, ACC_PUBLIC, "<init>"@, "()V"@, init_insns(class, m.accounts@.len()));
    match txn_methods_st(st9, class, m.txns@, m.currencies@, m.rates@) {
        Some((st10, names)) => {
            let st11 = add_method_st(
                st10,
                ACC_PUBLIC,
                "run"@,
                "()Ljava/lang/String;"@,
                run_insns(class, names),
            );
            let st12 = add_method_st(
                st11,
                ACC_PUBLIC | ACC_STATIC,
                "main"@,
                "([Ljava/lang/String;)V"@,
                main_insns(class),
            );
            Some(class_bytes(st12.0, this as u16, sup as u16, st12.1, st12.2, code as u16))
        },
        None => None,
    }
}

/// The last entry for `k`, as `assoc` reads an association list.
fn assoc_get<V: Copy>(s: &Vec<(SymbolId, V)>, k: SymbolId) -> (r: Option<V>)
    ensures
        r == assoc(s@, k),
{
    let mut i = s.len();
    proof {
        assert(s@.take(i as int) =~= s@);
    }
    while i > 0
        invariant
            i <= s@.len(),
            assoc(s@, k) == assoc(s@.take(i as int), k),
        decreases i,
    {
        proof {
            assert(s@.take(i as int).drop_last() =~= s@.take(i - 1));
        }
        i = i - 1;
        if s[i].0 == k {
            return Some(s[i].1);
        }
    }
    proof {
        assert(s@.take(0) =~= Seq::<(SymbolId, V)>::empty());
    }
    None
}

struct TxnCodegen {
    code: CodeBuilder,
    slots: Vec<(SymbolId, u16)>,
    next_slot: u16,
    residue_extra_scale: Vec<(SymbolId, u32)>,
}

impl TxnCodegen {
    spec fn env(&self) -> SlotEnv {
        SlotEnv {
            slots: self.slots@,
            next: self.next_slot as nat,
            scales: self.residue_extra_scale@,
        }
    }

    /// The builder is well formed, and every slot handed out leaves room for a
    /// two-slot value below the 16-bit limit.
    spec fn wf(&self) -> bool {
        &&& self.code.wf()
        &&& forall|i: int| 0 <= i < self.slots@.len() ==> #[trigger] self.slots@[i].1 <= 65500
    }

    spec fn state(&self, pool: ConstantPool) -> (CodeView, Seq<Const>) {
        (self.code.view(), pool.consts())
    }

    fn slot_for(&mut self, symbol: SymbolId) -> (r: u16)
        requires
            old(self).wf(),
            old(self).next_slot <= 65500,
        ensures
            final(self).wf(),
            (r, final(self).env()) == slot_of(old(self).env(), symbol),
            final(self).code == old(self).code,
            final(self).next_slot <= old(self).next_slot + 2,
            r <= 65500,
    {
        match assoc_get(&self.slots, symbol) {
            Some(slot) => {
                proof {
                    lemma_assoc_some(self.slots@, symbol);
                }
                slot
            },
            None => {
                let slot = self.next_slot;
                self.slots.push((symbol, slot));
                self.next_slot = slot + 2;
                slot
            },
        }
    }

    fn fresh_slot(&mut self, width: u16) -> (r: u16)
        requires
            old(self).wf(),
            old(self).next_slot <= 65500,
            width <= 2,
        ensures
            final(self).wf(),
            r <= 65500,
            (r, final(self).env()) == fresh_slot(old(self).env(), width as nat),
            final(self).code == old(self).code,
            final(self).next_slot <= old(self).next_slot + 2,
    {
        let slot = self.next_slot;
        self.next_slot = slot + width;
        slot
    }

    /// `this.ledger.post(account_index, delta)`.
    #[verifier::spinoff_prover]
    #[verifier::rlimit(80)]
    fn emit_post(&mut self, pool: &mut ConstantPool, class_name: &str, account_index: u32, delta: i64)
        requires
            old(self).wf(),
            old(self).code.depth() <= 65400,
            old(pool).wf(),
            old(pool).next() <= 65400,
        ensures
            final(self).wf(),
            final(pool).wf(),
            final(self).state(*final(pool)) == run(
                old(self).state(*old(pool)),
                post_insns(class_name@, account_index, delta),
            ),
            final(self).code.depth() == old(self).code.depth(),
            final(self).env() == old(self).env(),
            final(pool).next() <= old(pool).next() + 15,
    {
        proof {
            lemma_post_descriptors();
        }
        let ghost s0 = self.state(*pool);
        let ghost mut is: Seq<Insn> = Seq::empty();
        self.code.aload_this();
        proof {
            lemma_run_push(s0, is, Insn::AloadThis);
            is = is.push(Insn::AloadThis);
        }
        self.code.getfield(class_name, "ledger", "Lbalanc/runtime/Ledger;", pool);
        proof {
            let i = Insn::GetField(class_name@, "ledger"@, ledger_desc());
            lemma_run_push(s0, is, i);
            is = is.push(i);
        }
        self.code.push_int(account_index as i32, pool);
        proof {
            let i = Insn::PushInt(account_index as i32);
            lemma_run_push(s0, is, i);
            is = is.push(i);
        }
        self.code.push_long(delta, pool);
        proof {
            let i = Insn::PushLong(delta);
            lemma_run_push(s0, is, i);
            is = is.push(i);
        }
        self.code.invokevirtual("balanc/runtime/Ledger", "post", "(IJ)V", pool);
        proof {
            let i = Insn::InvokeVirtual(ledger_class(), "post"@, "(IJ)V"@);
            lemma_run_push(s0, is, i);
            is = is.push(i);
            assert(is =~= post_insns(class_name@, account_index, delta));
        }
    }

    /// Emits `expr`'s code, leaving its `long` value on top of the operand stack:
    /// mirrors the interpreter's evaluation, including a credit's immediate post to
    /// its source account. `false` where the expression has no code, or where emitting
    /// it would pass a limit of the class file (pool indices, stack depth, local slots).
    #[verifier::spinoff_prover]
    #[verifier::rlimit(80)]
    fn emit_money_expr(&mut self, expr: &TMoneyExpr, pool: &mut ConstantPool, class_name: &str) -> (ok: bool)
        requires
            old(self).wf(),
            old(pool).wf(),
        ensures
            final(self).wf(),
            final(pool).wf(),
            ok ==> (money_insns(*expr, class_name@, old(self).env()) matches Some((is, e)) && {
                &&& final(self).env() == e
                &&& final(self).state(*final(pool)) == run(old(self).state(*old(pool)), is)
                &&& final(self).code.depth() == old(self).code.depth() + 2
            }),
            money_insns(*expr, class_name@, old(self).env()) is None ==> !ok,
            money_insns(*expr, class_name@, old(self).env()) is Some && old(self).code.depth() + 2
                * money_size(*expr) <= 65400 && old(pool).next() + 17 * money_size(*expr) <= 65400
                && old(self).next_slot + 2 * money_size(*expr) <= 65400 ==> ok,
            final(pool).next() <= old(pool).next() + 17 * money_size(*expr),
            final(self).next_slot <= old(self).next_slot + 2 * money_size(*expr),
        decreases expr,
    {
        if self.code.stack_depth() > 65400 || pool.next_index() > 65400 || self.next_slot > 65400 {
            return false;
        }
        let ghost s0 = self.state(*pool);
        match expr {
            TMoneyExpr::Credit { account, amount } => {
                let c = amount.cents();
                if c == i64::MIN {
                    return false;
                }
                self.emit_post(pool, class_name, account.0, -c);
                self.code.push_long(c, pool);
                proof {
                    let post = post_insns(class_name@, account.0, (-c) as i64);
                    lemma_run_push(s0, post, Insn::PushLong(c));
                }
                true
            },
            TMoneyExpr::Var { symbol } => {
                let slot = self.slot_for(*symbol);
                self.code.lload(slot);
                proof {
                    lemma_run_push(s0, Seq::empty(), Insn::Lload(slot));
                    assert(Seq::<Insn>::empty().push(Insn::Lload(slot)) =~= seq![Insn::Lload(slot)]);
                }
                true
            },
            TMoneyExpr::Merge { a, b } => {
                let ghost env0 = self.env();
                if !self.emit_money_expr(a, pool, class_name) {
                    return false;
                }
                let ghost s1 = self.state(*pool);
                if !self.emit_money_expr(b, pool, class_name) {
                    return false;
                }
                self.code.ladd();
                proof {
                    let (ia, e1) = money_insns(**a, class_name@, env0)->0;
                    let (ib, e2) = money_insns(**b, class_name@, e1)->0;
                    lemma_run_append(s0, ia, ib);
                    lemma_run_push(s0, ia + ib, Insn::Ladd);
                }
                true
            },
        }
    }

    /// Emits one statement's code, which leaves the stack empty as it found it.
    /// `false` where the statement has no code, or a class-file limit would be passed.
    #[verifier::spinoff_prover]
    #[verifier::rlimit(80)]
    fn emit_stmt(
        &mut self,
        stmt: &TStmt,
        pool: &mut ConstantPool,
        class_name: &str,
        currencies: &Vec<CurrencyInfo>,
        rates: &Vec<RateInfo>,
    ) -> (ok: bool)
        requires
            old(self).wf(),
            old(self).code.depth() == 0,
            old(pool).wf(),
        ensures
            final(self).wf(),
            final(pool).wf(),
            ok ==> (stmt_insns(*stmt, class_name@, currencies@, rates@, old(self).env()) matches Some(
                (is, e),
            ) && {
                &&& final(self).env() == e
                &&& final(self).state(*final(pool)) == run(old(self).state(*old(pool)), is)
                &&& final(self).code.depth() == 0
            }),
            stmt_insns(*stmt, class_name@, currencies@, rates@, old(self).env()) is None ==> !ok,
            stmt_insns(*stmt, class_name@, currencies@, rates@, old(self).env()) is Some
                && stmt_fits(*stmt, old(pool).next(), old(self).next_slot as nat) ==> ok,
            final(pool).next() <= old(pool).next() + stmt_pool_cost(*stmt),
            final(self).next_slot <= old(self).next_slot + stmt_slot_cost(*stmt),
    {
        if pool.next_index() > 65400 || self.next_slot > 65400 {
            return false;
        }
        match stmt {
            TStmt::Let { .. } => self.emit_let(stmt, pool, class_name, currencies, rates),
            TStmt::Convert { .. } => self.emit_convert(stmt, pool, class_name, currencies, rates),
            TStmt::Debit { .. } => self.emit_debit(stmt, pool, class_name, currencies, rates),
            TStmt::Absorb { .. } => self.emit_absorb(stmt, pool, class_name, currencies, rates),
            TStmt::Split { .. } => self.emit_split(stmt, pool, class_name, currencies, rates),
            TStmt::SplitRatio { .. } => self.emit_split_ratio(stmt, pool, class_name, currencies, rates),
        }
    }

    /// `let name = value;`: the value goes to the name's slot.
    #[verifier::spinoff_prover]
    #[verifier::rlimit(80)]
    fn emit_let(
        &mut self,
        stmt: &TStmt,
        pool: &mut ConstantPool,
        class_name: &str,
        currencies: &Vec<CurrencyInfo>,
        rates: &Vec<RateInfo>,
    ) -> (ok: bool)
        requires
            old(self).wf(),
            old(self).code.depth() == 0,
            old(pool).wf(),
            old(pool).next() <= 65400,
            old(self).next_slot <= 65400,
        ensures
            final(self).wf(),
            final(pool).wf(),
            ok ==> (stmt_insns(*stmt, class_name@, currencies@, rates@, old(self).env()) matches Some(
                (is, e),
            ) && {
                &&& final(self).env() == e
                &&& final(self).state(*final(pool)) == run(old(self).state(*old(pool)), is)
                &&& final(self).code.depth() == 0
            }),
            stmt_insns(*stmt, class_name@, currencies@, rates@, old(self).env()) is None ==> !ok,
            *stmt is Let && stmt_insns(*stmt, class_name@, currencies@, rates@, old(self).env()) is Some
                && stmt_fits(*stmt, old(pool).next(), old(self).next_slot as nat) ==> ok,
            final(pool).next() <= old(pool).next() + stmt_pool_cost(*stmt),
            final(self).next_slot <= old(self).next_slot + stmt_slot_cost(*stmt),
    {
        reveal(stmt_insns);
        let ghost s0 = self.state(*pool);
        let ghost env0 = self.env();
        match stmt {
            TStmt::Let { symbol, value, .. } => {
                if !self.emit_money_expr(value, pool, class_name) {
                    return false;
                }
                if self.next_slot > 65400 {
                    return false;
                }
                let ghost (mi, e1) = money_insns(*value, class_name@, env0)->0;
                let ghost mut is: Seq<Insn> = mi;
                let slot = self.slot_for(*symbol);
                self.code.lstore(slot);
                proof {
                    lemma_run_push(s0, is, Insn::Lstore(slot));
                    is = is.push(Insn::Lstore(slot));
                }
                true
            },
            _ => false,
        }
    }

    /// `debit(account, value);`: `this.ledger.post(account, value)`.
    #[verifier::spinoff_prover]
    #[verifier::rlimit(80)]
    fn emit_debit(
        &mut self,
        stmt: &TStmt,
        pool: &mut ConstantPool,
        class_name: &str,
        currencies: &Vec<CurrencyInfo>,
        rates: &Vec<RateInfo>,
    ) -> (ok: bool)
        requires
            old(self).wf(),
            old(self).code.depth() == 0,
            old(pool).wf(),
            old(pool).next() <= 65400,
            old(self).next_slot <= 65400,
        ensures
            final(self).wf(),
            final(pool).wf(),
            ok ==> (stmt_insns(*stmt, class_name@, currencies@, rates@, old(self).env()) matches Some(
                (is, e),
            ) && {
                &&& final(self).env() == e
                &&& final(self).state(*final(pool)) == run(old(self).state(*old(pool)), is)
                &&& final(self).code.depth() == 0
            }),
            stmt_insns(*stmt, class_name@, currencies@, rates@, old(self).env()) is None ==> !ok,
            *stmt is Debit && stmt_insns(*stmt, class_name@, currencies@, rates@, old(self).env()) is Some
                && stmt_fits(*stmt, old(pool).next(), old(self).next_slot as nat) ==> ok,
            final(pool).next() <= old(pool).next() + stmt_pool_cost(*stmt),
            final(self).next_slot <= old(self).next_slot + stmt_slot_cost(*stmt),
    {
        reveal(stmt_insns);
        proof {
            lemma_post_descriptors();
        }
        let ghost s0 = self.state(*pool);
        let ghost env0 = self.env();
        match stmt {
            TStmt::Debit { account, value, .. } => {
                let ghost mut is: Seq<Insn> = Seq::empty();
                self.code.aload_this();
                proof {
                    lemma_run_push(s0, is, Insn::AloadThis);
                    is = is.push(Insn::AloadThis);
                }
                self.code.getfield(class_name, "ledger", "Lbalanc/runtime/Ledger;", pool);
                proof {
                    lemma_run_push(s0, is, Insn::GetField(class_name@, "ledger"@, ledger_desc()));
                    is = is.push(Insn::GetField(class_name@, "ledger"@, ledger_desc()));
                }
                self.code.push_int(account.0 as i32, pool);
                proof {
                    lemma_run_push(s0, is, Insn::PushInt(account.0 as i32));
                    is = is.push(Insn::PushInt(account.0 as i32));
                }
                let ghost head = is;
                let ghost s1 = self.state(*pool);
                if !self.emit_money_expr(value, pool, class_name) {
                    return false;
                }
                if pool.next_index() > 65400 {
                    return false;
                }
                let ghost (mi, e1) = money_insns(*value, class_name@, env0)->0;
                proof {
                    lemma_run_append(s0, head, mi);
                    is = head + mi;
                }
                self.code.invokevirtual("balanc/runtime/Ledger", "post", "(IJ)V", pool);
                proof {
                    lemma_run_push(s0, is, Insn::InvokeVirtual(ledger_class(), "post"@, "(IJ)V"@));
                    is = is.push(Insn::InvokeVirtual(ledger_class(), "post"@, "(IJ)V"@));
                }
                proof {
                    let post = Insn::InvokeVirtual(ledger_class(), "post"@, "(IJ)V"@);
                    assert(head =~= seq![
                        Insn::AloadThis,
                        Insn::GetField(class_name@, "ledger"@, ledger_desc()),
                        Insn::PushInt(account.0 as i32),
                    ]);
                    assert(is =~= head + mi.push(post));
                }
                true
            },
            _ => false,
        }
    }

    /// `let (primary, residual) = convert(money, rate);`: the amount goes to a fresh
    /// slot; the primary is `amount * multiplier / divisor`, the residual the
    /// remainder, both with the rate's constants folded in at compile time.
    #[verifier::spinoff_prover]
    #[verifier::rlimit(80)]
    fn emit_convert(
        &mut self,
        stmt: &TStmt,
        pool: &mut ConstantPool,
        class_name: &str,
        currencies: &Vec<CurrencyInfo>,
        rates: &Vec<RateInfo>,
    ) -> (ok: bool)
        requires
            old(self).wf(),
            old(self).code.depth() == 0,
            old(pool).wf(),
            old(pool).next() <= 65400,
            old(self).next_slot <= 65400,
        ensures
            final(self).wf(),
            final(pool).wf(),
            ok ==> (stmt_insns(*stmt, class_name@, currencies@, rates@, old(self).env()) matches Some(
                (is, e),
            ) && {
                &&& final(self).env() == e
                &&& final(self).state(*final(pool)) == run(old(self).state(*old(pool)), is)
                &&& final(self).code.depth() == 0
            }),
            stmt_insns(*stmt, class_name@, currencies@, rates@, old(self).env()) is None ==> !ok,
            *stmt is Convert && stmt_insns(*stmt, class_name@, currencies@, rates@, old(self).env()) is Some
                && stmt_fits(*stmt, old(pool).next(), old(self).next_slot as nat) ==> ok,
            final(pool).next() <= old(pool).next() + stmt_pool_cost(*stmt),
            final(self).next_slot <= old(self).next_slot + stmt_slot_cost(*stmt),
    {
        reveal(stmt_insns);
        proof {
            lemma_post_descriptors();
            lemma_split_descriptors();
        }
        let ghost s0 = self.state(*pool);
        let ghost env0 = self.env();
        match stmt {
            TStmt::Convert { primary, residual, money, rate, .. } => {
                let amt = self.fresh_slot(2);
                let ghost env_a = self.env();
                if !self.emit_money_expr(money, pool, class_name) {
                    return false;
                }
                let ghost (mi, e1) = money_insns(*money, class_name@, env_a)->0;
                let ghost mut is: Seq<Insn> = mi;
                let r = rate.0 as usize;
                if r >= rates.len() {
                    return false;
                }
                let f = rates[r].from.0 as usize;
                let t = rates[r].to.0 as usize;
                if f >= currencies.len() || t >= currencies.len() {
                    return false;
                }
                let from_scale = currencies[f].scale;
                let to_scale = currencies[t].scale;
                if from_scale > u32::MAX - rates[r].scale {
                    return false;
                }
                let extra_scale = from_scale + rates[r].scale;
                let p = match checked_pow10(to_scale) {
                    Some(p) => p,
                    None => {
                        return false;
                    },
                };
                let multiplier = match rates[r].numerator.checked_mul(p) {
                    Some(m) => m,
                    None => {
                        return false;
                    },
                };
                let denom = match checked_pow10(extra_scale) {
                    Some(d) => d,
                    None => {
                        return false;
                    },
                };
                assert(convert_constants(rate.0, currencies@, rates@) == Some(
                    (multiplier, denom, extra_scale),
                ));
                if pool.next_index() > 65400 || self.next_slot > 65400 {
                    return false;
                }
                self.code.lstore(amt);
        proof {
            lemma_run_push(s0, is, Insn::Lstore(amt));
            is = is.push(Insn::Lstore(amt));
        }
                self.code.lload(amt);
        proof {
            lemma_run_push(s0, is, Insn::Lload(amt));
            is = is.push(Insn::Lload(amt));
        }
                self.code.push_long(multiplier, pool);
        proof {
            lemma_run_push(s0, is, Insn::PushLong(multiplier));
            is = is.push(Insn::PushLong(multiplier));
        }
                self.code.lmul();
        proof {
            lemma_run_push(s0, is, Insn::Lmul);
            is = is.push(Insn::Lmul);
        }
                self.code.push_long(denom, pool);
        proof {
            lemma_run_push(s0, is, Insn::PushLong(denom));
            is = is.push(Insn::PushLong(denom));
        }
                self.code.ldiv();
        proof {
            lemma_run_push(s0, is, Insn::Ldiv);
            is = is.push(Insn::Ldiv);
        }
                let ps = self.slot_for(*primary);
                self.code.lstore(ps);
        proof {
            lemma_run_push(s0, is, Insn::Lstore(ps));
            is = is.push(Insn::Lstore(ps));
        }
                self.code.lload(amt);
        proof {
            lemma_run_push(s0, is, Insn::Lload(amt));
            is = is.push(Insn::Lload(amt));
        }
                self.code.push_long(multiplier, pool);
        proof {
            lemma_run_push(s0, is, Insn::PushLong(multiplier));
            is = is.push(Insn::PushLong(multiplier));
        }
                self.code.lmul();
        proof {
            lemma_run_push(s0, is, Insn::Lmul);
            is = is.push(Insn::Lmul);
        }
                self.code.push_long(denom, pool);
        proof {
            lemma_run_push(s0, is, Insn::PushLong(denom));
            is = is.push(Insn::PushLong(denom));
        }
                self.code.lrem();
        proof {
            lemma_run_push(s0, is, Insn::Lrem);
            is = is.push(Insn::Lrem);
        }
                let rs = self.slot_for(*residual);
                self.code.lstore(rs);
        proof {
            lemma_run_push(s0, is, Insn::Lstore(rs));
            is = is.push(Insn::Lstore(rs));
        }
                self.residue_extra_scale.push((*residual, extra_scale));
                proof {
                    assert(is =~= mi + seq![
                        Insn::Lstore(amt),
                        Insn::Lload(amt),
                        Insn::PushLong(multiplier),
                        Insn::Lmul,
                        Insn::PushLong(denom),
                        Insn::Ldiv,
                        Insn::Lstore(ps),
                        Insn::Lload(amt),
                        Insn::PushLong(multiplier),
                        Insn::Lmul,
                        Insn::PushLong(denom),
                        Insn::Lrem,
                        Insn::Lstore(rs),
                    ]);
                }
                true
            },
            _ => false,
        }
    }

    /// `absorb(residual, account);`: posts the residue, divided back down by its
    /// extra scale, to the account.
    #[verifier::spinoff_prover]
    #[verifier::rlimit(80)]
    fn emit_absorb(
        &mut self,
        stmt: &TStmt,
        pool: &mut ConstantPool,
        class_name: &str,
        currencies: &Vec<CurrencyInfo>,
        rates: &Vec<RateInfo>,
    ) -> (ok: bool)
        requires
            old(self).wf(),
            old(self).code.depth() == 0,
            old(pool).wf(),
            old(pool).next() <= 65400,
            old(self).next_slot <= 65400,
        ensures
            final(self).wf(),
            final(pool).wf(),
            ok ==> (stmt_insns(*stmt, class_name@, currencies@, rates@, old(self).env()) matches Some(
                (is, e),
            ) && {
                &&& final(self).env() == e
                &&& final(self).state(*final(pool)) == run(old(self).state(*old(pool)), is)
                &&& final(self).code.depth() == 0
            }),
            stmt_insns(*stmt, class_name@, currencies@, rates@, old(self).env()) is None ==> !ok,
            *stmt is Absorb && stmt_insns(*stmt, class_name@, currencies@, rates@, old(self).env()) is Some
                && stmt_fits(*stmt, old(pool).next(), old(self).next_slot as nat) ==> ok,
            final(pool).next() <= old(pool).next() + stmt_pool_cost(*stmt),
            final(self).next_slot <= old(self).next_slot + stmt_slot_cost(*stmt),
    {
        reveal(stmt_insns);
        proof {
            lemma_post_descriptors();
            lemma_split_descriptors();
        }
        let ghost s0 = self.state(*pool);
        match stmt {
            TStmt::Absorb { residual, account, .. } => {
                let extra = match assoc_get(&self.residue_extra_scale, *residual) {
                    Some(e) => e,
                    None => {
                        return false;
                    },
                };
                let slot = self.slot_for(*residual);
                let ghost mut is: Seq<Insn> = Seq::empty();
                self.code.aload_this();
        proof {
            lemma_run_push(s0, is, Insn::AloadThis);
            is = is.push(Insn::AloadThis);
        }
                self.code.getfield(class_name, "ledger", "Lbalanc/runtime/Ledger;", pool);
        proof {
            lemma_run_push(s0, is, Insn::GetField(class_name@, "ledger"@, ledger_desc()));
            is = is.push(Insn::GetField(class_name@, "ledger"@, ledger_desc()));
        }
                self.code.push_int(account.0 as i32, pool);
        proof {
            lemma_run_push(s0, is, Insn::PushInt(account.0 as i32));
            is = is.push(Insn::PushInt(account.0 as i32));
        }
                self.code.lload(slot);
        proof {
            lemma_run_push(s0, is, Insn::Lload(slot));
            is = is.push(Insn::Lload(slot));
        }
                let ghost head = is;
                if extra != 0 {
                    let divisor = match checked_pow10(extra) {
                        Some(d) => d,
                        None => {
                            return false;
                        },
                    };
                    self.code.push_long(divisor, pool);
        proof {
            lemma_run_push(s0, is, Insn::PushLong(divisor));
            is = is.push(Insn::PushLong(divisor));
        }
                    self.code.ldiv();
        proof {
            lemma_run_push(s0, is, Insn::Ldiv);
            is = is.push(Insn::Ldiv);
        }
                }
                self.code.invokevirtual("balanc/runtime/Ledger", "post", "(IJ)V", pool);
        proof {
            lemma_run_push(s0, is, Insn::InvokeVirtual(ledger_class(), "post"@, "(IJ)V"@));
            is = is.push(Insn::InvokeVirtual(ledger_class(), "post"@, "(IJ)V"@));
        }
                proof {
                    let post = Insn::InvokeVirtual(ledger_class(), "post"@, "(IJ)V"@);
                    assert(head =~= seq![
                        Insn::AloadThis,
                        Insn::GetField(class_name@, "ledger"@, ledger_desc()),
                        Insn::PushInt(account.0 as i32),
                        Insn::Lload(slot),
                    ]);
                    if extra != 0 {
                        assert(is =~= head + seq![
                            Insn::PushLong(pow10(extra as nat) as i64),
                            Insn::Ldiv,
                            post,
                        ]);
                    }
                }
                true
            },
            _ => false,
        }
    }

    /// `let (a, b) = split(money, amount);`: `b` is the runtime's checked remainder,
    /// `a` the amount, a compile-time constant emitted twice.
    #[verifier::spinoff_prover]
    #[verifier::rlimit(80)]
    fn emit_split(
        &mut self,
        stmt: &TStmt,
        pool: &mut ConstantPool,
        class_name: &str,
        currencies: &Vec<CurrencyInfo>,
        rates: &Vec<RateInfo>,
    ) -> (ok: bool)
        requires
            old(self).wf(),
            old(self).code.depth() == 0,
            old(pool).wf(),
            old(pool).next() <= 65400,
            old(self).next_slot <= 65400,
        ensures
            final(self).wf(),
            final(pool).wf(),
            ok ==> (stmt_insns(*stmt, class_name@, currencies@, rates@, old(self).env()) matches Some(
                (is, e),
            ) && {
                &&& final(self).env() == e
                &&& final(self).state(*final(pool)) == run(old(self).state(*old(pool)), is)
                &&& final(self).code.depth() == 0
            }),
            stmt_insns(*stmt, class_name@, currencies@, rates@, old(self).env()) is None ==> !ok,
            *stmt is Split && stmt_insns(*stmt, class_name@, currencies@, rates@, old(self).env()) is Some
                && stmt_fits(*stmt, old(pool).next(), old(self).next_slot as nat) ==> ok,
            final(pool).next() <= old(pool).next() + stmt_pool_cost(*stmt),
            final(self).next_slot <= old(self).next_slot + stmt_slot_cost(*stmt),
    {
        reveal(stmt_insns);
        proof {
            lemma_post_descriptors();
            lemma_split_descriptors();
        }
        let ghost s0 = self.state(*pool);
        match stmt {
            TStmt::Split { a, b, money, amount, .. } => {
                let ghost env0 = self.env();
                if !self.emit_money_expr(money, pool, class_name) {
                    return false;
                }
                let ghost (mi, e1) = money_insns(*money, class_name@, env0)->0;
                let ghost mut is: Seq<Insn> = mi;
                if pool.next_index() > 65400 || self.next_slot > 65400 {
                    return false;
                }
                let c = amount.cents();
                self.code.push_long(c, pool);
        proof {
            lemma_run_push(s0, is, Insn::PushLong(c));
            is = is.push(Insn::PushLong(c));
        }
                self.code.invokestatic("balanc/runtime/Ledger", "checkedSplitRemainder", "(JJ)J", pool);
        proof {
            lemma_run_push(s0, is, Insn::InvokeStatic(ledger_class(), "checkedSplitRemainder"@, "(JJ)J"@));
            is = is.push(Insn::InvokeStatic(ledger_class(), "checkedSplitRemainder"@, "(JJ)J"@));
        }
                let bs = self.slot_for(*b);
                self.code.lstore(bs);
        proof {
            lemma_run_push(s0, is, Insn::Lstore(bs));
            is = is.push(Insn::Lstore(bs));
        }
                self.code.push_long(c, pool);
        proof {
            lemma_run_push(s0, is, Insn::PushLong(c));
            is = is.push(Insn::PushLong(c));
        }
                let as_ = self.slot_for(*a);
                self.code.lstore(as_);
        proof {
            lemma_run_push(s0, is, Insn::Lstore(as_));
            is = is.push(Insn::Lstore(as_));
        }
                proof {
                    assert(is =~= mi + seq![
                        Insn::PushLong(c),
                        Insn::InvokeStatic(ledger_class(), "checkedSplitRemainder"@, "(JJ)J"@),
                        Insn::Lstore(bs),
                        Insn::PushLong(c),
                        Insn::Lstore(as_),
                    ]);
                }
                true
            },
            _ => false,
        }
    }

    /// `let (a, b) = split_ratio(money, a_weight, b_weight);`: the runtime returns the
    /// two parts as a `long[2]`, unpacked here into `a` and `b`.
    #[verifier::spinoff_prover]
    #[verifier::rlimit(80)]
    fn emit_split_ratio(
        &mut self,
        stmt: &TStmt,
        pool: &mut ConstantPool,
        class_name: &str,
        currencies: &Vec<CurrencyInfo>,
        rates: &Vec<RateInfo>,
    ) -> (ok: bool)
        requires
            old(self).wf(),
            old(self).code.depth() == 0,
            old(pool).wf(),
            old(pool).next() <= 65400,
            old(self).next_slot <= 65400,
        ensures
            final(self).wf(),
            final(pool).wf(),
            ok ==> (stmt_insns(*stmt, class_name@, currencies@, rates@, old(self).env()) matches Some(
                (is, e),
            ) && {
                &&& final(self).env() == e
                &&& final(self).state(*final(pool)) == run(old(self).state(*old(pool)), is)
                &&& final(self).code.depth() == 0
            }),
            stmt_insns(*stmt, class_name@, currencies@, rates@, old(self).env()) is None ==> !ok,
            *stmt is SplitRatio && stmt_insns(*stmt, class_name@, currencies@, rates@, old(self).env()) is Some
                && stmt_fits(*stmt, old(pool).next(), old(self).next_slot as nat) ==> ok,
            final(pool).next() <= old(pool).next() + stmt_pool_cost(*stmt),
            final(self).next_slot <= old(self).next_slot + stmt_slot_cost(*stmt),
    {
        reveal(stmt_insns);
        proof {
            lemma_post_descriptors();
            lemma_split_descriptors();
        }
        let ghost s0 = self.state(*pool);
        match stmt {
            TStmt::SplitRatio { a, b, money, a_weight, b_weight, .. } => {
                let ghost env0 = self.env();
                if !self.emit_money_expr(money, pool, class_name) {
                    return false;
                }
                let ghost (mi, e1) = money_insns(*money, class_name@, env0)->0;
                let ghost mut is: Seq<Insn> = mi;
                if pool.next_index() > 65400 || self.next_slot > 65400 {
                    return false;
                }
                self.code.push_long(*a_weight as i64, pool);
        proof {
            lemma_run_push(s0, is, Insn::PushLong(*a_weight as i64));
            is = is.push(Insn::PushLong(*a_weight as i64));
        }
                self.code.push_long(*b_weight as i64, pool);
        proof {
            lemma_run_push(s0, is, Insn::PushLong(*b_weight as i64));
            is = is.push(Insn::PushLong(*b_weight as i64));
        }
                self.code.invokestatic("balanc/runtime/Ledger", "splitRatio", "(JJJ)[J", pool);
        proof {
            lemma_run_push(s0, is, Insn::InvokeStatic(ledger_class(), "splitRatio"@, "(JJJ)[J"@));
            is = is.push(Insn::InvokeStatic(ledger_class(), "splitRatio"@, "(JJJ)[J"@));
        }
                let arr = self.fresh_slot(1);
                self.code.astore(arr);
        proof {
            lemma_run_push(s0, is, Insn::Astore(arr));
            is = is.push(Insn::Astore(arr));
        }
                self.code.aload(arr);
        proof {
            lemma_run_push(s0, is, Insn::Aload(arr));
            is = is.push(Insn::Aload(arr));
        }
                self.code.push_int(0, pool);
        proof {
            lemma_run_push(s0, is, Insn::PushInt(0));
            is = is.push(Insn::PushInt(0));
        }
                self.code.laload();
        proof {
            lemma_run_push(s0, is, Insn::LaLoad);
            is = is.push(Insn::LaLoad);
        }
                let as_ = self.slot_for(*a);
                self.code.lstore(as_);
        proof {
            lemma_run_push(s0, is, Insn::Lstore(as_));
            is = is.push(Insn::Lstore(as_));
        }
                self.code.aload(arr);
        proof {
            lemma_run_push(s0, is, Insn::Aload(arr));
            is = is.push(Insn::Aload(arr));
        }
                self.code.push_int(1, pool);
        proof {
            lemma_run_push(s0, is, Insn::PushInt(1));
            is = is.push(Insn::PushInt(1));
        }
                self.code.laload();
        proof {
            lemma_run_push(s0, is, Insn::LaLoad);
            is = is.push(Insn::LaLoad);
        }
                let bs = self.slot_for(*b);
                self.code.lstore(bs);
        proof {
            lemma_run_push(s0, is, Insn::Lstore(bs));
            is = is.push(Insn::Lstore(bs));
        }
                proof {
                    assert(is =~= mi + seq![
                        Insn::PushLong(*a_weight as i64),
                        Insn::PushLong(*b_weight as i64),
                        Insn::InvokeStatic(ledger_class(), "splitRatio"@, "(JJJ)[J"@),
                        Insn::Astore(arr),
                        Insn::Aload(arr),
                        Insn::PushInt(0),
                        Insn::LaLoad,
                        Insn::Lstore(as_),
                        Insn::Aload(arr),
                        Insn::PushInt(1),
                        Insn::LaLoad,
                        Insn::Lstore(bs),
                    ]);
                }
                true
            },
            _ => false,
        }
    }
}

/// The names the methods got so far, as texts.
pub open spec fn names_view(used: Seq<String>) -> Seq<Seq<char>> {
    used.map_values(|s: String| s@)
}

/// Whether a method already has the name `s`.
fn name_used(used: &Vec<String>, s: &String) -> (r: bool)
    ensures
        r == names_view(used@).contains(s@),
{
    let mut i: usize = 0;
    while i < used.len()
        invariant
            i <= used@.len(),
            forall|j: int| 0 <= j < i ==> used@[j]@ != s@,
        decreases used@.len() - i,
    {
        if string_eq(&used[i], s) {
            assert(names_view(used@)[i as int] == s@);
            return true;
        }
        i = i + 1;
    }
    proof {
        if names_view(used@).contains(s@) {
            let j = choose|j: int| 0 <= j < names_view(used@).len() && names_view(used@)[j] == s@;
            assert(used@[j]@ == s@);
        }
    }
    false
}

/// A copy of `s`.
fn copy_string(s: &String) -> (r: String)
    ensures
        r@ == s@,
{
    let cs = chars_of(s.as_str());
    crate::text::string_from_chars(cs.as_slice())
}

/// Turns a transaction name into a Java method identifier that no method of the
/// class has yet, and records it as used. Reserved words are not avoided.
pub fn sanitize_method_name(txn_name: &str, index: usize, used: &mut Vec<String>) -> (r: String)
    ensures
        method_name(method_base(txn_name@, index as nat), names_view(old(used)@)) == Some(r@),
        names_view(final(used)@) == names_view(old(used)@).push(r@),
{
    let cs = chars_of(txn_name);
    let mut ident = String::new();
    let mut i: usize = 0;
    proof {
        assert(cs@.take(0) =~= Seq::<char>::empty());
        assert(sanitized(cs@.take(0)) =~= Seq::<char>::empty());
    }
    while i < cs.len()
        invariant
            i <= cs@.len(),
            cs@ == txn_name@,
            ident@ == sanitized(cs@.take(i as int)),
        decreases cs@.len() - i,
    {
        let c = cs[i];
        let keep = ('a' <= c && c <= 'z') || ('A' <= c && c <= 'Z') || ('0' <= c && c <= '9');
        if keep {
            push_char(&mut ident, c);
        } else {
            push_char(&mut ident, '_');
        }
        proof {
            assert(sanitized(cs@.take(i + 1)) =~= sanitized(cs@.take(i as int)).push(
                if is_ascii_alphanumeric(c) {
                    c
                } else {
                    '_'
                },
            ));
        }
        i = i + 1;
    }
    proof {
        assert(cs@.take(i as int) =~= cs@);
    }
    let ic = chars_of(ident.as_str());
    let mut base = String::new();
    if ic.len() == 0 || ('0' <= ic[0] && ic[0] <= '9') {
        push_str(&mut base, "txn");
        push_decimal(&mut base, index as u128);
        push_str(&mut base, "_");
    }
    push_str(&mut base, ident.as_str());
    push_str(&mut base, "Txn");
    assert(base@ =~= method_base(txn_name@, index as nat));
    let ghost used0 = names_view(used@);
    if !name_used(used, &base) {
        let copy = copy_string(&base);
        used.push(copy);
        assert(names_view(used@) =~= used0.push(base@));
        return base;
    }
    let n = used.len() as u128;
    let mut j: u128 = 0;
    while j <= n
        invariant
            j <= n + 1,
            n == used@.len(),
            n <= usize::MAX,
            used@ == old(used)@,
            used0 == names_view(used@),
            base@ == method_base(txn_name@, index as nat),
            used0.contains(base@),
            first_free(base@, used0, 1) == first_free(base@, used0, (j + 1) as nat),
        decreases n + 1 - j,
    {
        let mut cand = copy_string(&base);
        push_decimal(&mut cand, j + 1);
        if !name_used(used, &cand) {
            let copy = copy_string(&cand);
            used.push(copy);
            assert(names_view(used@) =~= used0.push(cand@));
            assert(first_free(base@, used0, (j + 1) as nat) == Some((j + 1) as nat));
            return cand;
        }
        assert(first_free(base@, used0, (j + 1) as nat) == first_free(base@, used0, (j + 2) as nat));
        j = j + 1;
    }
    proof {
        lemma_first_free_found(base@, used0);
        assert(first_free(base@, used0, (j + 1) as nat) is None);
    }
    // Unreachable: some suffix up to `n + 1` is always free.
    copy_string(&base)
}

fn kind_ordinal(kind: AccountKind) -> (r: i32)
    ensures
        r == kind_ordinal_spec(kind),
{
    match kind {
        AccountKind::Asset => 0,
        AccountKind::Liability => 1,
        AccountKind::Equity => 2,
        AccountKind::Income => 3,
        AccountKind::Expense => 4,
    }
}

fn array_name_str(f: ArrayField) -> (r: &'static str)
    ensures
        r@ == array_name(f),
{
    match f {
        ArrayField::Paths => "PATHS",
        ArrayField::CurrencyIndex => "CURRENCY_INDEX",
        ArrayField::KindOrder => "KIND_ORDER",
        ArrayField::IsDebitNormal => "IS_DEBIT_NORMAL",
        ArrayField::CurrencyNames => "CURRENCY_NAMES",
        ArrayField::CurrencyScales => "CURRENCY_SCALES",
    }
}

fn array_desc_str(f: ArrayField) -> (r: &'static str)
    ensures
        r@ == array_desc(f),
{
    match f {
        ArrayField::Paths | ArrayField::CurrencyNames => "[Ljava/lang/String;",
        ArrayField::IsDebitNormal => "[Z",
        _ => "[I",
    }
}

/// Pushes element `i` of the array `f` describes.
fn push_elem(c: &mut CodeBuilder, pool: &mut ConstantPool, f: ArrayField, module: &TModule, i: usize)
    requires
        old(c).wf(),
        old(c).depth() + 1 <= u16::MAX,
        old(pool).wf(),
        old(pool).has_room(2),
        i < array_len(f, *module),
    ensures
        final(c).wf(),
        final(pool).wf(),
        (final(c).view(), final(pool).consts()) == super::code::step(
            (old(c).view(), old(pool).consts()),
            elem_insn(f, *module, i as int),
        ),
        old(pool).next() <= final(pool).next() <= old(pool).next() + 2,
{
    match f {
        ArrayField::Paths => c.push_string(module.accounts[i].path.as_str(), pool),
        ArrayField::CurrencyIndex => c.push_int(
            #[verifier::truncate] (module.accounts[i].currency.0 as i32),
            pool,
        ),
        ArrayField::KindOrder => c.push_int(kind_ordinal(module.accounts[i].kind), pool),
        ArrayField::IsDebitNormal => {
            let v: i32 = match module.accounts[i].normal {
                NormalBalance::Debit => 1,
                NormalBalance::Credit => 0,
            };
            c.push_int(v, pool)
        },
        ArrayField::CurrencyNames => c.push_string(module.currencies[i].name.as_str(), pool),
        ArrayField::CurrencyScales => c.push_int(
            #[verifier::truncate] (module.currencies[i].scale as i32),
            pool,
        ),
    }
}

/// `push length; (a)newarray; { dup; push index; push element; store }*; putstatic`.
#[verifier::spinoff_prover]
#[verifier::rlimit(80)]
fn build_array(
    c: &mut CodeBuilder,
    pool: &mut ConstantPool,
    class_name: &str,
    f: ArrayField,
    module: &TModule,
) -> (ok: bool)
    requires
        old(c).wf(),
        old(c).depth() == 0,
        old(pool).wf(),
    ensures
        final(c).wf(),
        final(pool).wf(),
        ok ==> (final(c).view(), final(pool).consts()) == run(
            (old(c).view(), old(pool).consts()),
            array_insns(f, class_name@, *module),
        ),
        ok ==> final(c).depth() == 0,
        old(pool).next() + 3 * array_len(f, *module) + 16 <= 65400 ==> ok,
        final(pool).next() <= old(pool).next() + 3 * array_len(f, *module) + 16,
{
    proof {
        lemma_method_descriptors();
    }
    if pool.next_index() > 65400 {
        return false;
    }
    let ghost s0 = (c.view(), pool.consts());
    let ghost mut is: Seq<Insn> = Seq::empty();
    let len = match f {
        ArrayField::CurrencyNames | ArrayField::CurrencyScales => module.currencies.len(),
        _ => module.accounts.len(),
    };
    c.push_int(#[verifier::truncate] (len as i32), pool);
        proof {
            lemma_run_push(s0, is, Insn::PushInt(len as i32));
            is = is.push(Insn::PushInt(len as i32));
        }
    match f {
        ArrayField::Paths | ArrayField::CurrencyNames => c.anewarray("java/lang/String", pool),
        ArrayField::IsDebitNormal => c.newarray_primitive(T_BOOLEAN),
        _ => c.newarray_primitive(T_INT),
    }
        proof {
            lemma_run_push(s0, is, new_array_insn(f));
            is = is.push(new_array_insn(f));
        }
    let ghost head = is;
    let mut i: usize = 0;
    while i < len
        invariant
            i <= len,
            len == array_len(f, *module),
            c.wf(),
            c.depth() == 1,
            pool.wf(),
            (c.view(), pool.consts()) == run(s0, head + elems_insns(f, *module, i as nat)),
            pool.next() <= old(pool).next() + 3 + 3 * i,
        decreases len - i,
    {
        if pool.next_index() > 65400 {
            return false;
        }
        let ghost mut js = head + elems_insns(f, *module, i as nat);
        c.dup();
        proof {
            lemma_run_push(s0, js, Insn::Dup);
            js = js.push(Insn::Dup);
        }
        c.push_int(#[verifier::truncate] (i as i32), pool);
        proof {
            lemma_run_push(s0, js, Insn::PushInt(i as i32));
            js = js.push(Insn::PushInt(i as i32));
        }
        push_elem(c, pool, f, module, i);
        proof {
            lemma_run_push(s0, js, elem_insn(f, *module, i as int));
            js = js.push(elem_insn(f, *module, i as int));
        }
        match f {
            ArrayField::Paths | ArrayField::CurrencyNames => c.aastore(),
            ArrayField::IsDebitNormal => c.bastore(),
            _ => c.iastore(),
        }
        proof {
            lemma_run_push(s0, js, store_insn(f));
            js = js.push(store_insn(f));
        }
        proof {
            assert(js =~= head + elems_insns(f, *module, (i + 1) as nat));
        }
        i = i + 1;
    }
    if pool.next_index() > 65400 {
        return false;
    }
    let ghost mut js = head + elems_insns(f, *module, len as nat);
    c.putstatic(class_name, array_name_str(f), array_desc_str(f), pool);
    proof {
        lemma_run_push(s0, js, Insn::PutStatic(class_name@, array_name(f), array_desc(f)));
        js = js.push(Insn::PutStatic(class_name@, array_name(f), array_desc(f)));
    }
    proof {
        assert(head =~= seq![Insn::PushInt(len as i32), new_array_insn(f)]);
        assert(js =~= array_insns(f, class_name@, *module));
    }
    true
}

/// The static initializer: the six static metadata arrays `Ledger.report` needs, all
/// known at compile time.
#[verifier::spinoff_prover]
#[verifier::rlimit(80)]
fn build_clinit(pool: &mut ConstantPool, class_name: &str, module: &TModule) -> (r: Option<CodeBuilder>)
    requires
        old(pool).wf(),
    ensures
        final(pool).wf(),
        r matches Some(c) ==> c.wf() && (c.view(), final(pool).consts()) == run(
            (new_code(), old(pool).consts()),
            clinit_insns(class_name@, *module),
        ),
        old(pool).next() + 12 * module.accounts@.len() + 6 * module.currencies@.len() + 96 <= 65400
            ==> r is Some,
        final(pool).next() <= old(pool).next() + 12 * module.accounts@.len() + 6
            * module.currencies@.len() + 96,
{
    let mut c = CodeBuilder::new();
    let ghost s0 = (c.view(), pool.consts());
    let ghost m = *module;
    let ghost cn = class_name@;
    if !build_array(&mut c, pool, class_name, ArrayField::Paths, module) {
        return None;
    }
    let ghost a1 = array_insns(ArrayField::Paths, cn, m);
    if !build_array(&mut c, pool, class_name, ArrayField::CurrencyIndex, module) {
        return None;
    }
    let ghost a2 = array_insns(ArrayField::CurrencyIndex, cn, m);
    proof {
        lemma_run_append(s0, a1, a2);
    }
    if !build_array(&mut c, pool, class_name, ArrayField::KindOrder, module) {
        return None;
    }
    let ghost a3 = array_insns(ArrayField::KindOrder, cn, m);
    proof {
        lemma_run_append(s0, a1 + a2, a3);
    }
    if !build_array(&mut c, pool, class_name, ArrayField::IsDebitNormal, module) {
        return None;
    }
    let ghost a4 = array_insns(ArrayField::IsDebitNormal, cn, m);
    proof {
        lemma_run_append(s0, a1 + a2 + a3, a4);
    }
    if !build_array(&mut c, pool, class_name, ArrayField::CurrencyNames, module) {
        return None;
    }
    let ghost a5 = array_insns(ArrayField::CurrencyNames, cn, m);
    proof {
        lemma_run_append(s0, a1 + a2 + a3 + a4, a5);
    }
    if !build_array(&mut c, pool, class_name, ArrayField::CurrencyScales, module) {
        return None;
    }
    let ghost a6 = array_insns(ArrayField::CurrencyScales, cn, m);
    proof {
        lemma_run_append(s0, a1 + a2 + a3 + a4 + a5, a6);
    }
    c.return_void();
    proof {
        lemma_run_push(s0, a1 + a2 + a3 + a4 + a5 + a6, Insn::Return);
    }
    Some(c)
}

/// A transaction's method: its statements, then `return`. `None` where a statement
/// has no code, or a class-file limit would be passed.
#[verifier::spinoff_prover]
#[verifier::rlimit(80)]
fn build_txn_method(
    pool: &mut ConstantPool,
    class_name: &str,
    txn: &TTxnDecl,
    currencies: &Vec<CurrencyInfo>,
    rates: &Vec<RateInfo>,
) -> (r: Option<CodeBuilder>)
    requires
        old(pool).wf(),
    ensures
        final(pool).wf(),
        r matches Some(c) ==> c.wf() && (txn_insns(*txn, class_name@, currencies@, rates@) matches Some(
            is,
        ) && (c.view(), final(pool).consts()) == run((new_code(), old(pool).consts()), is)),
        txn_insns(*txn, class_name@, currencies@, rates@) is None ==> r is None,
        txn_insns(*txn, class_name@, currencies@, rates@) is Some && txn_fits(*txn, old(pool).next())
            ==> r is Some,
        final(pool).next() <= old(pool).next() + stmts_pool_cost(txn.stmts@),
{
    let mut ctx = TxnCodegen {
        code: CodeBuilder::new(),
        slots: Vec::new(),
        next_slot: 1,
        residue_extra_scale: Vec::new(),
    };
    let ghost s0 = ctx.state(*pool);
    let ghost ss = txn.stmts@;
    let ghost cn = class_name@;
    proof {
        assert(ss.take(0) =~= Seq::<TStmt>::empty());
        assert(ctx.env() == initial_env());
    }
    let ghost mut acc: Seq<Insn> = Seq::empty();
    let mut i: usize = 0;
    while i < txn.stmts.len()
        invariant
            i <= ss.len(),
            ss == txn.stmts@,
            ctx.wf(),
            ctx.code.depth() == 0,
            pool.wf(),
            s0 == (new_code(), old(pool).consts()),
            cn == class_name@,
            stmts_insns(ss.take(i as int), cn, currencies@, rates@, initial_env()) == Some(
                (acc, ctx.env()),
            ),
            ctx.state(*pool) == run(s0, acc),
            pool.next() <= old(pool).next() + stmts_pool_cost(ss.take(i as int)),
            ctx.next_slot <= 1 + stmts_slot_cost(ss.take(i as int)),
        decreases ss.len() - i,
    {
        let ghost e = ctx.env();
        let ghost st = ss[i as int];
        proof {
            assert(ss.take(i + 1).drop_last() =~= ss.take(i as int));
            assert(ss.take(i + 1).last() == st);
            lemma_stmts_cost_prefix(ss, i + 1);
            if txn_insns(*txn, cn, currencies@, rates@) is Some && txn_fits(*txn, old(pool).next()) {
                lemma_stmts_insns_prefix(ss, cn, currencies@, rates@, initial_env(), i + 1);
            }
        }
        if pool.next_index() > 65400 || ctx.next_slot > 65400 {
            return None;
        }
        if !ctx.emit_stmt(&txn.stmts[i], pool, class_name, currencies, rates) {
            return None;
        }
        proof {
            assert(ss.take(i + 1).drop_last() =~= ss.take(i as int));
            assert(ss.take(i + 1).last() == st);
            let js = (stmt_insns(st, cn, currencies@, rates@, e)->0).0;
            let e2 = (stmt_insns(st, cn, currencies@, rates@, e)->0).1;
            lemma_run_append(s0, acc, js);
            assert(stmts_insns(ss.take(i + 1), cn, currencies@, rates@, initial_env()) == Some(
                (acc + js, e2),
            ));
            acc = acc + js;
        }
        i = i + 1;
    }
    proof {
        assert(ss.take(i as int) =~= ss);
        lemma_run_push(s0, acc, Insn::Return);
    }
    ctx.code.return_void();
    Some(ctx.code)
}

/// The constructor: `super()`, then `this.ledger = new Ledger(accounts)`.
#[verifier::spinoff_prover]
#[verifier::rlimit(80)]
fn build_init(pool: &mut ConstantPool, class_name: &str, module: &TModule) -> (r: Option<CodeBuilder>)
    requires
        old(pool).wf(),
    ensures
        final(pool).wf(),
        r matches Some(c) ==> c.wf() && (c.view(), final(pool).consts()) == run(
            (new_code(), old(pool).consts()),
            init_insns(class_name@, module.accounts@.len()),
        ),
        r is Some <==> old(pool).next() <= 65400,
        final(pool).next() <= old(pool).next() + 24,
{
    proof {
        lemma_method_descriptors();
    }
    if pool.next_index() > 65400 {
        return None;
    }
    let mut c = CodeBuilder::new();
    let ghost s0 = (c.view(), pool.consts());
    let ghost mut is: Seq<Insn> = Seq::empty();
    c.aload_this();
    proof {
        lemma_run_push(s0, is, Insn::AloadThis);
        is = is.push(Insn::AloadThis);
    }
    c.invokespecial("java/lang/Object", "<init>", "()V", pool);
    proof {
        lemma_run_push(s0, is, Insn::InvokeSpecial("java/lang/Object"@, "<init>"@, "()V"@));
        is = is.push(Insn::InvokeSpecial("java/lang/Object"@, "<init>"@, "()V"@));
    }
    c.aload_this();
    proof {
        lemma_run_push(s0, is, Insn::AloadThis);
        is = is.push(Insn::AloadThis);
    }
    c.new_("balanc/runtime/Ledger", pool);
    proof {
        lemma_run_push(s0, is, Insn::New(ledger_class()));
        is = is.push(Insn::New(ledger_class()));
    }
    c.dup();
    proof {
        lemma_run_push(s0, is, Insn::Dup);
        is = is.push(Insn::Dup);
    }
    let n = #[verifier::truncate] (module.accounts.len() as i32);
    c.push_int(n, pool);
    proof {
        lemma_run_push(s0, is, Insn::PushInt(n));
        is = is.push(Insn::PushInt(n));
    }
    c.invokespecial("balanc/runtime/Ledger", "<init>", "(I)V", pool);
    proof {
        lemma_run_push(s0, is, Insn::InvokeSpecial(ledger_class(), "<init>"@, "(I)V"@));
        is = is.push(Insn::InvokeSpecial(ledger_class(), "<init>"@, "(I)V"@));
    }
    c.putfield(class_name, "ledger", "Lbalanc/runtime/Ledger;", pool);
    proof {
        lemma_run_push(s0, is, Insn::PutField(class_name@, "ledger"@, ledger_desc()));
        is = is.push(Insn::PutField(class_name@, "ledger"@, ledger_desc()));
    }
    c.return_void();
    proof {
        lemma_run_push(s0, is, Insn::Return);
        is = is.push(Insn::Return);
    }
    proof {
        assert(is =~= init_insns(class_name@, module.accounts@.len()));
    }
    Some(c)
}

/// `run()`: calls every transaction method in declaration order, then returns the
/// ledger's report.
#[verifier::spinoff_prover]
#[verifier::rlimit(80)]
fn build_run(pool: &mut ConstantPool, class_name: &str, method_names: &Vec<String>) -> (r: Option<
    CodeBuilder,
>)
    requires
        old(pool).wf(),
    ensures
        final(pool).wf(),
        r matches Some(c) ==> c.wf() && (c.view(), final(pool).consts()) == run(
            (new_code(), old(pool).consts()),
            run_insns(class_name@, names_view(method_names@)),
        ),
        old(pool).next() + 6 * method_names@.len() + 48 <= 65400 ==> r is Some,
        final(pool).next() <= old(pool).next() + 6 * method_names@.len() + 48,
{
    proof {
        lemma_method_descriptors();
    }
    let mut c = CodeBuilder::new();
    let ghost s0 = (c.view(), pool.consts());
    let ghost names = names_view(method_names@);
    let mut i: usize = 0;
    proof {
        assert(names.take(0) =~= Seq::<Seq<char>>::empty());
    }
    while i < method_names.len()
        invariant
            i <= names.len(),
            names == names_view(method_names@),
            c.wf(),
            c.depth() == 0,
            pool.wf(),
            (c.view(), pool.consts()) == run(s0, calls_insns(class_name@, names.take(i as int))),
            pool.next() <= old(pool).next() + 6 * i,
            names.len() == method_names@.len(),
        decreases names.len() - i,
    {
        if pool.next_index() > 65400 {
            return None;
        }
        proof {
            lemma_method_descriptors();
        }
        let ghost mut js = calls_insns(class_name@, names.take(i as int));
        c.aload_this();
        proof {
            lemma_run_push(s0, js, Insn::AloadThis);
            js = js.push(Insn::AloadThis);
        }
        c.invokevirtual(class_name, method_names[i].as_str(), "()V", pool);
        proof {
            lemma_run_push(s0, js, Insn::InvokeVirtual(class_name@, names[i as int], "()V"@));
            js = js.push(Insn::InvokeVirtual(class_name@, names[i as int], "()V"@));
        }
        proof {
            assert(names.take(i + 1).drop_last() =~= names.take(i as int));
            assert(js =~= calls_insns(class_name@, names.take(i + 1)));
        }
        i = i + 1;
    }
    if pool.next_index() > 65400 {
        return None;
    }
    proof {
        assert(names.take(i as int) =~= names);
    }
    let ghost mut is = calls_insns(class_name@, names);
    c.aload_this();
    proof {
        lemma_run_push(s0, is, Insn::AloadThis);
        is = is.push(Insn::AloadThis);
    }
    c.getfield(class_name, "ledger", "Lbalanc/runtime/Ledger;", pool);
    proof {
        lemma_run_push(s0, is, Insn::GetField(class_name@, "ledger"@, ledger_desc()));
        is = is.push(Insn::GetField(class_name@, "ledger"@, ledger_desc()));
    }
    c.getstatic(class_name, "PATHS", "[Ljava/lang/String;", pool);
    proof {
        lemma_run_push(s0, is, Insn::GetStatic(class_name@, "PATHS"@, string_arr()));
        is = is.push(Insn::GetStatic(class_name@, "PATHS"@, string_arr()));
    }
    c.getstatic(class_name, "CURRENCY_INDEX", "[I", pool);
    proof {
        lemma_run_push(s0, is, Insn::GetStatic(class_name@, "CURRENCY_INDEX"@, "[I"@));
        is = is.push(Insn::GetStatic(class_name@, "CURRENCY_INDEX"@, "[I"@));
    }
    c.getstatic(class_name, "KIND_ORDER", "[I", pool);
    proof {
        lemma_run_push(s0, is, Insn::GetStatic(class_name@, "KIND_ORDER"@, "[I"@));
        is = is.push(Insn::GetStatic(class_name@, "KIND_ORDER"@, "[I"@));
    }
    c.getstatic(class_name, "IS_DEBIT_NORMAL", "[Z", pool);
    proof {
        lemma_run_push(s0, is, Insn::GetStatic(class_name@, "IS_DEBIT_NORMAL"@, "[Z"@));
        is = is.push(Insn::GetStatic(class_name@, "IS_DEBIT_NORMAL"@, "[Z"@));
    }
    c.getstatic(class_name, "CURRENCY_NAMES", "[Ljava/lang/String;", pool);
    proof {
        lemma_run_push(s0, is, Insn::GetStatic(class_name@, "CURRENCY_NAMES"@, string_arr()));
        is = is.push(Insn::GetStatic(class_name@, "CURRENCY_NAMES"@, string_arr()));
    }
    c.getstatic(class_name, "CURRENCY_SCALES", "[I", pool);
    proof {
        lemma_run_push(s0, is, Insn::GetStatic(class_name@, "CURRENCY_SCALES"@, "[I"@));
        is = is.push(Insn::GetStatic(class_name@, "CURRENCY_SCALES"@, "[I"@));
    }
    c.invokevirtual(
        "balanc/runtime/Ledger",
        "report",
        "([Ljava/lang/String;[I[I[Z[Ljava/lang/String;[I)Ljava/lang/String;",
        pool,
    );
    proof {
        lemma_run_push(s0, is, Insn::InvokeVirtual(ledger_class(), "report"@, report_desc()));
        is = is.push(Insn::InvokeVirtual(ledger_class(), "report"@, report_desc()));
    }
    c.areturn();
    proof {
        lemma_run_push(s0, is, Insn::AReturn);
        is = is.push(Insn::AReturn);
    }
    proof {
        assert(is =~= run_insns(class_name@, names));
    }
    Some(c)
}

/// `public static void main(String[] args)`: prints `run()`'s report, so the class
/// is directly runnable as well as callable from another Java program.
#[verifier::spinoff_prover]
#[verifier::rlimit(80)]
fn build_main(pool: &mut ConstantPool, class_name: &str) -> (r: Option<CodeBuilder>)
    requires
        old(pool).wf(),
    ensures
        final(pool).wf(),
        r matches Some(c) ==> c.wf() && (c.view(), final(pool).consts()) == run(
            (new_code(), old(pool).consts()),
            main_insns(class_name@),
        ),
        r is Some <==> old(pool).next() <= 65400,
        final(pool).next() <= old(pool).next() + 30,
{
    proof {
        lemma_method_descriptors();
    }
    if pool.next_index() > 65400 {
        return None;
    }
    let mut c = CodeBuilder::new();
    let ghost s0 = (c.view(), pool.consts());
    let ghost mut is: Seq<Insn> = Seq::empty();
    c.new_(class_name, pool);
    proof {
        lemma_run_push(s0, is, Insn::New(class_name@));
        is = is.push(Insn::New(class_name@));
    }
    c.dup();
    proof {
        lemma_run_push(s0, is, Insn::Dup);
        is = is.push(Insn::Dup);
    }
    c.invokespecial(class_name, "<init>", "()V", pool);
    proof {
        lemma_run_push(s0, is, Insn::InvokeSpecial(class_name@, "<init>"@, "()V"@));
        is = is.push(Insn::InvokeSpecial(class_name@, "<init>"@, "()V"@));
    }
    let instance_slot: u16 = 1;
    c.astore(instance_slot);
    proof {
        lemma_run_push(s0, is, Insn::Astore(1));
        is = is.push(Insn::Astore(1));
    }
    c.getstatic("java/lang/System", "out", "Ljava/io/PrintStream;", pool);
    proof {
        lemma_run_push(s0, is, Insn::GetStatic("java/lang/System"@, "out"@, "Ljava/io/PrintStream;"@));
        is = is.push(Insn::GetStatic("java/lang/System"@, "out"@, "Ljava/io/PrintStream;"@));
    }
    c.aload(instance_slot);
    proof {
        lemma_run_push(s0, is, Insn::Aload(1));
        is = is.push(Insn::Aload(1));
    }
    c.invokevirtual(class_name, "run", "()Ljava/lang/String;", pool);
    proof {
        lemma_run_push(s0, is, Insn::InvokeVirtual(class_name@, "run"@, "()Ljava/lang/String;"@));
        is = is.push(Insn::InvokeVirtual(class_name@, "run"@, "()Ljava/lang/String;"@));
    }
    c.invokevirtual("java/io/PrintStream", "print", "(Ljava/lang/String;)V", pool);
    proof {
        lemma_run_push(s0, is, Insn::InvokeVirtual("java/io/PrintStream"@, "print"@, "(Ljava/lang/String;)V"@));
        is = is.push(Insn::InvokeVirtual("java/io/PrintStream"@, "print"@, "(Ljava/lang/String;)V"@));
    }
    c.return_void();
    proof {
        lemma_run_push(s0, is, Insn::Return);
        is = is.push(Insn::Return);
    }
    proof {
        assert(is =~= main_insns(class_name@));
    }
    Some(c)
}

/// Compiles `module` into a single `.class` file's bytes, naming the class
/// `class_name` (a valid Java identifier with no package). `None` where the module
/// has no class (`compile_spec`), or where it would pass a limit of the class-file
/// format: 65535 constant-pool indices, stack words or local slots.
pub fn compile(module: &TModule, class_name: &str) -> (r: Option<Vec<u8>>)
    ensures
        r matches Some(b) ==> compile_spec(*module, class_name@) == Some(b@),
        compile_spec(*module, class_name@) is None ==> r is None,
        compile_spec(*module, class_name@) is Some && module_fits(*module) ==> r is Some,
{
    let mut class = ClassFile::new(class_name, "java/lang/Object");
    let ghost cn = class_name@;
    let ghost mut st: ClassSt = (class.pool.consts(), class.fields_view(), class.methods_view());
    class.add_field(ACC_PRIVATE | ACC_FINAL, "ledger", "Lbalanc/runtime/Ledger;");
    proof {
        st = add_field_st(st, ACC_PRIVATE | ACC_FINAL, "ledger"@, ledger_desc());
    }
    class.add_field(ACC_PRIVATE | ACC_STATIC | ACC_FINAL, "PATHS", "[Ljava/lang/String;");
    proof {
        st = add_field_st(st, ACC_PRIVATE | ACC_STATIC | ACC_FINAL, "PATHS"@, string_arr());
    }
    class.add_field(ACC_PRIVATE | ACC_STATIC | ACC_FINAL, "CURRENCY_INDEX", "[I");
    proof {
        st = add_field_st(st, ACC_PRIVATE | ACC_STATIC | ACC_FINAL, "CURRENCY_INDEX"@, "[I"@);
    }
    class.add_field(ACC_PRIVATE | ACC_STATIC | ACC_FINAL, "KIND_ORDER", "[I");
    proof {
        st = add_field_st(st, ACC_PRIVATE | ACC_STATIC | ACC_FINAL, "KIND_ORDER"@, "[I"@);
    }
    class.add_field(ACC_PRIVATE | ACC_STATIC | ACC_FINAL, "IS_DEBIT_NORMAL", "[Z");
    proof {
        st = add_field_st(st, ACC_PRIVATE | ACC_STATIC | ACC_FINAL, "IS_DEBIT_NORMAL"@, "[Z"@);
    }
    class.add_field(ACC_PRIVATE | ACC_STATIC | ACC_FINAL, "CURRENCY_NAMES", "[Ljava/lang/String;");
    proof {
        st = add_field_st(st, ACC_PRIVATE | ACC_STATIC | ACC_FINAL, "CURRENCY_NAMES"@, string_arr());
    }
    class.add_field(ACC_PRIVATE | ACC_STATIC | ACC_FINAL, "CURRENCY_SCALES", "[I");
    proof {
        st = add_field_st(st, ACC_PRIVATE | ACC_STATIC | ACC_FINAL, "CURRENCY_SCALES"@, "[I"@);
    }
    let clinit = match build_clinit(&mut class.pool, class_name, module) {
        Some(c) => c,
        None => {
            return None;
        },
    };
    if class.pool.next_index() > 65400 {
        return None;
    }
    class.add_method(ACC_STATIC, "<clinit>", "()V", clinit);
    proof {
        st = add_method_st(st, ACC_STATIC, "<clinit>"@, "()V"@, clinit_insns(cn, *module));
    }
    let init = match build_init(&mut class.pool, class_name, module) {
        Some(c) => c,
        None => {
            return None;
        },
    };
    if class.pool.next_index() > 65400 {
        return None;
    }
    class.add_method(ACC_PUBLIC, "<init>", "()V", init);
    proof {
        st = add_method_st(st, ACC_PUBLIC, "<init>"@, "()V"@, init_insns(cn, module.accounts@.len()));
    }
    let ghost st9 = st;
    let ghost txns = module.txns@;
    let ghost this = class.this_class;
    let ghost sup = class.super_class;
    let ghost code = class.code_attr_name;
    let ghost base = class.pool.next();
    let mut used: Vec<String> = Vec::new();
    let mut i: usize = 0;
    proof {
        assert(txns.take(0) =~= Seq::<TTxnDecl>::empty());
        assert(names_view(used@) =~= Seq::<Seq<char>>::empty());
        assert(compile_spec(*module, cn) is Some ==> txn_methods_st(
            st9,
            cn,
            txns,
            module.currencies@,
            module.rates@,
        ) is Some);
    }
    while i < module.txns.len()
        invariant
            i <= txns.len(),
            txns == module.txns@,
            cn == class_name@,
            class.pool.wf(),
            class.this_class == this,
            class.super_class == sup,
            class.code_attr_name == code,
            txn_methods_st(st9, cn, txns.take(i as int), module.currencies@, module.rates@) == Some(
                ((class.pool.consts(), class.fields_view(), class.methods_view()), names_view(used@)),
            ),
            class.pool.next() <= base + txns_pool_cost(txns.take(i as int)),
            used@.len() == i,
            base <= 144 + 12 * module.accounts@.len() + 6 * module.currencies@.len(),
            compile_spec(*module, cn) is Some ==> txn_methods_st(
                st9,
                cn,
                txns,
                module.currencies@,
                module.rates@,
            ) is Some,
        decreases txns.len() - i,
    {
        proof {
            assert(txns.take(i + 1).drop_last() =~= txns.take(i as int));
            assert(txns.take(i + 1).last() == txns[i as int]);
            lemma_txns_cost_prefix(txns, i + 1);
            if compile_spec(*module, cn) is Some && module_fits(*module) {
                lemma_txn_methods_prefix(st9, cn, txns, module.currencies@, module.rates@, i + 1);
                assert(txn_fits(txns[i as int], 0));
            }
        }
        let ghost st_i = (class.pool.consts(), class.fields_view(), class.methods_view());
        let ghost names_i = names_view(used@);
        let name = sanitize_method_name(module.txns[i].name.as_str(), i, &mut used);
        proof {
            assert(names_i.len() == i);
            assert(names_view(used@).len() == used@.len());
        }
        let body = match build_txn_method(
            &mut class.pool,
            class_name,
            &module.txns[i],
            &module.currencies,
            &module.rates,
        ) {
            Some(b) => b,
            None => {
                return None;
            },
        };
        if class.pool.next_index() > 65400 {
            return None;
        }
        class.add_method(ACC_PUBLIC, name.as_str(), "()V", body);
        proof {
            assert(txns.take(i + 1).drop_last() =~= txns.take(i as int));
            assert(txns.take(i + 1).last() == txns[i as int]);
            assert(txns.take(i + 1).len() - 1 == i);
        }
        i = i + 1;
    }
    proof {
        assert(txns.take(i as int) =~= txns);
        st = (class.pool.consts(), class.fields_view(), class.methods_view());
    }
    let run_body = match build_run(&mut class.pool, class_name, &used) {
        Some(c) => c,
        None => {
            return None;
        },
    };
    if class.pool.next_index() > 65400 {
        return None;
    }
    class.add_method(ACC_PUBLIC, "run", "()Ljava/lang/String;", run_body);
    proof {
        st = add_method_st(st, ACC_PUBLIC, "run"@, "()Ljava/lang/String;"@, run_insns(cn, names_view(used@)));
    }
    let main = match build_main(&mut class.pool, class_name) {
        Some(c) => c,
        None => {
            return None;
        },
    };
    if class.pool.next_index() > 65400 {
        return None;
    }
    class.add_method(ACC_PUBLIC | ACC_STATIC, "main", "([Ljava/lang/String;)V", main);
    proof {
        st = add_method_st(st, ACC_PUBLIC | ACC_STATIC, "main"@, "([Ljava/lang/String;)V"@, main_insns(cn));
    }
    let bytes = class.to_bytes();
    Some(bytes)
}

/// What `std::path::Path::file_stem` gives for `path`, as text: the final component
/// without its extension, if any.
pub uninterp spec fn path_file_stem(path: Seq<char>) -> Option<Seq<char>>;

/// `std::path::Path::file_stem` of `path`, as a `String`. Its result is named, not
/// stated: which part of a path is its stem is left to `Path`.
#[verifier::external_body]
fn file_stem(path: &str) -> (r: Option<String>)
    ensures
        match r {
            Some(s) => path_file_stem(path@) == Some(s@),
            None => path_file_stem(path@) is None,
        },
{
    match std::path::Path::new(path).file_stem() {
        Some(os) => match os.to_str() {
            Some(s) => Some(s.to_string()),
            None => None,
        },
        None => None,
    }
}

/// `c` in upper case, for an ASCII letter; any other character unchanged.
pub open spec fn ascii_upper(c: char) -> char {
    if 'a' <= c <= 'z' {
        ((c as u32) - 32) as char
    } else {
        c
    }
}

/// PascalCase of `stem`'s ASCII letters and digits: each run of them is kept, its
/// first character upper-cased; everything else only separates runs. Also whether
/// the next kept character starts a run.
pub open spec fn pascal_case(stem: Seq<char>) -> (Seq<char>, bool)
    decreases stem.len(),
{
    if stem.len() == 0 {
        (Seq::empty(), true)
    } else {
        let (name, capitalize_next) = pascal_case(stem.drop_last());
        let c = stem.last();
        if is_ascii_alphanumeric(c) {
            (
                name.push(
                    if capitalize_next {
                        ascii_upper(c)
                    } else {
                        c
                    },
                ),
                false,
            )
        } else {
            (name, true)
        }
    }
}

/// The class name for a file stem: its PascalCase, prefixed with `Module` when that
/// is empty or starts with a digit.
pub open spec fn class_name_spec(stem: Seq<char>) -> Seq<char> {
    let name = pascal_case(stem).0;
    if name.len() == 0 || is_ascii_digit(name[0]) {
        "Module"@ + name
    } else {
        name
    }
}

/// The class name for a file stem, e.g. `"split_and_merge"` -> `"SplitAndMerge"`.
pub fn class_name_from_stem(stem: &str) -> (r: String)
    ensures
        r@ == class_name_spec(stem@),
{
    let cs = chars_of(stem);
    let mut name = String::new();
    let mut capitalize_next = true;
    let mut i: usize = 0;
    proof {
        assert(cs@.take(0) =~= Seq::<char>::empty());
    }
    while i < cs.len()
        invariant
            i <= cs@.len(),
            cs@ == stem@,
            (name@, capitalize_next) == pascal_case(cs@.take(i as int)),
        decreases cs@.len() - i,
    {
        let ch = cs[i];
        let alnum = ('a' <= ch && ch <= 'z') || ('A' <= ch && ch <= 'Z') || ('0' <= ch && ch <= '9');
        if alnum {
            if capitalize_next && 'a' <= ch && ch <= 'z' {
                push_char(&mut name, ((ch as u32) - 32) as u8 as char);
            } else {
                push_char(&mut name, ch);
            }
            capitalize_next = false;
        } else {
            capitalize_next = true;
        }
        proof {
            assert(cs@.take(i + 1).drop_last() =~= cs@.take(i as int));
        }
        i = i + 1;
    }
    proof {
        assert(cs@.take(i as int) =~= cs@);
    }
    let nc = chars_of(name.as_str());
    if nc.len() == 0 || ('0' <= nc[0] && nc[0] <= '9') {
        let mut prefixed = String::from_str("Module");
        push_str(&mut prefixed, name.as_str());
        prefixed
    } else {
        name
    }
}

/// Derives a valid, PascalCase Java class name from a source path's stem, e.g.
/// `"examples/split_and_merge.bal"` -> `"SplitAndMerge"`; a path with no stem
/// gives `"Module"`.
pub fn class_name_from_path(path: &str) -> (r: String)
    ensures
        r@ == class_name_spec(
            match path_file_stem(path@) {
                Some(s) => s,
                None => "Module"@,
            },
        ),
{
    match file_stem(path) {
        Some(stem) => class_name_from_stem(stem.as_str()),
        None => class_name_from_stem("Module"),
    }
}

} // verus!