//! `LedgerState` -> report text. The only stage besides the command-line driver that
//! produces output for a human.
//!
//! One section per currency with at least one posting: accounts are grouped by their
//! declared currency, and each section's amounts are formatted at that currency's own
//! scale. A currency with no postings gets no section.
//!
//! Within a section, accounts are listed debit-normal first, then credit-normal, each
//! side in account-kind order (asset, liability, equity, income, expense), and each
//! displayed amount is the account's raw balance flipped to its `normal` sign:
//! unchanged for a debit-normal account, negated for a credit-normal one. This is a
//! display convention only — `eval`'s arithmetic (debit adds, credit subtracts) is
//! unchanged.
//!
//! The two subtotals ("Debit total", "Credit total") are the accounting equation made
//! visible: their difference is the sum of every raw balance of the currency, which is
//! zero whenever nothing but same-currency `debit`/`credit` pairs touched it.
//! `convert` moves value across a currency boundary, so a currency it pulls value out
//! of (or into) can legitimately show unequal totals.

pub mod balanced;
pub mod layout;

use vstd::prelude::*;
use crate::amount::{format_minor, spec_format};
use crate::eval::LedgerState;
use crate::parse::ast::NormalBalance;
use crate::resolve::{AccountInfo, AccountKind, CurrencyInfo};
use crate::text::{chars_of, pad_left, pad_right, push_padded_left, push_padded_right, push_str};
use crate::typeck::TModule;

verus! {

/// The order accounts are listed in within a side: balance-sheet kinds first, then
/// income-statement kinds.
pub open spec fn kind_order(i: int) -> AccountKind {
    if i == 0 {
        AccountKind::Asset
    } else if i == 1 {
        AccountKind::Liability
    } else if i == 2 {
        AccountKind::Equity
    } else if i == 3 {
        AccountKind::Income
    } else {
        AccountKind::Expense
    }
}

fn kind_at(i: usize) -> (k: AccountKind)
    ensures
        k == kind_order(i as int),
{
    if i == 0 {
        AccountKind::Asset
    } else if i == 1 {
        AccountKind::Liability
    } else if i == 2 {
        AccountKind::Equity
    } else if i == 3 {
        AccountKind::Income
    } else {
        AccountKind::Expense
    }
}

/// A raw balance shown at the account's normal sign.
pub open spec fn displayed(normal: NormalBalance, raw: int) -> int {
    match normal {
        NormalBalance::Debit => raw,
        NormalBalance::Credit => -raw,
    }
}

/// The posted accounts of currency `idx`, of `kind`, on the `normal` side, in
/// declaration order: each with its path and displayed balance.
pub open spec fn kind_entries(
    accounts: Seq<AccountInfo>,
    l: Map<Seq<char>, int>,
    idx: nat,
    kind: AccountKind,
    normal: NormalBalance,
) -> Seq<(Seq<char>, int)>
    decreases accounts.len(),
{
    if accounts.len() == 0 {
        Seq::empty()
    } else {
        let prev = kind_entries(accounts.drop_last(), l, idx, kind, normal);
        let a = accounts.last();
        if a.currency.0 == idx && a.kind == kind && a.normal == normal && l.contains_key(a.path@) {
            prev.push((a.path@, displayed(normal, l[a.path@])))
        } else {
            prev
        }
    }
}

/// A side's entries for the first `k` kinds of `kind_order`.
pub open spec fn side_entries(
    accounts: Seq<AccountInfo>,
    l: Map<Seq<char>, int>,
    idx: nat,
    normal: NormalBalance,
    k: nat,
) -> Seq<(Seq<char>, int)>
    decreases k,
{
    if k == 0 {
        Seq::empty()
    } else {
        side_entries(accounts, l, idx, normal, (k - 1) as nat) + kind_entries(
            accounts,
            l,
            idx,
            kind_order(k - 1),
            normal,
        )
    }
}

/// One report line: two spaces, the label left-aligned in 24 columns, a space, and
/// the amount right-aligned in 12.
pub open spec fn report_line(label: Seq<char>, v: int, scale: nat) -> Seq<char> {
    "  "@ + pad_right(label, 24) + " "@ + pad_left(spec_format(v, scale), ' ', 12) + "\n"@
}

pub open spec fn entries_text(es: Seq<(Seq<char>, int)>, scale: nat) -> Seq<char>
    decreases es.len(),
{
    if es.len() == 0 {
        Seq::empty()
    } else {
        entries_text(es.drop_last(), scale) + report_line(es.last().0, es.last().1, scale)
    }
}

pub open spec fn entries_total(es: Seq<(Seq<char>, int)>) -> int
    decreases es.len(),
{
    if es.len() == 0 {
        0
    } else {
        entries_total(es.drop_last()) + es.last().1
    }
}

/// The section for currency `idx`: nothing when it has no posted account, else its
/// heading, its debit-normal then credit-normal lines, and the two totals.
pub open spec fn section_text(
    cur: CurrencyInfo,
    accounts: Seq<AccountInfo>,
    l: Map<Seq<char>, int>,
    idx: nat,
) -> Seq<char> {
    let d = side_entries(accounts, l, idx, NormalBalance::Debit, 5);
    let c = side_entries(accounts, l, idx, NormalBalance::Credit, 5);
    if d.len() == 0 && c.len() == 0 {
        Seq::empty()
    } else {
        "Trial Balance ("@ + cur.name@ + ")\n"@ + entries_text(d, cur.scale as nat) + entries_text(
            c,
            cur.scale as nat,
        ) + report_line("Debit total"@, entries_total(d), cur.scale as nat) + report_line(
            "Credit total"@,
            entries_total(c),
            cur.scale as nat,
        )
    }
}

/// The whole report: each currency's section, in declaration order.
pub open spec fn report_text(
    currencies: Seq<CurrencyInfo>,
    accounts: Seq<AccountInfo>,
    l: Map<Seq<char>, int>,
) -> Seq<char>
    decreases currencies.len(),
{
    if currencies.len() == 0 {
        Seq::empty()
    } else {
        report_text(currencies.drop_last(), accounts, l) + section_text(
            currencies.last(),
            accounts,
            l,
            (currencies.len() - 1) as nat,
        )
    }
}

/// The entries as contracts see them: each account's path and displayed balance.
pub open spec fn lines_view(accounts: Seq<AccountInfo>, lines: Seq<(usize, i128)>) -> Seq<
    (Seq<char>, int),
> {
    lines.map_values(|e: (usize, i128)| (accounts[e.0 as int].path@, e.1 as int))
}

/// Appends one report line.
fn push_line(out: &mut String, label: &str, v: i128, scale: u32)
    ensures
        final(out)@ == old(out)@ + report_line(label@, v as int, scale as nat),
{
    push_str(out, "  ");
    let l = chars_of(label);
    push_padded_right(out, l.as_slice(), 24);
    push_str(out, " ");
    let f = format_minor(v, scale);
    let fc = chars_of(f.as_str());
    push_padded_left(out, fc.as_slice(), ' ', 12);
    push_str(out, "\n");
    proof {
        assert(final(out)@ =~= old(out)@ + report_line(label@, v as int, scale as nat));
    }
}

/// Appends the lines of `lines`.
fn push_lines(out: &mut String, accounts: &[AccountInfo], lines: &Vec<(usize, i128)>, scale: u32)
    requires
        forall|i: int| 0 <= i < lines@.len() ==> (#[trigger] lines@[i]).0 < accounts@.len(),
    ensures
        final(out)@ == old(out)@ + entries_text(lines_view(accounts@, lines@), scale as nat),
{
    let ghost start = out@;
    let mut i: usize = 0;
    while i < lines.len()
        invariant
            i <= lines@.len(),
            forall|j: int| 0 <= j < lines@.len() ==> (#[trigger] lines@[j]).0 < accounts@.len(),
            out@ == start + entries_text(lines_view(accounts@, lines@.take(i as int)), scale as nat),
        decreases lines@.len() - i,
    {
        let (a, v) = lines[i];
        push_line(out, accounts[a].path.as_str(), v, scale);
        proof {
            let prev = lines_view(accounts@, lines@.take(i as int));
            let cur = lines_view(accounts@, lines@.take(i + 1));
            assert(cur.drop_last() =~= prev);
            assert(cur.last() == (accounts@[a as int].path@, v as int));
        }
        i = i + 1;
    }
    proof {
        assert(lines@.take(lines@.len() as int) =~= lines@);
    }
}


/// The debit-normal and credit-normal entries of currency `idx`, with their totals.
fn collect_section(module: &TModule, ledger: &LedgerState, idx: usize) -> (r: (
    Vec<(usize, i128)>,
    Vec<(usize, i128)>,
    i128,
    i128,
))
    requires
        ledger.wf(),
        module.accounts@.len() <= u32::MAX,
    ensures
        forall|i: int| 0 <= i < r.0@.len() ==> (#[trigger] r.0@[i]).0 < module.accounts@.len(),
        forall|i: int| 0 <= i < r.1@.len() ==> (#[trigger] r.1@[i]).0 < module.accounts@.len(),
        lines_view(module.accounts@, r.0@) == side_entries(
            module.accounts@,
            ledger@,
            idx as nat,
            NormalBalance::Debit,
            5,
        ),
        lines_view(module.accounts@, r.1@) == side_entries(
            module.accounts@,
            ledger@,
            idx as nat,
            NormalBalance::Credit,
            5,
        ),
        r.2 == entries_total(lines_view(module.accounts@, r.0@)),
        r.3 == entries_total(lines_view(module.accounts@, r.1@)),
{
    let ghost accts = module.accounts@;
    let ghost l = ledger@;
    let n = module.accounts.len();
    let mut debit_lines: Vec<(usize, i128)> = Vec::new();
    let mut credit_lines: Vec<(usize, i128)> = Vec::new();
    let mut debit_total: i128 = 0;
    let mut credit_total: i128 = 0;
    let mut k: usize = 0;
    while k < 5
        invariant
            k <= 5,
            accts == module.accounts@,
            l == ledger@,
            ledger.wf(),
            n == accts.len(),
            n <= u32::MAX,
            forall|i: int| 0 <= i < debit_lines@.len() ==> (#[trigger] debit_lines@[i]).0 < n,
            forall|i: int| 0 <= i < credit_lines@.len() ==> (#[trigger] credit_lines@[i]).0 < n,
            lines_view(accts, debit_lines@) == side_entries(
                accts,
                l,
                idx as nat,
                NormalBalance::Debit,
                k as nat,
            ),
            lines_view(accts, credit_lines@) == side_entries(
                accts,
                l,
                idx as nat,
                NormalBalance::Credit,
                k as nat,
            ),
            debit_total == entries_total(lines_view(accts, debit_lines@)),
            credit_total == entries_total(lines_view(accts, credit_lines@)),
            debit_lines@.len() <= k * n,
            credit_lines@.len() <= k * n,
            -debit_lines@.len() * 0x8000_0000_0000_0000 <= debit_total <= debit_lines@.len()
                * 0x8000_0000_0000_0000,
            -credit_lines@.len() * 0x8000_0000_0000_0000 <= credit_total <= credit_lines@.len()
                * 0x8000_0000_0000_0000,
        decreases 5 - k,
    {
        let kind = kind_at(k);
        let ghost d0 = lines_view(accts, debit_lines@);
        let ghost c0 = lines_view(accts, credit_lines@);
        let ghost dl0 = debit_lines@.len();
        let ghost cl0 = credit_lines@.len();
        let mut a: usize = 0;
        proof {
            assert(accts.take(0) =~= Seq::<AccountInfo>::empty());
            assert(d0 + kind_entries(accts.take(0), l, idx as nat, kind, NormalBalance::Debit)
                =~= d0);
            assert(c0 + kind_entries(accts.take(0), l, idx as nat, kind, NormalBalance::Credit)
                =~= c0);
        }
        while a < n
            invariant
                a <= n,
                k < 5,
                kind == kind_order(k as int),
                accts == module.accounts@,
                l == ledger@,
                ledger.wf(),
                n == accts.len(),
                n <= u32::MAX,
                dl0 <= k * n,
                cl0 <= k * n,
                forall|i: int| 0 <= i < debit_lines@.len() ==> (#[trigger] debit_lines@[i]).0 < n,
                forall|i: int| 0 <= i < credit_lines@.len() ==> (#[trigger] credit_lines@[i]).0 < n,
                lines_view(accts, debit_lines@) == d0 + kind_entries(
                    accts.take(a as int),
                    l,
                    idx as nat,
                    kind,
                    NormalBalance::Debit,
                ),
                lines_view(accts, credit_lines@) == c0 + kind_entries(
                    accts.take(a as int),
                    l,
                    idx as nat,
                    kind,
                    NormalBalance::Credit,
                ),
                debit_total == entries_total(lines_view(accts, debit_lines@)),
                credit_total == entries_total(lines_view(accts, credit_lines@)),
                debit_lines@.len() <= dl0 + a,
                credit_lines@.len() <= cl0 + a,
                -debit_lines@.len() * 0x8000_0000_0000_0000 <= debit_total
                    <= debit_lines@.len() * 0x8000_0000_0000_0000,
                -credit_lines@.len() * 0x8000_0000_0000_0000 <= credit_total
                    <= credit_lines@.len() * 0x8000_0000_0000_0000,
            decreases n - a,
        {
            let account = &module.accounts[a];
            proof {
                assert(accts.take(a + 1).drop_last() =~= accts.take(a as int));
                assert(accts.take(a + 1).last() == accts[a as int]);
            }
            if account.currency.0 as usize == idx && account.kind == kind {
                if let Some(raw) = ledger.get(account.path.as_str()) {
                    let r = raw.cents() as i128;
                    assert(-0x8000_0000_0000_0000 <= r <= 0x8000_0000_0000_0000);
                    proof {
                        assert(dl0 + a <= 5 * 0xffff_ffff && cl0 + a <= 5 * 0xffff_ffff)
                            by (nonlinear_arith)
                            requires
                                dl0 <= k * n,
                                cl0 <= k * n,
                                k < 5,
                                a <= n,
                                n <= 0xffff_ffff,
                        ;
                        let dl = debit_lines@.len() as int;
                        let cl = credit_lines@.len() as int;
                        assert(dl * 0x8000_0000_0000_0000 <= 5 * 0xffff_ffff * 0x8000_0000_0000_0000
                            && cl * 0x8000_0000_0000_0000 <= 5 * 0xffff_ffff * 0x8000_0000_0000_0000)
                            by (nonlinear_arith)
                            requires
                                0 <= dl <= 5 * 0xffff_ffff,
                                0 <= cl <= 5 * 0xffff_ffff,
                        ;
                    }
                    match account.normal {
                        NormalBalance::Debit => {
                            let ghost before = debit_lines@;
                            debit_lines.push((a, r));
                            proof {
                                assert(lines_view(accts, debit_lines@) =~= lines_view(
                                    accts,
                                    before,
                                ).push((accts[a as int].path@, r as int)));
                                assert(lines_view(accts, debit_lines@).drop_last() =~= lines_view(
                                    accts,
                                    before,
                                ));
                                assert((d0 + kind_entries(
                                    accts.take(a as int),
                                    l,
                                    idx as nat,
                                    kind,
                                    NormalBalance::Debit,
                                )).push((accts[a as int].path@, r as int)) =~= d0
                                    + kind_entries(
                                    accts.take(a as int),
                                    l,
                                    idx as nat,
                                    kind,
                                    NormalBalance::Debit,
                                ).push((accts[a as int].path@, r as int)));
                                assert(debit_lines@.len() * 0x8000_0000_0000_0000 == before.len()
                                    * 0x8000_0000_0000_0000 + 0x8000_0000_0000_0000)
                                    by (nonlinear_arith)
                                    requires
                                        debit_lines@.len() == before.len() + 1,
                                ;
                            }
                            debit_total = debit_total + r;
                        },
                        NormalBalance::Credit => {
                            let ghost before = credit_lines@;
                            credit_lines.push((a, -r));
                            proof {
                                assert(lines_view(accts, credit_lines@) =~= lines_view(
                                    accts,
                                    before,
                                ).push((accts[a as int].path@, -r as int)));
                                assert(lines_view(accts, credit_lines@).drop_last() =~= lines_view(
                                    accts,
                                    before,
                                ));
                                assert((c0 + kind_entries(
                                    accts.take(a as int),
                                    l,
                                    idx as nat,
                                    kind,
                                    NormalBalance::Credit,
                                )).push((accts[a as int].path@, -r as int)) =~= c0
                                    + kind_entries(
                                    accts.take(a as int),
                                    l,
                                    idx as nat,
                                    kind,
                                    NormalBalance::Credit,
                                ).push((accts[a as int].path@, -r as int)));
                                assert(credit_lines@.len() * 0x8000_0000_0000_0000 == before.len()
                                    * 0x8000_0000_0000_0000 + 0x8000_0000_0000_0000)
                                    by (nonlinear_arith)
                                    requires
                                        credit_lines@.len() == before.len() + 1,
                                ;
                            }
                            credit_total = credit_total - r;
                        },
                    }
                }
            }
            a = a + 1;
        }
        proof {
            assert(accts.take(n as int) =~= accts);
            assert((k + 1) * n == k * n + n) by (nonlinear_arith);
        }
        k = k + 1;
    }
    (debit_lines, credit_lines, debit_total, credit_total)
}

/// Renders the trial balance of `ledger`: exactly `report_text`.
pub fn render_trial_balance(module: &TModule, ledger: &LedgerState) -> (s: String)
    requires
        ledger.wf(),
        module.accounts@.len() <= u32::MAX,
    ensures
        s@ == report_text(module.currencies@, module.accounts@, ledger@),
{
    let ghost accts = module.accounts@;
    let ghost curs = module.currencies@;
    let ghost l = ledger@;
    let mut out = String::new();
    let mut idx: usize = 0;
    proof {
        assert(curs.take(0) =~= Seq::<CurrencyInfo>::empty());
    }
    while idx < module.currencies.len()
        invariant
            idx <= curs.len(),
            accts == module.accounts@,
            curs == module.currencies@,
            l == ledger@,
            ledger.wf(),
            accts.len() <= u32::MAX,
            out@ == report_text(curs.take(idx as int), accts, l),
        decreases curs.len() - idx,
    {
        let currency = &module.currencies[idx];
        let (debit_lines, credit_lines, debit_total, credit_total) = collect_section(module, ledger, idx);
        proof {
            assert(curs.take(idx + 1).drop_last() =~= curs.take(idx as int));
            assert(curs.take(idx + 1).last() == curs[idx as int]);
        }
        if debit_lines.len() > 0 || credit_lines.len() > 0 {
            push_str(&mut out, "Trial Balance (");
            push_str(&mut out, currency.name.as_str());
            push_str(&mut out, ")\n");
            push_lines(&mut out, module.accounts.as_slice(), &debit_lines, currency.scale);
            push_lines(&mut out, module.accounts.as_slice(), &credit_lines, currency.scale);
            push_line(&mut out, "Debit total", debit_total, currency.scale);
            push_line(&mut out, "Credit total", credit_total, currency.scale);
            proof {
                assert(out@ =~= report_text(curs.take(idx as int), accts, l) + section_text(
                    curs[idx as int],
                    accts,
                    l,
                    idx as nat,
                ));
            }
        }
        idx = idx + 1;
    }
    proof {
        assert(curs.take(curs.len() as int) =~= curs);
    }
    out
}

} // verus!
