//! Where each amount shows up in the trial balance: every posted account gets a line
//! with its displayed balance, and every section its two totals, each written at the
//! scale of the account's own currency, whatever the other currencies' scales are.

use vstd::prelude::*;
use crate::amount::spec_format;
use crate::parse::ast::NormalBalance;
use crate::render::balanced::{lemma_side_total, normal_total};
use crate::render::{
    displayed, entries_text, entries_total, kind_entries, kind_order, report_line, report_text, section_text,
    side_entries,
};
use crate::resolve::{AccountInfo, AccountKind, CurrencyInfo};
use crate::text::{pad_left, pad_right};

verus! {

/// `t` occurs in `s` as a contiguous run of characters.
pub open spec fn has_infix(s: Seq<char>, t: Seq<char>) -> bool {
    exists|u: Seq<char>, w: Seq<char>| s == u + t + w
}

/// A report line as printed: two spaces, the label padded to 24 columns, a space, the
/// amount at `scale` right-aligned in 12 columns, and a newline.
pub open spec fn printed_line(label: Seq<char>, v: int, scale: nat) -> Seq<char> {
    "  "@ + pad_right(label, 24) + " "@ + pad_left(spec_format(v, scale), ' ', 12) + "\n"@
}

proof fn lemma_infix_intro(s: Seq<char>, t: Seq<char>, u: Seq<char>, w: Seq<char>)
    requires
        s == u + t + w,
    ensures
        has_infix(s, t),
{
}

proof fn lemma_infix_in_context(s: Seq<char>, t: Seq<char>, a: Seq<char>, b: Seq<char>)
    requires
        has_infix(s, t),
    ensures
        has_infix(a + s + b, t),
{
    let (u, w) = choose|u: Seq<char>, w: Seq<char>| s == u + t + w;
    assert(a + s + b =~= (a + u) + t + (w + b));
    lemma_infix_intro(a + s + b, t, a + u, w + b);
}

proof fn lemma_infix_trans(s: Seq<char>, t: Seq<char>, x: Seq<char>)
    requires
        has_infix(s, t),
        has_infix(t, x),
    ensures
        has_infix(s, x),
{
    let (u, w) = choose|u: Seq<char>, w: Seq<char>| s == u + t + w;
    lemma_infix_in_context(t, x, u, w);
}

proof fn lemma_entries_text_has(es: Seq<(Seq<char>, int)>, scale: nat, i: int)
    requires
        0 <= i < es.len(),
    ensures
        has_infix(entries_text(es, scale), report_line(es[i].0, es[i].1, scale)),
    decreases es.len(),
{
    let prev = entries_text(es.drop_last(), scale);
    let last = report_line(es.last().0, es.last().1, scale);
    assert(entries_text(es, scale) == prev + last);
    if i == es.len() - 1 {
        assert(prev + last =~= prev + last + Seq::<char>::empty());
        lemma_infix_intro(prev + last, last, prev, Seq::<char>::empty());
    } else {
        assert(es.drop_last()[i] == es[i]);
        lemma_entries_text_has(es.drop_last(), scale, i);
        assert(prev + last =~= Seq::<char>::empty() + prev + last);
        lemma_infix_in_context(prev, report_line(es[i].0, es[i].1, scale), Seq::<char>::empty(), last);
    }
}

proof fn lemma_kind_entries_has(
    accounts: Seq<AccountInfo>,
    l: Map<Seq<char>, int>,
    idx: nat,
    kind: AccountKind,
    normal: NormalBalance,
    a: int,
)
    requires
        0 <= a < accounts.len(),
        accounts[a].currency.0 == idx,
        accounts[a].kind == kind,
        accounts[a].normal == normal,
        l.contains_key(accounts[a].path@),
    ensures
        exists|i: int|
            0 <= i < kind_entries(accounts, l, idx, kind, normal).len() && #[trigger] kind_entries(
                accounts,
                l,
                idx,
                kind,
                normal,
            )[i] == (accounts[a].path@, displayed(normal, l[accounts[a].path@])),
    decreases accounts.len(),
{
    let prev = kind_entries(accounts.drop_last(), l, idx, kind, normal);
    if a == accounts.len() - 1 {
        let ke = kind_entries(accounts, l, idx, kind, normal);
        assert(ke == prev.push((accounts[a].path@, displayed(normal, l[accounts[a].path@]))));
        assert(ke[prev.len() as int] == (accounts[a].path@, displayed(normal, l[accounts[a].path@])));
    } else {
        assert(accounts.drop_last()[a] == accounts[a]);
        lemma_kind_entries_has(accounts.drop_last(), l, idx, kind, normal, a);
        let i = choose|i: int|
            0 <= i < prev.len() && #[trigger] prev[i] == (
                accounts[a].path@,
                displayed(normal, l[accounts[a].path@]),
            );
        let ke = kind_entries(accounts, l, idx, kind, normal);
        assert(ke[i] == prev[i]);
    }
}

proof fn lemma_side_entries_has(
    accounts: Seq<AccountInfo>,
    l: Map<Seq<char>, int>,
    idx: nat,
    normal: NormalBalance,
    k: nat,
    j: nat,
    e: (Seq<char>, int),
)
    requires
        j < k,
        exists|i: int|
            0 <= i < kind_entries(accounts, l, idx, kind_order(j as int), normal).len()
                && #[trigger] kind_entries(accounts, l, idx, kind_order(j as int), normal)[i] == e,
    ensures
        exists|i: int|
            0 <= i < side_entries(accounts, l, idx, normal, k).len() && #[trigger] side_entries(
                accounts,
                l,
                idx,
                normal,
                k,
            )[i] == e,
    decreases k,
{
    let prev = side_entries(accounts, l, idx, normal, (k - 1) as nat);
    let ke = kind_entries(accounts, l, idx, kind_order(k - 1), normal);
    let se = side_entries(accounts, l, idx, normal, k);
    assert(se == prev + ke);
    if j == k - 1 {
        let i = choose|i: int| 0 <= i < ke.len() && #[trigger] ke[i] == e;
        assert(se[prev.len() + i] == e);
    } else {
        lemma_side_entries_has(accounts, l, idx, normal, (k - 1) as nat, j, e);
        let i = choose|i: int| 0 <= i < prev.len() && #[trigger] prev[i] == e;
        assert(se[i] == e);
    }
}

/// Where a kind stands in `kind_order`.
spec fn kind_index(k: AccountKind) -> nat {
    match k {
        AccountKind::Asset => 0,
        AccountKind::Liability => 1,
        AccountKind::Equity => 2,
        AccountKind::Income => 3,
        AccountKind::Expense => 4,
    }
}

proof fn lemma_section_has_line(
    cur: CurrencyInfo,
    accounts: Seq<AccountInfo>,
    l: Map<Seq<char>, int>,
    idx: nat,
    a: int,
)
    requires
        0 <= a < accounts.len(),
        accounts[a].currency.0 == idx,
        l.contains_key(accounts[a].path@),
    ensures
        has_infix(
            section_text(cur, accounts, l, idx),
            report_line(
                accounts[a].path@,
                displayed(accounts[a].normal, l[accounts[a].path@]),
                cur.scale as nat,
            ),
        ),
        has_infix(
            section_text(cur, accounts, l, idx),
            report_line(
                "Debit total"@,
                entries_total(side_entries(accounts, l, idx, NormalBalance::Debit, 5)),
                cur.scale as nat,
            ),
        ),
        has_infix(
            section_text(cur, accounts, l, idx),
            report_line(
                "Credit total"@,
                entries_total(side_entries(accounts, l, idx, NormalBalance::Credit, 5)),
                cur.scale as nat,
            ),
        ),
        has_infix(section_text(cur, accounts, l, idx), "Trial Balance ("@ + cur.name@ + ")\n"@),
{
    let acct = accounts[a];
    let normal = acct.normal;
    let e = (acct.path@, displayed(normal, l[acct.path@]));
    let j = kind_index(acct.kind);
    assert(kind_order(j as int) == acct.kind);
    lemma_kind_entries_has(accounts, l, idx, acct.kind, normal, a);
    lemma_side_entries_has(accounts, l, idx, normal, 5, j, e);
    let sc = cur.scale as nat;
    let d = side_entries(accounts, l, idx, NormalBalance::Debit, 5);
    let c = side_entries(accounts, l, idx, NormalBalance::Credit, 5);
    let head = "Trial Balance ("@ + cur.name@ + ")\n"@;
    let td = report_line("Debit total"@, entries_total(d), sc);
    let tc = report_line("Credit total"@, entries_total(c), sc);
    let line = report_line(e.0, e.1, sc);
    let side = side_entries(accounts, l, idx, normal, 5);
    let i = choose|i: int| 0 <= i < side.len() && #[trigger] side[i] == e;
    assert(d.len() > 0 || c.len() > 0);
    let text = head + entries_text(d, sc) + entries_text(c, sc) + td + tc;
    assert(section_text(cur, accounts, l, idx) == text);
    lemma_entries_text_has(side, sc, i);
    if normal == NormalBalance::Debit {
        assert(text =~= head + entries_text(d, sc) + (entries_text(c, sc) + td + tc));
        lemma_infix_in_context(entries_text(d, sc), line, head, entries_text(c, sc) + td + tc);
    } else {
        assert(text =~= (head + entries_text(d, sc)) + entries_text(c, sc) + (td + tc));
        lemma_infix_in_context(entries_text(c, sc), line, head + entries_text(d, sc), td + tc);
    }
    assert(text =~= (head + entries_text(d, sc) + entries_text(c, sc)) + td + tc);
    lemma_infix_intro(text, td, head + entries_text(d, sc) + entries_text(c, sc), tc);
    assert(text =~= (head + entries_text(d, sc) + entries_text(c, sc) + td) + tc + Seq::<char>::empty());
    lemma_infix_intro(text, tc, head + entries_text(d, sc) + entries_text(c, sc) + td, Seq::<char>::empty());
    assert(text =~= Seq::<char>::empty() + head + (entries_text(d, sc) + entries_text(c, sc) + td + tc));
    lemma_infix_intro(text, head, Seq::<char>::empty(), entries_text(d, sc) + entries_text(c, sc) + td + tc);
}

proof fn lemma_report_has_section(
    currencies: Seq<CurrencyInfo>,
    accounts: Seq<AccountInfo>,
    l: Map<Seq<char>, int>,
    idx: int,
)
    requires
        0 <= idx < currencies.len(),
    ensures
        has_infix(report_text(currencies, accounts, l), section_text(currencies[idx], accounts, l, idx as nat)),
    decreases currencies.len(),
{
    let prev = report_text(currencies.drop_last(), accounts, l);
    let last = section_text(currencies.last(), accounts, l, (currencies.len() - 1) as nat);
    assert(report_text(currencies, accounts, l) == prev + last);
    if idx == currencies.len() - 1 {
        assert(prev + last =~= prev + last + Seq::<char>::empty());
        lemma_infix_intro(prev + last, last, prev, Seq::<char>::empty());
    } else {
        assert(currencies.drop_last()[idx] == currencies[idx]);
        lemma_report_has_section(currencies.drop_last(), accounts, l, idx);
        assert(prev + last =~= Seq::<char>::empty() + prev + last);
        lemma_infix_in_context(
            prev,
            section_text(currencies[idx], accounts, l, idx as nat),
            Seq::<char>::empty(),
            last,
        );
    }
}

/// Each currency's amounts are shown at that currency's own scale. For every posted
/// account of a declared currency, the report holds that currency's heading, and the
/// account's line: its path and
/// its balance (negated for a credit-normal account), written at the scale of the
/// account's currency.
/// The section of that currency holds its debit and credit totals, the sums of the
/// displayed balances of its debit-normal and credit-normal posted accounts, written
/// at the same scale.
pub proof fn lemma_amounts_shown_at_their_currency_scale(
    currencies: Seq<CurrencyInfo>,
    accounts: Seq<AccountInfo>,
    l: Map<Seq<char>, int>,
    a: int,
)
    requires
        0 <= a < accounts.len(),
        accounts[a].currency.0 < currencies.len(),
        l.contains_key(accounts[a].path@),
    ensures
        ({
            let acct = accounts[a];
            let idx = acct.currency.0 as nat;
            let scale = currencies[idx as int].scale as nat;
            let report = report_text(currencies, accounts, l);
            let shown = if acct.normal == NormalBalance::Debit {
                l[acct.path@]
            } else {
                -l[acct.path@]
            };
            &&& has_infix(report, "Trial Balance ("@ + currencies[idx as int].name@ + ")\n"@)
            &&& has_infix(report, printed_line(acct.path@, shown, scale))
            &&& has_infix(
                report,
                printed_line("Debit total"@, normal_total(accounts, l, idx, NormalBalance::Debit), scale),
            )
            &&& has_infix(
                report,
                printed_line("Credit total"@, normal_total(accounts, l, idx, NormalBalance::Credit), scale),
            )
        }),
{
    let acct = accounts[a];
    let idx = acct.currency.0 as nat;
    let cur = currencies[idx as int];
    lemma_section_has_line(cur, accounts, l, idx, a);
    lemma_report_has_section(currencies, accounts, l, idx as int);
    let sec = section_text(cur, accounts, l, idx);
    let report = report_text(currencies, accounts, l);
    lemma_infix_trans(report, sec, "Trial Balance ("@ + cur.name@ + ")\n"@);
    lemma_side_total(accounts, l, idx, NormalBalance::Debit);
    lemma_side_total(accounts, l, idx, NormalBalance::Credit);
    lemma_infix_trans(
        report,
        sec,
        report_line(acct.path@, displayed(acct.normal, l[acct.path@]), cur.scale as nat),
    );
    lemma_infix_trans(
        report,
        sec,
        report_line(
            "Debit total"@,
            entries_total(side_entries(accounts, l, idx, NormalBalance::Debit, 5)),
            cur.scale as nat,
        ),
    );
    lemma_infix_trans(
        report,
        sec,
        report_line(
            "Credit total"@,
            entries_total(side_entries(accounts, l, idx, NormalBalance::Credit, 5)),
            cur.scale as nat,
        ),
    );
}

} // verus!
