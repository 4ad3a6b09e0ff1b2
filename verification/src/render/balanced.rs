//! The trial balance balances: each currency section's debit total equals its credit
//! total exactly when the balances of the posted accounts of that currency sum to
//! zero, which conservation gives for every program that runs without conversions.

use vstd::prelude::*;
use crate::parse::ast::NormalBalance;
use crate::render::{displayed, entries_total, kind_entries, kind_order, side_entries};
use crate::eval::conservation::{
    keys_are_paths, ledger_total_in, lemma_ledger_total_in_empty, lemma_ledger_total_in_remove, path_in_currency,
    paths_unique,
};
use crate::resolve::{AccountInfo, AccountKind, CurrencyId};

verus! {

/// The sum of the raw balances of the posted accounts of currency `idx`.
pub open spec fn posted_total(accounts: Seq<AccountInfo>, l: Map<Seq<char>, int>, idx: nat) -> int
    decreases accounts.len(),
{
    if accounts.len() == 0 {
        0
    } else {
        let a = accounts.last();
        posted_total(accounts.drop_last(), l, idx) + if a.currency.0 == idx && l.contains_key(a.path@) {
            l[a.path@]
        } else {
            0
        }
    }
}

/// The sum of the displayed balances of the posted accounts of currency `idx`, of
/// `kind`, on the `normal` side.
pub open spec fn kind_total(
    accounts: Seq<AccountInfo>,
    l: Map<Seq<char>, int>,
    idx: nat,
    kind: AccountKind,
    normal: NormalBalance,
) -> int
    decreases accounts.len(),
{
    if accounts.len() == 0 {
        0
    } else {
        let a = accounts.last();
        kind_total(accounts.drop_last(), l, idx, kind, normal) + if a.currency.0 == idx && a.kind == kind
            && a.normal == normal && l.contains_key(a.path@) {
            displayed(normal, l[a.path@])
        } else {
            0
        }
    }
}

/// The sum of the displayed balances of the posted accounts of currency `idx` on the
/// `normal` side.
pub open spec fn normal_total(accounts: Seq<AccountInfo>, l: Map<Seq<char>, int>, idx: nat, normal: NormalBalance) -> int
    decreases accounts.len(),
{
    if accounts.len() == 0 {
        0
    } else {
        let a = accounts.last();
        normal_total(accounts.drop_last(), l, idx, normal) + if a.currency.0 == idx && a.normal == normal
            && l.contains_key(a.path@) {
            displayed(normal, l[a.path@])
        } else {
            0
        }
    }
}

proof fn lemma_entries_total_concat(a: Seq<(Seq<char>, int)>, b: Seq<(Seq<char>, int)>)
    ensures
        entries_total(a + b) == entries_total(a) + entries_total(b),
    decreases b.len(),
{
    if b.len() > 0 {
        assert((a + b).drop_last() =~= a + b.drop_last());
        lemma_entries_total_concat(a, b.drop_last());
    } else {
        assert(a + b =~= a);
    }
}

proof fn lemma_kind_entries_total(
    accounts: Seq<AccountInfo>,
    l: Map<Seq<char>, int>,
    idx: nat,
    kind: AccountKind,
    normal: NormalBalance,
)
    ensures
        entries_total(kind_entries(accounts, l, idx, kind, normal)) == kind_total(accounts, l, idx, kind, normal),
    decreases accounts.len(),
{
    if accounts.len() > 0 {
        lemma_kind_entries_total(accounts.drop_last(), l, idx, kind, normal);
        let prev = kind_entries(accounts.drop_last(), l, idx, kind, normal);
        let a = accounts.last();
        if a.currency.0 == idx && a.kind == kind && a.normal == normal && l.contains_key(a.path@) {
            assert(prev.push((a.path@, displayed(normal, l[a.path@]))).drop_last() =~= prev);
        }
    }
}

/// The five kinds together cover every account, each once.
proof fn lemma_kinds_cover(accounts: Seq<AccountInfo>, l: Map<Seq<char>, int>, idx: nat, normal: NormalBalance)
    ensures
        kind_total(accounts, l, idx, kind_order(0), normal) + kind_total(accounts, l, idx, kind_order(1), normal)
            + kind_total(accounts, l, idx, kind_order(2), normal) + kind_total(accounts, l, idx, kind_order(3), normal)
            + kind_total(accounts, l, idx, kind_order(4), normal) == normal_total(accounts, l, idx, normal),
    decreases accounts.len(),
{
    if accounts.len() > 0 {
        lemma_kinds_cover(accounts.drop_last(), l, idx, normal);
    }
}

/// A side's lines add up to its accounts' displayed balances.
pub proof fn lemma_side_total(accounts: Seq<AccountInfo>, l: Map<Seq<char>, int>, idx: nat, normal: NormalBalance)
    ensures
        entries_total(side_entries(accounts, l, idx, normal, 5)) == normal_total(accounts, l, idx, normal),
{
    let s0 = side_entries(accounts, l, idx, normal, 0);
    let s1 = side_entries(accounts, l, idx, normal, 1);
    let s2 = side_entries(accounts, l, idx, normal, 2);
    let s3 = side_entries(accounts, l, idx, normal, 3);
    let s4 = side_entries(accounts, l, idx, normal, 4);
    let s5 = side_entries(accounts, l, idx, normal, 5);
    assert(s0 == Seq::<(Seq<char>, int)>::empty());
    lemma_entries_total_concat(s0, kind_entries(accounts, l, idx, kind_order(0), normal));
    lemma_entries_total_concat(s1, kind_entries(accounts, l, idx, kind_order(1), normal));
    lemma_entries_total_concat(s2, kind_entries(accounts, l, idx, kind_order(2), normal));
    lemma_entries_total_concat(s3, kind_entries(accounts, l, idx, kind_order(3), normal));
    lemma_entries_total_concat(s4, kind_entries(accounts, l, idx, kind_order(4), normal));
    lemma_kind_entries_total(accounts, l, idx, kind_order(0), normal);
    lemma_kind_entries_total(accounts, l, idx, kind_order(1), normal);
    lemma_kind_entries_total(accounts, l, idx, kind_order(2), normal);
    lemma_kind_entries_total(accounts, l, idx, kind_order(3), normal);
    lemma_kind_entries_total(accounts, l, idx, kind_order(4), normal);
    lemma_kinds_cover(accounts, l, idx, normal);
}

/// The debit side's total less the credit side's is the sum of the raw balances.
pub proof fn lemma_sides_difference(accounts: Seq<AccountInfo>, l: Map<Seq<char>, int>, idx: nat)
    ensures
        normal_total(accounts, l, idx, NormalBalance::Debit) - normal_total(accounts, l, idx, NormalBalance::Credit)
            == posted_total(accounts, l, idx),
    decreases accounts.len(),
{
    if accounts.len() > 0 {
        lemma_sides_difference(accounts.drop_last(), l, idx);
    }
}

/// Taking a path's balance out of the ledger takes it out of its currency's total.
proof fn lemma_posted_remove(accounts: Seq<AccountInfo>, l: Map<Seq<char>, int>, idx: nat, p: Seq<char>)
    requires
        paths_unique(accounts),
        l.contains_key(p),
        idx < u32::MAX,
    ensures
        posted_total(accounts, l, idx) == posted_total(accounts, l.remove(p), idx) + (if path_in_currency(
            accounts,
            p,
            CurrencyId(idx as u32),
        ) {
            l[p]
        } else {
            0
        }),
    decreases accounts.len(),
{
    if accounts.len() > 0 {
        let prev = accounts.drop_last();
        assert forall|i: int, j: int|
            0 <= i < prev.len() && 0 <= j < prev.len() && #[trigger] prev[i].path@ == #[trigger] prev[j].path@
                implies i == j by {
            assert(prev[i] == accounts[i] && prev[j] == accounts[j]);
        }
        lemma_posted_remove(prev, l, idx, p);
        let a = accounts.last();
        let c = CurrencyId(idx as u32);
        if a.path@ == p {
            if path_in_currency(prev, p, c) {
                let i = choose|i: int| #![trigger prev[i]] 0 <= i < prev.len() && prev[i].path@ == p && prev[i].currency == c;
                assert(accounts[i] == prev[i]);
                assert(accounts[accounts.len() - 1].path@ == accounts[i].path@);
            }
            if a.currency == c {
                assert(accounts[accounts.len() - 1] == a);
            }
            if path_in_currency(accounts, p, c) {
                let i = choose|i: int| #![trigger accounts[i]] 0 <= i < accounts.len() && accounts[i].path@ == p && accounts[i].currency == c;
                assert(accounts[accounts.len() - 1].path@ == accounts[i].path@);
            }
        } else {
            if path_in_currency(prev, p, c) {
                let i = choose|i: int| #![trigger prev[i]] 0 <= i < prev.len() && prev[i].path@ == p && prev[i].currency == c;
                assert(accounts[i] == prev[i]);
            }
            if path_in_currency(accounts, p, c) {
                let i = choose|i: int| #![trigger accounts[i]] 0 <= i < accounts.len() && accounts[i].path@ == p && accounts[i].currency == c;
                assert(prev[i] == accounts[i]);
            }
        }
    }
}

/// The posted accounts' balances of a currency are its ledger total.
pub proof fn lemma_posted_is_ledger_total(accounts: Seq<AccountInfo>, l: Map<Seq<char>, int>, idx: nat)
    requires
        paths_unique(accounts),
        l.dom().finite(),
        keys_are_paths(l, accounts),
        idx < u32::MAX,
    ensures
        posted_total(accounts, l, idx) == ledger_total_in(l, accounts, CurrencyId(idx as u32)),
    decreases l.dom().len(),
{
    let c = CurrencyId(idx as u32);
    if l.dom().len() == 0 {
        assert(l.dom() =~= Set::<Seq<char>>::empty());
        lemma_posted_empty(accounts, l, idx);
        lemma_ledger_total_in_empty(l, accounts, c);
    } else {
        let p = l.dom().choose();
        assert(l.contains_key(p));
        let r = l.remove(p);
        assert forall|q: Seq<char>| #[trigger] r.contains_key(q) implies exists|i: int|
            0 <= i < accounts.len() && accounts[i].path@ == q by {
            assert(l.contains_key(q));
        }
        lemma_posted_is_ledger_total(accounts, r, idx);
        lemma_posted_remove(accounts, l, idx, p);
        lemma_ledger_total_in_remove(l, accounts, c, p);
    }
}

/// With nothing posted, nothing is totalled.
proof fn lemma_posted_empty(accounts: Seq<AccountInfo>, l: Map<Seq<char>, int>, idx: nat)
    requires
        l.dom() =~= Set::<Seq<char>>::empty(),
    ensures
        posted_total(accounts, l, idx) == 0,
    decreases accounts.len(),
{
    if accounts.len() > 0 {
        lemma_posted_empty(accounts.drop_last(), l, idx);
        assert(!l.contains_key(accounts.last().path@));
    }
}

} // verus!
