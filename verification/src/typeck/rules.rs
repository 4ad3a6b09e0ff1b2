//! Inference rules for the balanc type system. `Γ` is the linear context: the set of
//! not-yet-consumed bindings in scope — either `Money` or `Residue` — each tagged with
//! the currency it was produced at.
//!
//! ```text
//!                 acct : Account<C>       Γ ⊢ n : Amount
//! (T-Credit)  ───────────────────────────────────────────────
//!             Γ ⊢ credit(acct, n) : Money<C>     introduces a fresh linear value
//!
//!             Γ ⊢ e : Money<C>     acct : Account<C>
//! (T-Debit)   ────────────────────────────────────────
//!             Γ ⊢ debit(acct, e) : Effect     consumes e
//!
//!             Γ ⊢ e : Money<A>     rate : Rate<A, B>
//! (T-Convert) ─────────────────────────────────────────────────────────────────
//!             Γ ⊢ let (p, r) = convert(e, rate) : Money<B> ⊗ Residue<B>
//!                 consumes e; binds p : Money<B>, r : Residue<B>
//!
//!             Γ ⊢ x : Residue<C>     acct : Account<C>
//! (T-Absorb)  ──────────────────────────────────────────
//!             Γ ⊢ absorb(x, acct) : Effect     consumes x
//!
//!             Γ ⊢ e : Money<C>     n : Amount
//! (T-Split)   ─────────────────────────────────────────────────────
//!             Γ ⊢ let (a, b) = split(e, n) : Money<C> ⊗ Money<C>
//!                 consumes e; binds a : Money<C> (= n), b : Money<C> (= amount(e) - n)
//!                 side condition 0 ≤ n ≤ amount(e): a runtime quantity, checked by eval
//!
//!             Γ ⊢ e : Money<C>     p, q : Nat     p + q > 0
//! (T-SplitRatio) ───────────────────────────────────────────────────────
//!             Γ ⊢ let (a, b) = split_ratio(e, p, q) : Money<C> ⊗ Money<C>
//!                 consumes e; binds a, b to a largest-remainder allocation of
//!                 amount(e) in ratio p : q, ties broken toward a
//!
//!             Γ ⊢ a : Money<C>     Γ ⊢ b : Money<C>
//! (T-Merge)   ─────────────────────────────────────────
//!             Γ ⊢ merge(a, b) : Money<C>     consumes a, then b, from the same Γ
//!
//!             Γ ⊢ body ⇒ Δ        Δ = ∅
//! (T-Txn)     ─────────────────────────────
//!             ⊢ txn { body } : Txn
//! ```
//!
//! Consuming `a` then `b` in sequence from one Γ already rejects `merge(m, m)` as an
//! ordinary second consumption (`E_REUSED`). `Δ = ∅` is linear use: `finish_txn`
//! reports every still-live binding as `E_DROPPED`. A currency mismatch is
//! `E_CURRENCY_MISMATCH`; using a `Residue` where `Money` is wanted (or the other way
//! round) is `E_EXPECTED_MONEY` / `E_EXPECTED_RESIDUE`.

use vstd::prelude::*;
use crate::amount::{amount_of, spec_from_literal, Amount, LiteralError};
use crate::diag::{Code, Diagnostic};
use crate::parse::ast::DecimalLiteral;
use crate::resolve::{AccountInfo, CurrencyId, CurrencyInfo, RateInfo, SymbolId};
use crate::span::Span;
use crate::text::{push_decimal, push_str, spec_decimal};

verus! {

/// Types in the balanc type system. `Money` and `Residue` are the two linear types
/// tracked in Γ — a `Residue` is what `convert` hands back for the fractional amount
/// lost to rounding, and can only be discharged by `absorb`, never by `debit`.
#[derive(Debug, Clone, Copy, PartialEq, Eq, Structural)]
pub enum Ty {
    Money(CurrencyId),
    Residue(CurrencyId),
    Amount,
    Effect,
    Txn,
}

/// Which of the two linear types a binding is.
#[derive(Debug, Clone, Copy, PartialEq, Eq, Structural)]
pub enum BindingKind {
    Money,
    Residue,
}

/// A live binding: `binding_span` is its own binding site (what `E_DROPPED` points at),
/// `currency_span` is wherever its currency was first fixed (forwarded through any
/// number of `let`s).
#[derive(Clone, Copy, PartialEq, Eq, Structural)]
pub struct Binding {
    pub binding_span: Span,
    pub currency_span: Span,
    pub currency: CurrencyId,
    pub kind: BindingKind,
}

/// The value of the latest entry for `k`.
pub open spec fn assoc<V>(s: Seq<(SymbolId, V)>, k: SymbolId) -> Option<V>
    decreases s.len(),
{
    if s.len() == 0 {
        None
    } else if s.last().0 == k {
        Some(s.last().1)
    } else {
        assoc(s.drop_last(), k)
    }
}

/// The map an association list stands for.
pub open spec fn assoc_map<V>(s: Seq<(SymbolId, V)>) -> Map<SymbolId, V> {
    Map::new(|k: SymbolId| assoc(s, k) is Some, |k: SymbolId| assoc(s, k)->0)
}

/// No key occurs twice.
pub open spec fn keys_unique<V>(s: Seq<(SymbolId, V)>) -> bool {
    forall|i: int, j: int| 0 <= i < j < s.len() ==> s[i].0 != s[j].0
}

/// Without repeated keys, the map has one entry per element of the list.
pub proof fn lemma_assoc_map_len<V>(s: Seq<(SymbolId, V)>)
    requires
        keys_unique(s),
    ensures
        assoc_map(s).dom().finite(),
        assoc_map(s).dom().len() == s.len(),
    decreases s.len(),
{
    if s.len() == 0 {
        assert(assoc_map(s).dom() =~= Set::<SymbolId>::empty());
    } else {
        let t = s.drop_last();
        assert(keys_unique(t)) by {
            assert forall|i: int, j: int| 0 <= i < j < t.len() implies t[i].0 != t[j].0 by {
                assert(t[i] == s[i] && t[j] == s[j]);
            }
        }
        lemma_assoc_map_len(t);
        assert(assoc_map(s).dom() =~= assoc_map(t).dom().insert(s.last().0));
        if assoc(t, s.last().0) is Some {
            lemma_assoc_some(t, s.last().0);
            let m = choose|m: int| 0 <= m < t.len() && t[m].0 == s.last().0
                && t[m].1 == assoc(t, s.last().0)->0;
            assert(s[m].0 == s[s.len() - 1].0);
        }
    }
}

pub proof fn lemma_assoc_unique<V>(s: Seq<(SymbolId, V)>, i: int)
    requires
        keys_unique(s),
        0 <= i < s.len(),
    ensures
        assoc(s, s[i].0) == Some(s[i].1),
    decreases s.len(),
{
    if i < s.len() - 1 {
        assert(s.drop_last()[i] == s[i]);
        lemma_assoc_unique(s.drop_last(), i);
    }
}

pub proof fn lemma_assoc_some<V>(s: Seq<(SymbolId, V)>, k: SymbolId)
    requires
        assoc(s, k) is Some,
    ensures
        exists|i: int| 0 <= i < s.len() && s[i].0 == k && s[i].1 == assoc(s, k)->0,
    decreases s.len(),
{
    if s.last().0 != k {
        lemma_assoc_some(s.drop_last(), k);
        let i = choose|i: int|
            0 <= i < s.len() - 1 && s.drop_last()[i].0 == k && s.drop_last()[i].1 == assoc(
                s.drop_last(),
                k,
            )->0;
        assert(s[i] == s.drop_last()[i]);
    }
}

/// `s` without any entry for `k`, the rest kept in order.
pub(crate) fn remove_key<V: Copy>(s: &Vec<(SymbolId, V)>, k: SymbolId) -> (r: Vec<(SymbolId, V)>)
    requires
        keys_unique(s@),
    ensures
        keys_unique(r@),
        forall|j: SymbolId| #[trigger] assoc(r@, j) == if j == k {
            None
        } else {
            assoc(s@, j)
        },
{
    let mut r: Vec<(SymbolId, V)> = Vec::new();
    let mut i: usize = 0;
    while i < s.len()
        invariant
            i <= s@.len(),
            keys_unique(s@),
            keys_unique(r@),
            forall|j: SymbolId| #[trigger] assoc(r@, j) == if j == k {
                None
            } else {
                assoc(s@.take(i as int), j)
            },
            forall|a: int, m: int| 0 <= a < r@.len() && i <= m < s@.len() ==> r@[a].0 != s@[m].0,
        decreases s@.len() - i,
    {
        let e = s[i];
        proof {
            assert(s@.take(i + 1).drop_last() =~= s@.take(i as int));
        }
        if e.0 != k {
            let ghost before = r@;
            r.push(e);
            proof {
                assert forall|a: int, b: int| 0 <= a < b < r@.len() implies r@[a].0 != r@[b].0 by {
                    if b == r@.len() - 1 {
                        assert(r@[a] == before[a]);
                    } else {
                        assert(r@[a] == before[a] && r@[b] == before[b]);
                    }
                }
                assert forall|a: int, m: int| 0 <= a < r@.len() && i + 1 <= m < s@.len() implies r@[a].0
                    != s@[m].0 by {
                    if a < before.len() {
                        assert(r@[a] == before[a]);
                    } else {
                        assert(r@[a] == s@[i as int]);
                    }
                }
                assert forall|j: SymbolId| assoc(r@, j) == if j == k {
                    None
                } else {
                    assoc(s@.take(i + 1), j)
                } by {
                    assert(r@.drop_last() == before);
                    assert(r@.last() == e);
                    assert(e == s@[i as int]);
                    assert(s@.take(i + 1).last() == s@[i as int]);
                    assert(assoc(r@, j) == if e.0 == j {
                        Some(e.1)
                    } else {
                        assoc(before, j)
                    });
                    assert(assoc(s@.take(i + 1), j) == if e.0 == j {
                        Some(e.1)
                    } else {
                        assoc(s@.take(i + 1).drop_last(), j)
                    });
                }
            }
        } else {
            proof {
                assert forall|j: SymbolId| assoc(r@, j) == if j == k {
                    None
                } else {
                    assoc(s@.take(i + 1), j)
                } by {
                    assert(s@.take(i + 1).last() == s@[i as int]);
                    assert(s@[i as int].0 == k);
                    if j != k {
                        assert(s@.take(i + 1).drop_last() =~= s@.take(i as int));
                        assert(assoc(s@.take(i + 1), j) == assoc(s@.take(i + 1).drop_last(), j));
                    }
                }
            }
        }
        i = i + 1;
    }
    proof {
        assert(s@.take(s@.len() as int) =~= s@);
    }
    r
}

/// Γ, scoped to one transaction body.
pub struct Context {
    /// Live bindings, by symbol.
    live: Vec<(SymbolId, Binding)>,
    /// Every symbol ever consumed, with the span of that consumption — kept after
    /// removal from `live` so a second consumption can name both use-sites.
    consumed: Vec<(SymbolId, Span)>,
}

impl View for Context {
    type V = (Map<SymbolId, Binding>, Map<SymbolId, Span>);

    /// The live bindings, and where each consumed symbol was consumed.
    closed spec fn view(&self) -> (Map<SymbolId, Binding>, Map<SymbolId, Span>) {
        (assoc_map(self.live@), assoc_map(self.consumed@))
    }
}

/// What a successful `consume` hands back: where the value's currency was established,
/// which currency it is, and which kind of linear value it was.
pub struct Consumed {
    pub currency_span: Span,
    pub currency: CurrencyId,
    pub kind: BindingKind,
}

/// The outcome of `Context::consume`. `NeverBound` is not an error in its own right:
/// callers treat it like a failure but push no new diagnostic for it.
pub enum ConsumeResult {
    Consumed(Consumed),
    Reused(Diagnostic),
    NeverBound,
}

impl Default for Context {
    fn default() -> (c: Self)
        ensures
            c.wf(),
            c@.0 == Map::<SymbolId, Binding>::empty(),
            c@.1 == Map::<SymbolId, Span>::empty(),
    {
        let c = Context { live: Vec::new(), consumed: Vec::new() };
        proof {
            assert(c@.0 =~= Map::<SymbolId, Binding>::empty());
            assert(c@.1 =~= Map::<SymbolId, Span>::empty());
        }
        c
    }
}

impl Context {
    /// The representation is consistent: no symbol listed twice.
    pub closed spec fn wf(&self) -> bool {
        keys_unique(self.live@) && keys_unique(self.consumed@)
    }

    /// Adds a fresh live binding (replacing any earlier one for the same symbol).
    /// `binding_span` is the binding's own site; `currency_span` is where this value's
    /// currency was established.
    pub fn bind(
        &mut self,
        symbol: SymbolId,
        binding_span: Span,
        currency_span: Span,
        currency: CurrencyId,
        kind: BindingKind,
    )
        requires
            old(self).wf(),
        ensures
            final(self).wf(),
            final(self)@.0 == old(self)@.0.insert(
                symbol,
                Binding { binding_span, currency_span, currency, kind },
            ),
            final(self)@.1 == old(self)@.1,
    {
        let b = Binding { binding_span, currency_span, currency, kind };
        let mut live = remove_key(&self.live, symbol);
        let ghost before = live@;
        live.push((symbol, b));
        proof {
            assert forall|i: int, j: int| 0 <= i < j < live@.len() implies live@[i].0
                != live@[j].0 by {
                if j == live@.len() - 1 {
                    assert(live@[i] == before[i]);
                    if before[i].0 == symbol {
                        lemma_assoc_unique(before, i);
                    }
                } else {
                    assert(live@[i] == before[i] && live@[j] == before[j]);
                }
            }
            assert(live@.drop_last() == before);
            assert forall|j: SymbolId| assoc(live@, j) == (if j == symbol {
                Some(b)
            } else {
                assoc(self.live@, j)
            }) by {
                assert(assoc(before, j) == (if j == symbol {
                    None
                } else {
                    assoc(self.live@, j)
                }));
            }
            assert(assoc_map(live@) =~= assoc_map(self.live@).insert(symbol, b));
        }
        self.live = live;
    }

    /// (T-Debit's/T-Absorb's "consumes") Removes `symbol` from Γ, returning what it was
    /// so the caller can check its kind and currency. A symbol that was consumed
    /// before is `E_REUSED`, citing both use-sites. A symbol that never entered Γ at
    /// all — its binding statement itself failed, with its own diagnostic — is
    /// `NeverBound`, with no second diagnostic.
    pub fn consume(&mut self, symbol: SymbolId, use_span: Span) -> (r: ConsumeResult)
        requires
            old(self).wf(),
        ensures
            final(self).wf(),
            old(self)@.0.contains_key(symbol) ==> {
                let b = old(self)@.0[symbol];
                &&& r == ConsumeResult::Consumed(
                    Consumed { currency_span: b.currency_span, currency: b.currency, kind: b.kind },
                )
                &&& final(self)@.0 == old(self)@.0.remove(symbol)
                &&& final(self)@.1 == old(self)@.1.insert(symbol, use_span)
            },
            !old(self)@.0.contains_key(symbol) ==> final(self)@ == old(self)@,
            !old(self)@.0.contains_key(symbol) && old(self)@.1.contains_key(symbol) ==> (
            r matches ConsumeResult::Reused(d) && d.code == Code::Reused && d.span == use_span
                && d.message@ == "this value has already been consumed"@ && d.secondary@.len()
                == 1 && d.secondary@[0].0@ == "first consumed here"@ && d.secondary@[0].1 == old(
                self,
            )@.1[symbol]),
            !old(self)@.0.contains_key(symbol) && !old(self)@.1.contains_key(symbol) ==> r
                is NeverBound,
    {
        match self.find_live(symbol) {
            Some(i) => {
                let b = self.live[i].1;
                proof {
                    lemma_assoc_unique(self.live@, i as int);
                }
                let live = remove_key(&self.live, symbol);
                let mut consumed = remove_key(&self.consumed, symbol);
                let ghost before = consumed@;
                consumed.push((symbol, use_span));
                proof {
                    assert forall|x: int, y: int| 0 <= x < y < consumed@.len() implies consumed@[x].0
                        != consumed@[y].0 by {
                        if y == consumed@.len() - 1 {
                            assert(consumed@[x] == before[x]);
                            if before[x].0 == symbol {
                                lemma_assoc_unique(before, x);
                            }
                        } else {
                            assert(consumed@[x] == before[x] && consumed@[y] == before[y]);
                        }
                    }
                    assert(consumed@.drop_last() == before);
                    assert forall|j: SymbolId| assoc(consumed@, j) == (if j == symbol {
                        Some(use_span)
                    } else {
                        assoc(self.consumed@, j)
                    }) by {
                        assert(assoc(before, j) == (if j == symbol {
                            None
                        } else {
                            assoc(self.consumed@, j)
                        }));
                    }
                    assert forall|j: SymbolId| assoc(live@, j) == (if j == symbol {
                        None
                    } else {
                        assoc(self.live@, j)
                    }) by {}
                    assert(assoc_map(live@) =~= assoc_map(self.live@).remove(symbol));
                    assert(assoc_map(consumed@) =~= assoc_map(self.consumed@).insert(
                        symbol,
                        use_span,
                    ));
                }
                self.live = live;
                self.consumed = consumed;
                ConsumeResult::Consumed(
                    Consumed { currency_span: b.currency_span, currency: b.currency, kind: b.kind },
                )
            },
            None => {
                match self.find_consumed(symbol) {
                    Some(j) => {
                        let first_span = self.consumed[j].1;
                        proof {
                            lemma_assoc_unique(self.consumed@, j as int);
                        }
                        ConsumeResult::Reused(
                            Diagnostic::new(
                                Code::Reused,
                                "this value has already been consumed",
                                use_span,
                            ).with_secondary("first consumed here", first_span),
                        )
                    },
                    None => ConsumeResult::NeverBound,
                }
            },
        }
    }

    fn find_live(&self, symbol: SymbolId) -> (r: Option<usize>)
        ensures
            match r {
                Some(i) => i < self.live@.len() && self.live@[i as int].0 == symbol,
                None => assoc(self.live@, symbol) is None,
            },
    {
        let mut i: usize = 0;
        while i < self.live.len()
            invariant
                i <= self.live@.len(),
                forall|m: int| 0 <= m < i ==> self.live@[m].0 != symbol,
            decreases self.live@.len() - i,
        {
            if self.live[i].0 == symbol {
                return Some(i);
            }
            i = i + 1;
        }
        proof {
            if assoc(self.live@, symbol) is Some {
                lemma_assoc_some(self.live@, symbol);
            }
        }
        None
    }

    fn find_consumed(&self, symbol: SymbolId) -> (r: Option<usize>)
        ensures
            match r {
                Some(i) => i < self.consumed@.len() && self.consumed@[i as int].0 == symbol,
                None => assoc(self.consumed@, symbol) is None,
            },
    {
        let mut i: usize = 0;
        while i < self.consumed.len()
            invariant
                i <= self.consumed@.len(),
                forall|m: int| 0 <= m < i ==> self.consumed@[m].0 != symbol,
            decreases self.consumed@.len() - i,
        {
            if self.consumed[i].0 == symbol {
                return Some(i);
            }
            i = i + 1;
        }
        proof {
            if assoc(self.consumed@, symbol) is Some {
                lemma_assoc_some(self.consumed@, symbol);
            }
        }
        None
    }

    /// (T-Txn's `Δ = ∅`) Everything still live at the end of the body was dropped: one
    /// `E_DROPPED` per live binding, at its binding site.
    pub fn finish_txn(self) -> (r: Vec<Diagnostic>)
        requires
            self.wf(),
        ensures
            r@.len() == 0 <==> self@.0 =~= Map::<SymbolId, Binding>::empty(),
            r@.len() == self@.0.dom().len(),
            exists|keys: Seq<SymbolId>| drops_exactly(r@, self@.0, keys),
    {
        let mut r: Vec<Diagnostic> = Vec::new();
        let mut i: usize = 0;
        while i < self.live.len()
            invariant
                i <= self.live@.len(),
                r@.len() == i,
                keys_unique(self.live@),
                forall|m: int| 0 <= m < i ==> dropped_diag(#[trigger] r@[m], self.live@[m].1),
            decreases self.live@.len() - i,
        {
            let b = self.live[i].1;
            let msg = match b.kind {
                BindingKind::Money => "this money value is never consumed",
                BindingKind::Residue => "this conversion residue is never consumed",
            };
            r.push(Diagnostic::new(Code::Dropped, msg, b.binding_span));
            i = i + 1;
        }
        proof {
            let keys = self.live@.map_values(|e: (SymbolId, Binding)| e.0);
            assert forall|m: int| 0 <= m < r@.len() implies dropped_diag(
                #[trigger] r@[m],
                self@.0[keys[m]],
            ) by {
                lemma_assoc_unique(self.live@, m);
            }
            assert forall|k: SymbolId| self@.0.contains_key(k) <==> #[trigger] keys.contains(k) by {
                if self@.0.contains_key(k) {
                    lemma_assoc_some(self.live@, k);
                    let m = choose|m: int|
                        0 <= m < self.live@.len() && self.live@[m].0 == k && self.live@[m].1
                            == assoc(self.live@, k)->0;
                    assert(keys[m] == k);
                }
                if keys.contains(k) {
                    let m = choose|m: int| 0 <= m < keys.len() && keys[m] == k;
                    lemma_assoc_unique(self.live@, m);
                }
            }
            assert(keys.no_duplicates());
            assert(drops_exactly(r@, self@.0, keys));
            if r@.len() > 0 {
                lemma_assoc_unique(self.live@, 0);
                assert(self@.0.contains_key(self.live@[0].0));
            }
            if self.live@.len() == 0 {
                assert(self@.0 =~= Map::<SymbolId, Binding>::empty());
            }
            lemma_assoc_map_len(self.live@);
        }
        r
    }
}

/// `r` reports the bindings of `live` as dropped, one diagnostic each: the `i`-th
/// reports the binding of `keys[i]`, and `keys` lists every live symbol once.
pub open spec fn drops_exactly(
    r: Seq<Diagnostic>,
    live: Map<SymbolId, Binding>,
    keys: Seq<SymbolId>,
) -> bool {
    &&& keys.len() == r.len()
    &&& keys.no_duplicates()
    &&& forall|k: SymbolId| live.contains_key(k) <==> #[trigger] keys.contains(k)
    &&& forall|i: int| 0 <= i < r.len() ==> dropped_diag(#[trigger] r[i], live[keys[i]])
}

/// What type checking's diagnostics say beyond their code and span: a reuse is
/// reported with its message and a label at the first consumption; a currency
/// mismatch carries one label per value whose currency was established elsewhere.
pub open spec fn labels_ok(d: Diagnostic) -> bool {
    &&& d.code == Code::Reused ==> {
        &&& d.message@ == "this value has already been consumed"@
        &&& d.secondary@.len() == 1
        &&& d.secondary@[0].0@ == "first consumed here"@
    }
    &&& d.code == Code::CurrencyMismatch ==> {
        &&& 1 <= d.secondary@.len() <= 2
        &&& forall|j: int|
            0 <= j < d.secondary@.len() ==> (#[trigger] d.secondary@[j]).0@
                == "this value's currency was established here"@ || d.secondary@[j].0@
                == "this money's currency was established here"@
    }
}

/// `d` reports `b` as dropped.
pub open spec fn dropped_diag(d: Diagnostic, b: Binding) -> bool {
    &&& d.code == Code::Dropped
    &&& d.span == b.binding_span
    &&& d.secondary@.len() == 0
    &&& d.message@ == match b.kind {
        BindingKind::Money => "this money value is never consumed"@,
        BindingKind::Residue => "this conversion residue is never consumed"@,
    }
}


/// Γ as contracts see it: the live bindings, and where each consumed symbol was
/// consumed.
pub type CtxView = (Map<SymbolId, Binding>, Map<SymbolId, Span>);

/// What consuming `symbol` as an `expected`-kind value does: the currency it carried
/// (and where that was established) when it was live and of that kind; Γ afterwards;
/// and how many diagnostics it raises.
pub open spec fn consume_spec(ctx: CtxView, symbol: SymbolId, span: Span, expected: BindingKind) -> (
    Option<(Span, CurrencyId)>,
    CtxView,
    nat,
) {
    if ctx.0.contains_key(symbol) {
        let b = ctx.0[symbol];
        let after = (ctx.0.remove(symbol), ctx.1.insert(symbol, span));
        if b.kind == expected {
            (Some((b.currency_span, b.currency)), after, 0)
        } else {
            (None, after, 1)
        }
    } else if ctx.1.contains_key(symbol) {
        (None, ctx, 1)
    } else {
        (None, ctx, 0)
    }
}

/// Γ with one more live binding.
pub open spec fn bind_spec(
    ctx: CtxView,
    symbol: SymbolId,
    binding_span: Span,
    currency_span: Span,
    currency: CurrencyId,
    kind: BindingKind,
) -> CtxView {
    (ctx.0.insert(symbol, Binding { binding_span, currency_span, currency, kind }), ctx.1)
}

/// The diagnostic for a value of the wrong linear kind.
pub open spec fn kind_mismatch_diag(d: Diagnostic, expected: BindingKind, span: Span) -> bool {
    &&& d.span == span
    &&& d.secondary@.len() == 0
    &&& match expected {
        BindingKind::Money => d.code == Code::ExpectedMoney && d.message@
            == "this is a conversion residue, not money — use 'absorb', not 'debit', to discharge it"@,
        BindingKind::Residue => d.code == Code::ExpectedResidue && d.message@
            == "this is money, not a conversion residue — use 'debit', not 'absorb', to discharge it"@,
    }
}

/// Consumes `symbol` from Γ and checks it was the expected kind, reporting
/// `E_EXPECTED_MONEY`/`E_EXPECTED_RESIDUE` if not: the shared premise of every rule
/// that consumes a value.
pub fn consume_checked(
    symbol: SymbolId,
    span: Span,
    expected: BindingKind,
    ctx: &mut Context,
    diags: &mut Vec<Diagnostic>,
) -> (r: Option<(Span, CurrencyId)>)
    requires
        old(ctx).wf(),
    ensures
        final(ctx).wf(),
        r == consume_spec(old(ctx)@, symbol, span, expected).0,
        final(ctx)@ == consume_spec(old(ctx)@, symbol, span, expected).1,
        final(diags)@.len() == old(diags)@.len() + consume_spec(old(ctx)@, symbol, span, expected).2,
        forall|i: int| 0 <= i < old(diags)@.len() ==> final(diags)@[i] == old(diags)@[i],
        old(ctx)@.0.contains_key(symbol) && old(ctx)@.0[symbol].kind != expected
            ==> kind_mismatch_diag(final(diags)@.last(), expected, span),
        !old(ctx)@.0.contains_key(symbol) && old(ctx)@.1.contains_key(symbol) ==> {
            let d = final(diags)@.last();
            &&& d.code == Code::Reused
            &&& d.span == span
            &&& d.message@ == "this value has already been consumed"@
            &&& d.secondary@.len() == 1
            &&& d.secondary@[0].0@ == "first consumed here"@
            &&& d.secondary@[0].1 == old(ctx)@.1[symbol]
        },
{
    match ctx.consume(symbol, span) {
        ConsumeResult::Consumed(consumed) => {
            if consumed.kind == expected {
                Some((consumed.currency_span, consumed.currency))
            } else {
                diags.push(kind_mismatch(expected, span));
                None
            }
        },
        ConsumeResult::Reused(d) => {
            diags.push(d);
            None
        },
        ConsumeResult::NeverBound => None,
    }
}

/// A literal lowered at `scale`: `None` when it has too many fraction digits or does
/// not fit.
pub open spec fn lowered(literal: DecimalLiteral, scale: u32) -> Option<Amount> {
    match spec_from_literal(literal.text@, scale) {
        Ok(v) => Some(amount_of(v)),
        Err(_) => None,
    }
}

/// (T-Credit) `acct : Account<C>`, `Γ ⊢ n : Amount` ⟹ `Γ ⊢ credit(acct, n) : Money<C>`.
/// `credit` is always where a value's currency is first fixed.
pub fn check_credit(
    account_currency: CurrencyId,
    currency: &CurrencyInfo,
    amount: &DecimalLiteral,
    diags: &mut Vec<Diagnostic>,
) -> (r: Option<(Amount, CurrencyId)>)
    ensures
        r == match lowered(*amount, currency.scale) {
            Some(a) => Some((a, account_currency)),
            None => None,
        },
        r is Some ==> final(diags)@ == old(diags)@,
        r is None ==> final(diags)@ == old(diags)@.push(final(diags)@.last())
            && lower_diag(final(diags)@.last(), *amount, currency.scale, currency.name@),
{
    let amount = lower_amount(amount, currency.scale, &currency.name, diags)?;
    Some((amount, account_currency))
}

/// (T-Debit's and T-Absorb's `acct : Account<C>` premise) the value discharged shares
/// the target account's currency.
pub fn check_account_currency(
    account: &AccountInfo,
    currencies: &[CurrencyInfo],
    value_currency: CurrencyId,
    value_currency_span: Span,
    use_span: Span,
) -> (r: Result<(), Diagnostic>)
    requires
        account.currency.0 < currencies@.len(),
        value_currency.0 < currencies@.len(),
    ensures
        r is Ok <==> value_currency == account.currency,
        r matches Err(d) ==> d.code == Code::CurrencyMismatch && d.span == use_span
            && d.message@ == "account '"@ + account.path@ + "' expects currency '"@
            + currencies@[account.currency.0 as int].name@ + "', but this value is '"@
            + currencies@[value_currency.0 as int].name@ + "'"@ && d.secondary@.len() == 1
            && d.secondary@[0].0@ == "this value's currency was established here"@
            && d.secondary@[0].1 == value_currency_span,
{
    if value_currency == account.currency {
        Ok(())
    } else {
        Err(currency_mismatch(account, currencies, value_currency, value_currency_span, use_span))
    }
}

/// (T-Convert) `Γ ⊢ e : Money<A>`, `rate : Rate<A, B>` ⟹ `B`, the currency both of
/// `convert`'s results are bound at.
pub fn check_convert(
    rate: &RateInfo,
    currencies: &[CurrencyInfo],
    money_currency: CurrencyId,
    money_currency_span: Span,
    convert_span: Span,
) -> (r: Result<CurrencyId, Diagnostic>)
    requires
        rate.from.0 < currencies@.len(),
        money_currency.0 < currencies@.len(),
    ensures
        r is Ok <==> money_currency == rate.from,
        r matches Ok(c) ==> c == rate.to,
        r matches Err(d) ==> d.code == Code::CurrencyMismatch && d.span == convert_span
            && d.message@ == "rate '"@ + rate.name@ + "' expects currency '"@
            + currencies@[rate.from.0 as int].name@ + "', but this money is '"@
            + currencies@[money_currency.0 as int].name@ + "'"@ && d.secondary@.len() == 1
            && d.secondary@[0].0@ == "this money's currency was established here"@
            && d.secondary@[0].1 == money_currency_span,
{
    if money_currency == rate.from {
        Ok(rate.to)
    } else {
        Err(
            rate_currency_mismatch(
                rate,
                currencies,
                money_currency,
                money_currency_span,
                convert_span,
            ),
        )
    }
}

/// (T-Split's typeck-time half: `n : Amount`) lowers `n` at `e`'s currency's scale; the
/// side condition `0 ≤ n ≤ amount(e)` is a runtime quantity, checked by `eval`.
pub fn check_split(currency: &CurrencyInfo, amount: &DecimalLiteral, diags: &mut Vec<Diagnostic>) -> (r:
    Option<Amount>)
    ensures
        r == lowered(*amount, currency.scale),
        r is Some ==> final(diags)@ == old(diags)@,
        r is None ==> final(diags)@ == old(diags)@.push(final(diags)@.last())
            && lower_diag(final(diags)@.last(), *amount, currency.scale, currency.name@),
{
    lower_amount(amount, currency.scale, &currency.name, diags)
}

/// (T-SplitRatio's side condition `p + q > 0`.)
pub fn check_split_ratio(a_weight: u32, b_weight: u32, span: Span) -> (r: Result<(), Diagnostic>)
    ensures
        r is Ok <==> !(a_weight == 0 && b_weight == 0),
        r matches Err(d) ==> d.code == Code::ZeroRatio && d.span == span && d.secondary@.len()
            == 0 && d.message@
            == "split_ratio's weights are both zero, which doesn't determine an allocation"@,
{
    if a_weight == 0 && b_weight == 0 {
        Err(
            Diagnostic::new(
                Code::ZeroRatio,
                "split_ratio's weights are both zero, which doesn't determine an allocation",
                span,
            ),
        )
    } else {
        Ok(())
    }
}

/// (T-Merge) `Γ ⊢ a : Money<C>`, `Γ ⊢ b : Money<C>` ⟹ `Γ ⊢ merge(a, b) : Money<C>`.
pub fn check_merge(
    currencies: &[CurrencyInfo],
    a_currency: CurrencyId,
    a_span: Span,
    b_currency: CurrencyId,
    b_span: Span,
    merge_span: Span,
) -> (r: Result<CurrencyId, Diagnostic>)
    requires
        a_currency.0 < currencies@.len(),
        b_currency.0 < currencies@.len(),
    ensures
        r is Ok <==> a_currency == b_currency,
        r matches Ok(c) ==> c == a_currency,
        r matches Err(d) ==> d.code == Code::CurrencyMismatch && d.span == merge_span
            && d.message@ == "merge's two values have different currencies: '"@
            + currencies@[a_currency.0 as int].name@ + "' and '"@
            + currencies@[b_currency.0 as int].name@ + "'"@ && d.secondary@.len() == 2
            && d.secondary@[0].1 == a_span && d.secondary@[1].1 == b_span
            && d.secondary@[0].0@ == "this value's currency was established here"@
            && d.secondary@[1].0@ == "this value's currency was established here"@,
{
    if a_currency == b_currency {
        Ok(a_currency)
    } else {
        Err(merge_currency_mismatch(currencies, a_currency, a_span, b_currency, b_span, merge_span))
    }
}

/// The diagnostic for a literal that cannot be lowered at `scale`.
pub open spec fn lower_diag(d: Diagnostic, literal: DecimalLiteral, scale: u32, name: Seq<char>) -> bool {
    &&& d.span == literal.span
    &&& d.secondary@.len() == 0
    &&& match spec_from_literal(literal.text@, scale) {
        Err(LiteralError::TooManyFractionDigits(n)) => d.code == Code::TooManyFractionDigits
            && d.message@ == "amount has "@ + spec_decimal(n as nat)
            + " fractional digits, but currency '"@ + name + "' has scale "@ + spec_decimal(
            scale as nat,
        ),
        Err(LiteralError::OutOfRange) => d.code == Code::AmountOutOfRange && d.message@
            == "this amount is too large to represent"@,
        Ok(_) => true,
    }
}

/// Lowers a decimal literal into an `Amount` at `scale`, reporting
/// `TooManyFractionDigits`/`AmountOutOfRange` on failure.
fn lower_amount(
    literal: &DecimalLiteral,
    scale: u32,
    currency_name: &String,
    diags: &mut Vec<Diagnostic>,
) -> (r: Option<Amount>)
    ensures
        r == lowered(*literal, scale),
        r is Some ==> final(diags)@ == old(diags)@,
        r is None ==> final(diags)@ == old(diags)@.push(final(diags)@.last())
            && lower_diag(final(diags)@.last(), *literal, scale, currency_name@),
{
    match Amount::from_literal(literal.text.as_str(), scale) {
        Ok(amount) => {
            proof {
                crate::amount::lemma_amount_range(amount);
                crate::amount::lemma_amount_of(amount@);
                crate::amount::lemma_amount_view_injective(amount, amount_of(amount@));
            }
            Some(amount)
        },
        Err(LiteralError::TooManyFractionDigits(frac_digits)) => {
            let mut msg = String::from_str("amount has ");
            push_decimal(&mut msg, frac_digits as u128);
            push_str(&mut msg, " fractional digits, but currency '");
            push_str(&mut msg, currency_name.as_str());
            push_str(&mut msg, "' has scale ");
            push_decimal(&mut msg, scale as u128);
            diags.push(Diagnostic::new(Code::TooManyFractionDigits, msg.as_str(), literal.span));
            None
        },
        Err(LiteralError::OutOfRange) => {
            diags.push(
                Diagnostic::new(
                    Code::AmountOutOfRange,
                    "this amount is too large to represent",
                    literal.span,
                ),
            );
            None
        },
    }
}

fn kind_mismatch(expected: BindingKind, span: Span) -> (d: Diagnostic)
    ensures
        kind_mismatch_diag(d, expected, span),
{
    match expected {
        BindingKind::Money => Diagnostic::new(
            Code::ExpectedMoney,
            "this is a conversion residue, not money — use 'absorb', not 'debit', to discharge it",
            span,
        ),
        BindingKind::Residue => Diagnostic::new(
            Code::ExpectedResidue,
            "this is money, not a conversion residue — use 'debit', not 'absorb', to discharge it",
            span,
        ),
    }
}

fn currency_mismatch(
    account: &AccountInfo,
    currencies: &[CurrencyInfo],
    found: CurrencyId,
    found_span: Span,
    use_span: Span,
) -> (d: Diagnostic)
    requires
        account.currency.0 < currencies@.len(),
        found.0 < currencies@.len(),
    ensures
        d.code == Code::CurrencyMismatch && d.span == use_span && d.message@ == "account '"@
            + account.path@ + "' expects currency '"@
            + currencies@[account.currency.0 as int].name@ + "', but this value is '"@
            + currencies@[found.0 as int].name@ + "'"@ && d.secondary@.len() == 1
            && d.secondary@[0].0@ == "this value's currency was established here"@
            && d.secondary@[0].1 == found_span,
{
    let expected_name = &currencies[account.currency.0 as usize].name;
    let found_name = &currencies[found.0 as usize].name;
    let mut msg = String::from_str("account '");
    push_str(&mut msg, account.path.as_str());
    push_str(&mut msg, "' expects currency '");
    push_str(&mut msg, expected_name.as_str());
    push_str(&mut msg, "', but this value is '");
    push_str(&mut msg, found_name.as_str());
    push_str(&mut msg, "'");
    Diagnostic::new(Code::CurrencyMismatch, msg.as_str(), use_span).with_secondary(
        "this value's currency was established here",
        found_span,
    )
}

fn rate_currency_mismatch(
    rate: &RateInfo,
    currencies: &[CurrencyInfo],
    found: CurrencyId,
    found_span: Span,
    convert_span: Span,
) -> (d: Diagnostic)
    requires
        rate.from.0 < currencies@.len(),
        found.0 < currencies@.len(),
    ensures
        d.code == Code::CurrencyMismatch && d.span == convert_span && d.message@ == "rate '"@
            + rate.name@ + "' expects currency '"@ + currencies@[rate.from.0 as int].name@
            + "', but this money is '"@ + currencies@[found.0 as int].name@ + "'"@
            && d.secondary@.len() == 1
            && d.secondary@[0].0@ == "this money's currency was established here"@
            && d.secondary@[0].1 == found_span,
{
    let expected_name = &currencies[rate.from.0 as usize].name;
    let found_name = &currencies[found.0 as usize].name;
    let mut msg = String::from_str("rate '");
    push_str(&mut msg, rate.name.as_str());
    push_str(&mut msg, "' expects currency '");
    push_str(&mut msg, expected_name.as_str());
    push_str(&mut msg, "', but this money is '");
    push_str(&mut msg, found_name.as_str());
    push_str(&mut msg, "'");
    Diagnostic::new(Code::CurrencyMismatch, msg.as_str(), convert_span).with_secondary(
        "this money's currency was established here",
        found_span,
    )
}

fn merge_currency_mismatch(
    currencies: &[CurrencyInfo],
    a_currency: CurrencyId,
    a_span: Span,
    b_currency: CurrencyId,
    b_span: Span,
    merge_span: Span,
) -> (d: Diagnostic)
    requires
        a_currency.0 < currencies@.len(),
        b_currency.0 < currencies@.len(),
    ensures
        d.code == Code::CurrencyMismatch && d.span == merge_span && d.message@
            == "merge's two values have different currencies: '"@
            + currencies@[a_currency.0 as int].name@ + "' and '"@
            + currencies@[b_currency.0 as int].name@ + "'"@ && d.secondary@.len() == 2
            && d.secondary@[0].1 == a_span && d.secondary@[1].1 == b_span
            && d.secondary@[0].0@ == "this value's currency was established here"@
            && d.secondary@[1].0@ == "this value's currency was established here"@,
{
    let a_name = &currencies[a_currency.0 as usize].name;
    let b_name = &currencies[b_currency.0 as usize].name;
    let mut msg = String::from_str("merge's two values have different currencies: '");
    push_str(&mut msg, a_name.as_str());
    push_str(&mut msg, "' and '");
    push_str(&mut msg, b_name.as_str());
    push_str(&mut msg, "'");
    Diagnostic::new(Code::CurrencyMismatch, msg.as_str(), merge_span).with_secondary(
        "this value's currency was established here",
        a_span,
    ).with_secondary("this value's currency was established here", b_span)
}

} // verus!
