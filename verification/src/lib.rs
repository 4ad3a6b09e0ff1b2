//! balanc: a statically typed language for double-entry bookkeeping, in which the
//! ledger invariants (money is linear, currencies never mix) are enforced by the
//! type system. Pipeline: source text -> lex -> parse -> resolve -> typeck -> eval
//! -> render.

pub mod amount;
pub mod backend;
pub mod diag;
pub mod eval;
pub mod lex;
pub mod parse;
pub mod render;
pub mod resolve;
pub mod span;
pub mod text;
pub mod typeck;

use vstd::prelude::*;
use crate::diag::{code_spans, sort_by_span, sorted_by_span, Diagnostic};
use crate::eval::eval_txns_spec;
use crate::lex::{lemma_lex_from_len, lex_error_of, spec_lex, tokens_view, tokens_wf, LexError, Token};
use crate::parse::{ast, module_ok, module_parsed_as, parse_diags, DeclKind};
use crate::render::report_text;
use crate::resolve::{lemma_parsed_module_sizes, resolve_diags, resolve_ok, resolved_from, ResolvedModule};
use crate::span::{byte_len, lemma_byte_len_le, SourceFile};
use crate::typeck::rules::BindingKind;
use crate::typeck::{
    lemma_resolved_binds_once, lemma_resolved_ids_ok, lemma_resolved_well_scoped,
    lemma_typed_binds_once, lemma_typed_txn_currencies_agree, lemma_typed_txn_is_linear, tstmts_ok,
    txns_diags, typeck_ok, typed_from, TModule,
};
use crate::eval::conservation::{
    conversion_free, ledger_total, ledger_total_in, lemma_balanced_run, lemma_balanced_run_in,
    lemma_resolved_paths_unique, lemma_run_keys,
};
use crate::parse::ast::NormalBalance;
use crate::render::balanced::{lemma_posted_is_ledger_total, lemma_side_total, lemma_sides_difference};
use crate::render::{entries_total, side_entries};
use crate::resolve::{CurrencyId, SymbolId};

verus! {

/// The front end accepts `text` and produces `t`: the text lexes into tokens that
/// parse as a module, which resolves and type-checks to `t`.
pub open spec fn front_end_yields(text: Seq<char>, t: TModule) -> bool {
    exists|tokens: Seq<Token>, m: ast::Module, order: Seq<DeclKind>, r: ResolvedModule|
        #![trigger module_parsed_as(tokens, m, order), resolved_from(r, m)]
        {
            &&& spec_lex(text) == Ok::<_, crate::lex::LexError>(tokens_view(tokens))
            &&& module_parsed_as(tokens, m, order)
            &&& resolve_ok(m)
            &&& resolved_from(r, m)
            &&& typeck_ok(r)
            &&& typed_from(t, r)
        }
}

/// The front end accepts `text`: it lexes; its tokens match a module the grammar
/// produces; and every module they match resolves, and type-checks however it resolves.
pub open spec fn front_end_accepts(text: Seq<char>) -> bool {
    &&& spec_lex(text) is Ok
    &&& forall|tokens: Seq<Token>|
        #![trigger tokens_view(tokens)]
        spec_lex(text) == Ok::<_, LexError>(tokens_view(tokens)) ==> {
            &&& exists|m: ast::Module, o: Seq<DeclKind>| module_parsed_as(tokens, m, o) && module_ok(m)
            &&& forall|m: ast::Module, o: Seq<DeclKind>|
                #![trigger module_parsed_as(tokens, m, o)]
                module_parsed_as(tokens, m, o) ==> module_ok(m) && resolve_ok(m) && forall|
                    r: ResolvedModule,
                | #[trigger] resolved_from(r, m) ==> typeck_ok(r)
        }
}

/// `ds`, ordered by span, is what the first front-end stage that refuses `text`
/// reports: the lexer's one error; or, where the tokens match no module the grammar
/// produces, the parser's (`parse_diags`); or resolution's, for a module they match; or type checking's,
/// for that module's resolution.
pub open spec fn front_end_rejects(text: Seq<char>, ds: Seq<Diagnostic>) -> bool {
    &&& ds.len() > 0
    &&& sorted_by_span(ds)
    &&& match spec_lex(text) {
        Err(e) => ds.len() == 1 && lex_error_of(ds[0]) == e,
        Ok(tv) => exists|tokens: Seq<Token>|
            #![trigger tokens_view(tokens)]
            tokens_view(tokens) == tv && tokens_wf(tokens) && {
                ||| (forall|m: ast::Module, o: Seq<DeclKind>|
                    !(#[trigger] module_parsed_as(tokens, m, o) && module_ok(m))) && exists|us: Seq<Diagnostic>|
                    #[trigger] us.to_multiset() == ds.to_multiset() && code_spans(us) == parse_diags(tokens)
                ||| exists|m: ast::Module, o: Seq<DeclKind>, us: Seq<Diagnostic>|
                    #![trigger module_parsed_as(tokens, m, o), us.to_multiset()]
                    module_parsed_as(tokens, m, o) && !resolve_ok(m) && us.to_multiset()
                        == ds.to_multiset() && code_spans(us) == resolve_diags(m)
                ||| exists|m: ast::Module, o: Seq<DeclKind>, r: ResolvedModule, us: Seq<Diagnostic>|
                    #![trigger module_parsed_as(tokens, m, o), resolved_from(r, m), us.to_multiset()]
                    module_parsed_as(tokens, m, o) && resolve_ok(m) && resolved_from(r, m)
                        && !typeck_ok(r) && us.to_multiset() == ds.to_multiset() && txns_diags(
                        code_spans(us),
                        r.txns@,
                        r.accounts@,
                        r.currencies@,
                        r.rates@,
                    )
            },
    }
}

/// The diagnostics, ordered by span.
fn sorted(diags: Vec<Diagnostic>) -> (r: Vec<Diagnostic>)
    ensures
        sorted_by_span(r@),
        r@.to_multiset() == diags@.to_multiset(),
        r@.len() == diags@.len(),
        diags@.len() == 1 ==> r@ == diags@,
{
    let mut d = diags;
    let ghost before = d@;
    sort_by_span(&mut d);
    proof {
        vstd::seq_lib::to_multiset_len(before);
        vstd::seq_lib::to_multiset_len(d@);
        if before.len() == 1 {
            let x = d@[0];
            assert(d@.contains(x));
            vstd::seq_lib::to_multiset_contains(d@, x);
            vstd::seq_lib::to_multiset_contains(before, x);
            assert(before.contains(x));
            assert(d@ =~= before);
        }
    }
    d
}

/// Runs the pipeline through `typeck` only: the shared front end that both `run` and
/// the JVM backend build on. On failure, the diagnostics of the stage that stopped it,
/// sorted by span. Spans are `u32` byte offsets, so the text must fit them.
pub fn compile_typed(file: &SourceFile) -> (r: Result<TModule, Vec<Diagnostic>>)
    requires
        byte_len(file.text@) + 2 <= u32::MAX,
    ensures
        r matches Ok(t) ==> front_end_yields(file.text@, t) && t.accounts@.len() < u32::MAX,
        r matches Err(ds) ==> ds@.len() > 0 && sorted_by_span(ds@),
        spec_lex(file.text@) matches Err(e) ==> r matches Err(ds) && ds@.len() == 1
            && lex_error_of(ds@[0]) == e,
        front_end_accepts(file.text@) ==> r is Ok,
        r matches Err(ds) ==> front_end_rejects(file.text@, ds@),
{
    let (tokens, diags) = crate::lex::lex(file.text.as_str());
    let tokens = match tokens {
        Some(tokens) => tokens,
        None => {
            return Err(sorted(diags));
        },
    };
    let ghost tv = tokens_view(tokens@);
    assert(spec_lex(file.text@) == Ok::<_, LexError>(tv));
    proof {
        lemma_lex_from_len(file.text@, 0);
        lemma_byte_len_le(file.text@);
    }
    let (module, diags) = crate::parse::parse(tokens.as_slice());
    let module = match module {
        Some(module) => module,
        None => {
            let ghost us = diags@;
            let ds = sorted(diags);
            proof {
                assert(tokens_view(tokens@) == tv);
                assert(us.to_multiset() == ds@.to_multiset() && code_spans(us) == parse_diags(tokens@));
                if front_end_accepts(file.text@) {
                    let (m, o) = choose|m: ast::Module, o: Seq<DeclKind>|
                        module_parsed_as(tokens@, m, o) && module_ok(m);
                }
            }
            return Err(ds);
        },
    };
    let ghost order = choose|o: Seq<DeclKind>| module_parsed_as(tokens@, module, o);
    let ghost m = module;
    proof {
        lemma_parsed_module_sizes(tokens@, module, order);
    }
    let (resolved, diags) = crate::resolve::resolve(module);
    let resolved = match resolved {
        Some(resolved) => resolved,
        None => {
            let ghost us = diags@;
            let ds = sorted(diags);
            proof {
                assert(tokens_view(tokens@) == tv);
                assert(module_parsed_as(tokens@, m, order) && !resolve_ok(m) && us.to_multiset()
                    == ds@.to_multiset() && code_spans(us) == resolve_diags(m));
            }
            return Err(ds);
        },
    };
    proof {
        lemma_resolved_ids_ok(resolved, m);
    }
    let ghost rm = resolved;
    let (typed, diags) = crate::typeck::typeck(resolved);
    match typed {
        Some(typed) => {
            proof {
                assert(typed_from(typed, rm));
                assert(module_parsed_as(tokens@, m, order) && resolved_from(rm, m));
            }
            Ok(typed)
        },
        None => {
            let ghost us = diags@;
            let ds = sorted(diags);
            proof {
                assert(tokens_view(tokens@) == tv);
                assert(module_parsed_as(tokens@, m, order) && resolve_ok(m) && resolved_from(rm, m)
                    && !typeck_ok(rm) && us.to_multiset() == ds@.to_multiset());
            }
            Err(ds)
        },
    }
}

/// Runs the full pipeline over one source file. `Ok` is the rendered trial balance;
/// `Err` is the diagnostics that stopped the pipeline, sorted by span.
pub fn run(file: &SourceFile) -> (r: Result<String, Vec<Diagnostic>>)
    requires
        byte_len(file.text@) + 2 <= u32::MAX,
    ensures
        r matches Ok(s) ==> exists|t: TModule|
            #![trigger front_end_yields(file.text@, t)]
            {
                let ev = eval_txns_spec(t.txns@, t.accounts@, t.currencies@, t.rates@);
                &&& front_end_yields(file.text@, t)
                &&& ev.0.len() == 0
                &&& s@ == report_text(t.currencies@, t.accounts@, ev.1)
            },
        r matches Err(ds) ==> ds@.len() > 0 && sorted_by_span(ds@),
        spec_lex(file.text@) matches Err(e) ==> r matches Err(ds) && ds@.len() == 1
            && lex_error_of(ds@[0]) == e,
        front_end_accepts(file.text@) && (forall|t: TModule|
            #[trigger] front_end_yields(file.text@, t) ==> eval_txns_spec(
                t.txns@,
                t.accounts@,
                t.currencies@,
                t.rates@,
            ).0.len() == 0) ==> r is Ok,
        r matches Err(ds) ==> front_end_rejects(file.text@, ds@) || exists|t: TModule, us: Seq<Diagnostic>|
            #![trigger front_end_yields(file.text@, t), us.to_multiset()]
            {
                &&& front_end_yields(file.text@, t)
                &&& us.to_multiset() == ds@.to_multiset()
                &&& code_spans(us) == eval_txns_spec(t.txns@, t.accounts@, t.currencies@, t.rates@).0
            },
{
    let typed = match compile_typed(file) {
        Ok(typed) => typed,
        Err(diags) => {
            return Err(diags);
        },
    };
    let (ledger, diags) = crate::eval::eval(&typed);
    let ledger = match ledger {
        Some(ledger) => ledger,
        None => {
            let ghost us = diags@;
            let ds = sorted(diags);
            proof {
                assert(front_end_yields(file.text@, typed));
                assert(code_spans(us) == us.map_values(|d: Diagnostic| (d.code, d.span)));
                assert(us.to_multiset() == ds@.to_multiset());
            }
            return Err(ds);
        },
    };
    let s = crate::render::render_trial_balance(&typed, &ledger);
    proof {
        assert(front_end_yields(file.text@, typed));
    }
    Ok(s)
}

/// Money is linear in every program the front end accepts: each transaction of the
/// typed module, walked from no live bindings, only ever consumes a value that is live
/// and of the right kind (money where money is expected, a conversion residue where a
/// residue is), and ends with no value left live. So every value a transaction binds
/// is consumed exactly once.
pub proof fn lemma_accepted_txns_are_linear(text: Seq<char>, t: TModule)
    requires
        front_end_yields(text, t),
        byte_len(text) + 2 <= u32::MAX,
    ensures
        forall|i: int|
            0 <= i < t.txns@.len() ==> tstmts_ok(
                #[trigger] t.txns@[i].stmts@,
                Map::empty(),
                t.accounts@.len(),
                t.currencies@.len(),
                t.rates@.len(),
            ) == Some(Map::<SymbolId, BindingKind>::empty()),
{
    let (tokens, m, order, r) = choose|tokens: Seq<Token>, m: ast::Module, order: Seq<DeclKind>, r: ResolvedModule|
        #![trigger module_parsed_as(tokens, m, order), resolved_from(r, m)]
        {
            &&& spec_lex(text) == Ok::<_, crate::lex::LexError>(tokens_view(tokens))
            &&& module_parsed_as(tokens, m, order)
            &&& resolve_ok(m)
            &&& resolved_from(r, m)
            &&& typeck_ok(r)
            &&& typed_from(t, r)
        };
    lemma_lex_from_len(text, 0);
    lemma_byte_len_le(text);
    assert(tokens_view(tokens).len() == tokens.len());
    lemma_parsed_module_sizes(tokens, m, order);
    lemma_resolved_ids_ok(r, m);
    lemma_resolved_well_scoped(r, m);
    lemma_typed_txn_is_linear(r, t);
}

/// Debits and credits agree: when a program the front end accepts makes no currency
/// conversion and runs without a diagnostic, the balances of the accounts of each
/// currency sum to zero, and so do all balances together — every amount credited out
/// of one account was debited into another account of the same currency.
pub proof fn lemma_accepted_runs_balance(text: Seq<char>, t: TModule, c: CurrencyId)
    requires
        front_end_yields(text, t),
        byte_len(text) + 2 <= u32::MAX,
        forall|i: int| 0 <= i < t.txns@.len() ==> conversion_free(#[trigger] t.txns@[i].stmts@),
        eval_txns_spec(t.txns@, t.accounts@, t.currencies@, t.rates@).0.len() == 0,
    ensures
        ledger_total_in(eval_txns_spec(t.txns@, t.accounts@, t.currencies@, t.rates@).1, t.accounts@, c)
            == 0,
        ledger_total(eval_txns_spec(t.txns@, t.accounts@, t.currencies@, t.rates@).1) == 0,
        eval_txns_spec(t.txns@, t.accounts@, t.currencies@, t.rates@).1.dom().finite(),
{
    let (tokens, m, order, r) = choose|tokens: Seq<Token>, m: ast::Module, order: Seq<DeclKind>, r: ResolvedModule|
        #![trigger module_parsed_as(tokens, m, order), resolved_from(r, m)]
        {
            &&& spec_lex(text) == Ok::<_, crate::lex::LexError>(tokens_view(tokens))
            &&& module_parsed_as(tokens, m, order)
            &&& resolve_ok(m)
            &&& resolved_from(r, m)
            &&& typeck_ok(r)
            &&& typed_from(t, r)
        };
    lemma_lex_from_len(text, 0);
    lemma_byte_len_le(text);
    assert(tokens_view(tokens).len() == tokens.len());
    lemma_parsed_module_sizes(tokens, m, order);
    lemma_resolved_ids_ok(r, m);
    lemma_resolved_well_scoped(r, m);
    lemma_resolved_binds_once(r, m);
    lemma_resolved_paths_unique(r, m);
    lemma_typed_txn_is_linear(r, t);
    lemma_typed_binds_once(r, t);
    lemma_typed_txn_currencies_agree(r, t);
    lemma_balanced_run(t.txns@, t.accounts@, t.currencies@, t.rates@);
    lemma_balanced_run_in(t.txns@, t.accounts@, t.currencies@, t.rates@, c);
}

/// The trial balance balances: when a program the front end accepts makes no currency
/// conversion and runs without a diagnostic, every currency's section of the report
/// shows a debit total equal to its credit total.
pub proof fn lemma_accepted_reports_balance(text: Seq<char>, t: TModule, idx: nat)
    requires
        front_end_yields(text, t),
        byte_len(text) + 2 <= u32::MAX,
        forall|i: int| 0 <= i < t.txns@.len() ==> conversion_free(#[trigger] t.txns@[i].stmts@),
        eval_txns_spec(t.txns@, t.accounts@, t.currencies@, t.rates@).0.len() == 0,
        idx < t.currencies@.len(),
    ensures
        ({
            let l = eval_txns_spec(t.txns@, t.accounts@, t.currencies@, t.rates@).1;
            entries_total(side_entries(t.accounts@, l, idx, NormalBalance::Debit, 5)) == entries_total(
                side_entries(t.accounts@, l, idx, NormalBalance::Credit, 5),
            )
        }),
{
    let (tokens, m, order, r) = choose|tokens: Seq<Token>, m: ast::Module, order: Seq<DeclKind>, r: ResolvedModule|
        #![trigger module_parsed_as(tokens, m, order), resolved_from(r, m)]
        {
            &&& spec_lex(text) == Ok::<_, crate::lex::LexError>(tokens_view(tokens))
            &&& module_parsed_as(tokens, m, order)
            &&& resolve_ok(m)
            &&& resolved_from(r, m)
            &&& typeck_ok(r)
            &&& typed_from(t, r)
        };
    lemma_lex_from_len(text, 0);
    lemma_byte_len_le(text);
    assert(tokens_view(tokens).len() == tokens.len());
    lemma_parsed_module_sizes(tokens, m, order);
    crate::typeck::lemma_kept_currencies_len(m.currencies@);
    let c = CurrencyId(idx as u32);
    lemma_accepted_runs_balance(text, t, c);
    lemma_resolved_paths_unique(r, m);
    let l = eval_txns_spec(t.txns@, t.accounts@, t.currencies@, t.rates@).1;
    lemma_typed_txn_is_linear_ok(t);
    lemma_run_keys(t.txns@, t.accounts@, t.currencies@, t.rates@);
    lemma_posted_is_ledger_total(t.accounts@, l, idx);
    lemma_side_total(t.accounts@, l, idx, NormalBalance::Debit);
    lemma_side_total(t.accounts@, l, idx, NormalBalance::Credit);
    lemma_sides_difference(t.accounts@, l, idx);
}

/// A typed module's bodies walk cleanly.
proof fn lemma_typed_txn_is_linear_ok(t: TModule)
    requires
        crate::typeck::tmodule_ok(t),
    ensures
        forall|i: int|
            0 <= i < t.txns@.len() ==> tstmts_ok(
                #[trigger] t.txns@[i].stmts@,
                Map::empty(),
                t.accounts@.len(),
                t.currencies@.len(),
                t.rates@.len(),
            ) is Some,
{
}

} // verus!
