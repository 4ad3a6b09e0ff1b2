# balanc

A statically typed language for double-entry bookkeeping, in which the ledger
invariants are enforced by the type system: money is a linear resource (every value
is consumed exactly once), it is parameterized by currency, and a transaction whose
debits and credits do not agree does not compile.

The compiler, the interpreter and the JVM class-file backend are written in Verus and
verified against their contracts.

## Layout

```
src/lex        source text -> tokens (`spec_lex`)
src/parse      tokens -> AST (`module_parsed_as`: the grammar as token patterns)
src/resolve    AST -> resolved module: names to ids (`resolved_from`)
src/typeck     resolved module -> typed module; the linear, currency-indexed type system
src/eval       typed module -> ledger (`eval_txns_spec`); `eval/conservation.rs`
src/render     ledger -> trial balance text (`report_text`)
src/diag       diagnostics: rendering, JSON, ordering
src/backend    typed module -> JVM class-file bytes (`compile_spec`)
src/lib.rs     the pipeline (`compile_typed`, `run`) and the laws over it
app/           the `balanc` command-line program
tests/         tests of the library
```

## What is proved about accepted programs

- `lemma_accepted_txns_are_linear`: every transaction of a program the front end
  accepts consumes each value it binds exactly once, and only consumes live values of
  the right kind.
- `typeck::lemma_typed_txn_currencies_agree`: in a typed module, `merge` only joins
  values of one currency, and debits, absorbs and conversions respect the currencies
  of their accounts and rates.
- `lemma_accepted_runs_balance`: a conversion-free program that runs without a
  diagnostic leaves the balances of each currency summing to zero.
- `lemma_accepted_reports_balance`: for such a program, every currency section of the
  trial balance shows equal debit and credit totals.
