use balanc::diag::{sort_by_span, Code, Diagnostic};
use balanc::eval::{eval, split_ratio};
use balanc::amount::Amount;
use balanc::span::{SourceFile, Span};
use balanc::typeck::TStmt;
use balanc::{compile_typed, run};

const PRELUDE: &str = r#"
    currency ETB { scale = 2 }
    account assets:cash { currency = ETB, kind = asset, normal = debit }
    account expenses:a { currency = ETB, kind = expense, normal = debit }
    account expenses:b { currency = ETB, kind = expense, normal = debit }
"#;

fn file(body: &str) -> SourceFile {
    SourceFile::new("t.bal".to_string(), format!("{PRELUDE} {body}"))
}

#[test]
fn accepted_program_consumes_every_binding_once() {
    let f = file(
        r#"txn "lunch" {
            let m = credit(assets:cash, 10.00);
            let (a, b) = split_ratio(m, 1, 1);
            debit(expenses:a, a);
            debit(expenses:b, b);
        }"#,
    );
    let typed = compile_typed(&f).expect("program compiles");
    assert_eq!(typed.txns.len(), 1);
    let stmts = &typed.txns[0].stmts;
    assert_eq!(stmts.len(), 4);
    assert!(matches!(stmts[0], TStmt::Let { .. }));
    assert!(matches!(stmts[1], TStmt::SplitRatio { .. }));
    assert!(matches!(stmts[2], TStmt::Debit { .. }));
    assert!(matches!(stmts[3], TStmt::Debit { .. }));
}

#[test]
fn dropping_half_of_a_split_is_refused_by_the_pipeline() {
    let f = file(
        r#"txn "lunch" {
            let m = credit(assets:cash, 10.00);
            let (a, b) = split_ratio(m, 1, 1);
            debit(expenses:a, a);
        }"#,
    );
    let diags = compile_typed(&f).err().expect("program is refused");
    assert_eq!(diags.len(), 1);
    assert_eq!(diags[0].code, Code::Dropped);
}

#[test]
fn consuming_a_value_twice_is_refused_by_the_pipeline() {
    let f = file(
        r#"txn "twice" {
            let m = credit(assets:cash, 10.00);
            debit(expenses:a, m);
            debit(expenses:b, m);
        }"#,
    );
    let diags = compile_typed(&f).err().expect("program is refused");
    assert!(diags.iter().any(|d| d.code == Code::Reused));
}

#[test]
fn run_balances_a_split_exactly() {
    let f = file(
        r#"txn "lunch" {
            let m = credit(assets:cash, 10.01);
            let (a, b) = split_ratio(m, 1, 1);
            debit(expenses:a, a);
            debit(expenses:b, b);
        }"#,
    );
    let report = run(&f).expect("program runs");
    assert!(report.contains("5.01"), "{report}");
    assert!(report.contains("5.00"), "{report}");
    assert!(report.contains("10.01"), "{report}");
}

#[test]
fn run_reports_lex_errors_alone() {
    let f = SourceFile::new("t.bal".to_string(), "currency ETB { scale = 2 } @".to_string());
    let diags = run(&f).err().expect("program is refused");
    assert_eq!(diags.len(), 1);
}

#[test]
fn pipeline_errors_come_back_sorted_by_span() {
    let f = file(
        r#"txn "one" { let m = credit(assets:cash, 1.00); }
           txn "two" { let n = credit(assets:cash, 1.00); }"#,
    );
    let diags = compile_typed(&f).err().expect("program is refused");
    assert_eq!(diags.len(), 2);
    assert!(diags[0].span.lo <= diags[1].span.lo);
}

#[test]
fn split_ratio_parts_always_sum_to_the_total() {
    for total in [-1001i64, -7, -1, 0, 1, 7, 100, 1001, 999_999] {
        for (aw, bw) in [(1u32, 1u32), (1, 2), (3, 7), (0, 5), (5, 0), (2, 2)] {
            let (a, b) = split_ratio(Amount::from_cents(total), aw, bw);
            assert_eq!(a.cents() + b.cents(), total, "{total} {aw}:{bw}");
        }
    }
}

#[test]
fn split_ratio_exact_values() {
    let (a, b) = split_ratio(Amount::from_cents(1001), 1, 1);
    assert_eq!((a.cents(), b.cents()), (501, 500));
    let (a, b) = split_ratio(Amount::from_cents(100), 1, 2);
    assert_eq!((a.cents(), b.cents()), (33, 67));
}

#[test]
fn sort_by_span_keeps_equal_spans_in_their_input_order() {
    let mut diags = vec![
        Diagnostic::new(Code::Dropped, "third", Span::new(9, 10)),
        Diagnostic::new(Code::Dropped, "first", Span::new(2, 3)),
        Diagnostic::new(Code::Reused, "second", Span::new(2, 3)),
        Diagnostic::new(Code::Dropped, "zeroth", Span::new(0, 1)),
    ];
    sort_by_span(&mut diags);
    let messages: Vec<&str> = diags.iter().map(|d| d.message.as_str()).collect();
    assert_eq!(messages, vec!["zeroth", "first", "second", "third"]);
}

#[test]
fn a_conversion_free_run_leaves_balances_summing_to_zero() {
    let f = file(
        r#"txn "one" {
            let m = credit(assets:cash, 10.01);
            let (a, b) = split_ratio(m, 2, 3);
            let (c, d) = split(a, 1.00);
            debit(expenses:a, merge(c, b));
            debit(expenses:b, d);
        }
        txn "two" { debit(expenses:b, credit(assets:cash, 0.99)); }"#,
    );
    let typed = compile_typed(&f).expect("program compiles");
    let (ledger, diags) = eval(&typed);
    assert!(diags.is_empty());
    let ledger = ledger.unwrap();
    let total: i64 = ["assets:cash", "expenses:a", "expenses:b"]
        .iter()
        .map(|p| ledger.get(p).map(|a| a.cents()).unwrap_or(0))
        .sum();
    assert_eq!(total, 0);
    assert_eq!(ledger.get("assets:cash").unwrap().cents(), -1100);
}

#[test]
fn each_currency_balances_on_its_own() {
    let text = r#"
        currency ETB { scale = 2 }
        currency USD { scale = 2 }
        account assets:cash { currency = ETB, kind = asset, normal = debit }
        account assets:usd { currency = USD, kind = asset, normal = debit }
        account expenses:food { currency = ETB, kind = expense, normal = debit }
        account expenses:travel { currency = USD, kind = expense, normal = debit }
        txn "food" { debit(expenses:food, credit(assets:cash, 12.50)); }
        txn "trip" {
            let (a, b) = split(credit(assets:usd, 30.00), 10.00);
            debit(expenses:travel, merge(a, b));
        }
    "#;
    let f = SourceFile::new("t.bal".to_string(), text.to_string());
    let typed = compile_typed(&f).expect("program compiles");
    let (ledger, diags) = eval(&typed);
    assert!(diags.is_empty());
    let ledger = ledger.unwrap();
    let cents = |p: &str| ledger.get(p).map(|a| a.cents()).unwrap_or(0);
    assert_eq!(cents("assets:cash") + cents("expenses:food"), 0);
    assert_eq!(cents("assets:usd") + cents("expenses:travel"), 0);
    assert_eq!(cents("expenses:travel"), 3000);
}

#[test]
fn each_report_section_shows_equal_debit_and_credit_totals() {
    let text = r#"
        currency ETB { scale = 2 }
        currency USD { scale = 2 }
        account assets:cash { currency = ETB, kind = asset, normal = debit }
        account income:sales { currency = ETB, kind = income, normal = credit }
        account expenses:food { currency = ETB, kind = expense, normal = debit }
        account assets:usd { currency = USD, kind = asset, normal = debit }
        account equity:owner { currency = USD, kind = equity, normal = credit }
        txn "sale" { debit(assets:cash, credit(income:sales, 80.00)); }
        txn "lunch" { debit(expenses:food, credit(assets:cash, 12.25)); }
        txn "capital" { debit(assets:usd, credit(equity:owner, 500.00)); }
    "#;
    let f = SourceFile::new("t.bal".to_string(), text.to_string());
    let report = run(&f).expect("program runs");
    let totals = |label: &str| -> Vec<String> {
        report
            .lines()
            .filter(|l| l.trim_start().starts_with(label))
            .map(|l| l.split_whitespace().last().unwrap().to_string())
            .collect()
    };
    let debits = totals("Debit total");
    let credits = totals("Credit total");
    assert_eq!(debits.len(), 2, "{report}");
    assert_eq!(debits, credits, "{report}");
    assert_eq!(debits, vec!["80.00".to_string(), "500.00".to_string()], "{report}");
}
