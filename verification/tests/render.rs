use balanc::eval::eval;
use balanc::lex::lex;
use balanc::parse::parse;
use balanc::render::render_trial_balance;
use balanc::resolve::resolve;
use balanc::typeck::typeck;

fn render_src(src: &str) -> String {
    let (tokens, _) = lex(src);
    let (module, _) = parse(&tokens.unwrap());
    let (resolved, _) = resolve(module.unwrap());
    let (typed, diags) = typeck(resolved.unwrap());
    assert!(diags.is_empty(), "typeck failed: {diags:?}");
    let typed = typed.unwrap();
    let (ledger, diags) = eval(&typed);
    assert!(diags.is_empty(), "eval failed: {diags:?}");
    render_trial_balance(&typed, &ledger.unwrap())
}

#[test]
fn balanced_ledger_totals_to_zero() {
    let report = render_src(
        r#"currency ETB { scale = 2 }
           account assets:cash { currency = ETB, kind = asset, normal = debit }
           account expenses:coffee { currency = ETB, kind = expense, normal = debit }
           txn "coffee" { debit(expenses:coffee, credit(assets:cash, 45.00)); }"#,
    );
    assert!(report.contains("Trial Balance (ETB)"));
    assert!(report.contains("assets:cash"));
    assert!(report.contains("expenses:coffee"));
    assert_line_words(&report, "Debit total", &["Debit", "total", "0.00"]);
    assert_line_words(&report, "Credit total", &["Credit", "total", "0.00"]);
}

#[test]
fn multi_currency_ledger_prints_one_section_per_currency() {
    let report = render_src(
        r#"currency ETB { scale = 2 }
           currency USD { scale = 2 }
           account assets:etb_cash { currency = ETB, kind = asset, normal = debit }
           account expenses:coffee { currency = ETB, kind = expense, normal = debit }
           account assets:usd_cash { currency = USD, kind = asset, normal = debit }
           account expenses:software { currency = USD, kind = expense, normal = debit }
           txn "coffee" { debit(expenses:coffee, credit(assets:etb_cash, 45.00)); }
           txn "saas" { debit(expenses:software, credit(assets:usd_cash, 10.00)); }"#,
    );
    assert!(report.contains("Trial Balance (ETB)"));
    assert!(report.contains("Trial Balance (USD)"));
    let etb_section = report.split("Trial Balance (USD)").next().unwrap();
    assert!(etb_section.contains("assets:etb_cash"));
    assert!(!etb_section.contains("usd_cash"));
}

#[test]
fn scale_zero_currency_prints_without_a_decimal_point() {
    let report = render_src(
        r#"currency JPY { scale = 0 }
           account assets:cash { currency = JPY, kind = asset, normal = debit }
           account expenses:coffee { currency = JPY, kind = expense, normal = debit }
           txn "coffee" { debit(expenses:coffee, credit(assets:cash, 500)); }"#,
    );
    assert!(report.contains("500"));
    assert!(!report.contains("500.0"));
}

#[test]
fn credit_normal_accounts_display_flipped_and_grouped_after_debit_normal_ones() {
    // Owner contributes capital: crediting equity (money exits that account, the
    // only way to introduce money) produces the cash that gets debited into assets.
    // Raw balances: equity:owner_capital = -1000.00, assets:cash = +1000.00. equity
    // is credit-normal, so its displayed balance flips to +1000.00: both sides read
    // as the conventional "increased by 1000" a trial balance shows, and land in the
    // "Debit total" and "Credit total" subtotals respectively.
    let report = render_src(
        r#"currency ETB { scale = 2 }
           account assets:cash { currency = ETB, kind = asset, normal = debit }
           account equity:owner_capital { currency = ETB, kind = equity, normal = credit }
           txn "capital" {
               let m = credit(equity:owner_capital, 1000.00);
               debit(assets:cash, m);
           }"#,
    );
    let cash_line =
        report.lines().find(|l| l.contains("assets:cash")).expect("cash line present");
    assert!(cash_line.trim_end().ends_with("1000.00"), "{cash_line}");
    let equity_line = report
        .lines()
        .find(|l| l.contains("equity:owner_capital"))
        .expect("equity line present");
    assert!(equity_line.trim_end().ends_with("1000.00"), "{equity_line}");
    // Asset (debit-normal) is listed before equity (credit-normal).
    assert!(report.find("assets:cash").unwrap() < report.find("equity:owner_capital").unwrap());
    assert_line_words(&report, "Debit total", &["Debit", "total", "1000.00"]);
    assert_line_words(&report, "Credit total", &["Credit", "total", "1000.00"]);
}

/// Finds the (unique) line starting with `label` and asserts its whitespace-split
/// words equal `expected` — avoids hardcoding this format's column widths in tests.
fn assert_line_words(report: &str, label: &str, expected: &[&str]) {
    let line = report
        .lines()
        .find(|l| l.trim_start().starts_with(label))
        .unwrap_or_else(|| panic!("no line starting with {label:?} in:\n{report}"));
    let words: Vec<&str> = line.split_whitespace().collect();
    assert_eq!(words, expected, "line: {line:?}");
}
