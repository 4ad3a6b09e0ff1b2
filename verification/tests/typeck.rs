use balanc::diag::{Code, Diagnostic};
use balanc::lex::lex;
use balanc::parse::parse;
use balanc::resolve::resolve;
use balanc::typeck::{typeck, TModule, TMoneyExpr, TStmt};

const PRELUDE: &str = r#"
    currency ETB { scale = 2 }
    currency USD { scale = 2 }
    account assets:cash { currency = ETB, kind = asset, normal = debit }
    account assets:usd_cash { currency = USD, kind = asset, normal = debit }
    account expenses:coffee { currency = ETB, kind = expense, normal = debit }
    account expenses:a { currency = ETB, kind = expense, normal = debit }
    account expenses:b { currency = ETB, kind = expense, normal = debit }
"#;

const FX_PRELUDE: &str = r#"
    currency USD { scale = 2 }
    currency ETB { scale = 2 }
    account assets:usd_cash { currency = USD, kind = asset, normal = debit }
    account assets:etb_cash { currency = ETB, kind = asset, normal = debit }
    account income:fx_rounding { currency = ETB, kind = income, normal = credit }
    rate usd_etb from USD to ETB = 57.20 round down;
"#;

fn typeck_src(src: &str) -> (Option<TModule>, Vec<Diagnostic>) {
    typeck_src_no_prelude(&format!("{PRELUDE} {src}"))
}

fn typeck_src_no_prelude(src: &str) -> (Option<TModule>, Vec<Diagnostic>) {
    let (tokens, _) = lex(src);
    let (module, _) = parse(&tokens.unwrap());
    let (resolved, diags) = resolve(module.unwrap());
    assert!(diags.is_empty(), "resolve failed: {diags:?}");
    typeck(resolved.unwrap())
}

#[test]
fn well_formed_transaction_typechecks() {
    let (module, diags) = typeck_src(
        r#"txn "coffee" { let m = credit(assets:cash, 45.00); debit(expenses:coffee, m); }"#,
    );
    assert!(diags.is_empty());
    assert!(module.is_some());
}

#[test]
fn dropped_value_is_reported_at_its_binding() {
    let (module, diags) =
        typeck_src(r#"txn "coffee" { let m = credit(assets:cash, 45.00); }"#);
    assert!(module.is_none());
    assert_eq!(diags.len(), 1);
    assert_eq!(diags[0].code, Code::Dropped);
}

#[test]
fn reused_value_is_reported_with_both_spans() {
    let (module, diags) = typeck_src(
        r#"txn "coffee" {
            let m = credit(assets:cash, 45.00);
            debit(expenses:a, m);
            debit(expenses:b, m);
        }"#,
    );
    assert!(module.is_none());
    assert_eq!(diags.len(), 1);
    assert_eq!(diags[0].code, Code::Reused);
    assert_eq!(diags[0].secondary.len(), 1);
    assert_eq!(diags[0].secondary[0].0, "first consumed here");
}

#[test]
fn inline_credit_in_a_debit_needs_no_binding() {
    let (module, diags) =
        typeck_src(r#"txn "coffee" { debit(expenses:coffee, credit(assets:cash, 45.00)); }"#);
    assert!(diags.is_empty());
    assert!(module.is_some());
}

#[test]
fn currency_mismatch_is_reported_with_both_spans() {
    let (module, diags) = typeck_src(
        r#"txn "t" {
            let m = credit(assets:usd_cash, 45.00);
            debit(expenses:coffee, m);
        }"#,
    );
    assert!(module.is_none());
    assert_eq!(diags.len(), 1);
    assert_eq!(diags[0].code, Code::CurrencyMismatch);
    assert_eq!(diags[0].secondary.len(), 1);
    assert_eq!(diags[0].secondary[0].0, "this value's currency was established here");
}

#[test]
fn too_many_fraction_digits_for_currency_scale_is_reported() {
    let (module, diags) = typeck_src_no_prelude(
        r#"currency JPY { scale = 0 }
           account assets:cash { currency = JPY, kind = asset, normal = debit }
           account expenses:coffee { currency = JPY, kind = expense, normal = debit }
           txn "t" { debit(expenses:coffee, credit(assets:cash, 45.50)); }"#,
    );
    assert!(module.is_none());
    assert_eq!(diags.len(), 1);
    assert_eq!(diags[0].code, Code::TooManyFractionDigits);
}

#[test]
fn amount_too_large_to_represent_is_reported() {
    // A literal of a valid shape can still be too large for an `i64`: that is a
    // diagnostic, not a panic.
    let (module, diags) = typeck_src_no_prelude(&format!(
        r#"currency JPY {{ scale = 0 }}
           account assets:cash {{ currency = JPY, kind = asset, normal = debit }}
           account expenses:coffee {{ currency = JPY, kind = expense, normal = debit }}
           txn "t" {{ debit(expenses:coffee, credit(assets:cash, {})); }}"#,
        "9".repeat(30)
    ));
    assert!(module.is_none());
    assert_eq!(diags.len(), 1);
    assert_eq!(diags[0].code, Code::AmountOutOfRange);
}

fn fx_src(src: &str) -> (Option<TModule>, Vec<Diagnostic>) {
    typeck_src_no_prelude(&format!("{FX_PRELUDE} {src}"))
}

#[test]
fn well_formed_convert_and_absorb_typechecks() {
    let (module, diags) = fx_src(
        r#"txn "fx" {
            let m = credit(assets:usd_cash, 100.00);
            let (m2, r) = convert(m, usd_etb);
            debit(assets:etb_cash, m2);
            absorb(r, income:fx_rounding);
        }"#,
    );
    assert!(diags.is_empty(), "{diags:?}");
    assert!(module.is_some());
}

#[test]
fn dropped_residue_is_reported() {
    let (module, diags) = fx_src(
        r#"txn "fx" {
            let m = credit(assets:usd_cash, 100.00);
            let (m2, r) = convert(m, usd_etb);
            debit(assets:etb_cash, m2);
        }"#,
    );
    assert!(module.is_none());
    assert_eq!(diags.len(), 1);
    assert_eq!(diags[0].code, Code::Dropped);
}

#[test]
fn convert_with_wrong_currency_money_is_reported() {
    let (module, diags) = fx_src(
        r#"txn "fx" {
            let m = credit(assets:etb_cash, 100.00);
            let (m2, r) = convert(m, usd_etb);
            debit(assets:etb_cash, m2);
            absorb(r, income:fx_rounding);
        }"#,
    );
    assert!(module.is_none());
    assert_eq!(diags.len(), 1);
    assert_eq!(diags[0].code, Code::CurrencyMismatch);
}

#[test]
fn debiting_a_residue_is_reported() {
    let (module, diags) = fx_src(
        r#"txn "fx" {
            let m = credit(assets:usd_cash, 100.00);
            let (m2, r) = convert(m, usd_etb);
            debit(assets:etb_cash, m2);
            debit(income:fx_rounding, r);
        }"#,
    );
    assert!(module.is_none());
    assert_eq!(diags.len(), 1);
    assert_eq!(diags[0].code, Code::ExpectedMoney);
}

#[test]
fn absorbing_money_is_reported() {
    let (module, diags) = fx_src(
        r#"txn "fx" {
            let m = credit(assets:usd_cash, 100.00);
            let (m2, r) = convert(m, usd_etb);
            absorb(m2, income:fx_rounding);
            absorb(r, income:fx_rounding);
        }"#,
    );
    assert!(module.is_none());
    assert_eq!(diags.len(), 1);
    assert_eq!(diags[0].code, Code::ExpectedResidue);
}

#[test]
fn well_formed_split_typechecks() {
    let (module, diags) = typeck_src(
        r#"txn "t" {
            let m = credit(assets:cash, 45.00);
            let (a, b) = split(m, 20.00);
            debit(expenses:a, a);
            debit(expenses:b, b);
        }"#,
    );
    assert!(diags.is_empty(), "{diags:?}");
    assert!(module.is_some());
}

#[test]
fn dropping_one_half_of_a_split_is_reported() {
    let (module, diags) = typeck_src(
        r#"txn "t" {
            let m = credit(assets:cash, 45.00);
            let (a, b) = split(m, 20.00);
            debit(expenses:a, a);
        }"#,
    );
    assert!(module.is_none());
    assert_eq!(diags.len(), 1);
    assert_eq!(diags[0].code, Code::Dropped);
}

#[test]
fn well_formed_split_ratio_typechecks() {
    let (module, diags) = typeck_src(
        r#"txn "t" {
            let m = credit(assets:cash, 45.00);
            let (a, b) = split_ratio(m, 1, 2);
            debit(expenses:a, a);
            debit(expenses:b, b);
        }"#,
    );
    assert!(diags.is_empty(), "{diags:?}");
    assert!(module.is_some());
}

#[test]
fn split_ratio_with_both_weights_zero_is_reported() {
    let (module, diags) = typeck_src(
        r#"txn "t" {
            let m = credit(assets:cash, 45.00);
            let (a, b) = split_ratio(m, 0, 0);
            debit(expenses:a, a);
            debit(expenses:b, b);
        }"#,
    );
    assert!(module.is_none());
    assert_eq!(diags.len(), 1);
    assert_eq!(diags[0].code, Code::ZeroRatio);
}

#[test]
fn well_formed_merge_typechecks() {
    let (module, diags) = typeck_src(
        r#"txn "t" {
            let a = credit(assets:cash, 20.00);
            let b = credit(assets:cash, 25.00);
            debit(expenses:coffee, merge(a, b));
        }"#,
    );
    assert!(diags.is_empty(), "{diags:?}");
    assert!(module.is_some());
}

#[test]
fn merging_a_value_with_itself_is_reported_as_reused() {
    let (module, diags) = typeck_src(
        r#"txn "t" {
            let m = credit(assets:cash, 20.00);
            debit(expenses:coffee, merge(m, m));
        }"#,
    );
    assert!(module.is_none());
    assert_eq!(diags.len(), 1);
    assert_eq!(diags[0].code, Code::Reused);
}

#[test]
fn merging_different_currencies_is_reported() {
    let (module, diags) = typeck_src(
        r#"txn "t" {
            let a = credit(assets:cash, 20.00);
            let b = credit(assets:usd_cash, 20.00);
            debit(expenses:coffee, merge(a, b));
        }"#,
    );
    assert!(module.is_none());
    assert_eq!(diags.len(), 1);
    assert_eq!(diags[0].code, Code::CurrencyMismatch);
}
