use balanc::diag::{Code, Diagnostic};
use balanc::lex::lex;
use balanc::parse::parse;
use balanc::resolve::{resolve, ResolvedModule, ResolvedMoneyExpr, ResolvedStmt};

fn resolve_src(src: &str) -> (Option<ResolvedModule>, Vec<Diagnostic>) {
    let (tokens, _) = lex(src);
    let (module, _) = parse(&tokens.unwrap());
    resolve(module.unwrap())
}

const PRELUDE: &str = r#"
    currency ETB { scale = 2 }
    account assets:cash { currency = ETB, kind = asset, normal = debit }
    account expenses:coffee { currency = ETB, kind = expense, normal = debit }
    account expenses:a { currency = ETB, kind = expense, normal = debit }
    account expenses:b { currency = ETB, kind = expense, normal = debit }
"#;

#[test]
fn resolves_let_and_var() {
    let (module, diags) = resolve_src(&format!(
        r#"{PRELUDE} txn "coffee" {{ let m = credit(assets:cash, 45.00); debit(expenses:coffee, m); }}"#
    ));
    assert!(diags.is_empty(), "{diags:?}");
    let module = module.unwrap();
    let ResolvedStmt::Let { symbol: bound, .. } = &module.txns[0].stmts[0] else {
        panic!("expected a let");
    };
    let ResolvedStmt::Debit { value: ResolvedMoneyExpr::Var { symbol: used, .. }, .. } =
        &module.txns[0].stmts[1]
    else {
        panic!("expected a debit of a variable");
    };
    assert_eq!(bound, used);
}

#[test]
fn unbound_name_is_reported() {
    let (module, diags) =
        resolve_src(&format!(r#"{PRELUDE} txn "coffee" {{ debit(expenses:coffee, m); }}"#));
    assert!(module.is_none());
    assert_eq!(diags[0].code, Code::UnboundName);
}

#[test]
fn shadowing_reuses_the_name_for_later_references() {
    let (module, diags) = resolve_src(&format!(
        r#"{PRELUDE} txn "t" {{
            let m = credit(assets:cash, 10.00);
            let m = credit(assets:cash, 20.00);
            debit(expenses:a, m);
        }}"#
    ));
    assert!(diags.is_empty(), "{diags:?}");
    let module = module.unwrap();
    let ResolvedStmt::Let { symbol: second, .. } = &module.txns[0].stmts[1] else {
        panic!("expected the second let");
    };
    let ResolvedStmt::Debit { value: ResolvedMoneyExpr::Var { symbol: used, .. }, .. } =
        &module.txns[0].stmts[2]
    else {
        panic!("expected a debit of a variable");
    };
    assert_eq!(second, used, "debit should resolve to the second (shadowing) binding");
}

#[test]
fn undeclared_account_is_reported() {
    let (module, diags) = resolve_src(
        r#"currency ETB { scale = 2 }
           txn "coffee" { debit(expenses:coffee, credit(assets:cash, 45.00)); }"#,
    );
    assert!(module.is_none());
    assert_eq!(diags[0].code, Code::UndeclaredAccount);
}

#[test]
fn account_naming_unknown_currency_is_reported() {
    let (module, diags) = resolve_src(
        r#"account assets:cash { currency = USD, kind = asset, normal = debit } txn "t" { }"#,
    );
    assert!(module.is_none());
    assert_eq!(diags[0].code, Code::UnknownCurrency);
}

#[test]
fn account_naming_unknown_kind_is_reported() {
    let (module, diags) = resolve_src(
        r#"currency ETB { scale = 2 }
           account assets:cash { currency = ETB, kind = bogus, normal = debit }
           txn "t" { }"#,
    );
    assert!(module.is_none());
    assert_eq!(diags[0].code, Code::UnknownAccountKind);
}

#[test]
fn duplicate_currency_is_reported() {
    let (module, diags) = resolve_src(
        r#"currency ETB { scale = 2 }
           currency ETB { scale = 0 }
           txn "t" { }"#,
    );
    assert!(module.is_none());
    assert_eq!(diags[0].code, Code::DuplicateCurrency);
}

#[test]
fn duplicate_account_is_reported() {
    let (module, diags) = resolve_src(
        r#"currency ETB { scale = 2 }
           account assets:cash { currency = ETB, kind = asset, normal = debit }
           account assets:cash { currency = ETB, kind = asset, normal = debit }
           txn "t" { }"#,
    );
    assert!(module.is_none());
    assert_eq!(diags[0].code, Code::DuplicateAccount);
}

const FX_PRELUDE: &str = r#"
    currency USD { scale = 2 }
    currency ETB { scale = 2 }
    account assets:usd_cash { currency = USD, kind = asset, normal = debit }
    account assets:etb_cash { currency = ETB, kind = asset, normal = debit }
    account income:fx_rounding { currency = ETB, kind = income, normal = credit }
    rate usd_etb from USD to ETB = 57.20 round down;
"#;

#[test]
fn resolves_convert_and_absorb() {
    let (module, diags) = resolve_src(&format!(
        r#"{FX_PRELUDE} txn "fx" {{
            let m = credit(assets:usd_cash, 100.00);
            let (m2, r) = convert(m, usd_etb);
            debit(assets:etb_cash, m2);
            absorb(r, income:fx_rounding);
        }}"#
    ));
    assert!(diags.is_empty(), "{diags:?}");
    let module = module.unwrap();
    assert_eq!(module.rates.len(), 1);
    let stmts = &module.txns[0].stmts;
    let ResolvedStmt::Convert { primary, residual, .. } = &stmts[1] else {
        panic!("expected a convert statement");
    };
    let ResolvedStmt::Debit { value: ResolvedMoneyExpr::Var { symbol: debited, .. }, .. } =
        &stmts[2]
    else {
        panic!("expected a debit of a variable");
    };
    assert_eq!(primary, debited);
    let ResolvedStmt::Absorb { residue, .. } = &stmts[3] else {
        panic!("expected an absorb statement");
    };
    assert_eq!(residual, residue);
}

#[test]
fn undeclared_rate_is_reported() {
    let (module, diags) = resolve_src(&format!(
        r#"{FX_PRELUDE} txn "fx" {{
            let m = credit(assets:usd_cash, 100.00);
            let (m2, r) = convert(m, nonexistent_rate);
            debit(assets:etb_cash, m2);
            absorb(r, income:fx_rounding);
        }}"#
    ));
    assert!(module.is_none());
    assert_eq!(diags[0].code, Code::UndeclaredRate);
}

#[test]
fn duplicate_rate_is_reported() {
    let (module, diags) = resolve_src(
        r#"currency USD { scale = 2 }
           currency ETB { scale = 2 }
           rate usd_etb from USD to ETB = 57.20 round down;
           rate usd_etb from USD to ETB = 58.00 round down;
           txn "t" { }"#,
    );
    assert!(module.is_none());
    assert_eq!(diags[0].code, Code::DuplicateRate);
}

#[test]
fn rate_naming_unknown_currency_is_reported() {
    let (module, diags) = resolve_src(
        r#"currency USD { scale = 2 }
           rate usd_etb from USD to ETB = 57.20 round down;
           txn "t" { }"#,
    );
    assert!(module.is_none());
    assert_eq!(diags[0].code, Code::UnknownCurrency);
}

#[test]
fn resolves_split() {
    let (module, diags) = resolve_src(&format!(
        r#"{PRELUDE} txn "t" {{
            let m = credit(assets:cash, 45.00);
            let (a, b) = split(m, 20.00);
            debit(expenses:a, a);
            debit(expenses:b, b);
        }}"#
    ));
    assert!(diags.is_empty(), "{diags:?}");
    let module = module.unwrap();
    let stmts = &module.txns[0].stmts;
    let ResolvedStmt::Split { a, b, .. } = &stmts[1] else {
        panic!("expected a split statement");
    };
    let ResolvedStmt::Debit { value: ResolvedMoneyExpr::Var { symbol: used_a, .. }, .. } =
        &stmts[2]
    else {
        panic!("expected a debit of a variable");
    };
    let ResolvedStmt::Debit { value: ResolvedMoneyExpr::Var { symbol: used_b, .. }, .. } =
        &stmts[3]
    else {
        panic!("expected a debit of a variable");
    };
    assert_eq!(a, used_a);
    assert_eq!(b, used_b);
}

#[test]
fn resolves_split_ratio() {
    let (module, diags) = resolve_src(&format!(
        r#"{PRELUDE} txn "t" {{
            let m = credit(assets:cash, 45.00);
            let (a, b) = split_ratio(m, 1, 2);
            debit(expenses:a, a);
            debit(expenses:b, b);
        }}"#
    ));
    assert!(diags.is_empty(), "{diags:?}");
    let module = module.unwrap();
    let ResolvedStmt::SplitRatio { a_weight, b_weight, .. } = &module.txns[0].stmts[1] else {
        panic!("expected a split_ratio statement");
    };
    assert_eq!(*a_weight, 1);
    assert_eq!(*b_weight, 2);
}

#[test]
fn resolves_merge() {
    let (module, diags) = resolve_src(&format!(
        r#"{PRELUDE} txn "t" {{
            let a = credit(assets:cash, 20.00);
            let b = credit(assets:cash, 25.00);
            debit(expenses:coffee, merge(a, b));
        }}"#
    ));
    assert!(diags.is_empty(), "{diags:?}");
    let module = module.unwrap();
    assert!(matches!(
        &module.txns[0].stmts[2],
        ResolvedStmt::Debit { value: ResolvedMoneyExpr::Merge { .. }, .. }
    ));
}

#[test]
fn merge_with_an_unbound_name_is_reported() {
    let (module, diags) = resolve_src(&format!(
        r#"{PRELUDE} txn "t" {{
            let a = credit(assets:cash, 20.00);
            debit(expenses:coffee, merge(a, nonexistent));
        }}"#
    ));
    assert!(module.is_none());
    assert_eq!(diags[0].code, Code::UnboundName);
}
