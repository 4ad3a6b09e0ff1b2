use balanc::diag::{sort_by_span, Code, Diagnostic};
use balanc::lex::lex;
use balanc::parse::ast::{Module, MoneyExpr, NormalBalance, Stmt};
use balanc::parse::{parse, MAX_MONEY_EXPR_DEPTH};

fn parse_src(src: &str) -> (Option<Module>, Vec<Diagnostic>) {
    let (tokens, diags) = lex(src);
    assert!(diags.is_empty(), "lex failed: {diags:?}");
    parse(&tokens.unwrap())
}

#[test]
fn parses_let_and_debit() {
    let (module, diags) = parse_src(
        r#"txn "coffee" { let m = credit(assets:cash, 45.00); debit(expenses:coffee, m); }"#,
    );
    assert!(diags.is_empty());
    let module = module.unwrap();
    assert_eq!(module.txns.len(), 1);
    let txn = &module.txns[0];
    assert_eq!(txn.name, "coffee");
    assert_eq!(txn.stmts.len(), 2);
    match &txn.stmts[0] {
        Stmt::Let { name, value: MoneyExpr::Credit { account, amount, .. }, .. } => {
            assert_eq!(name, "m");
            assert_eq!(account.to_string(), "assets:cash");
            assert_eq!(amount.text, "45.00");
        }
        _ => panic!("expected a let-binding of a credit"),
    }
    match &txn.stmts[1] {
        Stmt::Debit { account, value: MoneyExpr::Var { name, .. }, .. } => {
            assert_eq!(account.to_string(), "expenses:coffee");
            assert_eq!(name, "m");
        }
        _ => panic!("expected a debit of a variable"),
    }
}

#[test]
fn credit_can_be_inlined_in_a_debit() {
    let (module, diags) =
        parse_src(r#"txn "coffee" { debit(expenses:coffee, credit(assets:cash, 45.00)); }"#);
    assert!(diags.is_empty());
    let module = module.unwrap();
    assert_eq!(module.txns[0].stmts.len(), 1);
    assert!(matches!(
        &module.txns[0].stmts[0],
        Stmt::Debit { value: MoneyExpr::Credit { .. }, .. }
    ));
}

#[test]
fn parses_currency_and_account_decls() {
    let (module, diags) = parse_src(
        r#"
        currency ETB { scale = 2 }
        account assets:cash { currency = ETB, kind = asset, normal = debit }
        txn "coffee" { let m = credit(assets:cash, 45.00); debit(expenses:coffee, m); }
        "#,
    );
    assert!(diags.is_empty());
    let module = module.unwrap();
    assert_eq!(module.currencies.len(), 1);
    assert_eq!(module.currencies[0].name, "ETB");
    assert_eq!(module.currencies[0].scale, 2);
    assert_eq!(module.accounts.len(), 1);
    assert_eq!(module.accounts[0].path.to_string(), "assets:cash");
    assert_eq!(module.accounts[0].currency, "ETB");
    assert_eq!(module.accounts[0].kind, "asset");
    assert_eq!(module.accounts[0].normal, NormalBalance::Debit);
}

#[test]
fn parses_credit_normal_balance() {
    let (module, diags) = parse_src(
        r#"currency ETB { scale = 2 }
           account equity:owner_capital { currency = ETB, kind = equity, normal = credit }
           txn "t" { }"#,
    );
    assert!(diags.is_empty());
    let module = module.unwrap();
    assert_eq!(module.accounts[0].kind, "equity");
    assert_eq!(module.accounts[0].normal, NormalBalance::Credit);
}

#[test]
fn parses_rate_decl() {
    let (module, diags) = parse_src(
        r#"rate usd_etb from USD to ETB = 57.20 round down;
           txn "t" { }"#,
    );
    assert!(diags.is_empty());
    let module = module.unwrap();
    assert_eq!(module.rates.len(), 1);
    let rate = &module.rates[0];
    assert_eq!(rate.name, "usd_etb");
    assert_eq!(rate.from, "USD");
    assert_eq!(rate.to, "ETB");
    assert_eq!(rate.value.text, "57.20");
}

#[test]
fn parses_convert_and_absorb() {
    let (module, diags) = parse_src(
        r#"txn "fx" {
            let (m2, r) = convert(m, usd_etb);
            debit(expenses:x, m2);
            absorb(r, income:fx_rounding);
        }"#,
    );
    assert!(diags.is_empty());
    let module = module.unwrap();
    let stmts = &module.txns[0].stmts;
    assert_eq!(stmts.len(), 3);
    match &stmts[0] {
        Stmt::Convert { primary_name, residual_name, rate, .. } => {
            assert_eq!(primary_name, "m2");
            assert_eq!(residual_name, "r");
            assert_eq!(rate, "usd_etb");
        }
        _ => panic!("expected a convert statement"),
    }
    match &stmts[2] {
        Stmt::Absorb { residue_name, account, .. } => {
            assert_eq!(residue_name, "r");
            assert_eq!(account.to_string(), "income:fx_rounding");
        }
        _ => panic!("expected an absorb statement"),
    }
}

#[test]
fn missing_brace_is_a_diagnostic_not_a_panic() {
    let (module, diags) =
        parse_src(r#"txn "coffee" { debit(expenses:coffee, credit(assets:cash, 45.00));"#);
    assert!(module.is_none());
    assert_eq!(diags[0].code, Code::ParseUnexpectedEof);
}

#[test]
fn bare_literal_debit_argument_is_a_parse_error() {
    // A debit needs a money expression (a `credit(...)` or a variable), not a bare
    // literal.
    let (module, diags) = parse_src(r#"txn "coffee" { debit(expenses:coffee, 45.00); }"#);
    assert!(module.is_none());
    assert_eq!(diags[0].code, Code::ParseUnexpectedToken);
}

#[test]
fn parses_split() {
    let (module, diags) = parse_src(
        r#"txn "t" {
            let (a, b) = split(m, 20.00);
            debit(expenses:a, a);
            debit(expenses:b, b);
        }"#,
    );
    assert!(diags.is_empty());
    let module = module.unwrap();
    match &module.txns[0].stmts[0] {
        Stmt::Split { a_name, b_name, amount, .. } => {
            assert_eq!(a_name, "a");
            assert_eq!(b_name, "b");
            assert_eq!(amount.text, "20.00");
        }
        _ => panic!("expected a split statement"),
    }
}

#[test]
fn parses_split_ratio() {
    let (module, diags) = parse_src(
        r#"txn "t" {
            let (a, b) = split_ratio(m, 1, 2);
            debit(expenses:a, a);
            debit(expenses:b, b);
        }"#,
    );
    assert!(diags.is_empty());
    let module = module.unwrap();
    match &module.txns[0].stmts[0] {
        Stmt::SplitRatio { a_name, b_name, a_weight, b_weight, .. } => {
            assert_eq!(a_name, "a");
            assert_eq!(b_name, "b");
            assert_eq!(*a_weight, 1);
            assert_eq!(*b_weight, 2);
        }
        _ => panic!("expected a split_ratio statement"),
    }
}

#[test]
fn split_ratio_rejects_a_fractional_weight() {
    let (module, diags) =
        parse_src(r#"txn "t" { let (a, b) = split_ratio(m, 1.5, 2); }"#);
    assert!(module.is_none());
    assert_eq!(diags[0].code, Code::ParseUnexpectedToken);
}

#[test]
fn parses_merge_including_nested() {
    let (module, diags) = parse_src(
        r#"txn "t" { debit(expenses:coffee, merge(credit(assets:cash, 5.00), merge(a, b))); }"#,
    );
    assert!(diags.is_empty());
    let module = module.unwrap();
    assert!(matches!(
        &module.txns[0].stmts[0],
        Stmt::Debit { value: MoneyExpr::Merge { .. }, .. }
    ));
}

#[test]
fn deeply_nested_merge_is_rejected_as_too_deep() {
    let mut src = String::from(r#"txn "t" { debit(expenses:coffee, "#);
    for _ in 0..(MAX_MONEY_EXPR_DEPTH + 1) {
        src.push_str("merge(a, ");
    }
    src.push('a');
    for _ in 0..(MAX_MONEY_EXPR_DEPTH + 1) {
        src.push(')');
    }
    src.push_str("); }");
    let (module, diags) = parse_src(&src);
    assert!(module.is_none());
    assert_eq!(diags[0].code, Code::ExprTooDeep);
}

#[test]
fn merge_within_the_depth_cap_still_parses() {
    let mut src = String::from(r#"txn "t" { debit(expenses:coffee, "#);
    for _ in 0..(MAX_MONEY_EXPR_DEPTH - 1) {
        src.push_str("merge(a, ");
    }
    src.push('a');
    for _ in 0..(MAX_MONEY_EXPR_DEPTH - 1) {
        src.push(')');
    }
    src.push_str("); }");
    let (module, diags) = parse_src(&src);
    assert!(diags.is_empty(), "{diags:?}");
    assert!(module.is_some());
}

#[test]
fn three_independent_syntax_errors_are_all_reported_sorted_by_span() {
    // Each error sits in a different declaration and doesn't touch the others: a
    // missing '=' in the account decl, a bare literal where a MoneyExpr is
    // required, and a missing ',' in a debit's argument list.
    let (module, mut diags) = parse_src(
        r#"
        currency ETB { scale = 2 }
        account assets:cash { currency ETB, kind = asset, normal = debit }
        txn "t" {
            let m = 5;
            debit(expenses:coffee m);
        }
        "#,
    );
    assert!(module.is_none());
    assert_eq!(diags.len(), 3, "{diags:?}");
    sort_by_span(&mut diags);
    assert_eq!(diags[0].code, Code::ParseUnexpectedToken); // "currency ETB" missing '='
    assert_eq!(diags[1].code, Code::ParseUnexpectedToken); // "let m = 5" not a MoneyExpr
    assert_eq!(diags[2].code, Code::ParseUnexpectedToken); // "expenses:coffee m" missing ','
    assert!(diags[0].span.lo < diags[1].span.lo);
    assert!(diags[1].span.lo < diags[2].span.lo);
}

#[test]
fn recovery_after_a_bad_declaration_still_parses_the_next_one() {
    // The malformed `account` decl (missing '=') is dropped entirely by recovery,
    // but the well-formed `txn` after it still parses.
    let (module, diags) = parse_src(
        r#"
        account assets:cash { currency ETB, kind = asset, normal = debit }
        txn "t" { }
        "#,
    );
    assert!(module.is_none());
    assert_eq!(diags.len(), 1);
    assert_eq!(diags[0].code, Code::ParseUnexpectedToken);
}

#[test]
fn each_node_spans_its_first_token_through_its_last() {
    let src = r#"txn "coffee" { let m = credit(assets:cash, 45.00); debit(expenses:coffee, m); }"#;
    let (module, diags) = parse_src(src);
    assert!(diags.is_empty());
    let txn = &module.unwrap().txns[0];
    assert_eq!((txn.span.lo, txn.span.hi), (0, src.len() as u32));
    let let_at = src.find("let").unwrap() as u32;
    let debit_at = src.find("debit").unwrap() as u32;
    match &txn.stmts[0] {
        Stmt::Let { name_span, value: MoneyExpr::Credit { account, amount, span: credit_span }, span, .. } => {
            assert_eq!((span.lo, span.hi), (let_at, debit_at - 1));
            assert_eq!(&src[name_span.lo as usize..name_span.hi as usize], "m");
            assert_eq!(&src[account.span.lo as usize..account.span.hi as usize], "assets:cash");
            assert_eq!(&src[amount.span.lo as usize..amount.span.hi as usize], "45.00");
            assert_eq!(&src[credit_span.lo as usize..credit_span.hi as usize], "credit(assets:cash, 45.00)");
        }
        _ => panic!("expected a let-binding of a credit"),
    }
}
