use balanc::amount::Amount;
use balanc::diag::Code;
use balanc::parse::ast::{DecimalLiteral, NormalBalance};
use balanc::resolve::{AccountInfo, AccountKind, CurrencyId, CurrencyInfo, SymbolId};
use balanc::span::Span;
use balanc::typeck::rules::{
    check_account_currency, check_credit, check_merge, check_split_ratio, consume_checked, BindingKind,
    Context,
};

fn etb() -> CurrencyInfo {
    CurrencyInfo { name: "ETB".to_string(), scale: 2 }
}

fn usd() -> CurrencyInfo {
    CurrencyInfo { name: "USD".to_string(), scale: 2 }
}

fn account(path: &str, currency: CurrencyId) -> AccountInfo {
    AccountInfo {
        path: path.to_string(),
        currency,
        kind: AccountKind::Asset,
        normal: NormalBalance::Debit,
    }
}

fn lit(text: &str) -> DecimalLiteral {
    DecimalLiteral { text: text.to_string(), span: Span::new(0, text.len() as u32) }
}

#[test]
fn check_credit_lowers_the_amount_at_the_account_currency_scale() {
    let mut diags = Vec::new();
    let result = check_credit(CurrencyId(0), &etb(), &lit("45.00"), &mut diags);
    assert!(diags.is_empty());
    let (amount, currency) = result.unwrap();
    assert_eq!(amount, Amount::from_literal("45.00", 2).unwrap());
    assert_eq!(currency, CurrencyId(0));
}

#[test]
fn check_credit_rejects_too_many_fraction_digits() {
    let mut diags = Vec::new();
    let result = check_credit(CurrencyId(0), &etb(), &lit("45.123"), &mut diags);
    assert!(result.is_none());
    assert_eq!(diags.len(), 1);
    assert_eq!(diags[0].code, Code::TooManyFractionDigits);
}

#[test]
fn check_account_currency_accepts_a_matching_currency() {
    let account = account("assets:cash", CurrencyId(0));
    let result =
        check_account_currency(&account, &[etb()], CurrencyId(0), Span::new(0, 1), Span::new(1, 2));
    assert!(result.is_ok());
}

#[test]
fn check_account_currency_rejects_a_mismatched_currency() {
    let account = account("assets:cash", CurrencyId(0));
    let err = check_account_currency(
        &account,
        &[etb(), usd()],
        CurrencyId(1),
        Span::new(0, 1),
        Span::new(1, 2),
    )
    .unwrap_err();
    assert_eq!(err.code, Code::CurrencyMismatch);
    assert_eq!(err.secondary.len(), 1);
}

#[test]
fn check_merge_accepts_matching_currencies_and_rejects_mismatched_ones() {
    let currencies = [etb(), usd()];
    assert!(check_merge(&currencies, CurrencyId(0), Span::new(0, 1), CurrencyId(0), Span::new(1, 2), Span::new(2, 3))
        .is_ok());
    let err = check_merge(
        &currencies,
        CurrencyId(0),
        Span::new(0, 1),
        CurrencyId(1),
        Span::new(1, 2),
        Span::new(2, 3),
    )
    .unwrap_err();
    assert_eq!(err.code, Code::CurrencyMismatch);
    assert_eq!(err.secondary.len(), 2);
}

#[test]
fn check_split_ratio_rejects_both_weights_zero_but_accepts_any_other_pair() {
    assert!(check_split_ratio(0, 0, Span::new(0, 1)).is_err());
    assert!(check_split_ratio(1, 0, Span::new(0, 1)).is_ok());
    assert!(check_split_ratio(0, 1, Span::new(0, 1)).is_ok());
    assert!(check_split_ratio(1, 2, Span::new(0, 1)).is_ok());
}

#[test]
fn finish_txn_reports_each_live_binding_once_even_at_one_site() {
    let mut ctx = Context::default();
    let site = Span::new(4, 9);
    ctx.bind(SymbolId(0), site, site, CurrencyId(0), BindingKind::Money);
    ctx.bind(SymbolId(1), site, site, CurrencyId(0), BindingKind::Money);
    ctx.bind(SymbolId(2), Span::new(20, 21), site, CurrencyId(0), BindingKind::Residue);
    let ds = ctx.finish_txn();
    assert_eq!(ds.len(), 3);
    assert_eq!(ds.iter().filter(|d| d.span == site).count(), 2);
    assert!(ds.iter().all(|d| d.code == Code::Dropped));
    let residue = ds.iter().find(|d| d.span == Span::new(20, 21)).unwrap();
    assert_eq!(residue.message, "this conversion residue is never consumed");
}

#[test]
fn consume_checked_reports_a_second_use_with_its_message_and_label() {
    let mut ctx = Context::default();
    let mut diags = Vec::new();
    ctx.bind(SymbolId(0), Span::new(0, 1), Span::new(0, 1), CurrencyId(0), BindingKind::Money);
    let first = consume_checked(SymbolId(0), Span::new(10, 11), BindingKind::Money, &mut ctx, &mut diags);
    assert_eq!(first, Some((Span::new(0, 1), CurrencyId(0))));
    assert!(diags.is_empty());
    let second = consume_checked(SymbolId(0), Span::new(20, 21), BindingKind::Money, &mut ctx, &mut diags);
    assert_eq!(second, None);
    assert_eq!(diags.len(), 1);
    assert_eq!(diags[0].code, Code::Reused);
    assert_eq!(diags[0].span, Span::new(20, 21));
    assert_eq!(diags[0].message, "this value has already been consumed");
    assert_eq!(diags[0].secondary, vec![("first consumed here".to_string(), Span::new(10, 11))]);
}
