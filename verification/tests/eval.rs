use balanc::amount::Amount;
use balanc::diag::{Code, Diagnostic};
use balanc::eval::{eval, split_ratio, LedgerState};
use balanc::lex::lex;
use balanc::parse::parse;
use balanc::resolve::resolve;
use balanc::typeck::typeck;

struct Rng(u64);

impl Rng {
    fn next(&mut self) -> u64 {
        let mut x = self.0;
        x ^= x << 13;
        x ^= x >> 7;
        x ^= x << 17;
        self.0 = x;
        x
    }
}

const PRELUDE: &str = r#"
    currency ETB { scale = 2 }
    account assets:cash { currency = ETB, kind = asset, normal = debit }
    account expenses:coffee { currency = ETB, kind = expense, normal = debit }
"#;

fn eval_src(src: &str) -> LedgerState {
    let src = format!("{PRELUDE} {src}");
    let (tokens, _) = lex(&src);
    let (module, _) = parse(&tokens.unwrap());
    let (resolved, _) = resolve(module.unwrap());
    let (typed, diags) = typeck(resolved.unwrap());
    assert!(diags.is_empty(), "typeck failed: {diags:?}");
    let (ledger, diags) = eval(&typed.unwrap());
    assert!(diags.is_empty(), "eval failed: {diags:?}");
    ledger.unwrap()
}

fn eval_src_diags(src: &str) -> Vec<Diagnostic> {
    let src = format!("{PRELUDE} {src}");
    let (tokens, _) = lex(&src);
    let (module, _) = parse(&tokens.unwrap());
    let (resolved, _) = resolve(module.unwrap());
    let (typed, diags) = typeck(resolved.unwrap());
    assert!(diags.is_empty(), "typeck failed: {diags:?}");
    let (ledger, diags) = eval(&typed.unwrap());
    assert!(ledger.is_none());
    diags
}

#[test]
fn let_bound_credit_flows_into_its_debit() {
    let ledger = eval_src(
        r#"txn "coffee" { let m = credit(assets:cash, 45.00); debit(expenses:coffee, m); }"#,
    );
    assert_eq!(ledger.get("expenses:coffee").unwrap().cents(), 4500);
    assert_eq!(ledger.get("assets:cash").unwrap().cents(), -4500);
}

#[test]
fn inline_credit_posts_both_legs() {
    let ledger =
        eval_src(r#"txn "coffee" { debit(expenses:coffee, credit(assets:cash, 45.00)); }"#);
    assert_eq!(ledger.get("expenses:coffee").unwrap().cents(), 4500);
    assert_eq!(ledger.get("assets:cash").unwrap().cents(), -4500);
}

#[test]
fn split_divides_a_value_into_two_parts() {
    let ledger = eval_src(
        r#"txn "t" {
            let m = credit(assets:cash, 45.00);
            let (a, b) = split(m, 20.00);
            debit(expenses:coffee, a);
            debit(expenses:coffee, b);
        }"#,
    );
    assert_eq!(ledger.get("expenses:coffee").unwrap().cents(), 4500);
    assert_eq!(ledger.get("assets:cash").unwrap().cents(), -4500);
}

#[test]
fn split_exceeding_the_input_reports_e_unbalanced() {
    let diags = eval_src_diags(
        r#"txn "t" {
            let m = credit(assets:cash, 45.00);
            let (a, b) = split(m, 100.00);
            debit(expenses:coffee, a);
            debit(expenses:coffee, b);
        }"#,
    );
    assert_eq!(diags.len(), 1);
    assert_eq!(diags[0].code, Code::Unbalanced);
}

#[test]
fn split_ratio_uses_largest_remainder_allocation() {
    // 100.01 split 1:2 -> ideal 3333.67:6667.33 in hundredths of a cent; largest
    // remainder gives the odd cent to whichever side's ideal share was higher.
    let ledger = eval_src(
        r#"txn "t" {
            let m = credit(assets:cash, 100.01);
            let (a, b) = split_ratio(m, 1, 2);
            debit(expenses:coffee, a);
            debit(expenses:coffee, b);
        }"#,
    );
    assert_eq!(ledger.get("expenses:coffee").unwrap().cents(), 10001);
    assert_eq!(ledger.get("assets:cash").unwrap().cents(), -10001);
}

#[test]
fn merge_combines_two_values() {
    let ledger = eval_src(
        r#"txn "t" {
            let a = credit(assets:cash, 20.00);
            let b = credit(assets:cash, 25.00);
            debit(expenses:coffee, merge(a, b));
        }"#,
    );
    assert_eq!(ledger.get("expenses:coffee").unwrap().cents(), 4500);
    assert_eq!(ledger.get("assets:cash").unwrap().cents(), -4500);
}

const FX_PRELUDE: &str = r#"
    currency USD { scale = 2 }
    currency ETB { scale = 2 }
    account assets:usd_cash { currency = USD, kind = asset, normal = debit }
    account assets:etb_cash { currency = ETB, kind = asset, normal = debit }
    account income:fx_rounding { currency = ETB, kind = income, normal = credit }
    rate usd_etb from USD to ETB = 57.20 round down;
"#;

fn fx_eval_src(src: &str) -> LedgerState {
    let src = format!("{FX_PRELUDE} {src}");
    let (tokens, _) = lex(&src);
    let (module, _) = parse(&tokens.unwrap());
    let (resolved, _) = resolve(module.unwrap());
    let (typed, diags) = typeck(resolved.unwrap());
    assert!(diags.is_empty(), "typeck failed: {diags:?}");
    let (ledger, diags) = eval(&typed.unwrap());
    assert!(diags.is_empty(), "eval failed: {diags:?}");
    ledger.unwrap()
}

#[test]
fn convert_computes_the_exact_rate_and_absorb_posts_the_whole_unit_portion() {
    // 100.00 USD * 57.20 = 5720.00 ETB exactly -- divides evenly, residue is 0.
    let ledger = fx_eval_src(
        r#"txn "fx" {
            let m = credit(assets:usd_cash, 100.00);
            let (m2, r) = convert(m, usd_etb);
            debit(assets:etb_cash, m2);
            absorb(r, income:fx_rounding);
        }"#,
    );
    assert_eq!(ledger.get("assets:usd_cash").unwrap().cents(), -10000);
    assert_eq!(ledger.get("assets:etb_cash").unwrap().cents(), 572000);
    // A single conversion's residue is always < 1 minor unit; absorbing it
    // alone posts zero, evenly-dividing rate or not.
    assert_eq!(ledger.get("income:fx_rounding").unwrap().cents(), 0);
}

#[test]
fn convert_with_a_non_dividing_rate_still_absorbs_to_zero_for_one_conversion() {
    let ledger = fx_eval_src(
        r#"txn "fx" {
            let m = credit(assets:usd_cash, 100.01);
            let (m2, r) = convert(m, usd_etb);
            debit(assets:etb_cash, m2);
            absorb(r, income:fx_rounding);
        }"#,
    );
    // 100.01 * 57.20 = 5720.572 ETB exactly -> floors to 5720.57, losing 0.002.
    assert_eq!(ledger.get("assets:etb_cash").unwrap().cents(), 572057);
    assert_eq!(ledger.get("income:fx_rounding").unwrap().cents(), 0);
}

// For a spread of amount/split-ratio pairs, `split` parts always sum back to the
// input and `split_ratio`'s two parts always sum back to the input too, regardless
// of how unevenly the ratio divides it. A small deterministic xorshift generator
// supplies the inputs.
#[test]
fn split_and_split_ratio_conserve_the_total_over_random_inputs() {
    let mut rng = Rng(0xC0FFEE);
    for _ in 0..10_000 {
        let total_cents = (rng.next() % 10_000_000) as i64;
        let total = Amount::from_cents(total_cents);

        let split_point = Amount::from_cents((rng.next() % (total_cents as u64 + 1)) as i64);
        let (a, b) = (split_point, total - split_point);
        assert_eq!(a + b, total);

        let a_weight = (rng.next() % 100) as u32;
        let b_weight = (rng.next() % 100) as u32;
        if a_weight == 0 && b_weight == 0 {
            continue;
        }
        let (ra, rb) = split_ratio(total, a_weight, b_weight);
        assert_eq!(ra + rb, total, "split_ratio({total_cents}, {a_weight}, {b_weight})");
        assert!(!ra.is_negative() && !rb.is_negative());
    }
}

#[test]
fn an_unbalanced_split_names_both_amounts() {
    let diags = eval_src_diags(
        r#"txn "t" {
            let m = credit(assets:cash, 45.00);
            let (a, b) = split(m, 100.00);
            debit(expenses:coffee, a);
            debit(expenses:coffee, b);
        }"#,
    );
    assert_eq!(diags.len(), 1);
    assert_eq!(diags[0].message, "cannot split off 100.00 — only 45.00 is available");
    assert!(diags[0].secondary.is_empty());
}
