use balanc::backend::jvm::codegen::{class_name_from_path, class_name_from_stem, sanitize_method_name};
use balanc::backend::jvm::{compile, ConstantPool};
use balanc::compile_typed;
use balanc::span::SourceFile;

#[test]
fn class_name_comes_from_the_file_stem_in_pascal_case() {
    assert_eq!(class_name_from_path("examples/split_and_merge.bal"), "SplitAndMerge");
    assert_eq!(class_name_from_path("coffee.bal"), "Coffee");
    assert_eq!(class_name_from_path("a/b/fx-rounding.test.bal"), "FxRoundingTest");
}

#[test]
fn class_name_gets_a_prefix_when_it_would_start_with_a_digit_or_be_empty() {
    assert_eq!(class_name_from_stem("2024_q1"), "Module2024Q1");
    assert_eq!(class_name_from_stem("---"), "Module");
    assert_eq!(class_name_from_path(""), "Module");
}

#[test]
fn method_names_are_sanitized_and_made_unique() {
    let mut used = Vec::new();
    assert_eq!(sanitize_method_name("pay rent", 0, &mut used), "pay_rentTxn");
    assert_eq!(sanitize_method_name("pay-rent", 1, &mut used), "pay_rentTxn1");
    assert_eq!(sanitize_method_name("9lives", 2, &mut used), "txn2_9livesTxn");
    assert_eq!(sanitize_method_name("", 3, &mut used), "txn3_Txn");
    assert_eq!(used.len(), 4);
}

#[test]
fn constant_pool_interns_equal_entries() {
    let mut pool = ConstantPool::new();
    let a = pool.utf8("Code");
    let b = pool.utf8("Code");
    assert_eq!(a, b);
    assert_eq!(a, 1);
    let l = pool.long(7);
    assert_eq!(l, 2);
    // A long takes two slots.
    assert_eq!(pool.next_index(), 4);
    assert_eq!(pool.long(7), l);
    let c = pool.class("java/lang/Object");
    assert_eq!(pool.class("java/lang/Object"), c);
}

#[test]
fn compiled_class_starts_with_the_class_file_magic() {
    let text = r#"
        currency ETB { scale = 2 }
        account assets:cash { currency = ETB, kind = asset, normal = debit }
        account expenses:coffee { currency = ETB, kind = expense, normal = debit }
        txn "coffee" { let m = credit(assets:cash, 45.00); debit(expenses:coffee, m); }
    "#;
    let file = SourceFile::new("coffee.bal".to_string(), text.to_string());
    let typed = compile_typed(&file).expect("program compiles");
    let bytes = compile(&typed, "Coffee").expect("class fits the class-file limits");
    assert_eq!(&bytes[0..4], &[0xCA, 0xFE, 0xBA, 0xBE]);
    assert!(bytes.len() > 100);
}

#[test]
fn constant_pool_gives_different_entries_different_indices() {
    let mut pool = ConstantPool::new();
    let a = pool.utf8("Code");
    let l = pool.long(7);
    let b = pool.utf8("main");
    let i = pool.integer(7);
    assert_eq!((a, l, b, i), (1, 2, 4, 5));
    assert_eq!(pool.utf8("Code"), a);
    assert_eq!(pool.next_index(), 6);
}
