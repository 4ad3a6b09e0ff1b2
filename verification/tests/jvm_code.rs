use balanc::backend::jvm::code::call_words;

#[test]
fn call_words_parses_mixed_descriptors() {
    assert_eq!(call_words("(IJ)V"), (3, 0));
    assert_eq!(call_words("(JJJ)[J"), (6, 1));
    assert_eq!(call_words("(JJ)J"), (4, 2));
    assert_eq!(call_words("()Ljava/lang/String;"), (0, 1));
    assert_eq!(
        call_words("([Ljava/lang/String;[I[I[Z[Ljava/lang/String;[I)Ljava/lang/String;"),
        (6, 1)
    );
    assert_eq!(call_words("(I)V"), (1, 0));
    assert_eq!(call_words("()V"), (0, 0));
}
