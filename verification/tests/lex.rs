use balanc::diag::Code;
use balanc::lex::{lex, TokenKind};

#[test]
fn spans_round_trip_to_source_text() {
    let src = r#"txn "coffee" { let m = credit(assets:cash, 45.00); debit(expenses:coffee, m); }"#;
    let (tokens, diags) = lex(src);
    assert!(diags.is_empty());
    let tokens = tokens.unwrap();
    for t in &tokens {
        if t.kind == TokenKind::Eof {
            continue;
        }
        let slice = &src[t.span.lo as usize..t.span.hi as usize];
        match &t.kind {
            TokenKind::KwTxn => assert_eq!(slice, "txn"),
            TokenKind::KwDebit => assert_eq!(slice, "debit"),
            TokenKind::Ident(s) => assert_eq!(slice, s),
            TokenKind::Decimal(s) => assert_eq!(slice, s),
            TokenKind::Str(s) => assert_eq!(slice, format!("\"{s}\"")),
            _ => {}
        }
    }
}

#[test]
fn keywords_recognized() {
    let (tokens, _) = lex("txn let debit credit");
    let kinds: Vec<_> = tokens.unwrap().into_iter().map(|t| t.kind).collect();
    assert_eq!(
        kinds,
        vec![
            TokenKind::KwTxn,
            TokenKind::KwLet,
            TokenKind::KwDebit,
            TokenKind::KwCredit,
            TokenKind::Eof
        ]
    );
}

#[test]
fn unexpected_char_is_fatal() {
    let (tokens, diags) = lex("45.00 @ 3");
    assert!(tokens.is_none());
    assert_eq!(diags[0].code, Code::LexUnexpectedChar);
}

#[test]
fn no_minus_token_negative_literal_is_unlexable() {
    // No '-' token exists at all: this lexes as unexpected-char, which is how a
    // negative literal comes out as an error of the grammar.
    let (tokens, diags) = lex("-45.00");
    assert!(tokens.is_none());
    assert_eq!(diags[0].code, Code::LexUnexpectedChar);
}

#[test]
fn fraction_digits_are_left_to_type_checking() {
    // The lexer only checks a literal's shape; how many fraction digits a currency
    // allows is known once the literal's currency is.
    let (tokens, diags) = lex("45.123");
    assert!(diags.is_empty());
    let kinds: Vec<_> = tokens.unwrap().into_iter().map(|t| t.kind).collect();
    assert_eq!(kinds, vec![TokenKind::Decimal("45.123".to_string()), TokenKind::Eof]);
}

#[test]
fn comments_and_whitespace_are_skipped() {
    let (tokens, diags) = lex("// a comment\n  txn\t// trailing\n");
    assert!(diags.is_empty());
    let tokens = tokens.unwrap();
    assert_eq!(tokens.len(), 2);
    assert_eq!(tokens[0].kind, TokenKind::KwTxn);
    assert_eq!((tokens[0].span.lo, tokens[0].span.hi), (15, 18));
    assert_eq!(tokens[1].kind, TokenKind::Eof);
    assert_eq!((tokens[1].span.lo, tokens[1].span.hi), (31, 31));
}

#[test]
fn unterminated_string_is_fatal() {
    let (tokens, diags) = lex("txn \"open");
    assert!(tokens.is_none());
    assert_eq!(diags.len(), 1);
    assert_eq!(diags[0].code, Code::LexUnexpectedChar);
    assert_eq!(diags[0].message, "unterminated string literal");
    assert_eq!((diags[0].span.lo, diags[0].span.hi), (4, 9));
}

#[test]
fn dot_without_fraction_digit_is_fatal() {
    let (tokens, diags) = lex("45.");
    assert!(tokens.is_none());
    assert_eq!(diags.len(), 1);
    assert_eq!(diags[0].code, Code::LexUnexpectedChar);
    assert_eq!(diags[0].message, "unexpected character '.'");
    assert_eq!((diags[0].span.lo, diags[0].span.hi), (2, 3));
}

#[test]
fn dot_then_digit_is_one_decimal() {
    let (tokens, diags) = lex("45.5");
    assert!(diags.is_empty());
    let kinds: Vec<TokenKind> = tokens.unwrap().into_iter().map(|t| t.kind).collect();
    assert_eq!(kinds, vec![TokenKind::Decimal("45.5".to_string()), TokenKind::Eof]);
}

#[test]
fn unexpected_non_ascii_char_is_shown_whole() {
    let (tokens, diags) = lex("a \u{e9} b");
    assert!(tokens.is_none());
    assert_eq!(diags[0].code, Code::LexUnexpectedChar);
    assert_eq!(diags[0].message, "unexpected character '\u{e9}'");
    assert_eq!((diags[0].span.lo, diags[0].span.hi), (2, 4));
}
