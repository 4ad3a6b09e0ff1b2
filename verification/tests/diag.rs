use balanc::diag::{json_escape, render_all, render_all_json, Code, Diagnostic};
use balanc::span::{SourceFile, Span};

#[test]
fn renders_a_caret_under_the_primary_span_and_a_note() {
    let file = SourceFile::new("t.bal".to_string(), "let x = y\n".to_string());
    let d = Diagnostic::new(Code::UnboundName, "no binding named 'y'", Span::new(8, 9));
    let rendered = d.render(&file);
    let lines: Vec<&str> = rendered.lines().collect();
    assert_eq!(lines[0], "error[E_UNBOUND_NAME]: no binding named 'y'");
    assert_eq!(lines[1], "  --> t.bal:1:9");
    assert_eq!(lines[2], "  |");
    assert_eq!(lines[3], "1 | let x = y");
    // The caret sits directly under the 'y' the source line printed above it.
    let source_col = lines[3].find('y').unwrap();
    let caret_col = lines[4].find('^').unwrap();
    assert_eq!(source_col, caret_col);
    assert_eq!(lines[4].matches('^').count(), 1);
    assert_eq!(
        lines[5],
        "  = note: check the spelling, or add a 'let' binding for this name earlier in the transaction"
    );
}

#[test]
fn renders_a_located_block_per_secondary_span() {
    let file = SourceFile::new("t.bal".to_string(), "let m\nuse m\nuse m".to_string());
    let d = Diagnostic::new(Code::Reused, "already consumed", Span::new(12, 13))
        .with_secondary("first consumed here", Span::new(6, 7));
    let rendered = d.render(&file);
    assert!(rendered.starts_with("error[E_REUSED]: already consumed\n"));
    assert!(rendered.contains(" --> t.bal:3:1\n"));
    assert!(rendered.contains("3 | use m\n"));
    assert!(rendered.contains("\nnote: first consumed here\n"));
    assert!(rendered.contains(" --> t.bal:2:1\n"));
    assert!(rendered.contains("2 | use m\n"));
}

#[test]
fn gutter_widens_to_fit_the_largest_line_number_touched() {
    let mut text = String::new();
    for _ in 0..10 {
        text.push_str("let a = b;\n");
    }
    text.push_str("use x\n"); // line 11
    let file = SourceFile::new("t.bal".to_string(), text);
    let span = Span::new((file.text.len() - "x\n".len()) as u32, (file.text.len() - "\n".len()) as u32);
    let d = Diagnostic::new(Code::UnboundName, "no binding named 'x'", span);
    let rendered = d.render(&file);
    // A two-digit line number ("11") forces a two-column gutter throughout.
    assert!(rendered.contains("11 | use x"));
    assert!(rendered.contains("   --> t.bal:11:5"));
}

#[test]
fn a_zero_width_end_of_file_span_still_gets_a_caret() {
    let file = SourceFile::new("t.bal".to_string(), "txn \"t\" {".to_string());
    let eof = Span::new(9, 9);
    let d = Diagnostic::new(Code::ParseUnexpectedEof, "expected '}'", eof);
    let rendered = d.render(&file);
    let lines: Vec<&str> = rendered.lines().collect();
    assert_eq!(lines[3], "1 | txn \"t\" {");
    // The source line has nothing at byte 9 (one past its last char), so the
    // caret falls one column past the line's printed end rather than under it.
    assert_eq!(lines[4].matches('^').count(), 1);
    assert_eq!(lines[4].trim_end().len(), lines[3].len() + 1);
}

#[test]
fn to_json_carries_code_location_span_and_secondary_labels() {
    let file = SourceFile::new("t.bal".to_string(), "let m\nuse m\nuse m".to_string());
    let d = Diagnostic::new(Code::Reused, "already consumed", Span::new(12, 13))
        .with_secondary("first consumed here", Span::new(6, 7));
    let json = d.to_json(&file);
    assert_eq!(
        json,
        "{\"code\":\"E_REUSED\",\"message\":\"already consumed\",\"file\":\"t.bal\",\"line\":3,\"col\":1,\
         \"span\":{\"lo\":12,\"hi\":13},\"secondary\":[{\"label\":\"first consumed here\",\"line\":2,\"col\":1,\
         \"span\":{\"lo\":6,\"hi\":7}}]}"
    );
}

#[test]
fn json_escape_handles_quotes_backslashes_and_control_characters() {
    assert_eq!(json_escape("a \"quoted\" \\ thing\n"), "\"a \\\"quoted\\\" \\\\ thing\\n\"");
}

#[test]
fn render_all_separates_diagnostics_with_a_blank_line_and_ends_with_one_newline() {
    let file = SourceFile::new("t.bal".to_string(), "a\nb\n".to_string());
    let diags = vec![
        Diagnostic::new(Code::UnboundName, "first", Span::new(0, 1)),
        Diagnostic::new(Code::UnboundName, "second", Span::new(2, 3)),
    ];
    let rendered = render_all(&diags, &file);
    assert!(rendered.contains("first\n"));
    assert!(rendered.contains("\n\nerror[E_UNBOUND_NAME]: second"));
    assert!(rendered.ends_with('\n') && !rendered.ends_with("\n\n"));
}

#[test]
fn render_all_json_wraps_diagnostics_in_an_envelope() {
    let file = SourceFile::new("t.bal".to_string(), "a\n".to_string());
    let diags = vec![Diagnostic::new(Code::UnboundName, "no binding named 'a'", Span::new(0, 1))];
    let rendered = render_all_json(&diags, &file);
    assert_eq!(
        rendered,
        "{\"ok\":false,\"diagnostics\":[{\"code\":\"E_UNBOUND_NAME\",\"message\":\"no binding named 'a'\",\
         \"file\":\"t.bal\",\"line\":1,\"col\":1,\"span\":{\"lo\":0,\"hi\":1},\"secondary\":[]}]}\n"
    );
}

#[test]
fn code_names_tell_codes_apart() {
    let codes = [
        Code::LexUnexpectedChar,
        Code::ParseUnexpectedToken,
        Code::ParseUnexpectedEof,
        Code::UnboundName,
        Code::UnknownCurrency,
        Code::DuplicateCurrency,
        Code::DuplicateAccount,
        Code::UndeclaredAccount,
        Code::TooManyFractionDigits,
        Code::AmountOutOfRange,
        Code::CurrencyMismatch,
        Code::UndeclaredRate,
        Code::DuplicateRate,
        Code::ExpectedMoney,
        Code::ExpectedResidue,
        Code::Dropped,
        Code::Reused,
        Code::Unbalanced,
        Code::ExprTooDeep,
        Code::ZeroRatio,
        Code::UnknownAccountKind,
    ];
    for (i, a) in codes.iter().enumerate() {
        for (j, b) in codes.iter().enumerate() {
            assert_eq!(a.as_str() == b.as_str(), i == j);
        }
    }
    assert_eq!(Code::Reused.as_str(), "E_REUSED");
}
