//! User-facing diagnostics. Every `Diagnostic` carries a stable `Code` and a real
//! `Span` — never a synthetic or zero span.
//!
//! Rendering is rustc-lite: a `file:line:col` header, the offending source line with a
//! caret under the exact span, one `note:` block per secondary span (its own
//! location/line/caret, for e.g. both use-sites of an `E_REUSED` value), and a
//! trailing `= note:` line with fixed, per-`Code` guidance (`Code::note`).
//! `render_all_json` renders the same information as one JSON object per diagnostic
//! instead, for editor consumption.

pub mod codes;

use vstd::prelude::*;
use crate::span::{
    byte_len, byte_offset, char_index_at, char_index_of_byte, char_utf8_len, is_char_boundary,
    lemma_byte_len_le, lemma_byte_offset_step, line_col_fits, line_col_of_prefix, spec_line_col, utf8_len,
    SourceFile, Span,
};
use crate::text::{
    chars_of, copy_range, decimal_chars, pad_left, push_chars, push_char, push_decimal,
    push_padded_left, push_repeat, push_str, repeat_char, spec_decimal,
};
pub use codes::{code_name, code_note, Code};

verus! {

#[derive(Debug, Clone, PartialEq, Eq)]
pub struct Diagnostic {
    pub code: Code,
    pub message: String,
    pub span: Span,
    /// Extra `(label, span)` pairs — e.g. `("first consumed here", span)` — each
    /// rendered as its own located, captioned source block after the primary one.
    pub secondary: Vec<(String, Span)>,
}

/// The codes and spans of a list of diagnostics.
pub open spec fn code_spans(ds: Seq<Diagnostic>) -> Seq<(Code, Span)> {
    ds.map_values(|d: Diagnostic| (d.code, d.span))
}

impl Diagnostic {
    pub fn new(code: Code, message: &str, span: Span) -> (d: Diagnostic)
        ensures
            d.code == code,
            d.message@ == message@,
            d.span == span,
            d.secondary@.len() == 0,
    {
        Diagnostic { code, message: String::from_str(message), span, secondary: Vec::new() }
    }

    pub fn with_secondary(self, label: &str, span: Span) -> (d: Diagnostic)
        ensures
            d.code == self.code,
            d.message@ == self.message@,
            d.span == self.span,
            d.secondary@.len() == self.secondary@.len() + 1,
            forall|i: int| 0 <= i < self.secondary@.len() ==> d.secondary@[i] == self.secondary@[i],
            d.secondary@.last().0@ == label@,
            d.secondary@.last().1 == span,
    {
        let mut d = self;
        d.secondary.push((String::from_str(label), span));
        d
    }

    /// Plain-text rendering: header, primary source block, a static per-code note,
    /// then one `note: <label>` block per secondary span. Multiple diagnostics are
    /// joined by `render_all` with a blank line between them.
    #[verifier::spinoff_prover]
    #[verifier::rlimit(40)]
    pub fn render(&self, file: &SourceFile) -> (r: String)
        requires
            diag_fits(file.text@, *self),
        ensures
            r@ == render_text(file.text@, file.name@, *self),
    {
        let t = chars_of(file.text.as_str());
        let g = self.gutter_width(t.as_slice());
        let mut s = String::new();
        push_str(&mut s, "error[");
        push_str(&mut s, self.code.as_str());
        push_str(&mut s, "]: ");
        push_str(&mut s, self.message.as_str());
        push_str(&mut s, "\n");
        push_block(&mut s, file.name.as_str(), t.as_slice(), self.span, g);
        push_str(&mut s, "\n");
        push_repeat(&mut s, ' ', g);
        push_str(&mut s, " = note: ");
        push_str(&mut s, self.code.note());
        let ghost head = s@;
        proof {
            assert(self.secondary@.take(0) =~= Seq::<(String, Span)>::empty());
        }
        let mut i: usize = 0;
        while i < self.secondary.len()
            invariant
                i <= self.secondary@.len(),
                t@ == file.text@,
                diag_fits(t@, *self),
                s@ == head + secondary_blocks(
                    t@,
                    file.name@,
                    self.secondary@.take(i as int),
                    g as nat,
                ),
            decreases self.secondary@.len() - i,
        {
            let pair = &self.secondary[i];
            push_str(&mut s, "\n\nnote: ");
            push_str(&mut s, pair.0.as_str());
            push_str(&mut s, "\n");
            assert(span_fits(t@, self.secondary@[i as int].1));
            push_block(&mut s, file.name.as_str(), t.as_slice(), pair.1, g);
            proof {
                assert(self.secondary@.take(i + 1).drop_last() =~= self.secondary@.take(i as int));
            }
            i = i + 1;
        }
        proof {
            assert(self.secondary@.take(i as int) =~= self.secondary@);
        }
        s
    }

    /// One JSON object: `code`, `message`, `file`, 1-based `line`/`col`, the raw byte
    /// `span`, and a `secondary` array shaped the same way (minus `message`, plus
    /// `label`).
    #[verifier::spinoff_prover]
    #[verifier::rlimit(40)]
    pub fn to_json(&self, file: &SourceFile) -> (r: String)
        requires
            diag_fits(file.text@, *self),
        ensures
            r@ == json_text(file.text@, file.name@, *self),
    {
        let t = chars_of(file.text.as_str());
        let mut out = String::new();
        push_str(&mut out, "{\"code\":\"");
        push_str(&mut out, self.code.as_str());
        push_str(&mut out, "\",\"message\":");
        let m = json_escape(self.message.as_str());
        push_str(&mut out, m.as_str());
        push_str(&mut out, ",\"file\":");
        let f = json_escape(file.name.as_str());
        push_str(&mut out, f.as_str());
        push_json_location(&mut out, t.as_slice(), self.span);
        push_str(&mut out, ",\"secondary\":[");
        let ghost head = out@;
        proof {
            assert(self.secondary@.take(0) =~= Seq::<(String, Span)>::empty());
        }
        let mut i: usize = 0;
        while i < self.secondary.len()
            invariant
                i <= self.secondary@.len(),
                t@ == file.text@,
                diag_fits(t@, *self),
                out@ == head + json_secondaries(t@, self.secondary@.take(i as int)),
            decreases self.secondary@.len() - i,
        {
            let pair = &self.secondary[i];
            if i > 0 {
                push_str(&mut out, ",");
            }
            push_str(&mut out, "{\"label\":");
            let l = json_escape(pair.0.as_str());
            push_str(&mut out, l.as_str());
            assert(span_fits(t@, self.secondary@[i as int].1));
            push_json_location(&mut out, t.as_slice(), pair.1);
            push_str(&mut out, "}");
            proof {
                assert(self.secondary@.take(i + 1).drop_last() =~= self.secondary@.take(i as int));
            }
            i = i + 1;
        }
        proof {
            assert(self.secondary@.take(i as int) =~= self.secondary@);
        }
        push_str(&mut out, "]}");
        out
    }

    /// The gutter (line-number column) is sized to the widest line number this
    /// diagnostic touches, primary or secondary.
    fn gutter_width(&self, t: &[char]) -> (g: usize)
        requires
            diag_fits(t@, *self),
        ensures
            g == gutter_of(t@, *self),
    {
        let k = char_index_of_byte(t, self.span.lo as u64);
        let (first, _) = line_col_of_prefix(t, k);
        let mut m = first;
        let mut i: usize = 0;
        while i < self.secondary.len()
            invariant
                i <= self.secondary@.len(),
                diag_fits(t@, *self),
                m == max_line_of(t@, *self, i as int),
            decreases self.secondary@.len() - i,
        {
            let sp = self.secondary[i].1;
            assert(span_fits(t@, self.secondary@[i as int].1));
            let k = char_index_of_byte(t, sp.lo as u64);
            let (l, _) = line_col_of_prefix(t, k);
            if l > m {
                m = l;
            }
            i = i + 1;
        }
        decimal_chars(m as u128).len()
    }
}

/// A span can be located in text `t`: its start falls on a character boundary (or at
/// or past the end), and counting lines and columns up to it stays in `u32`.
pub open spec fn span_fits(t: Seq<char>, sp: Span) -> bool {
    &&& (sp.lo >= byte_len(t) || is_char_boundary(t, sp.lo as int))
    &&& line_col_fits(t, char_index_at(t, sp.lo as int))
}

/// Every span of `d` can be located in text `t`.
pub open spec fn diag_fits(t: Seq<char>, d: Diagnostic) -> bool {
    &&& span_fits(t, d.span)
    &&& forall|i: int| 0 <= i < d.secondary@.len() ==> span_fits(t, #[trigger] d.secondary@[i].1)
}

/// The 1-based line on which `sp` starts.
pub open spec fn span_line(t: Seq<char>, sp: Span) -> int {
    spec_line_col(t.take(char_index_at(t, sp.lo as int))).0
}

/// The 1-based column at which `sp` starts.
pub open spec fn span_col(t: Seq<char>, sp: Span) -> int {
    spec_line_col(t.take(char_index_at(t, sp.lo as int))).1
}

/// The index of the first character of the line holding character index `k`.
pub open spec fn line_start_before(t: Seq<char>, k: int) -> int
    decreases k,
{
    if k <= 0 {
        0
    } else if t[k - 1] == '\n' {
        k
    } else {
        line_start_before(t, k - 1)
    }
}

/// The index of the first `\n` at or after `i`, or the text's length.
pub open spec fn line_end_from(t: Seq<char>, i: int) -> int
    decreases t.len() - i,
{
    if i >= t.len() {
        t.len() as int
    } else if t[i] == '\n' {
        i
    } else {
        line_end_from(t, i + 1)
    }
}

/// What stands under character `c` before a caret: a tab stays a tab, so columns
/// line up on a terminal; anything else becomes a space.
pub open spec fn caret_fill(c: char) -> char {
    if c == '\t' {
        '\t'
    } else {
        ' '
    }
}

/// The fill under each character of `t[from..to]` that starts before byte `lo`.
pub open spec fn caret_prefix(t: Seq<char>, from: int, to: int, lo: int) -> Seq<char>
    decreases to - from,
{
    if to <= from {
        Seq::empty()
    } else if byte_offset(t, to - 1) < lo {
        caret_prefix(t, from, to - 1, lo).push(caret_fill(t[to - 1]))
    } else {
        caret_prefix(t, from, to - 1, lo)
    }
}

/// How many characters of `t[from..to]` start inside the byte range `[lo, hi)`.
pub open spec fn caret_count(t: Seq<char>, from: int, to: int, lo: int, hi: int) -> nat
    decreases to - from,
{
    if to <= from {
        0
    } else if lo <= byte_offset(t, to - 1) < hi {
        caret_count(t, from, to - 1, lo, hi) + 1
    } else {
        caret_count(t, from, to - 1, lo, hi)
    }
}

/// The marker line under the source line `t[from..to]`: fill up to the span's start,
/// then one `^` per character the span covers, and at least one `^` even when it
/// covers none (a zero-width span at the end of the file).
pub open spec fn caret_text(t: Seq<char>, from: int, to: int, sp: Span) -> Seq<char> {
    let n = caret_count(t, from, to, sp.lo as int, sp.hi as int);
    caret_prefix(t, from, to, sp.lo as int) + repeat_char(
        '^',
        if n == 0 {
            1
        } else {
            n
        },
    )
}

/// `--> file:line:col`, after the gutter.
pub open spec fn location_line(t: Seq<char>, name: Seq<char>, sp: Span, g: nat) -> Seq<char> {
    repeat_char(' ', g) + " --> "@ + name + ":"@ + spec_decimal(span_line(t, sp) as nat) + ":"@
        + spec_decimal(span_col(t, sp) as nat)
}

/// The source line that holds the start of `sp`, behind its right-aligned number.
pub open spec fn source_line(t: Seq<char>, sp: Span, g: nat) -> Seq<char> {
    let ls = line_start_before(t, char_index_at(t, sp.lo as int));
    pad_left(spec_decimal(span_line(t, sp) as nat), ' ', g) + " | "@ + t.subrange(
        ls,
        line_end_from(t, ls),
    )
}

/// The caret line under `source_line`.
pub open spec fn marker_line(t: Seq<char>, sp: Span, g: nat) -> Seq<char> {
    let ls = line_start_before(t, char_index_at(t, sp.lo as int));
    repeat_char(' ', g) + " | "@ + caret_text(t, ls, line_end_from(t, ls), sp)
}

/// The four lines that show where `sp` starts: location, blank gutter, the source
/// line, and the caret line, with a gutter `g` columns wide.
pub open spec fn block_text(t: Seq<char>, name: Seq<char>, sp: Span, g: nat) -> Seq<char> {
    location_line(t, name, sp, g) + "\n"@ + repeat_char(' ', g) + " |"@ + "\n"@ + source_line(
        t,
        sp,
        g,
    ) + "\n"@ + marker_line(t, sp, g)
}

/// The widest line number among the start of `d`'s primary span and its first `n`
/// secondary spans.
pub open spec fn max_line_of(t: Seq<char>, d: Diagnostic, n: int) -> int
    decreases n,
{
    if n <= 0 {
        span_line(t, d.span)
    } else {
        let m = max_line_of(t, d, n - 1);
        let l = span_line(t, d.secondary@[n - 1].1);
        if l > m {
            l
        } else {
            m
        }
    }
}

/// The gutter is as wide as the largest line number `d` touches, so every block it
/// prints lines up.
pub open spec fn gutter_of(t: Seq<char>, d: Diagnostic) -> nat {
    spec_decimal(max_line_of(t, d, d.secondary@.len() as int) as nat).len()
}

/// One captioned, located block per secondary span, each after a blank line.
pub open spec fn secondary_blocks(
    t: Seq<char>,
    name: Seq<char>,
    secs: Seq<(String, Span)>,
    g: nat,
) -> Seq<char>
    decreases secs.len(),
{
    if secs.len() == 0 {
        Seq::empty()
    } else {
        secondary_blocks(t, name, secs.drop_last(), g) + "\n\nnote: "@ + secs.last().0@ + "\n"@
            + block_text(t, name, secs.last().1, g)
    }
}

/// The plain-text rendering of `d` against a file named `name` holding `t`: header,
/// primary source block, the fixed per-code note, then the secondary blocks.
pub open spec fn render_text(t: Seq<char>, name: Seq<char>, d: Diagnostic) -> Seq<char> {
    let g = gutter_of(t, d);
    "error["@ + code_name(d.code) + "]: "@ + d.message@ + "\n"@ + block_text(t, name, d.span, g)
        + "\n"@ + repeat_char(' ', g) + " = note: "@ + code_note(d.code) + secondary_blocks(
        t,
        name,
        d.secondary@,
        g,
    )
}

/// A lowercase hexadecimal digit for `d < 16`.
pub open spec fn hex_digit(d: int) -> char {
    if d < 10 {
        (d + 48) as char
    } else {
        (d + 87) as char
    }
}

/// How `c` is written inside a JSON string literal.
pub open spec fn json_char(c: char) -> Seq<char> {
    if c == '"' {
        "\\\""@
    } else if c == '\\' {
        "\\\\"@
    } else if c == '\n' {
        "\\n"@
    } else if c == '\r' {
        "\\r"@
    } else if c == '\t' {
        "\\t"@
    } else if (c as u32) < 0x20 {
        "\\u00"@ + seq![hex_digit((c as u32) as int / 16), hex_digit((c as u32) as int % 16)]
    } else {
        seq![c]
    }
}

/// The escaped body of a JSON string literal holding `s`.
pub open spec fn json_chars(s: Seq<char>) -> Seq<char>
    decreases s.len(),
{
    if s.len() == 0 {
        Seq::empty()
    } else {
        json_chars(s.drop_last()) + json_char(s.last())
    }
}

/// `s` as a JSON string literal, quotes included.
pub open spec fn json_string(s: Seq<char>) -> Seq<char> {
    "\""@ + json_chars(s) + "\""@
}

/// The location fields of a JSON diagnostic object for `sp`.
pub open spec fn json_location(t: Seq<char>, sp: Span) -> Seq<char> {
    ",\"line\":"@ + spec_decimal(span_line(t, sp) as nat) + ",\"col\":"@ + spec_decimal(
        span_col(t, sp) as nat,
    ) + ",\"span\":{\"lo\":"@ + spec_decimal(sp.lo as nat) + ",\"hi\":"@ + spec_decimal(
        sp.hi as nat,
    ) + "}"@
}

/// The comma-separated JSON objects for the secondary spans `secs`.
pub open spec fn json_secondaries(t: Seq<char>, secs: Seq<(String, Span)>) -> Seq<char>
    decreases secs.len(),
{
    if secs.len() == 0 {
        Seq::empty()
    } else {
        let sep = if secs.len() > 1 {
            ","@
        } else {
            Seq::empty()
        };
        json_secondaries(t, secs.drop_last()) + sep + "{\"label\":"@ + json_string(secs.last().0@)
            + json_location(t, secs.last().1) + "}"@
    }
}

/// `d` as one JSON object.
pub open spec fn json_text(t: Seq<char>, name: Seq<char>, d: Diagnostic) -> Seq<char> {
    "{\"code\":\""@ + code_name(d.code) + "\",\"message\":"@ + json_string(d.message@)
        + ",\"file\":"@ + json_string(name) + json_location(t, d.span) + ",\"secondary\":["@
        + json_secondaries(t, d.secondary@) + "]}"@
}

/// `a` orders no later than `b`: by start, then by end.
pub open spec fn span_le(a: Span, b: Span) -> bool {
    a.lo < b.lo || (a.lo == b.lo && a.hi <= b.hi)
}

/// `s` is ordered by span.
pub open spec fn sorted_by_span(s: Seq<Diagnostic>) -> bool {
    forall|i: int, j: int| 0 <= i < j < s.len() ==> span_le(#[trigger] s[i].span, #[trigger] s[j].span)
}

/// Holds of the diagnostics whose primary span is exactly `sp`.
pub open spec fn at_span(sp: Span) -> spec_fn(Diagnostic) -> bool {
    |d: Diagnostic| d.span == sp
}

/// The diagnostics joined by blank lines, each rendered by `render_text`.
pub open spec fn render_all_body(t: Seq<char>, name: Seq<char>, ds: Seq<Diagnostic>) -> Seq<char>
    decreases ds.len(),
{
    if ds.len() == 0 {
        Seq::empty()
    } else {
        let sep = if ds.len() > 1 {
            "\n\n"@
        } else {
            Seq::empty()
        };
        render_all_body(t, name, ds.drop_last()) + sep + render_text(t, name, ds.last())
    }
}

/// The diagnostics as comma-separated JSON objects.
pub open spec fn json_all_body(t: Seq<char>, name: Seq<char>, ds: Seq<Diagnostic>) -> Seq<char>
    decreases ds.len(),
{
    if ds.len() == 0 {
        Seq::empty()
    } else {
        let sep = if ds.len() > 1 {
            ","@
        } else {
            Seq::empty()
        };
        json_all_body(t, name, ds.drop_last()) + sep + json_text(t, name, ds.last())
    }
}

proof fn lemma_filter_push(s: Seq<Diagnostic>, d: Diagnostic, pred: spec_fn(Diagnostic) -> bool)
    ensures
        s.push(d).filter(pred) == (if pred(d) {
            s.filter(pred).push(d)
        } else {
            s.filter(pred)
        }),
{
    reveal(Seq::filter);
    assert(s.push(d).drop_last() =~= s);
}

proof fn lemma_filter_none(s: Seq<Diagnostic>, pred: spec_fn(Diagnostic) -> bool)
    requires
        forall|i: int| 0 <= i < s.len() ==> !pred(#[trigger] s[i]),
    ensures
        s.filter(pred) == Seq::<Diagnostic>::empty(),
    decreases s.len(),
{
    reveal(Seq::filter);
    if s.len() > 0 {
        lemma_filter_none(s.drop_last(), pred);
        assert(!pred(s[s.len() - 1]));
    }
}

/// Inserting `d` in front of everything that orders after it adds `d` at the end of
/// the diagnostics that share its span, and leaves the others' order alone.
proof fn lemma_insert_filter(out: Seq<Diagnostic>, p: int, d: Diagnostic, sp: Span)
    requires
        0 <= p <= out.len(),
        forall|i: int| p <= i < out.len() ==> !span_le(#[trigger] out[i].span, d.span),
    ensures
        out.insert(p, d).filter(at_span(sp)) == (if d.span == sp {
            out.filter(at_span(sp)).push(d)
        } else {
            out.filter(at_span(sp))
        }),
{
    let pred = at_span(sp);
    let a = out.take(p);
    let b = out.skip(p);
    assert(out.insert(p, d) =~= a + seq![d] + b);
    assert(out =~= a + b);
    Seq::filter_distributes_over_add(a + seq![d], b, pred);
    Seq::filter_distributes_over_add(a, seq![d], pred);
    Seq::filter_distributes_over_add(a, b, pred);
    lemma_filter_push(Seq::empty(), d, pred);
    assert(Seq::<Diagnostic>::empty().push(d) =~= seq![d]);
    reveal(Seq::filter);
    assert(Seq::<Diagnostic>::empty().filter(pred) =~= Seq::<Diagnostic>::empty());
    if d.span == sp {
        assert forall|i: int| 0 <= i < b.len() implies !pred(#[trigger] b[i]) by {
            assert(b[i] == out[p + i]);
        }
        lemma_filter_none(b, pred);
        assert(out.insert(p, d).filter(pred) =~= out.filter(pred).push(d));
    } else {
        assert(out.insert(p, d).filter(pred) =~= out.filter(pred));
    }
}

/// The index of the first character of the line holding character index `k`.
fn line_start_index(t: &[char], k: usize) -> (r: usize)
    requires
        k <= t@.len(),
    ensures
        r == line_start_before(t@, k as int),
        r <= k,
{
    let mut i = k;
    while i > 0 && t[i - 1] != '\n'
        invariant
            i <= k <= t@.len(),
            line_start_before(t@, i as int) == line_start_before(t@, k as int),
        decreases i,
    {
        i = i - 1;
    }
    i
}

/// The index of the first `\n` at or after `from`, or the length of `t`.
fn line_end_index(t: &[char], from: usize) -> (r: usize)
    requires
        from <= t@.len(),
    ensures
        r == line_end_from(t@, from as int),
        from <= r <= t@.len(),
{
    let mut i = from;
    while i < t.len() && t[i] != '\n'
        invariant
            from <= i <= t@.len(),
            line_end_from(t@, i as int) == line_end_from(t@, from as int),
        decreases t@.len() - i,
    {
        i = i + 1;
    }
    i
}

/// Appends the caret line for `sp` under the source line `t[from..to]`.
fn push_caret_line(s: &mut String, t: &[char], from: usize, to: usize, sp: Span)
    requires
        from <= to <= t@.len(),
    ensures
        final(s)@ == old(s)@ + caret_text(t@, from as int, to as int, sp),
{
    let mut b: u128 = 0;
    let mut j: usize = 0;
    proof {
        assert(t@.take(0) =~= Seq::<char>::empty());
    }
    while j < from
        invariant
            j <= from <= t@.len(),
            b == byte_offset(t@, j as int),
        decreases from - j,
    {
        proof {
            lemma_byte_offset_step(t@, j as int);
            lemma_byte_len_le(t@.take(j as int));
        }
        b = b + char_utf8_len(t[j]) as u128;
        j = j + 1;
    }
    let mut prefix = String::new();
    let mut count: usize = 0;
    while j < to
        invariant
            from <= j <= to <= t@.len(),
            b == byte_offset(t@, j as int),
            prefix@ == caret_prefix(t@, from as int, j as int, sp.lo as int),
            count == caret_count(t@, from as int, j as int, sp.lo as int, sp.hi as int),
            count <= j - from,
        decreases to - j,
    {
        if b < sp.lo as u128 {
            let f = if t[j] == '\t' {
                '\t'
            } else {
                ' '
            };
            push_char(&mut prefix, f);
        } else if b < sp.hi as u128 {
            count = count + 1;
        }
        proof {
            lemma_byte_offset_step(t@, j as int);
            lemma_byte_len_le(t@.take(j as int));
        }
        b = b + char_utf8_len(t[j]) as u128;
        j = j + 1;
    }
    push_str(s, prefix.as_str());
    let n = if count == 0 {
        1
    } else {
        count
    };
    push_repeat(s, '^', n);
}

/// Appends the four-line source block for `sp`, with a gutter `g` columns wide.
#[verifier::spinoff_prover]
#[verifier::rlimit(40)]
fn push_block(s: &mut String, name: &str, t: &[char], sp: Span, g: usize)
    requires
        span_fits(t@, sp),
    ensures
        final(s)@ == old(s)@ + block_text(t@, name@, sp, g as nat),
{
    let k = char_index_of_byte(t, sp.lo as u64);
    let (line, col) = line_col_of_prefix(t, k);
    let ls = line_start_index(t, k);
    let le = line_end_index(t, ls);
    let ghost start = s@;
    let ghost line_n = span_line(t@, sp);
    push_repeat(s, ' ', g);
    push_str(s, " --> ");
    push_str(s, name);
    push_str(s, ":");
    push_decimal(s, line as u128);
    push_str(s, ":");
    push_decimal(s, col as u128);
    assert(s@ =~= start + location_line(t@, name@, sp, g as nat));
    let ghost mid1 = s@;
    push_str(s, "\n");
    push_repeat(s, ' ', g);
    push_str(s, " |");
    push_str(s, "\n");
    assert(s@ =~= mid1 + "\n"@ + repeat_char(' ', g as nat) + " |"@ + "\n"@);
    let ghost mid2 = s@;
    let digits = decimal_chars(line as u128);
    push_padded_left(s, digits.as_slice(), ' ', g);
    push_str(s, " | ");
    let src = copy_range(t, ls, le);
    push_chars(s, src.as_slice());
    assert(s@ =~= mid2 + source_line(t@, sp, g as nat));
    let ghost mid3 = s@;
    push_str(s, "\n");
    let ghost mid4 = s@;
    push_repeat(s, ' ', g);
    push_str(s, " | ");
    push_caret_line(s, t, ls, le, sp);
    assert(s@ =~= mid4 + marker_line(t@, sp, g as nat));
    assert(s@ =~= start + block_text(t@, name@, sp, g as nat));
}

/// Appends the hexadecimal digit for `d < 16`.
fn push_hex_digit(s: &mut String, d: u32)
    requires
        d < 16,
    ensures
        final(s)@ == old(s)@.push(hex_digit(d as int)),
{
    let b = d as u8;
    if b < 10 {
        push_char(s, (48u8 + b) as char);
    } else {
        push_char(s, (87u8 + b) as char);
    }
}

/// Escapes `s` as a JSON string literal, quotes included.
pub fn json_escape(s: &str) -> (r: String)
    ensures
        r@ == json_string(s@),
{
    let cs = chars_of(s);
    let mut out = String::new();
    push_str(&mut out, "\"");
    let ghost head = out@;
    let mut i: usize = 0;
    proof {
        assert(cs@.take(0) =~= Seq::<char>::empty());
    }
    while i < cs.len()
        invariant
            i <= cs@.len(),
            out@ == head + json_chars(cs@.take(i as int)),
        decreases cs@.len() - i,
    {
        let c = cs[i];
        if c == '"' {
            push_str(&mut out, "\\\"");
        } else if c == '\\' {
            push_str(&mut out, "\\\\");
        } else if c == '\n' {
            push_str(&mut out, "\\n");
        } else if c == '\r' {
            push_str(&mut out, "\\r");
        } else if c == '\t' {
            push_str(&mut out, "\\t");
        } else if (c as u32) < 0x20 {
            push_str(&mut out, "\\u00");
            push_hex_digit(&mut out, (c as u32) / 16);
            push_hex_digit(&mut out, (c as u32) % 16);
        } else {
            push_char(&mut out, c);
        }
        proof {
            assert(cs@.take(i + 1).drop_last() =~= cs@.take(i as int));
        }
        i = i + 1;
    }
    proof {
        assert(cs@.take(i as int) =~= cs@);
    }
    push_str(&mut out, "\"");
    assert(out@ =~= json_string(s@));
    out
}

/// Appends the location fields of a JSON diagnostic object for `sp`.
fn push_json_location(s: &mut String, t: &[char], sp: Span)
    requires
        span_fits(t@, sp),
    ensures
        final(s)@ == old(s)@ + json_location(t@, sp),
{
    let ghost start = s@;
    let k = char_index_of_byte(t, sp.lo as u64);
    let (line, col) = line_col_of_prefix(t, k);
    push_str(s, ",\"line\":");
    push_decimal(s, line as u128);
    push_str(s, ",\"col\":");
    push_decimal(s, col as u128);
    push_str(s, ",\"span\":{\"lo\":");
    push_decimal(s, sp.lo as u128);
    push_str(s, ",\"hi\":");
    push_decimal(s, sp.hi as u128);
    push_str(s, "}");
    assert(s@ =~= start + json_location(t@, sp));
}

/// Sort diagnostics by span, stably, so output order is deterministic regardless of
/// which stage or traversal order produced them.
pub fn sort_by_span(diags: &mut Vec<Diagnostic>)
    ensures
        sorted_by_span(final(diags)@),
        final(diags)@.to_multiset() == old(diags)@.to_multiset(),
        forall|sp: Span| #[trigger] final(diags)@.filter(at_span(sp)) == old(diags)@.filter(at_span(sp)),
{
    broadcast use vstd::seq_lib::to_multiset_build, vstd::seq_lib::to_multiset_insert;

    let ghost orig = diags@;
    let mut input: Vec<Diagnostic> = Vec::new();
    std::mem::swap(&mut input, diags);
    let mut out: Vec<Diagnostic> = Vec::new();
    let ghost mut k: int = 0;
    proof {
        reveal(Seq::filter);
        assert(orig.take(0) =~= Seq::<Diagnostic>::empty());
        assert(input@ =~= orig.subrange(0, orig.len() as int));
    }
    while input.len() > 0
        invariant
            0 <= k <= orig.len(),
            input@ == orig.subrange(k, orig.len() as int),
            sorted_by_span(out@),
            out@.to_multiset() == orig.take(k).to_multiset(),
            forall|sp: Span| #[trigger] out@.filter(at_span(sp)) == orig.take(k).filter(at_span(sp)),
        decreases input@.len(),
    {
        let d = input.remove(0);
        let ghost dg = d;
        let mut p: usize = 0;
        while p < out.len() && (out[p].span.lo < d.span.lo || (out[p].span.lo == d.span.lo
            && out[p].span.hi <= d.span.hi))
            invariant
                p <= out@.len(),
                forall|i: int| 0 <= i < p ==> span_le(#[trigger] out@[i].span, d.span),
            decreases out@.len() - p,
        {
            p = p + 1;
        }
        let ghost before = out@;
        proof {
            assert forall|i: int| p <= i < before.len() implies !span_le(
                #[trigger] before[i].span,
                dg.span,
            ) by {
                if i > p {
                    assert(span_le(before[p as int].span, before[i].span));
                }
            }
            assert(dg == orig[k]);
            assert(orig.take(k + 1) =~= orig.take(k).push(dg));
        }
        out.insert(p, d);
        proof {
            assert forall|i: int, j: int| 0 <= i < j < out@.len() implies span_le(
                #[trigger] out@[i].span,
                #[trigger] out@[j].span,
            ) by {
                if j < p {
                    assert(out@[i] == before[i] && out@[j] == before[j]);
                } else if j == p {
                    assert(out@[i] == before[i]);
                } else if i < p {
                    assert(out@[i] == before[i] && out@[j] == before[j - 1]);
                } else if i == p {
                    assert(out@[j] == before[j - 1]);
                } else {
                    assert(out@[i] == before[i - 1] && out@[j] == before[j - 1]);
                }
            }
            assert forall|sp: Span| #[trigger] out@.filter(at_span(sp)) == orig.take(k + 1).filter(
                at_span(sp),
            ) by {
                lemma_insert_filter(before, p as int, dg, sp);
                lemma_filter_push(orig.take(k), dg, at_span(sp));
            }
            vstd::seq_lib::to_multiset_insert(before, p as int, dg);
            vstd::seq_lib::to_multiset_build(orig.take(k), dg);
            assert(out@ == before.insert(p as int, dg));
            assert(input@ =~= orig.subrange(k + 1, orig.len() as int));
            k = k + 1;
        }
    }
    proof {
        assert(orig.take(k) =~= orig);
    }
    *diags = out;
}

/// Renders every diagnostic (assumed already sorted, per `sort_by_span`) as plain
/// text, one blank line apart, with a single trailing newline.
pub fn render_all(diags: &[Diagnostic], file: &SourceFile) -> (r: String)
    requires
        forall|i: int| 0 <= i < diags@.len() ==> diag_fits(file.text@, #[trigger] diags@[i]),
    ensures
        r@ == render_all_body(file.text@, file.name@, diags@) + "\n"@,
{
    let mut out = String::new();
    let mut i: usize = 0;
    proof {
        assert(diags@.take(0) =~= Seq::<Diagnostic>::empty());
    }
    while i < diags.len()
        invariant
            i <= diags@.len(),
            forall|j: int| 0 <= j < diags@.len() ==> diag_fits(file.text@, #[trigger] diags@[j]),
            out@ == render_all_body(file.text@, file.name@, diags@.take(i as int)),
        decreases diags@.len() - i,
    {
        if i > 0 {
            push_str(&mut out, "\n\n");
        }
        let r = diags[i].render(file);
        push_str(&mut out, r.as_str());
        proof {
            assert(diags@.take(i + 1).drop_last() =~= diags@.take(i as int));
        }
        i = i + 1;
    }
    proof {
        assert(diags@.take(i as int) =~= diags@);
    }
    push_str(&mut out, "\n");
    out
}

/// Renders every diagnostic (assumed already sorted) as a `{"ok":false,"diagnostics":
/// [...]}` JSON envelope, with a single trailing newline.
pub fn render_all_json(diags: &[Diagnostic], file: &SourceFile) -> (r: String)
    requires
        forall|i: int| 0 <= i < diags@.len() ==> diag_fits(file.text@, #[trigger] diags@[i]),
    ensures
        r@ == "{\"ok\":false,\"diagnostics\":["@ + json_all_body(file.text@, file.name@, diags@)
            + "]}\n"@,
{
    let mut out = String::new();
    push_str(&mut out, "{\"ok\":false,\"diagnostics\":[");
    let ghost head = out@;
    let mut i: usize = 0;
    proof {
        assert(diags@.take(0) =~= Seq::<Diagnostic>::empty());
    }
    while i < diags.len()
        invariant
            i <= diags@.len(),
            forall|j: int| 0 <= j < diags@.len() ==> diag_fits(file.text@, #[trigger] diags@[j]),
            out@ == head + json_all_body(file.text@, file.name@, diags@.take(i as int)),
        decreases diags@.len() - i,
    {
        if i > 0 {
            push_str(&mut out, ",");
        }
        let r = diags[i].to_json(file);
        push_str(&mut out, r.as_str());
        proof {
            assert(diags@.take(i + 1).drop_last() =~= diags@.take(i as int));
        }
        i = i + 1;
    }
    proof {
        assert(diags@.take(i as int) =~= diags@);
    }
    push_str(&mut out, "]}\n");
    out
}

} // verus!
