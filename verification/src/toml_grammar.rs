//! What the TOML parser reads, stated as functions over a template's char
//! stream: each takes a position and gives the value read and the position
//! after it, or the error message and the position where reading stops.
use vstd::prelude::*;

use crate::cursor::{
    first_non_char, hex_digits_value,
    char_at, chars_between, expected_message, flushed, fragment_role, hex_at, is_eof_at,
    is_interp_at, is_scalar_value, key_role, mark_at, slot_at, span_to, text_at, value_role,
    FragmentView,
};
use crate::syntax::{text_stream, StreamItem};
use crate::text::{is_white_space, trim_end_spec};
use crate::toml_backend::{
    datetime_without_seconds, disallowed_control, is_digit, is_v1_1, law_times_without_seconds, toml_table_get, toml_table_keys,
    toml_table_outcome, TAssignView,
    TDocumentView, TPathView, TSegmentValueView, TSegmentView, TStatementView, TStringView,
    TValueView, TomlProfile,
};

verus! {

/// What a read gives: the value and the position after it, or the error
/// message and the position where the read stopped.
pub type Parsed<T> = Result<(T, int), (Seq<char>, int)>;

/// Where a value stands: on a statement's line, in an array, or in an
/// inline table.
#[derive(Clone, Copy, Debug, PartialEq, Eq, Structural)]
pub enum ValueContext {
    Line,
    Array,
    Inline,
}

/// The four TOML string styles.
#[derive(Clone, Copy, Debug, PartialEq, Eq, Structural)]
pub enum StringStyle {
    Basic,
    MultilineBasic,
    Literal,
    MultilineLiteral,
}

/// How a bare literal is checked: by reading `value = <literal>` as a
/// template first and then with the `toml` crate, or with the `toml` crate
/// alone.
#[derive(Clone, Copy, Debug, PartialEq, Eq, Structural)]
pub enum LiteralMaterialization {
    SharedHelper,
    Direct,
}

/// The name a string style has in the tree.
pub open spec fn style_name(style: StringStyle) -> Seq<char> {
    match style {
        StringStyle::Basic => "basic"@,
        StringStyle::MultilineBasic => "multiline_basic"@,
        StringStyle::Literal => "literal"@,
        StringStyle::MultilineLiteral => "multiline_literal"@,
    }
}

/// Whether a style is a basic (escaping) style.
pub open spec fn is_basic_style(style: StringStyle) -> bool {
    style == StringStyle::Basic || style == StringStyle::MultilineBasic
}

/// Whether a style is a multiline style.
pub open spec fn is_multiline_style(style: StringStyle) -> bool {
    style == StringStyle::MultilineBasic || style == StringStyle::MultilineLiteral
}

/// The quote char of a style.
pub open spec fn style_quote(style: StringStyle) -> char {
    if is_basic_style(style) {
        '"'
    } else {
        '\''
    }
}

/// The text that opens (and closes) a string of the style.
pub open spec fn style_delimiter(style: StringStyle) -> Seq<char> {
    if is_multiline_style(style) {
        seq![style_quote(style), style_quote(style), style_quote(style)]
    } else {
        seq![style_quote(style)]
    }
}

/// The code used by every TOML parse error.
pub open spec fn toml_code() -> Seq<char> {
    "toml.parse"@
}

/// The name TOML messages give the template.
pub open spec fn toml_template_name() -> Seq<char> {
    "TOML template"@
}

/// `n` copies of a char.
pub open spec fn repeated(c: char, n: nat) -> Seq<char> {
    Seq::new(n, |_k: int| c)
}

// ---------------------------------------------------------------------------
// Space, comments and line ends
// ---------------------------------------------------------------------------

/// Whether the item at `k` is a space or a tab.
pub open spec fn hspace_at(s: Seq<StreamItem>, k: int) -> bool {
    char_at(s, k) == Some(' ') || char_at(s, k) == Some('\t')
}

/// The first position at or after `i` that holds no space or tab.
pub open spec fn hspace_end(s: Seq<StreamItem>, i: int) -> int
    decreases s.len() - i,
{
    if 0 <= i < s.len() && hspace_at(s, i) {
        hspace_end(s, i + 1)
    } else {
        i
    }
}

/// Whether `\r\n` stands at `k`.
pub open spec fn crlf_at(s: Seq<StreamItem>, k: int) -> bool {
    char_at(s, k) == Some('\r') && char_at(s, k + 1) == Some('\n')
}

/// Where a comment that reaches position `i` stops: at the first item that is
/// not a char, a line feed, or a control char a comment may not hold.
pub open spec fn comment_end(s: Seq<StreamItem>, i: int) -> int
    decreases s.len() - i,
{
    if 0 <= i < s.len() && char_at(s, i) is Some && char_at(s, i) != Some('\n')
        && !disallowed_control(char_at(s, i)->0, false) {
        comment_end(s, i + 1)
    } else {
        i
    }
}

/// `comment_end` stays inside the stream and does not go back; from a `#`
/// it moves on.
pub proof fn lemma_comment_end(s: Seq<StreamItem>, i: int)
    requires
        0 <= i <= s.len(),
    ensures
        i <= comment_end(s, i) <= s.len(),
        char_at(s, i) == Some('#') ==> i < comment_end(s, i),
    decreases s.len() - i,
{
    if 0 <= i < s.len() && char_at(s, i) is Some && char_at(s, i) != Some('\n')
        && !disallowed_control(char_at(s, i)->0, false) {
        lemma_comment_end(s, i + 1);
    }
}

/// The first position at or after `i` past space, comments and line ends
/// between statements.
pub open spec fn junk_end(s: Seq<StreamItem>, i: int) -> int
    decreases s.len() - i,
{
    let j = hspace_end(s, i);
    if !(0 <= i <= j < s.len()) {
        j
    } else if char_at(s, j) == Some('#') {
        let k = comment_end(s, j);
        if j < k <= s.len() {
            junk_end(s, k)
        } else {
            k
        }
    } else if char_at(s, j) == Some('\n') {
        junk_end(s, j + 1)
    } else if crlf_at(s, j) {
        junk_end(s, j + 2)
    } else {
        j
    }
}

/// What may follow a statement on its line: space, a comment, then a line
/// end or the end of the template. The position after it.
pub open spec fn line_suffix(s: Seq<StreamItem>, i: int) -> Result<int, (Seq<char>, int)> {
    let j = hspace_end(s, i);
    let k = if char_at(s, j) == Some('#') {
        comment_end(s, j)
    } else {
        j
    };
    if char_at(s, k) == Some('\n') {
        Ok(k + 1)
    } else if crlf_at(s, k) {
        Ok(k + 2)
    } else if !is_eof_at(s, k) {
        Err(("Unexpected trailing TOML content on the line."@, k))
    } else {
        Ok(k)
    }
}

/// Inside an inline table (outside a nested array), values may not be
/// followed by comments or line ends, under either profile.
pub open spec fn restricted(d: nat, ctx: ValueContext) -> bool {
    d > 0 && ctx != ValueContext::Array
}

/// The first position at or after `i` past the space, comments and line
/// ends that may stand before a value in the given context.
pub open spec fn value_space_end(
    s: Seq<StreamItem>,
    i: int,
    d: nat,
    ctx: ValueContext,
    p: TomlProfile,
) -> int
    decreases s.len() - i,
{
    let j = hspace_end(s, i);
    if !(0 <= i <= j < s.len()) {
        j
    } else if char_at(s, j) == Some('#') {
        if restricted(d, ctx) {
            j
        } else {
            let k = comment_end(s, j);
            if j < k <= s.len() {
                value_space_end(s, k, d, ctx, p)
            } else {
                k
            }
        }
    } else if char_at(s, j) == Some('\n') {
        if restricted(d, ctx) || ctx == ValueContext::Line {
            j
        } else {
            value_space_end(s, j + 1, d, ctx, p)
        }
    } else if crlf_at(s, j) {
        if ctx == ValueContext::Line || restricted(d, ctx) {
            j
        } else {
            value_space_end(s, j + 2, d, ctx, p)
        }
    } else {
        j
    }
}

/// The first position at or after `i` past spaces, tabs and carriage returns.
pub open spec fn terminator_probe(s: Seq<StreamItem>, i: int) -> int
    decreases s.len() - i,
{
    if 0 <= i < s.len() && (hspace_at(s, i) || char_at(s, i) == Some('\r')) {
        terminator_probe(s, i + 1)
    } else {
        i
    }
}

/// Whether a value may end before position `i` in the given context.
pub open spec fn value_terminator_at(
    s: Seq<StreamItem>,
    i: int,
    d: nat,
    ctx: ValueContext,
    p: TomlProfile,
) -> bool {
    let j = terminator_probe(s, i);
    let c = char_at(s, j);
    let eof = is_eof_at(s, j);
    if d > 0 {
        if ctx == ValueContext::Array {
            eof || c == Some(',') || c == Some(']') || c == Some('#')
        } else {
            eof || c == Some(',') || c == Some('}') || c == Some('#') || c == Some('\n') || c
                == Some('\r')
        }
    } else if ctx == ValueContext::Line {
        eof || c == Some('#') || c == Some('\n')
    } else {
        eof || c == Some(',') || c == Some(']') || c == Some('}') || c == Some('#') || c == Some(
            '\n',
        )
    }
}

// ---------------------------------------------------------------------------
// Strings
// ---------------------------------------------------------------------------

/// The number of items equal to the char `c` from position `k` on.
pub open spec fn quote_run(s: Seq<StreamItem>, k: int, c: char) -> nat
    decreases s.len() - k,
{
    if 0 <= k < s.len() && char_at(s, k) == Some(c) {
        1 + quote_run(s, k + 1, c)
    } else {
        0
    }
}

/// Past an optional `\r`, then an optional `\n`, from position `k`.
pub open spec fn opening_newline_end(s: Seq<StreamItem>, k: int) -> int {
    let a = if char_at(s, k) == Some('\r') {
        k + 1
    } else {
        k
    };
    if char_at(s, a) == Some('\n') {
        a + 1
    } else {
        a
    }
}

/// Whether the `\` at `k` ends its line (after optional space): a line-ending
/// backslash of a multiline basic string.
pub open spec fn multiline_escape_at(s: Seq<StreamItem>, k: int) -> bool {
    let a = hspace_end(s, k + 1);
    let b = if char_at(s, a) == Some('\r') {
        a + 1
    } else {
        a
    };
    char_at(s, b) == Some('\n')
}

/// The first position at or after `i` past spaces, tabs and line ends.
pub open spec fn blank_end(s: Seq<StreamItem>, i: int) -> int
    decreases s.len() - i,
{
    if 0 <= i < s.len() && (hspace_at(s, i) || char_at(s, i) == Some('\n') || char_at(s, i)
        == Some('\r')) {
        blank_end(s, i + 1)
    } else {
        i
    }
}

/// The position after a line-ending backslash at `k` and the blank text
/// after it.
pub open spec fn multiline_escape_end(s: Seq<StreamItem>, k: int) -> int {
    let a = hspace_end(s, k + 1);
    let b = if char_at(s, a) == Some('\r') {
        a + 1
    } else {
        a
    };
    let c = if char_at(s, b) == Some('\n') {
        b + 1
    } else {
        b
    };
    blank_end(s, c)
}

/// What a one-char escape after `\` stands for in a basic string.
pub open spec fn toml_simple_escape(c: char) -> Option<char> {
    if c == '"' {
        Some('"')
    } else if c == '\\' {
        Some('\\')
    } else if c == 'b' {
        Some('\u{0008}')
    } else if c == 'f' {
        Some('\u{000c}')
    } else if c == 'n' {
        Some('\n')
    } else if c == 'r' {
        Some('\r')
    } else if c == 't' {
        Some('\t')
    } else {
        None
    }
}

/// The message for an escape the profile does not know, or whose code point
/// names no char.
pub open spec fn invalid_escape_message() -> Seq<char> {
    "Invalid TOML escape sequence."@
}

/// `n` hex digits from position `k`, naming a char.
pub open spec fn code_escape(s: Seq<StreamItem>, k: int, n: nat) -> Parsed<char> {
    match hex_at(s, k, n, "Unexpected end of TOML escape sequence."@, invalid_escape_message()) {
        Err(x) => Err(x),
        Ok((v, k2)) => if is_scalar_value(v) {
            Ok((v as char, k2))
        } else {
            Err((invalid_escape_message(), k2))
        },
    }
}

/// The escape that starts with the `\` at position `k` of a basic string.
pub open spec fn basic_escape(s: Seq<StreamItem>, k: int, p: TomlProfile) -> Parsed<char> {
    match char_at(s, k + 1) {
        None => Err(("Incomplete TOML escape sequence."@, k + 1)),
        Some(e) => match toml_simple_escape(e) {
            Some(c) => Ok((c, k + 2)),
            None => if e == 'u' {
                code_escape(s, k + 2, 4)
            } else if e == 'U' {
                code_escape(s, k + 2, 8)
            } else if is_v1_1(p) && e == 'e' {
                Ok(('\u{001b}', k + 2))
            } else if is_v1_1(p) && e == 'x' {
                code_escape(s, k + 2, 2)
            } else {
                Err((invalid_escape_message(), k + 2))
            },
        },
    }
}

/// The escapes TOML defines read as the chars they name: `\"`, `\\`, `\b`,
/// `\f`, `\n`, `\r` and `\t` stand for U+0022, U+005C, U+0008, U+000C,
/// U+000A, U+000D and U+0009 under both profiles; `\e` stands for U+001B under
/// TOML 1.1 and is refused under TOML 1.0.
pub proof fn law_toml_short_escapes(s: Seq<StreamItem>, k: int, p: TomlProfile)
    ensures
        char_at(s, k + 1) == Some('"') ==> basic_escape(s, k, p) == Ok::<(char, int), (Seq<char>, int)>(
            ('\u{0022}', k + 2),
        ),
        char_at(s, k + 1) == Some('\\') ==> basic_escape(s, k, p) == Ok::<(char, int), (Seq<char>, int)>(
            ('\u{005c}', k + 2),
        ),
        char_at(s, k + 1) == Some('b') ==> basic_escape(s, k, p) == Ok::<(char, int), (Seq<char>, int)>(
            ('\u{0008}', k + 2),
        ),
        char_at(s, k + 1) == Some('f') ==> basic_escape(s, k, p) == Ok::<(char, int), (Seq<char>, int)>(
            ('\u{000c}', k + 2),
        ),
        char_at(s, k + 1) == Some('n') ==> basic_escape(s, k, p) == Ok::<(char, int), (Seq<char>, int)>(
            ('\u{000a}', k + 2),
        ),
        char_at(s, k + 1) == Some('r') ==> basic_escape(s, k, p) == Ok::<(char, int), (Seq<char>, int)>(
            ('\u{000d}', k + 2),
        ),
        char_at(s, k + 1) == Some('t') ==> basic_escape(s, k, p) == Ok::<(char, int), (Seq<char>, int)>(
            ('\u{0009}', k + 2),
        ),
        char_at(s, k + 1) == Some('e') && p == TomlProfile::V1_1 ==> basic_escape(s, k, p) == Ok::<
            (char, int),
            (Seq<char>, int),
        >(('\u{001b}', k + 2)),
        char_at(s, k + 1) == Some('e') && p == TomlProfile::V1_0 ==> basic_escape(s, k, p) is Err,
{
}

/// A `\u` escape with four hex digits that name a Unicode scalar value reads
/// as that char and takes six chars, under both profiles.
pub proof fn law_toml_unicode_escape(
    s: Seq<StreamItem>,
    k: int,
    p: TomlProfile,
    digits: Seq<char>,
    v: int,
)
    requires
        0 <= k,
        k + 6 < s.len(),
        char_at(s, k + 1) == Some('u'),
        digits.len() == 4,
        forall|j: int| 0 <= j < 4 ==> #[trigger] char_at(s, k + 2 + j) == Some(digits[j]),
        hex_digits_value(digits) == Some(v),
        is_scalar_value(v),
    ensures
        basic_escape(s, k, p) == Ok::<(char, int), (Seq<char>, int)>((v as char, k + 6)),
{
    assert(char_at(s, k + 2 + 0) == Some(digits[0]));
    assert(char_at(s, k + 2 + 1) == Some(digits[1]));
    assert(char_at(s, k + 2 + 2) == Some(digits[2]));
    assert(char_at(s, k + 2 + 3) == Some(digits[3]));
    assert(chars_between(s, k + 2, k + 6) =~= digits);
    assert(first_non_char(s, k + 6, 0) is None);
    assert(first_non_char(s, k + 5, 1) is None);
    assert(first_non_char(s, k + 4, 2) is None);
    assert(first_non_char(s, k + 3, 3) is None);
    assert(first_non_char(s, k + 2, 4) is None);
}

/// Reading the body of a basic string from position `k`, given the pieces and
/// the pending text so far: the pieces and the position after the string.
pub open spec fn basic_body(
    s: Seq<StreamItem>,
    k: int,
    multiline: bool,
    p: TomlProfile,
    parts: Seq<FragmentView>,
    buffer: Seq<char>,
) -> Parsed<Seq<FragmentView>>
    decreases s.len() - k,
{
    if !(0 <= k < s.len()) {
        Err((seq![], k))
    } else if multiline && text_at(s, k, "\"\"\""@) {
        let q = quote_run(s, k, '"');
        if (q == 4 || q == 5) && k + q - 3 < s.len() {
            basic_body(s, k + q - 3, multiline, p, parts, buffer + repeated('"', (q - 3) as nat))
        } else if q == 4 || q == 5 {
            Err((seq![], k))
        } else {
            Ok((flushed(parts, buffer), k + 3))
        }
    } else if !multiline && char_at(s, k) == Some('"') {
        Ok((flushed(parts, buffer), k + 1))
    } else if !multiline && (char_at(s, k) == Some('\r') || char_at(s, k) == Some('\n')) {
        Err(("TOML single-line basic strings cannot contain newlines."@, k))
    } else if is_eof_at(s, k) {
        Err(("Unterminated TOML basic string."@, k))
    } else if is_interp_at(s, k) {
        basic_body(
            s,
            k + 1,
            multiline,
            p,
            flushed(parts, buffer).push(FragmentView::Slot(slot_at(s, k, fragment_role()))),
            seq![],
        )
    } else if multiline && char_at(s, k) == Some('\\') && multiline_escape_at(s, k) {
        let k2 = multiline_escape_end(s, k);
        if k < k2 <= s.len() {
            basic_body(s, k2, multiline, p, parts, buffer)
        } else {
            Err((seq![], k2))
        }
    } else if char_at(s, k) == Some('\\') {
        match basic_escape(s, k, p) {
            Err(x) => Err(x),
            Ok((c, k2)) => if k < k2 <= s.len() {
                basic_body(s, k2, multiline, p, parts, buffer.push(c))
            } else {
                Err((seq![], k2))
            },
        }
    } else if multiline && crlf_at(s, k) {
        basic_body(s, k + 2, multiline, p, parts, buffer.push('\n'))
    } else if multiline && char_at(s, k) == Some('\n') {
        basic_body(s, k + 1, multiline, p, parts, buffer.push('\n'))
    } else if char_at(s, k) is Some {
        let c = char_at(s, k)->0;
        if disallowed_control(c, multiline) {
            Err(("Invalid TOML character in basic string."@, k))
        } else {
            basic_body(s, k + 1, multiline, p, parts, buffer.push(c))
        }
    } else {
        Err(("Unterminated TOML basic string."@, k))
    }
}

/// Reading the body of a literal string from position `k`, given the pieces
/// and the pending text so far: the pieces and the position after the string.
pub open spec fn literal_body(
    s: Seq<StreamItem>,
    k: int,
    multiline: bool,
    parts: Seq<FragmentView>,
    buffer: Seq<char>,
) -> Parsed<Seq<FragmentView>>
    decreases s.len() - k,
{
    if !(0 <= k < s.len()) {
        Err((seq![], k))
    } else if multiline && text_at(s, k, "'''"@) {
        let q = quote_run(s, k, '\'');
        if (q == 4 || q == 5) && k + q - 3 < s.len() {
            literal_body(s, k + q - 3, multiline, parts, buffer + repeated('\'', (q - 3) as nat))
        } else if q == 4 || q == 5 {
            Err((seq![], k))
        } else {
            Ok((flushed(parts, buffer), k + 3))
        }
    } else if !multiline && char_at(s, k) == Some('\'') {
        Ok((flushed(parts, buffer), k + 1))
    } else if !multiline && (char_at(s, k) == Some('\r') || char_at(s, k) == Some('\n')) {
        Err(("TOML single-line literal strings cannot contain newlines."@, k))
    } else if is_eof_at(s, k) {
        Err(("Unterminated TOML literal string."@, k))
    } else if is_interp_at(s, k) {
        literal_body(
            s,
            k + 1,
            multiline,
            flushed(parts, buffer).push(FragmentView::Slot(slot_at(s, k, fragment_role()))),
            seq![],
        )
    } else if multiline && crlf_at(s, k) {
        literal_body(s, k + 2, multiline, parts, buffer.push('\n'))
    } else if multiline && char_at(s, k) == Some('\n') {
        literal_body(s, k + 1, multiline, parts, buffer.push('\n'))
    } else if char_at(s, k) is Some {
        let c = char_at(s, k)->0;
        if disallowed_control(c, multiline) {
            Err(("Invalid TOML character in literal string."@, k))
        } else {
            literal_body(s, k + 1, multiline, parts, buffer.push(c))
        }
    } else {
        Err(("Unterminated TOML literal string."@, k))
    }
}

/// Reading a string of the given style whose opening delimiter stands at
/// position `i`.
#[verifier::opaque]
pub open spec fn toml_string(
    s: Seq<StreamItem>,
    i: int,
    style: StringStyle,
    p: TomlProfile,
) -> Parsed<TStringView> {
    let open_end = i + style_delimiter(style).len();
    let body_start = if is_multiline_style(style) {
        opening_newline_end(s, open_end)
    } else {
        open_end
    };
    let body = if is_basic_style(style) {
        basic_body(s, body_start, is_multiline_style(style), p, seq![], seq![])
    } else {
        literal_body(s, body_start, is_multiline_style(style), seq![], seq![])
    };
    match body {
        Err(x) => Err(x),
        Ok((parts, k)) => Ok(
            (
                TStringView {
                    span: span_to(s, mark_at(s, i), k),
                    style: style_name(style),
                    chunks: parts,
                },
                k,
            ),
        ),
    }
}

// ---------------------------------------------------------------------------
// Keys
// ---------------------------------------------------------------------------

/// The chars of a bare key segment.
pub open spec fn bare_key_char_at(s: Seq<StreamItem>, k: int) -> bool {
    match char_at(s, k) {
        Some(c) => crate::toml_backend::is_bare_key_char(c),
        None => false,
    }
}

/// The end of the run of bare-key chars from position `i`.
pub open spec fn bare_end(s: Seq<StreamItem>, i: int) -> int
    decreases s.len() - i,
{
    if 0 <= i < s.len() && bare_key_char_at(s, i) {
        bare_end(s, i + 1)
    } else {
        i
    }
}

/// Reading one key segment at position `i` (after optional space).
pub open spec fn key_segment(s: Seq<StreamItem>, i: int, p: TomlProfile) -> Parsed<TSegmentView> {
    let j = hspace_end(s, i);
    let start = mark_at(s, j);
    let span = span_to(s, start, j);
    if is_interp_at(s, j) {
        Ok(
            (
                TSegmentView {
                    span,
                    value: TSegmentValueView::Interpolation(slot_at(s, j, key_role())),
                    bare: false,
                },
                j + 1,
            ),
        )
    } else if text_at(s, j, "\"\"\""@) || text_at(s, j, "'''"@) {
        Err(("TOML v1.0 quoted keys cannot be multiline strings."@, j))
    } else if char_at(s, j) == Some('"') || char_at(s, j) == Some('\'') {
        let style = if char_at(s, j) == Some('"') {
            StringStyle::Basic
        } else {
            StringStyle::Literal
        };
        match toml_string(s, j, style, p) {
            Err(x) => Err(x),
            Ok((sv, k)) => Ok(
                (TSegmentView { span, value: TSegmentValueView::String(sv), bare: false }, k),
            ),
        }
    } else {
        let k = bare_end(s, j);
        if k == j {
            Err(("Expected a TOML key segment."@, j))
        } else {
            Ok(
                (
                    TSegmentView {
                        span: span_to(s, start, k),
                        value: TSegmentValueView::Bare(chars_between(s, j, k)),
                        bare: true,
                    },
                    k,
                ),
            )
        }
    }
}

/// Reading the `.`-separated segments after the first, from position `k`.
pub open spec fn key_path_rest(
    s: Seq<StreamItem>,
    k: int,
    p: TomlProfile,
    acc: Seq<TSegmentView>,
) -> Parsed<Seq<TSegmentView>>
    decreases s.len() - k,
{
    let j = hspace_end(s, k);
    if char_at(s, j) != Some('.') {
        Ok((acc, j))
    } else {
        let j2 = hspace_end(s, j + 1);
        match key_segment(s, j2, p) {
            Err(x) => Err(x),
            Ok((seg, k2)) => if k < k2 <= s.len() {
                key_path_rest(s, k2, p, acc.push(seg))
            } else {
                Err((seq![], k2))
            },
        }
    }
}

/// Reading a dotted key at position `i`; a header's key also takes the space
/// after it.
pub open spec fn key_path(s: Seq<StreamItem>, i: int, header: bool, p: TomlProfile) -> Parsed<
    TPathView,
> {
    let start = mark_at(s, i);
    match key_segment(s, i, p) {
        Err(x) => Err(x),
        Ok((seg, k)) => match key_path_rest(s, k, p, seq![seg]) {
            Err(x) => Err(x),
            Ok((segments, k2)) => {
                let k3 = if header {
                    hspace_end(s, k2)
                } else {
                    k2
                };
                Ok((TPathView { span: span_to(s, start, k3), segments }, k3))
            },
        },
    }
}

// ---------------------------------------------------------------------------
// Literals
// ---------------------------------------------------------------------------

/// The end of a bare literal's text from position `k`: where a value may end,
/// or the end of the template.
#[verifier::opaque]
pub open spec fn literal_end(
    s: Seq<StreamItem>,
    k: int,
    d: nat,
    ctx: ValueContext,
    p: TomlProfile,
) -> Result<int, (Seq<char>, int)>
    decreases s.len() - k,
{
    if !(0 <= k < s.len()) || is_eof_at(s, k) || value_terminator_at(s, k, d, ctx, p) {
        Ok(k)
    } else if is_interp_at(s, k) {
        Err(("TOML bare literals cannot contain fragment interpolations."@, k))
    } else {
        literal_end(s, k + 1, d, ctx, p)
    }
}

/// The one-line document `value = <source>` that a literal is read from.
pub open spec fn literal_document_text(source: Seq<char>) -> Seq<char> {
    "value = "@ + source
}

/// The value the `toml` crate reads from a literal's source: the `value`
/// entry of the table that `value = <source>` makes.
pub open spec fn literal_value(source: Seq<char>) -> Option<::toml::Value> {
    match toml_table_outcome(literal_document_text(source)) {
        Ok(t) => toml_table_get(t, "value"@),
        Err(_) => None,
    }
}

/// What the `toml` crate reports for a literal's source: nothing when it
/// reads a value from it, else the message.
pub open spec fn direct_error(p: TomlProfile, source: Seq<char>) -> Option<Seq<char>> {
    if !is_v1_1(p) && datetime_without_seconds(source) {
        Some("Invalid TOML literal: missing seconds in time value."@)
    } else {
        match toml_table_outcome(literal_document_text(source)) {
            Err(e) => Some("Invalid TOML literal: "@ + e),
            Ok(t) => if toml_table_keys(t).contains("value"@) {
                None
            } else {
                Some("Expected a TOML value."@)
            },
        }
    }
}

/// Under TOML 1.0 the `toml` crate is not asked about a time without seconds:
/// a local time `HH:MM`, or a date (any text without `T` or white space)
/// followed by `T` and `HH:MM`, is refused with the missing-seconds message,
/// and reading it as a literal fails.
pub proof fn law_v1_0_refuses_times_without_seconds(
    d: Seq<char>,
    h1: char,
    h2: char,
    m1: char,
    m2: char,
)
    requires
        forall|k: int| 0 <= k < d.len() ==> d[k] != 'T' && !is_white_space(#[trigger] d[k]),
        is_digit(h1) && is_digit(h2) && is_digit(m1) && is_digit(m2),
    ensures
        direct_error(TomlProfile::V1_0, d + seq!['T', h1, h2, ':', m1, m2]) == Some(
            "Invalid TOML literal: missing seconds in time value."@,
        ),
        direct_error(TomlProfile::V1_0, seq![h1, h2, ':', m1, m2]) == Some(
            "Invalid TOML literal: missing seconds in time value."@,
        ),
        materialize_error(
            TomlProfile::V1_0,
            LiteralMaterialization::SharedHelper,
            d + seq!['T', h1, h2, ':', m1, m2],
        ) is Some,
        materialize_error(
            TomlProfile::V1_0,
            LiteralMaterialization::SharedHelper,
            seq![h1, h2, ':', m1, m2],
        ) is Some,
{
    law_times_without_seconds(d, h1, h2, m1, m2, '0', '0');
    reveal(materialize_error);
}

/// The rank of a materialization mode in the order in which reads call each
/// other: the shared helper reads a document in the direct mode.
pub open spec fn mode_rank(m: LiteralMaterialization) -> int {
    match m {
        LiteralMaterialization::SharedHelper => 1,
        LiteralMaterialization::Direct => 0,
    }
}

// ---------------------------------------------------------------------------
// Values, statements and documents
// ---------------------------------------------------------------------------

/// What checking a literal's source reports: nothing when it has a value,
/// else the message.
#[verifier::opaque]
pub open spec fn materialize_error(
    p: TomlProfile,
    m: LiteralMaterialization,
    source: Seq<char>,
) -> Option<Seq<char>>
    decreases mode_rank(m), 0int, 0int,
{
    match m {
        LiteralMaterialization::SharedHelper => match toml_document(
            text_stream(literal_document_text(source)),
            0,
            0,
            p,
            LiteralMaterialization::Direct,
        ) {
            Err((message, _)) => Some(message),
            Ok(_) => direct_error(p, source),
        },
        LiteralMaterialization::Direct => direct_error(p, source),
    }
}

/// Reading a bare literal at position `i`.
#[verifier::opaque]
pub open spec fn toml_literal(
    s: Seq<StreamItem>,
    i: int,
    d: nat,
    ctx: ValueContext,
    p: TomlProfile,
    m: LiteralMaterialization,
) -> Parsed<TValueView>
    decreases mode_rank(m), s.len() - i, 5int,
{
    if !(0 <= i < s.len()) {
        Err((seq![], i))
    } else {
        match literal_end(s, i, d, ctx, p) {
            Err(x) => Err(x),
            Ok(k) => {
                let source = trim_end_spec(chars_between(s, i, k));
                if source.len() == 0 {
                    Err(("Expected a TOML value."@, k))
                } else {
                    match materialize_error(p, m, source) {
                        Some(message) => Err((message, k)),
                        None => Ok(
                            (
                                TValueView::Literal {
                                    span: span_to(s, mark_at(s, i), k),
                                    source,
                                    value: literal_value(source),
                                },
                                k,
                            ),
                        ),
                    }
                }
            },
        }
    }
}

/// A string read as a value.
pub open spec fn string_value(r: Parsed<TStringView>) -> Parsed<TValueView> {
    match r {
        Err(x) => Err(x),
        Ok((sv, k)) => Ok((TValueView::String(sv), k)),
    }
}

/// Reading a value at position `i` in the given context, inside `d` inline
/// tables.
pub open spec fn toml_value(
    s: Seq<StreamItem>,
    i: int,
    d: nat,
    ctx: ValueContext,
    p: TomlProfile,
    m: LiteralMaterialization,
) -> Parsed<TValueView>
    decreases mode_rank(m), s.len() - i, 6int,
{
    let j = value_space_end(s, i, d, ctx, p);
    if !(0 <= i <= j < s.len()) {
        Err((seq![], j))
    } else if is_interp_at(s, j) {
        if value_terminator_at(s, j + 1, d, ctx, p) {
            Ok((TValueView::Interpolation(slot_at(s, j, value_role())), j + 1))
        } else {
            Err(("Whole-value TOML interpolations cannot have bare suffix text."@, j + 1))
        }
    } else if char_at(s, j) == Some('[') {
        toml_array(s, j, d, p, m)
    } else if char_at(s, j) == Some('{') {
        toml_inline_table(s, j, d, p, m)
    } else if text_at(s, j, "\"\"\""@) {
        string_value(toml_string(s, j, StringStyle::MultilineBasic, p))
    } else if text_at(s, j, "'''"@) {
        string_value(toml_string(s, j, StringStyle::MultilineLiteral, p))
    } else if char_at(s, j) == Some('"') {
        string_value(toml_string(s, j, StringStyle::Basic, p))
    } else if char_at(s, j) == Some('\'') {
        string_value(toml_string(s, j, StringStyle::Literal, p))
    } else {
        toml_literal(s, j, d, ctx, p, m)
    }
}

/// Reading an array whose `[` stands at position `i`.
pub open spec fn toml_array(
    s: Seq<StreamItem>,
    i: int,
    d: nat,
    p: TomlProfile,
    m: LiteralMaterialization,
) -> Parsed<TValueView>
    decreases mode_rank(m), s.len() - i, 5int,
{
    let k = value_space_end(s, i + 1, d, ValueContext::Array, p);
    if !(0 <= i < k < s.len()) {
        Err((seq![], k))
    } else if char_at(s, k) == Some(']') {
        Ok((TValueView::Array { span: span_to(s, mark_at(s, i), k + 1), items: seq![] }, k + 1))
    } else {
        match toml_items(s, k, d, p, m, seq![]) {
            Err(x) => Err(x),
            Ok((items, k2)) => Ok(
                (TValueView::Array { span: span_to(s, mark_at(s, i), k2), items }, k2),
            ),
        }
    }
}

/// Reading the items of an array from position `k`, after those read so far.
pub open spec fn toml_items(
    s: Seq<StreamItem>,
    k: int,
    d: nat,
    p: TomlProfile,
    m: LiteralMaterialization,
    acc: Seq<TValueView>,
) -> Parsed<Seq<TValueView>>
    decreases mode_rank(m), s.len() - k, 7int,
{
    if !(0 <= k < s.len()) {
        Err((seq![], k))
    } else {
        match toml_value(s, k, d, ValueContext::Array, p, m) {
            Err(x) => Err(x),
            Ok((v, k1)) => {
                let acc2 = acc.push(v);
                let k2 = value_space_end(s, k1, d, ValueContext::Array, p);
                if char_at(s, k2) == Some(']') {
                    Ok((acc2, k2 + 1))
                } else if char_at(s, k2) != Some(',') {
                    Err((expected_message(',', toml_template_name()), k2))
                } else {
                    let k3 = value_space_end(s, k2 + 1, d, ValueContext::Array, p);
                    if char_at(s, k3) == Some(']') {
                        Ok((acc2, k3 + 1))
                    } else if !(k < k3 < s.len()) {
                        Err((seq![], k3))
                    } else {
                        toml_items(s, k3, d, p, m, acc2)
                    }
                }
            },
        }
    }
}

/// Reading an inline table whose `{` stands at position `i`.
pub open spec fn toml_inline_table(
    s: Seq<StreamItem>,
    i: int,
    d: nat,
    p: TomlProfile,
    m: LiteralMaterialization,
) -> Parsed<TValueView>
    decreases mode_rank(m), s.len() - i, 5int,
{
    let k = value_space_end(s, i + 1, d + 1, ValueContext::Inline, p);
    if !(0 <= i < k < s.len()) {
        Err((seq![], k))
    } else if char_at(s, k) == Some('}') {
        Ok(
            (
                TValueView::InlineTable {
                    span: span_to(s, mark_at(s, i), k + 1),
                    entries: seq![],
                },
                k + 1,
            ),
        )
    } else {
        match toml_entries(s, k, d + 1, p, m, seq![]) {
            Err(x) => Err(x),
            Ok((entries, k2)) => Ok(
                (TValueView::InlineTable { span: span_to(s, mark_at(s, i), k2), entries }, k2),
            ),
        }
    }
}

/// Reading the entries of an inline table from position `k`, after those
/// read so far (`d` counts the table itself).
pub open spec fn toml_entries(
    s: Seq<StreamItem>,
    k: int,
    d: nat,
    p: TomlProfile,
    m: LiteralMaterialization,
    acc: Seq<TAssignView>,
) -> Parsed<Seq<TAssignView>>
    decreases mode_rank(m), s.len() - k, 1int,
{
    if !(0 <= k < s.len()) {
        Err((seq![], k))
    } else {
        let start = mark_at(s, k);
        match key_path(s, k, false, p) {
            Err(x) => Err(x),
            Ok((path, k1)) => {
                let k2 = hspace_end(s, k1);
                if char_at(s, k2) != Some('=') {
                    Err((expected_message('=', toml_template_name()), k2))
                } else if !(k < k2 + 1 < s.len()) {
                    Err((seq![], k2 + 1))
                } else {
                    match toml_value(s, k2 + 1, d, ValueContext::Inline, p, m) {
                        Err(x) => Err(x),
                        Ok((v, k3)) => {
                            let acc2 = acc.push(
                                TAssignView { span: span_to(s, start, k3), key_path: path, value: v },
                            );
                            let k4 = value_space_end(s, k3, d, ValueContext::Inline, p);
                            if char_at(s, k4) == Some('}') {
                                Ok((acc2, k4 + 1))
                            } else if char_at(s, k4) != Some(',') {
                                Err((expected_message(',', toml_template_name()), k4))
                            } else {
                                let k5 = value_space_end(s, k4 + 1, d, ValueContext::Inline, p);
                                if char_at(s, k5) == Some('}') && !is_v1_1(p) {
                                    Err(
                                        (
                                            "Trailing commas are not permitted in TOML 1.0 inline tables."@,
                                            k5,
                                        ),
                                    )
                                } else if !(k < k5 < s.len()) {
                                    Err((seq![], k5))
                                } else {
                                    toml_entries(s, k5, d, p, m, acc2)
                                }
                            }
                        },
                    }
                }
            },
        }
    }
}

/// Reading `key = value` at position `i`.
pub open spec fn toml_assignment(
    s: Seq<StreamItem>,
    i: int,
    d: nat,
    p: TomlProfile,
    m: LiteralMaterialization,
) -> Parsed<TAssignView>
    decreases mode_rank(m), s.len() - i, 7int,
{
    let start = mark_at(s, i);
    match key_path(s, i, false, p) {
        Err(x) => Err(x),
        Ok((path, k1)) => {
            let k2 = hspace_end(s, k1);
            if char_at(s, k2) != Some('=') {
                Err((expected_message('=', toml_template_name()), k2))
            } else if !(0 <= i < k2 + 1 < s.len()) {
                Err((seq![], k2 + 1))
            } else {
                match toml_value(s, k2 + 1, d, ValueContext::Line, p, m) {
                    Err(x) => Err(x),
                    Ok((v, k3)) => Ok(
                        (TAssignView { span: span_to(s, start, k3), key_path: path, value: v }, k3),
                    ),
                }
            }
        },
    }
}

/// Reading `[key]` whose `[` stands at position `i`.
pub open spec fn toml_table_header(s: Seq<StreamItem>, i: int, p: TomlProfile) -> Parsed<
    TStatementView,
> {
    match key_path(s, i + 1, true, p) {
        Err(x) => Err(x),
        Ok((path, k)) => if char_at(s, k) != Some(']') {
            Err((expected_message(']', toml_template_name()), k))
        } else {
            Ok(
                (
                    TStatementView::TableHeader {
                        span: span_to(s, mark_at(s, i), k + 1),
                        key_path: path,
                    },
                    k + 1,
                ),
            )
        },
    }
}

/// Reading `[[key]]` whose `[[` stands at position `i`.
pub open spec fn toml_array_table_header(s: Seq<StreamItem>, i: int, p: TomlProfile) -> Parsed<
    TStatementView,
> {
    match key_path(s, i + 2, true, p) {
        Err(x) => Err(x),
        Ok((path, k)) => if char_at(s, k) != Some(']') {
            Err((expected_message(']', toml_template_name()), k))
        } else if char_at(s, k + 1) != Some(']') {
            Err((expected_message(']', toml_template_name()), k + 1))
        } else {
            Ok(
                (
                    TStatementView::ArrayTableHeader {
                        span: span_to(s, mark_at(s, i), k + 2),
                        key_path: path,
                    },
                    k + 2,
                ),
            )
        },
    }
}

/// Reading one statement at position `k`.
pub open spec fn toml_statement(
    s: Seq<StreamItem>,
    k: int,
    d: nat,
    p: TomlProfile,
    m: LiteralMaterialization,
) -> Parsed<TStatementView>
    decreases mode_rank(m), s.len() - k, 8int,
{
    if text_at(s, k, "[["@) {
        toml_array_table_header(s, k, p)
    } else if char_at(s, k) == Some('[') {
        toml_table_header(s, k, p)
    } else {
        match toml_assignment(s, k, d, p, m) {
            Err(x) => Err(x),
            Ok((a, k1)) => Ok((TStatementView::Assignment(a), k1)),
        }
    }
}

/// Reading the statements from position `k` to the end, after those read so
/// far.
pub open spec fn toml_statements(
    s: Seq<StreamItem>,
    k: int,
    d: nat,
    p: TomlProfile,
    m: LiteralMaterialization,
    acc: Seq<TStatementView>,
) -> Parsed<Seq<TStatementView>>
    decreases mode_rank(m), s.len() - k, 9int,
{
    if !(0 <= k < s.len()) {
        Err((seq![], k))
    } else if is_eof_at(s, k) {
        Ok((acc, k))
    } else {
        match toml_statement(s, k, d, p, m) {
            Err(x) => Err(x),
            Ok((st, k1)) => match line_suffix(s, k1) {
                Err(x) => Err(x),
                Ok(k2) => {
                    let k3 = junk_end(s, k2);
                    if k < k3 <= s.len() {
                        toml_statements(s, k3, d, p, m, acc.push(st))
                    } else {
                        Err((seq![], k3))
                    }
                },
            },
        }
    }
}

/// Reading a whole document from position `i`.
pub open spec fn toml_document(
    s: Seq<StreamItem>,
    i: int,
    d: nat,
    p: TomlProfile,
    m: LiteralMaterialization,
) -> Parsed<TDocumentView>
    decreases mode_rank(m), s.len() - i, 10int,
{
    let k = junk_end(s, i);
    if !(0 <= i <= k < s.len()) {
        Err((seq![], k))
    } else {
        match toml_statements(s, k, d, p, m, seq![]) {
            Err(x) => Err(x),
            Ok((statements, k2)) => Ok(
                (TDocumentView { span: span_to(s, mark_at(s, i), k2), statements }, k2),
            ),
        }
    }
}

/// The first position at or after `i` that holds a carriage return not
/// followed by a line feed, if any.
pub open spec fn first_bare_cr(s: Seq<StreamItem>, i: int) -> Option<int>
    decreases s.len() - i,
{
    if !(0 <= i < s.len() - 1) {
        None
    } else if char_at(s, i) == Some('\r') && char_at(s, i + 1) != Some('\n') {
        Some(i)
    } else {
        first_bare_cr(s, i + 1)
    }
}

/// What parsing a whole template gives: a bare carriage return anywhere is
/// refused first; else the document read from the start, outside any inline
/// table, checking literals through the shared helper.
pub open spec fn toml_template(s: Seq<StreamItem>, p: TomlProfile) -> Parsed<TDocumentView> {
    match first_bare_cr(s, 0) {
        Some(k) => Err(("Bare carriage returns are not valid in TOML input."@, k)),
        None => toml_document(s, 0, 0, p, LiteralMaterialization::SharedHelper),
    }
}

} // verus!
