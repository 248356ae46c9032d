//! The JSON backend: a parser, a checker and a formatter for templates whose
//! static text is JSON (RFC 8259), where interpolations may stand for whole
//! values, object keys, or fragments of strings.
use vstd::prelude::*;

use crate::cursor::{
    all_chars, char_at, char_from_u32, chars_between, expected_message, expected_message_text,
    first_non_char, flushed, fragment_role, hex_at, hex_digit_value, hex_digits_value, hex_radix,
    hex_radix_value, is_eof_at, is_interp_at, lemma_text_stream_chars,
    is_printable_ascii, key_role, mark_at, parse_error_at, slot_at, span_to, text_at,
    value_role, Cursor, FragmentView, InterpView,
};
use crate::syntax::{
    stream_wf, item_span, text_stream, BackendError, SourcePosition, SourceSpan, StreamItem,
    TemplateInput, TemplateSegment,
};
use crate::text::{
    debug_str, str_debug, str_eq, copy_str, is_white_space, is_whitespace, push_char, push_str,
    string_from_chars, trim_end_chars, trim_end_spec, chars_of,
};
use crate::formatting::{
    format_result_as, has_raw, interpolation_raw_source_as, lemma_separated_push, pieces_raw,
    raw_text, separated, FormatFailure, Formatted,
};

verus! {

// ---------------------------------------------------------------------------
// Profiles
// ---------------------------------------------------------------------------

/// The JSON dialects the backend knows.
#[derive(Clone, Copy, Debug, PartialEq, Eq, Hash)]
pub enum JsonProfile {
    Rfc8259,
}

/// A profile's name.
pub open spec fn json_profile_name(p: JsonProfile) -> Seq<char> {
    "rfc8259"@
}

/// The profile with a name, if there is one.
pub open spec fn json_profile_named(name: Seq<char>) -> Option<JsonProfile> {
    if name == "rfc8259"@ {
        Some(JsonProfile::Rfc8259)
    } else {
        None
    }
}

/// Profile names: `rfc8259` names the one profile, and reading a profile's
/// name gives that profile back.
pub proof fn law_json_profile_names_round_trip(p: JsonProfile)
    ensures
        json_profile_name(JsonProfile::Rfc8259) == "rfc8259"@,
        json_profile_named(json_profile_name(p)) == Some(p),
{
}

impl JsonProfile {
    /// The profile's name.
    pub fn as_str(self) -> (r: &'static str)
        ensures
            r@ == json_profile_name(self),
    {
        match self {
            Self::Rfc8259 => "rfc8259",
        }
    }
}

/// The message for a profile name the backend does not know.
pub open spec fn unsupported_json_profile(name: Seq<char>) -> Seq<char> {
    "Unsupported JSON profile "@ + str_debug(name) + ". Supported profiles: \"rfc8259\"."@
}

impl JsonProfile {
    /// The profile with the given name.
    pub fn from_name(value: &str) -> (r: Result<Self, String>)
        ensures
            value@ == "rfc8259"@ ==> r == Ok::<_, String>(JsonProfile::Rfc8259),
            value@ != "rfc8259"@ ==> (r matches Err(m) && m@ == unsupported_json_profile(value@)),
            match json_profile_named(value@) {
                Some(q) => r == Ok::<_, String>(q),
                None => r matches Err(m) && m@ == unsupported_json_profile(value@),
            },
    {
        if str_eq(value, "rfc8259") {
            return Ok(Self::Rfc8259);
        }
        let mut message = copy_str("Unsupported JSON profile ");
        push_str(&mut message, debug_str(value).as_str());
        push_str(&mut message, ". Supported profiles: \"rfc8259\".");
        Err(message)
    }
}

impl std::str::FromStr for JsonProfile {
    type Err = String;

    fn from_str(value: &str) -> (r: Result<Self, String>)
        ensures
            value@ == "rfc8259"@ ==> r == Ok::<_, String>(JsonProfile::Rfc8259),
            value@ != "rfc8259"@ ==> (r matches Err(m) && m@ == unsupported_json_profile(value@)),
            match json_profile_named(value@) {
                Some(q) => r == Ok::<_, String>(q),
                None => r matches Err(m) && m@ == unsupported_json_profile(value@),
            },
    {
        Self::from_name(value)
    }
}

impl Default for JsonProfile {
    fn default() -> (r: Self)
        ensures
            r == JsonProfile::Rfc8259,
    {
        Self::Rfc8259
    }
}

// ---------------------------------------------------------------------------
// Syntax tree
// ---------------------------------------------------------------------------

/// An interpolation in a JSON template, with the role it plays there
/// (`value`, `key` or `string_fragment`).
#[derive(Clone, Debug)]
pub struct JsonInterpolationNode {
    pub span: SourceSpan,
    pub interpolation_index: usize,
    pub role: String,
}

/// A run of literal text inside a string.
#[derive(Clone, Debug)]
pub struct JsonStringChunkNode {
    pub span: SourceSpan,
    pub value: String,
}

/// A piece of a string: literal text or an interpolation.
#[derive(Clone, Debug)]
pub enum JsonStringPart {
    Chunk(JsonStringChunkNode),
    Interpolation(JsonInterpolationNode),
}

/// A string: quoted, or promoted from bare text around interpolations.
#[derive(Debug)]
pub struct JsonStringNode {
    pub span: SourceSpan,
    pub chunks: Vec<JsonStringPart>,
    pub quoted: bool,
}

/// The value of a literal: `null`, a boolean, or a number kept as the text
/// that was validated as a JSON number.
#[derive(Clone, Debug, PartialEq, Eq)]
pub enum JsonLiteralValue {
    Null,
    Bool(bool),
    Number(String),
}

/// A literal with its source text.
#[derive(Clone, Debug)]
pub struct JsonLiteralNode {
    pub span: SourceSpan,
    pub source: String,
    pub value: JsonLiteralValue,
}

/// An object key.
#[derive(Debug)]
pub struct JsonKeyNode {
    pub span: SourceSpan,
    pub value: JsonKeyValue,
}

/// A key is a string or a whole interpolation.
#[derive(Debug)]
pub enum JsonKeyValue {
    String(JsonStringNode),
    Interpolation(JsonInterpolationNode),
}

/// One `key: value` member of an object.
#[derive(Debug)]
pub struct JsonMemberNode {
    pub span: SourceSpan,
    pub key: JsonKeyNode,
    pub value: JsonValueNode,
}

/// An object.
#[derive(Debug)]
pub struct JsonObjectNode {
    pub span: SourceSpan,
    pub members: Vec<JsonMemberNode>,
}

/// An array.
#[derive(Debug)]
pub struct JsonArrayNode {
    pub span: SourceSpan,
    pub items: Vec<JsonValueNode>,
}

/// A whole document: one value.
#[derive(Debug)]
pub struct JsonDocumentNode {
    pub span: SourceSpan,
    pub value: JsonValueNode,
}

/// A value.
#[derive(Debug)]
pub enum JsonValueNode {
    String(JsonStringNode),
    Literal(JsonLiteralNode),
    Interpolation(JsonInterpolationNode),
    Object(JsonObjectNode),
    Array(JsonArrayNode),
}

// ---------------------------------------------------------------------------
// The char-level grammar
// ---------------------------------------------------------------------------

/// The code used by every JSON parse error.
pub open spec fn json_code() -> Seq<char> {
    "json.parse"@
}

/// The name JSON messages give the template.
pub open spec fn json_template_name() -> Seq<char> {
    "JSON template"@
}

/// Whether the item at `i` is a white-space char.
pub open spec fn ws_at(s: Seq<StreamItem>, i: int) -> bool {
    match char_at(s, i) {
        Some(c) => is_white_space(c),
        None => false,
    }
}

/// The first position at or after `i` that holds no white-space char.
pub open spec fn skip_ws(s: Seq<StreamItem>, i: int) -> int
    decreases s.len() - i,
{
    if 0 <= i < s.len() && ws_at(s, i) {
        skip_ws(s, i + 1)
    } else {
        i
    }
}

/// Whether a value may end before position `i`: after white space comes the
/// end of the template, `,`, `]` or `}`.
pub open spec fn value_terminator(s: Seq<StreamItem>, i: int) -> bool {
    let j = skip_ws(s, i);
    is_eof_at(s, j) || char_at(s, j) == Some(',') || char_at(s, j) == Some(']') || char_at(s, j)
        == Some('}')
}

/// What a one-char escape after `\` stands for.
pub open spec fn simple_escape(c: char) -> Option<char> {
    if c == '"' {
        Some('"')
    } else if c == '\\' {
        Some('\\')
    } else if c == '/' {
        Some('/')
    } else if c == 'b' {
        Some('\u{0008}')
    } else if c == 'f' {
        Some('\u{000c}')
    } else if c == 'n' {
        Some('\n')
    } else if c == 'r' {
        Some('\r')
    } else if c == 't' {
        Some('\t')
    } else {
        None
    }
}

/// The JSON message for an escape that names no char.
pub open spec fn invalid_unicode_message() -> Seq<char> {
    "Invalid JSON unicode escape."@
}

/// Four hex digits of a JSON `\u` escape.
pub open spec fn json_hex4(s: Seq<StreamItem>, k: int) -> Result<(int, int), (Seq<char>, int)> {
    hex_at(s, k, 4, "Unexpected end of JSON escape sequence."@, invalid_unicode_message())
}

/// The code point of a surrogate pair.
pub open spec fn surrogate_pair_value(high: int, low: int) -> int {
    0x10000 + (high - 0xD800) * 1024 + (low - 0xDC00)
}

/// The escape that starts with the `\` at position `i`: the code point it
/// stands for and the position after it, or the error message and where the
/// parser stands when it gives up.
pub open spec fn json_escape(s: Seq<StreamItem>, i: int) -> Result<(int, int), (Seq<char>, int)> {
    let k = i + 1;
    match char_at(s, k) {
        None => Err(("Incomplete JSON escape sequence."@, k)),
        Some(e) => match simple_escape(e) {
            Some(m) => Ok((m as int, k + 1)),
            None => if e == 'u' {
                match json_hex4(s, k + 1) {
                    Err(x) => Err(x),
                    Ok((cp, k2)) => if 0xD800 <= cp <= 0xDBFF {
                        if char_at(s, k2) != Some('\\') {
                            Err((expected_message('\\', json_template_name()), k2))
                        } else if char_at(s, k2 + 1) != Some('u') {
                            Err((expected_message('u', json_template_name()), k2 + 1))
                        } else {
                            match json_hex4(s, k2 + 2) {
                                Err(x) => Err(x),
                                Ok((low, k3)) => if 0xDC00 <= low <= 0xDFFF {
                                    Ok((surrogate_pair_value(cp, low), k3))
                                } else {
                                    Err((invalid_unicode_message(), k3))
                                },
                            }
                        }
                    } else if 0xDC00 <= cp <= 0xDFFF {
                        Err((invalid_unicode_message(), k2))
                    } else {
                        Ok((cp, k2))
                    },
                }
            } else {
                Err(("Invalid JSON escape sequence."@, k + 1))
            },
        },
    }
}

/// Every escape that RFC 8259 defines reads as the char it names: `\"`,
/// `\\`, `\/`, `\b`, `\f`, `\n`, `\r` and `\t` stand for U+0022, U+005C, U+002F,
/// U+0008, U+000C, U+000A, U+000D and U+0009, and take two chars.
pub proof fn law_json_short_escapes(s: Seq<StreamItem>, i: int)
    ensures
        char_at(s, i + 1) == Some('"') ==> json_escape(s, i) == Ok::<(int, int), (Seq<char>, int)>(
            (0x22, i + 2),
        ),
        char_at(s, i + 1) == Some('\\') ==> json_escape(s, i) == Ok::<(int, int), (Seq<char>, int)>(
            (0x5C, i + 2),
        ),
        char_at(s, i + 1) == Some('/') ==> json_escape(s, i) == Ok::<(int, int), (Seq<char>, int)>(
            (0x2F, i + 2),
        ),
        char_at(s, i + 1) == Some('b') ==> json_escape(s, i) == Ok::<(int, int), (Seq<char>, int)>(
            (0x08, i + 2),
        ),
        char_at(s, i + 1) == Some('f') ==> json_escape(s, i) == Ok::<(int, int), (Seq<char>, int)>(
            (0x0C, i + 2),
        ),
        char_at(s, i + 1) == Some('n') ==> json_escape(s, i) == Ok::<(int, int), (Seq<char>, int)>(
            (0x0A, i + 2),
        ),
        char_at(s, i + 1) == Some('r') ==> json_escape(s, i) == Ok::<(int, int), (Seq<char>, int)>(
            (0x0D, i + 2),
        ),
        char_at(s, i + 1) == Some('t') ==> json_escape(s, i) == Ok::<(int, int), (Seq<char>, int)>(
            (0x09, i + 2),
        ),
{
}

/// A `\u` escape with four hex digits that name a code point outside the
/// surrogate range reads as that code point and takes six chars.
pub proof fn law_json_unicode_escape(s: Seq<StreamItem>, i: int, digits: Seq<char>, v: int)
    requires
        0 <= i,
        i + 6 < s.len(),
        char_at(s, i + 1) == Some('u'),
        digits.len() == 4,
        forall|j: int| 0 <= j < 4 ==> #[trigger] char_at(s, i + 2 + j) == Some(digits[j]),
        hex_digits_value(digits) == Some(v),
        !(0xD800 <= v <= 0xDFFF),
    ensures
        json_escape(s, i) == Ok::<(int, int), (Seq<char>, int)>((v, i + 6)),
{
    assert(char_at(s, i + 2 + 0) == Some(digits[0]));
    assert(char_at(s, i + 2 + 1) == Some(digits[1]));
    assert(char_at(s, i + 2 + 2) == Some(digits[2]));
    assert(char_at(s, i + 2 + 3) == Some(digits[3]));
    assert(chars_between(s, i + 2, i + 6) =~= digits);
    assert(first_non_char(s, i + 6, 0) is None);
    assert(first_non_char(s, i + 5, 1) is None);
    assert(first_non_char(s, i + 4, 2) is None);
    assert(first_non_char(s, i + 3, 3) is None);
    assert(first_non_char(s, i + 2, 4) is None);
    assert(json_hex4(s, i + 2) == Ok::<(int, int), (Seq<char>, int)>((v, i + 6)));
}

proof fn lemma_json_hex4_read(s: Seq<StreamItem>, k: int, digits: Seq<char>, v: int)
    requires
        0 <= k,
        k + 4 < s.len(),
        digits.len() == 4,
        forall|j: int| 0 <= j < 4 ==> #[trigger] char_at(s, k + j) == Some(digits[j]),
        hex_digits_value(digits) == Some(v),
    ensures
        json_hex4(s, k) == Ok::<(int, int), (Seq<char>, int)>((v, k + 4)),
{
    assert(char_at(s, k + 0) == Some(digits[0]));
    assert(char_at(s, k + 1) == Some(digits[1]));
    assert(char_at(s, k + 2) == Some(digits[2]));
    assert(char_at(s, k + 3) == Some(digits[3]));
    assert(chars_between(s, k, k + 4) =~= digits);
    assert(first_non_char(s, k + 4, 0) is None);
    assert(first_non_char(s, k + 3, 1) is None);
    assert(first_non_char(s, k + 2, 2) is None);
    assert(first_non_char(s, k + 1, 3) is None);
    assert(first_non_char(s, k, 4) is None);
}

/// A surrogate pair of `\u` escapes reads as the one code point it encodes,
/// above U+FFFF and at most U+10FFFF, and takes twelve chars.
pub proof fn law_json_surrogate_pair(
    s: Seq<StreamItem>,
    i: int,
    high_digits: Seq<char>,
    high: int,
    low_digits: Seq<char>,
    low: int,
)
    requires
        0 <= i,
        i + 12 < s.len(),
        char_at(s, i + 1) == Some('u'),
        high_digits.len() == 4,
        forall|j: int| 0 <= j < 4 ==> #[trigger] char_at(s, i + 2 + j) == Some(high_digits[j]),
        hex_digits_value(high_digits) == Some(high),
        0xD800 <= high <= 0xDBFF,
        char_at(s, i + 6) == Some('\\'),
        char_at(s, i + 7) == Some('u'),
        low_digits.len() == 4,
        forall|j: int| 0 <= j < 4 ==> #[trigger] char_at(s, i + 8 + j) == Some(low_digits[j]),
        hex_digits_value(low_digits) == Some(low),
        0xDC00 <= low <= 0xDFFF,
    ensures
        json_escape(s, i) == Ok::<(int, int), (Seq<char>, int)>(
            (0x10000 + (high - 0xD800) * 0x400 + (low - 0xDC00), i + 12),
        ),
        0x10000 <= 0x10000 + (high - 0xD800) * 0x400 + (low - 0xDC00) <= 0x10FFFF,
{
    assert forall|j: int| 0 <= j < 4 implies #[trigger] char_at(s, (i + 2) + j) == Some(
        high_digits[j],
    ) by {
        assert(char_at(s, i + 2 + j) == Some(high_digits[j]));
    }
    assert forall|j: int| 0 <= j < 4 implies #[trigger] char_at(s, (i + 8) + j) == Some(
        low_digits[j],
    ) by {
        assert(char_at(s, i + 8 + j) == Some(low_digits[j]));
    }
    lemma_json_hex4_read(s, i + 2, high_digits, high);
    lemma_json_hex4_read(s, i + 8, low_digits, low);
    assert(0 <= (high - 0xD800) * 0x400 <= 0x3FF * 0x400) by (nonlinear_arith)
        requires
            0 <= high - 0xD800 <= 0x3FF,
    ;
}

// ---------------------------------------------------------------------------
// What the nodes hold, as mathematical values
// ---------------------------------------------------------------------------

/// A string node as a value.
pub struct StringView {
    pub span: SourceSpan,
    pub chunks: Seq<FragmentView>,
    pub quoted: bool,
}

/// A literal's value as a value.
pub enum LiteralValueView {
    Null,
    Bool(bool),
    Number(Seq<char>),
}

/// A literal node as a value.
pub struct LiteralView {
    pub span: SourceSpan,
    pub source: Seq<char>,
    pub value: LiteralValueView,
}

/// A key's value as a value.
pub enum KeyValueView {
    String(StringView),
    Interpolation(InterpView),
}

/// A key node as a value.
pub struct KeyView {
    pub span: SourceSpan,
    pub value: KeyValueView,
}

/// A value node as a value.
pub enum ValueView {
    String(StringView),
    Literal(LiteralView),
    Interpolation(InterpView),
    Object { span: SourceSpan, members: Seq<MemberView> },
    Array { span: SourceSpan, items: Seq<ValueView> },
}

/// A member node as a value.
pub struct MemberView {
    pub span: SourceSpan,
    pub key: KeyView,
    pub value: ValueView,
}

/// A document node as a value.
pub struct DocumentView {
    pub span: SourceSpan,
    pub value: ValueView,
}

/// An interpolation node as a value.
pub open spec fn interp_view(n: JsonInterpolationNode) -> InterpView {
    InterpView { span: n.span, interpolation_index: n.interpolation_index, role: n.role@ }
}

/// A string piece as a value.
pub open spec fn fragment_view(p: JsonStringPart) -> FragmentView {
    match p {
        JsonStringPart::Chunk(c) => FragmentView::Text { value: c.value@, span: c.span },
        JsonStringPart::Interpolation(n) => FragmentView::Slot(interp_view(n)),
    }
}

/// String pieces as values.
pub open spec fn fragments_view(ps: Seq<JsonStringPart>) -> Seq<FragmentView> {
    Seq::new(ps.len(), |k: int| fragment_view(ps[k]))
}

/// A string node as a value.
pub open spec fn string_view(n: JsonStringNode) -> StringView {
    StringView { span: n.span, chunks: fragments_view(n.chunks@), quoted: n.quoted }
}

/// A literal node as a value.
pub open spec fn literal_view(n: JsonLiteralNode) -> LiteralView {
    LiteralView {
        span: n.span,
        source: n.source@,
        value: literal_value_view(n.value),
    }
}

/// A literal's value as a value.
pub open spec fn literal_value_view(v: JsonLiteralValue) -> LiteralValueView {
    match v {
        JsonLiteralValue::Null => LiteralValueView::Null,
        JsonLiteralValue::Bool(b) => LiteralValueView::Bool(b),
        JsonLiteralValue::Number(t) => LiteralValueView::Number(t@),
    }
}

/// A key node as a value.
pub open spec fn key_view(n: JsonKeyNode) -> KeyView {
    KeyView {
        span: n.span,
        value: match n.value {
            JsonKeyValue::String(s) => KeyValueView::String(string_view(s)),
            JsonKeyValue::Interpolation(i) => KeyValueView::Interpolation(interp_view(i)),
        },
    }
}

// ---------------------------------------------------------------------------
// Strings
// ---------------------------------------------------------------------------

/// Whether a char comes before the space char.
pub open spec fn below_space(c: char) -> bool {
    (c as int) < 32
}

/// Reading the body of a string from position `k`, given the pieces and the
/// pending text so far: the pieces and the position after the string, or the
/// error message and its position.
pub open spec fn string_body(
    s: Seq<StreamItem>,
    k: int,
    quoted: bool,
    parts: Seq<FragmentView>,
    buffer: Seq<char>,
) -> Result<(Seq<FragmentView>, int), (Seq<char>, int)>
    decreases s.len() - k,
{
    if !(0 <= k < s.len()) {
        Err((seq![], k))
    } else if quoted && char_at(s, k) == Some('"') {
        Ok((flushed(parts, buffer), k + 1))
    } else if quoted && is_eof_at(s, k) {
        Err(("Unterminated JSON string."@, k))
    } else if is_interp_at(s, k) {
        string_body(
            s,
            k + 1,
            quoted,
            flushed(parts, buffer).push(FragmentView::Slot(slot_at(s, k, fragment_role()))),
            seq![],
        )
    } else if char_at(s, k) is None {
        Ok((flushed(parts, buffer), k))
    } else if quoted && char_at(s, k) == Some('\\') {
        match json_escape(s, k) {
            Err(x) => Err(x),
            Ok((cp, k2)) => if k < k2 <= s.len() {
                string_body(s, k2, quoted, parts, buffer.push(cp as char))
            } else {
                Err((seq![], k2))
            },
        }
    } else if quoted && below_space(char_at(s, k)->0) {
        Err(("Control characters are not allowed in JSON strings."@, k))
    } else if !quoted && value_terminator(s, k + 1) {
        Ok((flushed(parts, buffer.push(char_at(s, k)->0)), k + 1))
    } else {
        string_body(s, k + 1, quoted, parts, buffer.push(char_at(s, k)->0))
    }
}

/// Reading a string at position `i` (after its opening quote, when quoted).
pub open spec fn json_string(s: Seq<StreamItem>, i: int, quoted: bool) -> Result<
    (Seq<FragmentView>, int),
    (Seq<char>, int),
> {
    if quoted {
        if char_at(s, i) != Some('"') {
            Err((expected_message('"', json_template_name()), i))
        } else {
            string_body(s, i + 1, true, seq![], seq![])
        }
    } else {
        string_body(s, i, false, seq![], seq![])
    }
}

/// Whether any piece is an interpolation.
pub open spec fn has_slot(parts: Seq<FragmentView>) -> bool {
    exists|k: int| 0 <= k < parts.len() && parts[k] is Slot
}

/// Drops trailing white space from the last text piece, dropping text pieces
/// that become empty.
pub open spec fn trim_trailing(parts: Seq<FragmentView>) -> Seq<FragmentView>
    decreases parts.len(),
{
    if parts.len() > 0 && parts.last() is Text {
        let t = trim_end_spec(parts.last()->Text_value);
        if t.len() == 0 {
            trim_trailing(parts.drop_last())
        } else {
            parts.drop_last().push(FragmentView::Text { value: t, span: parts.last()->Text_span })
        }
    } else {
        parts
    }
}

/// Whether a bare fragment may not contain the char at `k`.
pub open spec fn forbidden_in_fragment(s: Seq<StreamItem>, k: int) -> bool {
    char_at(s, k) == Some('"') || char_at(s, k) == Some('{') || char_at(s, k) == Some('[')
        || char_at(s, k) == Some(':')
}

/// Reading bare fragment text from `k` up to the end of the value.
pub open spec fn promoted_body(
    s: Seq<StreamItem>,
    k: int,
    parts: Seq<FragmentView>,
    buffer: Seq<char>,
    saw: bool,
) -> Result<(Seq<FragmentView>, bool, int), (Seq<char>, int)>
    decreases s.len() - k,
{
    if !(0 <= k < s.len()) {
        Err((seq![], k))
    } else if is_eof_at(s, k) || value_terminator(s, k) {
        Ok((flushed(parts, buffer), saw, k))
    } else if is_interp_at(s, k) {
        promoted_body(
            s,
            k + 1,
            flushed(parts, buffer).push(FragmentView::Slot(slot_at(s, k, fragment_role()))),
            seq![],
            true,
        )
    } else if forbidden_in_fragment(s, k) {
        Err(("Invalid promoted JSON fragment content."@, k))
    } else {
        promoted_body(s, k + 1, parts, buffer.push(char_at(s, k)->0), saw)
    }
}

/// Reading a string promoted from bare text at position `i`, after the
/// pieces already read.
pub open spec fn json_promoted(s: Seq<StreamItem>, i: int, parts0: Seq<FragmentView>) -> Result<
    (Seq<FragmentView>, int),
    (Seq<char>, int),
> {
    if parts0.len() == 0 && value_terminator(s, i) {
        Err(("Expected a JSON value."@, i))
    } else {
        match promoted_body(s, i, parts0, seq![], has_slot(parts0)) {
            Err(x) => Err(x),
            Ok((parts, saw, k)) => if !saw {
                Err(("Expected a JSON value."@, k))
            } else {
                Ok((trim_trailing(parts), k))
            },
        }
    }
}

proof fn lemma_skip_ws_bounds(s: Seq<StreamItem>, i: int)
    requires
        stream_wf(s),
        0 <= i < s.len(),
    ensures
        i <= skip_ws(s, i) < s.len(),
        !ws_at(s, skip_ws(s, i)),
    decreases s.len() - i,
{
    if ws_at(s, i) {
        assert(!(s[i] is Eof));
        assert(i + 1 < s.len());
        lemma_skip_ws_bounds(s, i + 1);
    }
}

proof fn lemma_json_escape_advances(s: Seq<StreamItem>, i: int)
    ensures
        json_escape(s, i) matches Ok((_, k)) ==> i + 2 <= k,
{
}

// ---------------------------------------------------------------------------
// Literals, numbers and keys
// ---------------------------------------------------------------------------

/// The keyword `t` at position `i`, ending where a value may end: the
/// position after it.
pub open spec fn json_keyword(s: Seq<StreamItem>, i: int, t: Seq<char>) -> Option<int> {
    if text_at(s, i, t) && value_terminator(s, i + t.len()) {
        Some(i + t.len())
    } else {
        None
    }
}

/// Chars that may appear in the run of a number.
pub open spec fn is_number_char(c: char) -> bool {
    c == '-' || c == '+' || c == '.' || c == 'e' || c == 'E' || ('0' <= c <= '9')
}

/// Chars that mark a fraction or an exponent in a number.
pub open spec fn is_float_marker(c: char) -> bool {
    c == '.' || c == 'e' || c == 'E'
}

/// Whether a JSON number, as written, is normalized as a float rather than as
/// an exact integer: it has a fraction or an exponent.
pub fn is_float_number_source(source: &str) -> (r: bool)
    ensures
        r == (exists|i: int| 0 <= i < source@.len() && is_float_marker(#[trigger] source@[i])),
{
    let chars = chars_of(source);
    let mut i: usize = 0;
    while i < chars.len()
        invariant
            i <= chars.len(),
            chars@ == source@,
            forall|j: int| 0 <= j < i ==> !is_float_marker(#[trigger] source@[j]),
        decreases chars.len() - i,
    {
        let c = chars[i];
        if c == '.' || c == 'e' || c == 'E' {
            assert(is_float_marker(source@[i as int]));
            return true;
        }
        i += 1;
    }
    false
}

/// The end of the run of number chars from position `i`.
pub open spec fn number_end(s: Seq<StreamItem>, i: int) -> int
    decreases s.len() - i,
{
    if 0 <= i < s.len() && char_at(s, i) is Some && is_number_char(char_at(s, i)->0) {
        number_end(s, i + 1)
    } else {
        i
    }
}

/// What `serde_json::from_str::<serde_json::Value>` reports for a text: nothing
/// when it reads a JSON value, else the text of its error.
pub uninterp spec fn serde_json_error(text: Seq<char>) -> Option<Seq<char>>;

/// Reading a number at position `i`: its source and the position after it.
pub open spec fn json_number(s: Seq<StreamItem>, i: int) -> Result<
    (Seq<char>, int),
    (Seq<char>, int),
> {
    let j = number_end(s, i);
    let source = chars_between(s, i, j);
    if source.len() == 0 {
        Err(("Expected a JSON number."@, j))
    } else if !value_terminator(s, j) {
        Err(("Invalid JSON number literal."@, j))
    } else {
        match serde_json_error(source) {
            Some(m) => Err(("Invalid JSON number literal: "@ + m, j)),
            None => Ok((source, j)),
        }
    }
}

/// Reading a key at position `i`: the key and the position after it.
pub open spec fn json_key(s: Seq<StreamItem>, i: int) -> Result<(KeyView, int), (Seq<char>, int)> {
    let j = skip_ws(s, i);
    let start = mark_at(s, j);
    let span = span_to(s, start, j);
    if is_interp_at(s, j) {
        Ok((KeyView { span, value: KeyValueView::Interpolation(slot_at(s, j, key_role())) }, j + 1))
    } else if char_at(s, j) != Some('"') {
        Err(("JSON object keys must be quoted strings or interpolations."@, j))
    } else {
        match json_string(s, j, true) {
            Err(x) => Err(x),
            Ok((parts, k)) => Ok(
                (
                    KeyView {
                        span,
                        value: KeyValueView::String(
                            StringView { span: span_to(s, start, k), chunks: parts, quoted: true },
                        ),
                    },
                    k,
                ),
            ),
        }
    }
}

/// `serde_json::from_str::<serde_json::Value>`: whether the text is read as a
/// JSON value, and the text of the error when it is not.
#[verifier::external_body]
fn serde_json_check(text: &str) -> (r: Option<String>)
    ensures
        r is None <==> serde_json_error(text@) is None,
        r matches Some(m) ==> serde_json_error(text@) == Some(m@),
{
    match serde_json::from_str::<serde_json::Value>(text) {
        Ok(_) => None,
        Err(err) => Some(err.to_string()),
    }
}

// ---------------------------------------------------------------------------
// Values, objects, arrays and documents
// ---------------------------------------------------------------------------

/// A value node as a value.
pub open spec fn value_view(v: JsonValueNode) -> ValueView
    decreases v,
{
    match v {
        JsonValueNode::String(n) => ValueView::String(string_view(n)),
        JsonValueNode::Literal(n) => ValueView::Literal(literal_view(n)),
        JsonValueNode::Interpolation(n) => ValueView::Interpolation(interp_view(n)),
        JsonValueNode::Object(o) => ValueView::Object {
            span: o.span,
            members: members_view(o.members@),
        },
        JsonValueNode::Array(a) => ValueView::Array { span: a.span, items: values_view(a.items@) },
    }
}

/// Value nodes as values.
pub open spec fn values_view(vs: Seq<JsonValueNode>) -> Seq<ValueView>
    decreases vs,
{
    if vs.len() == 0 {
        seq![]
    } else {
        values_view(vs.drop_last()).push(value_view(vs.last()))
    }
}

/// Member nodes as values.
pub open spec fn members_view(ms: Seq<JsonMemberNode>) -> Seq<MemberView>
    decreases ms,
{
    if ms.len() == 0 {
        seq![]
    } else {
        members_view(ms.drop_last()).push(
            MemberView {
                span: ms.last().span,
                key: key_view(ms.last().key),
                value: value_view(ms.last().value),
            },
        )
    }
}

/// A document node as a value.
pub open spec fn document_view(d: JsonDocumentNode) -> DocumentView {
    DocumentView { span: d.span, value: value_view(d.value) }
}

/// A string read at `j`, as a value.
pub open spec fn string_value_at(
    s: Seq<StreamItem>,
    j: int,
    r: Result<(Seq<FragmentView>, int), (Seq<char>, int)>,
    quoted: bool,
) -> Result<(ValueView, int), (Seq<char>, int)> {
    match r {
        Err(x) => Err(x),
        Ok((parts, k)) => Ok(
            (
                ValueView::String(
                    StringView { span: span_to(s, mark_at(s, j), k), chunks: parts, quoted },
                ),
                k,
            ),
        ),
    }
}

/// A keyword literal read at `j`, as a value, if it is there.
pub open spec fn keyword_value_at(
    s: Seq<StreamItem>,
    j: int,
    t: Seq<char>,
    v: LiteralValueView,
) -> Option<(ValueView, int)> {
    match json_keyword(s, j, t) {
        Some(k) => Some(
            (
                ValueView::Literal(
                    LiteralView { span: span_to(s, mark_at(s, j), k), source: t, value: v },
                ),
                k,
            ),
        ),
        None => None,
    }
}

/// Whether a char may start a number.
pub open spec fn starts_number(c: Option<char>) -> bool {
    c == Some('-') || (c is Some && '0' <= c->0 <= '9')
}

/// Reading a value at position `i`.
pub open spec fn json_value(s: Seq<StreamItem>, i: int) -> Result<(ValueView, int), (Seq<char>, int)>
    decreases s.len() - i, 3int,
{
    let j = skip_ws(s, i);
    if !(0 <= i <= j < s.len()) {
        Err((seq![], i))
    } else if is_interp_at(s, j) {
        let slot = slot_at(s, j, value_role());
        if value_terminator(s, j + 1) {
            Ok((ValueView::Interpolation(slot), j + 1))
        } else {
            string_value_at(s, j, json_promoted(s, j + 1, seq![FragmentView::Slot(slot)]), false)
        }
    } else if char_at(s, j) == Some('{') {
        json_object(s, j)
    } else if char_at(s, j) == Some('[') {
        json_array(s, j)
    } else if char_at(s, j) == Some('"') {
        string_value_at(s, j, json_string(s, j, true), true)
    } else if starts_number(char_at(s, j)) {
        match json_number(s, j) {
            Err(x) => Err(x),
            Ok((source, k)) => Ok(
                (
                    ValueView::Literal(
                        LiteralView {
                            span: span_to(s, mark_at(s, j), k),
                            source,
                            value: LiteralValueView::Number(source),
                        },
                    ),
                    k,
                ),
            ),
        }
    } else {
        match keyword_value_at(s, j, "true"@, LiteralValueView::Bool(true)) {
            Some(x) => Ok(x),
            None => match keyword_value_at(s, j, "false"@, LiteralValueView::Bool(false)) {
                Some(x) => Ok(x),
                None => match keyword_value_at(s, j, "null"@, LiteralValueView::Null) {
                    Some(x) => Ok(x),
                    None => string_value_at(s, j, json_promoted(s, j, seq![]), false),
                },
            },
        }
    }
}

/// Reading an object at position `i`.
pub open spec fn json_object(s: Seq<StreamItem>, i: int) -> Result<
    (ValueView, int),
    (Seq<char>, int),
>
    decreases s.len() - i, 2int,
{
    if !(0 <= i < s.len()) {
        Err((seq![], i))
    } else if char_at(s, i) != Some('{') {
        Err((expected_message('{', json_template_name()), i))
    } else {
        let k = skip_ws(s, i + 1);
        if !(i < k < s.len()) {
            Err((seq![], k))
        } else if char_at(s, k) == Some('}') {
            Ok((ValueView::Object { span: span_to(s, mark_at(s, i), k + 1), members: seq![] }, k + 1))
        } else {
            match json_members(s, k, seq![]) {
                Err(x) => Err(x),
                Ok((members, k2)) => Ok(
                    (ValueView::Object { span: span_to(s, mark_at(s, i), k2), members }, k2),
                ),
            }
        }
    }
}

/// Reading the members of an object from position `k`, after those read so far.
pub open spec fn json_members(s: Seq<StreamItem>, k: int, acc: Seq<MemberView>) -> Result<
    (Seq<MemberView>, int),
    (Seq<char>, int),
>
    decreases s.len() - k, 1int,
{
    if !(0 <= k < s.len()) {
        Err((seq![], k))
    } else {
        let member_start = mark_at(s, k);
        match json_key(s, k) {
            Err(x) => Err(x),
            Ok((key, k1)) => {
                let k2 = skip_ws(s, k1);
                if char_at(s, k2) != Some(':') {
                    Err((expected_message(':', json_template_name()), k2))
                } else if !(k < k2 + 1 < s.len()) {
                    Err((seq![], k2))
                } else {
                    match json_value(s, k2 + 1) {
                        Err(x) => Err(x),
                        Ok((v, k3)) => {
                            let acc2 = acc.push(
                                MemberView { span: span_to(s, member_start, k3), key, value: v },
                            );
                            let k4 = skip_ws(s, k3);
                            if char_at(s, k4) == Some('}') {
                                Ok((acc2, k4 + 1))
                            } else if char_at(s, k4) != Some(',') {
                                Err((expected_message(',', json_template_name()), k4))
                            } else {
                                let k5 = skip_ws(s, k4 + 1);
                                if !(k < k5 < s.len()) {
                                    Err((seq![], k5))
                                } else {
                                    json_members(s, k5, acc2)
                                }
                            }
                        },
                    }
                }
            },
        }
    }
}

/// Reading an array at position `i`.
pub open spec fn json_array(s: Seq<StreamItem>, i: int) -> Result<(ValueView, int), (Seq<char>, int)>
    decreases s.len() - i, 2int,
{
    if !(0 <= i < s.len()) {
        Err((seq![], i))
    } else if char_at(s, i) != Some('[') {
        Err((expected_message('[', json_template_name()), i))
    } else {
        let k = skip_ws(s, i + 1);
        if !(i < k < s.len()) {
            Err((seq![], k))
        } else if char_at(s, k) == Some(']') {
            Ok((ValueView::Array { span: span_to(s, mark_at(s, i), k + 1), items: seq![] }, k + 1))
        } else {
            match json_items(s, k, seq![]) {
                Err(x) => Err(x),
                Ok((items, k2)) => Ok(
                    (ValueView::Array { span: span_to(s, mark_at(s, i), k2), items }, k2),
                ),
            }
        }
    }
}

/// Reading the items of an array from position `k`, after those read so far.
pub open spec fn json_items(s: Seq<StreamItem>, k: int, acc: Seq<ValueView>) -> Result<
    (Seq<ValueView>, int),
    (Seq<char>, int),
>
    decreases s.len() - k, 4int,
{
    if !(0 <= k < s.len()) {
        Err((seq![], k))
    } else {
        match json_value(s, k) {
            Err(x) => Err(x),
            Ok((v, k1)) => {
                let acc2 = acc.push(v);
                let k2 = skip_ws(s, k1);
                if char_at(s, k2) == Some(']') {
                    Ok((acc2, k2 + 1))
                } else if char_at(s, k2) != Some(',') {
                    Err((expected_message(',', json_template_name()), k2))
                } else {
                    let k3 = skip_ws(s, k2 + 1);
                    if !(k < k3 < s.len()) {
                        Err((seq![], k3))
                    } else {
                        json_items(s, k3, acc2)
                    }
                }
            },
        }
    }
}

/// Reading a whole document from position `i`: a value, then only white space.
pub open spec fn json_document(s: Seq<StreamItem>, i: int) -> Result<
    (DocumentView, int),
    (Seq<char>, int),
> {
    match json_value(s, i) {
        Err(x) => Err(x),
        Ok((v, k)) => {
            let k2 = skip_ws(s, k);
            if !is_eof_at(s, k2) {
                Err(("Unexpected trailing content in JSON template."@, k2))
            } else {
                Ok((DocumentView { span: span_to(s, mark_at(s, i), k2), value: v }, k2))
            }
        },
    }
}

// ---------------------------------------------------------------------------
// The parser
// ---------------------------------------------------------------------------

/// A JSON template parser over a template's char stream.
pub struct JsonParser {
    pub(crate) cursor: Cursor,
}

/// The stream and position of a parser state.
pub closed spec fn stream(p: JsonParser) -> Seq<StreamItem> {
    p.cursor.items@
}

/// The position of a parser state.
pub closed spec fn pos(p: JsonParser) -> int {
    p.cursor.index as int
}

/// A later state of the same parse: same stream, well formed, not behind.
pub closed spec fn same_parse(before: JsonParser, after: JsonParser) -> bool {
    &&& after.cursor.wf()
    &&& after.cursor.items == before.cursor.items
    &&& pos(before) <= pos(after)
}

impl JsonParser {
    /// The parser stands inside a well-formed stream.
    pub closed spec fn wf(&self) -> bool {
        self.cursor.wf()
    }

    /// A parser at the start of the template.
    pub fn new(template: &TemplateInput) -> (r: Self)
        ensures
            r.wf(),
            stream(r) == crate::syntax::stream_of(template.segments@),
            pos(r) == 0,
    {
        JsonParser { cursor: Cursor::new(template) }
    }

    fn error(&self, message: &str) -> (r: BackendError)
        requires
            self.cursor.wf(),
        ensures
            parse_error_at(r, json_code(), message@, stream(*self), pos(*self)),
    {
        self.cursor.error("json.parse", message)
    }

    fn skip_whitespace(&mut self)
        requires
            old(self).cursor.wf(),
        ensures
            same_parse(*old(self), *final(self)),
            pos(*final(self)) == skip_ws(stream(*old(self)), pos(*old(self))),
    {
        loop
            invariant
                same_parse(*old(self), *self),
                skip_ws(stream(*self), pos(*self)) == skip_ws(stream(*old(self)), pos(*old(self))),
            decreases stream(*self).len() - pos(*self),
        {
            let c = self.cursor.current_char();
            match c {
                Some(ch) => {
                    if !is_whitespace(ch) {
                        return;
                    }
                },
                None => {
                    return;
                },
            }
            self.cursor.advance();
        }
    }

    fn starts_value_terminator(&self) -> (r: bool)
        requires
            self.cursor.wf(),
        ensures
            r == value_terminator(stream(*self), pos(*self)),
    {
        let mut probe = self.cursor.index;
        loop
            invariant
                self.cursor.wf(),
                pos(*self) <= probe < stream(*self).len(),
                skip_ws(stream(*self), probe as int) == skip_ws(stream(*self), pos(*self)),
            ensures
                pos(*self) <= probe < stream(*self).len(),
                skip_ws(stream(*self), probe as int) == skip_ws(stream(*self), pos(*self)),
                !ws_at(stream(*self), probe as int),
            decreases stream(*self).len() - probe,
        {
            match self.cursor.items[probe].char() {
                Some(ch) => {
                    if !is_whitespace(ch) {
                        break;
                    }
                },
                None => {
                    break;
                },
            }
            assert(stream(*self).last() is Eof);
            assert(!(stream(*self)[probe as int] is Eof));
            assert(probe + 1 < stream(*self).len());
            assert(probe + 1 < self.cursor.items.len());
            probe += 1;
        }
        match &self.cursor.items[probe] {
            StreamItem::Eof { .. } => true,
            StreamItem::Char { ch, .. } => *ch == ',' || *ch == ']' || *ch == '}',
            _ => false,
        }
    }

    fn consume_char(&mut self, expected: char) -> (r: Result<(), BackendError>)
        requires
            old(self).cursor.wf(),
            is_printable_ascii(expected),
        ensures
            same_parse(*old(self), *final(self)),
            char_at(stream(*old(self)), pos(*old(self))) == Some(expected) ==> r is Ok && pos(
                *final(self),
            ) == pos(*old(self)) + 1,
            char_at(stream(*old(self)), pos(*old(self))) != Some(expected) ==> (r matches Err(e)
                && pos(*final(self)) == pos(*old(self)) && parse_error_at(
                e,
                json_code(),
                expected_message(expected, json_template_name()),
                stream(*old(self)),
                pos(*old(self)),
            )),
    {
        if self.cursor.current_char() != Some(expected) {
            let message = expected_message_text(expected, "JSON template");
            return Err(self.error(message.as_str()));
        }
        self.cursor.advance();
        Ok(())
    }

    fn consume_interpolation(&mut self, role: &str) -> (r: Result<
        JsonInterpolationNode,
        BackendError,
    >)
        requires
            old(self).cursor.wf(),
        ensures
            same_parse(*old(self), *final(self)),
            is_interp_at(stream(*old(self)), pos(*old(self))) ==> (r matches Ok(node) && pos(
                *final(self),
            ) == pos(*old(self)) + 1 && node.span == item_span(
                stream(*old(self))[pos(*old(self))],
            ) && node.interpolation_index == stream(
                *old(self),
            )[pos(*old(self))]->Interpolation_interpolation_index && node.role@ == role@),
            !is_interp_at(stream(*old(self)), pos(*old(self))) ==> (r matches Err(e) && pos(
                *final(self),
            ) == pos(*old(self)) && parse_error_at(
                e,
                json_code(),
                "Expected an interpolation."@,
                stream(*old(self)),
                pos(*old(self)),
            )),
    {
        let (interpolation_index, span) = match self.cursor.current() {
            StreamItem::Interpolation { interpolation_index, span, .. } => (
                *interpolation_index,
                *span,
            ),
            _ => {
                return Err(self.error("Expected an interpolation."));
            },
        };
        self.cursor.advance();
        Ok(JsonInterpolationNode { span, interpolation_index, role: copy_str(role) })
    }

    fn collect_hex(&mut self, count: usize) -> (r: Result<u32, BackendError>)
        requires
            old(self).cursor.wf(),
            count == 4,
        ensures
            same_parse(*old(self), *final(self)),
            match json_hex4(stream(*old(self)), pos(*old(self))) {
                Ok((v, k)) => r matches Ok(x) && x as int == v && pos(*final(self)) == k,
                Err((m, k)) => r matches Err(e) && pos(*final(self)) == k && parse_error_at(
                    e,
                    json_code(),
                    m,
                    stream(*old(self)),
                    k,
                ),
            },
    {
        let ghost s = stream(*self);
        let ghost k0 = pos(*self);
        let mut digits: Vec<char> = Vec::new();
        let mut n: usize = 0;
        while n < count
            invariant
                same_parse(*old(self), *self),
                s == stream(*old(self)),
                k0 == pos(*old(self)),
                n <= count == 4,
                pos(*self) == k0 + n,
                first_non_char(s, k0, 4) == first_non_char(s, k0 + n, (4 - n) as nat),
                digits@ == chars_between(s, k0, k0 + n),
                all_chars(s, k0, k0 + n),
            decreases count - n,
        {
            match self.cursor.current_char() {
                Some(ch) => {
                    digits.push(ch);
                    self.cursor.advance();
                    n += 1;
                    assert(digits@ =~= chars_between(s, k0, k0 + n));
                },
                None => {
                    return Err(self.error("Unexpected end of JSON escape sequence."));
                },
            }
        }
        assert(first_non_char(s, k0 + 4, 0) is None);
        match hex_radix(&digits) {
            Some(v) => Ok(v),
            None => Err(self.error("Invalid JSON unicode escape.")),
        }
    }

    fn parse_escape_sequence(&mut self) -> (r: Result<char, BackendError>)
        requires
            old(self).cursor.wf(),
            char_at(stream(*old(self)), pos(*old(self))) == Some('\\'),
        ensures
            same_parse(*old(self), *final(self)),
            match json_escape(stream(*old(self)), pos(*old(self))) {
                Ok((v, k)) => r matches Ok(c) && c as int == v && pos(*final(self)) == k,
                Err((m, k)) => r matches Err(e) && pos(*final(self)) == k && parse_error_at(
                    e,
                    json_code(),
                    m,
                    stream(*old(self)),
                    k,
                ),
            },
    {
        let ghost s = stream(*self);
        let ghost i = pos(*self);
        let consumed = self.consume_char('\\');
        let escape_char = match self.cursor.current_char() {
            Some(c) => c,
            None => {
                return Err(self.error("Incomplete JSON escape sequence."));
            },
        };
        self.cursor.advance();
        let mapped: Option<char> = if escape_char == '"' {
            Some('"')
        } else if escape_char == '\\' {
            Some('\\')
        } else if escape_char == '/' {
            Some('/')
        } else if escape_char == 'b' {
            Some('\u{0008}')
        } else if escape_char == 'f' {
            Some('\u{000c}')
        } else if escape_char == 'n' {
            Some('\n')
        } else if escape_char == 'r' {
            Some('\r')
        } else if escape_char == 't' {
            Some('\t')
        } else {
            None
        };
        if let Some(value) = mapped {
            return Ok(value);
        }
        if escape_char == 'u' {
            let codepoint = self.collect_hex(4)?;
            if 0xD800 <= codepoint && codepoint <= 0xDBFF {
                self.consume_char('\\')?;
                self.consume_char('u')?;
                let low = self.collect_hex(4)?;
                if !(0xDC00 <= low && low <= 0xDFFF) {
                    return Err(self.error("Invalid JSON unicode escape."));
                }
                let h: u32 = codepoint - 0xD800;
                let l: u32 = low - 0xDC00;
                proof {
                    assert(((h << 10) | l) == h * 1024 + l) by (bit_vector)
                        requires
                            h < 1024,
                            l < 1024,
                    ;
                }
                let combined = 0x10000 + ((h << 10) | l);
                return match char_from_u32(combined) {
                    Some(c) => Ok(c),
                    None => Err(self.error("Invalid JSON unicode escape.")),
                };
            }
            if 0xDC00 <= codepoint && codepoint <= 0xDFFF {
                return Err(self.error("Invalid JSON unicode escape."));
            }
            proof {
                crate::cursor::lemma_hex_radix_bound(chars_between(s, i + 2, i + 6));
                crate::cursor::lemma_pow16_values();
            }
            return match char_from_u32(codepoint) {
                Some(c) => Ok(c),
                None => Err(self.error("Invalid JSON unicode escape.")),
            };
        }
        Err(self.error("Invalid JSON escape sequence."))
    }

    fn is_below_space(c: char) -> (r: bool)
        ensures
            r == below_space(c),
    {
        (c as u32) < 32
    }

    fn flush_buffer(&self, buffer: &mut Vec<char>, chunks: &mut Vec<JsonStringPart>)
        ensures
            fragments_view(final(chunks)@) == flushed(fragments_view(old(chunks)@), old(buffer)@),
            final(buffer)@ == Seq::<char>::empty(),
    {
        if buffer.len() == 0 {
            return;
        }
        let value = string_from_chars(buffer);
        chunks.push(
            JsonStringPart::Chunk(JsonStringChunkNode { span: SourceSpan::point(0, 0), value }),
        );
        *buffer = Vec::new();
        assert(fragments_view(chunks@) =~= flushed(fragments_view(old(chunks)@), old(buffer)@));
    }

    fn parse_string(&mut self, quoted: bool) -> (r: Result<JsonStringNode, BackendError>)
        requires
            old(self).cursor.wf(),
        ensures
            same_parse(*old(self), *final(self)),
            match json_string(stream(*old(self)), pos(*old(self)), quoted) {
                Ok((parts, k)) => r matches Ok(n) && pos(*final(self)) == k && string_view(n)
                    == (StringView {
                    span: span_to(
                        stream(*old(self)),
                        mark_at(stream(*old(self)), pos(*old(self))),
                        k,
                    ),
                    chunks: parts,
                    quoted,
                }),
                Err((m, k)) => r matches Err(e) && pos(*final(self)) == k && parse_error_at(
                    e,
                    json_code(),
                    m,
                    stream(*old(self)),
                    k,
                ),
            },
    {
        let ghost s = stream(*self);
        let ghost i = pos(*self);
        let start = self.cursor.mark();
        if quoted {
            self.consume_char('"')?;
        }
        let ghost k0 = pos(*self);
        let mut chunks: Vec<JsonStringPart> = Vec::new();
        let mut buffer: Vec<char> = Vec::new();
        assert(fragments_view(chunks@) =~= Seq::<FragmentView>::empty());
        loop
            invariant_except_break
                string_body(s, pos(*self), quoted, fragments_view(chunks@), buffer@)
                    == string_body(s, k0, quoted, seq![], seq![]),
            invariant
                same_parse(*old(self), *self),
                s == stream(*old(self)),
                i == pos(*old(self)),
                start == mark_at(s, i),
                json_string(s, i, quoted) == string_body(s, k0, quoted, seq![], seq![]),
            ensures
                same_parse(*old(self), *self),
                string_body(s, k0, quoted, seq![], seq![]) == Ok::<_, (Seq<char>, int)>(
                    (flushed(fragments_view(chunks@), buffer@), pos(*self)),
                ),
            decreases s.len() - pos(*self),
        {
            let ghost k = pos(*self);
            if quoted && self.cursor.current_char() == Some('"') {
                self.cursor.advance();
                break;
            }
            if quoted && self.cursor.at_eof() {
                return Err(self.error("Unterminated JSON string."));
            }
            if self.cursor.at_interpolation() {
                self.flush_buffer(&mut buffer, &mut chunks);
                let node = self.consume_interpolation("string_fragment")?;
                let ghost before = chunks@;
                chunks.push(JsonStringPart::Interpolation(node));
                assert(fragments_view(chunks@) =~= fragments_view(before).push(
                    FragmentView::Slot(interp_view(node)),
                ));
                continue;
            }
            let current = self.cursor.current_char();
            match current {
                None => {
                    break;
                },
                Some(ch) => {
                    if quoted && ch == '\\' {
                        let c = self.parse_escape_sequence()?;
                        proof {
                            lemma_json_escape_advances(s, k);
                            crate::cursor::lemma_char_cast(c);
                        }
                        buffer.push(c);
                        continue;
                    }
                    if quoted && Self::is_below_space(ch) {
                        return Err(self.error("Control characters are not allowed in JSON strings."));
                    }
                    buffer.push(ch);
                    self.cursor.advance();
                    if !quoted && self.starts_value_terminator() {
                        break;
                    }
                },
            }
        }
        self.flush_buffer(&mut buffer, &mut chunks);
        Ok(JsonStringNode { span: self.cursor.span_from(start), chunks, quoted })
    }

    fn trim_trailing_fragment_whitespace(&self, chunks: &mut Vec<JsonStringPart>)
        ensures
            fragments_view(final(chunks)@) == trim_trailing(fragments_view(old(chunks)@)),
    {
        loop
            invariant
                trim_trailing(fragments_view(chunks@)) == trim_trailing(
                    fragments_view(old(chunks)@),
                ),
            decreases chunks.len(),
        {
            let n = chunks.len();
            if n == 0 {
                return;
            }
            let ghost before = chunks@;
            assert(fragments_view(before).last() == fragment_view(before[n - 1]));
            let trimmed: Vec<char> = match &chunks[n - 1] {
                JsonStringPart::Chunk(last_chunk) => {
                    let value = chars_of(last_chunk.value.as_str());
                    trim_end_chars(&value)
                },
                JsonStringPart::Interpolation(_) => {
                    return;
                },
            };
            if trimmed.len() == 0 {
                chunks.pop();
                assert(fragments_view(chunks@) =~= fragments_view(before).drop_last());
                continue;
            }
            let span = match &chunks[n - 1] {
                JsonStringPart::Chunk(last_chunk) => last_chunk.span,
                JsonStringPart::Interpolation(node) => node.span,
            };
            let value = string_from_chars(&trimmed);
            chunks.set(n - 1, JsonStringPart::Chunk(JsonStringChunkNode { span, value }));
            assert(fragments_view(chunks@) =~= fragments_view(before).drop_last().push(
                FragmentView::Text { value: trimmed@, span },
            ));
            return;
        }
    }

    fn parse_promoted_string(&mut self, start: SourcePosition, chunks: Vec<JsonStringPart>) -> (r:
        Result<JsonStringNode, BackendError>)
        requires
            old(self).cursor.wf(),
        ensures
            same_parse(*old(self), *final(self)),
            match json_promoted(stream(*old(self)), pos(*old(self)), fragments_view(chunks@)) {
                Ok((parts, k)) => r matches Ok(n) && pos(*final(self)) == k && string_view(n)
                    == (StringView {
                    span: span_to(stream(*old(self)), start, k),
                    chunks: parts,
                    quoted: false,
                }),
                Err((m, k)) => r matches Err(e) && pos(*final(self)) == k && parse_error_at(
                    e,
                    json_code(),
                    m,
                    stream(*old(self)),
                    k,
                ),
            },
    {
        let ghost s = stream(*self);
        let ghost i = pos(*self);
        let ghost parts0 = fragments_view(chunks@);
        let mut pieces = chunks;
        if pieces.len() == 0 && self.starts_value_terminator() {
            return Err(self.error("Expected a JSON value."));
        }
        let mut buffer: Vec<char> = Vec::new();
        let mut saw_interpolation = false;
        let mut c: usize = 0;
        while c < pieces.len()
            invariant
                c <= pieces.len(),
                fragments_view(pieces@) == parts0,
                saw_interpolation == exists|k: int| 0 <= k < c && parts0[k] is Slot,
            decreases pieces.len() - c,
        {
            assert(parts0[c as int] == fragment_view(pieces@[c as int]));
            if let JsonStringPart::Interpolation(_) = &pieces[c] {
                saw_interpolation = true;
            }
            c += 1;
            assert(saw_interpolation == exists|k: int| 0 <= k < c && parts0[k] is Slot) by {
                if parts0[c - 1] is Slot {
                    assert(0 <= c - 1 < c && parts0[c - 1] is Slot);
                }
            }
        }
        assert(saw_interpolation == has_slot(parts0));
        loop
            invariant_except_break
                promoted_body(s, pos(*self), fragments_view(pieces@), buffer@, saw_interpolation)
                    == promoted_body(s, i, parts0, seq![], has_slot(parts0)),
            invariant
                same_parse(*old(self), *self),
                s == stream(*old(self)),
                i == pos(*old(self)),
                parts0 == fragments_view(chunks@),
                !(parts0.len() == 0 && value_terminator(s, i)),
            ensures
                same_parse(*old(self), *self),
                promoted_body(s, i, parts0, seq![], has_slot(parts0)) == Ok::<
                    _,
                    (Seq<char>, int),
                >((flushed(fragments_view(pieces@), buffer@), saw_interpolation, pos(*self))),
            decreases s.len() - pos(*self),
        {
            let ghost k = pos(*self);
            if self.cursor.at_eof() || self.starts_value_terminator() {
                break;
            }
            if self.cursor.at_interpolation() {
                self.flush_buffer(&mut buffer, &mut pieces);
                let node = self.consume_interpolation("string_fragment")?;
                let ghost before = pieces@;
                pieces.push(JsonStringPart::Interpolation(node));
                assert(fragments_view(pieces@) =~= fragments_view(before).push(
                    FragmentView::Slot(interp_view(node)),
                ));
                saw_interpolation = true;
                continue;
            }
            let current = self.cursor.current_char();
            if current == Some('"') || current == Some('{') || current == Some('[') || current
                == Some(':') {
                return Err(self.error("Invalid promoted JSON fragment content."));
            }
            match current {
                Some(ch) => {
                    buffer.push(ch);
                    self.cursor.advance();
                },
                None => {
                    assert(false);
                    break;
                },
            }
        }
        self.flush_buffer(&mut buffer, &mut pieces);
        if !saw_interpolation {
            return Err(self.error("Expected a JSON value."));
        }
        self.trim_trailing_fragment_whitespace(&mut pieces);
        Ok(JsonStringNode { span: self.cursor.span_from(start), chunks: pieces, quoted: false })
    }

    fn try_consume_literal(&mut self, text: &str, value: JsonLiteralValue) -> (r: Result<
        Option<JsonLiteralNode>,
        BackendError,
    >)
        requires
            old(self).cursor.wf(),
        ensures
            same_parse(*old(self), *final(self)),
            match json_keyword(stream(*old(self)), pos(*old(self)), text@) {
                Some(k) => r matches Ok(Some(n)) && pos(*final(self)) == k && literal_view(n)
                    == (LiteralView {
                    span: span_to(
                        stream(*old(self)),
                        mark_at(stream(*old(self)), pos(*old(self))),
                        k,
                    ),
                    source: text@,
                    value: literal_value_view(value),
                }),
                None => r matches Ok(None) && pos(*final(self)) == pos(*old(self)),
            },
    {
        let ghost s = stream(*self);
        let ghost i = pos(*self);
        let start_index = self.cursor.index;
        let start = self.cursor.mark();
        let expected = chars_of(text);
        let mut n: usize = 0;
        while n < expected.len()
            invariant
                same_parse(*old(self), *self),
                s == stream(*old(self)),
                i == pos(*old(self)),
                start_index == i,
                expected@ == text@,
                n <= expected.len(),
                pos(*self) == i + n,
                forall|k: int| 0 <= k < n ==> char_at(s, i + k) == Some(#[trigger] text@[k]),
            decreases expected.len() - n,
        {
            if self.cursor.current_char() != Some(expected[n]) {
                self.cursor.index = start_index;
                assert(!text_at(s, i, text@));
                return Ok(None);
            }
            self.cursor.advance();
            n += 1;
        }
        assert(text_at(s, i, text@));
        if !self.starts_value_terminator() {
            self.cursor.index = start_index;
            return Ok(None);
        }
        Ok(
            Some(
                JsonLiteralNode { span: self.cursor.span_from(start), source: copy_str(text), value },
            ),
        )
    }

    fn parse_number(&mut self) -> (r: Result<JsonLiteralNode, BackendError>)
        requires
            old(self).cursor.wf(),
        ensures
            same_parse(*old(self), *final(self)),
            match json_number(stream(*old(self)), pos(*old(self))) {
                Ok((source, k)) => r matches Ok(n) && pos(*final(self)) == k && literal_view(n)
                    == (LiteralView {
                    span: span_to(
                        stream(*old(self)),
                        mark_at(stream(*old(self)), pos(*old(self))),
                        k,
                    ),
                    source,
                    value: LiteralValueView::Number(source),
                }),
                Err((m, k)) => r matches Err(e) && pos(*final(self)) == k && parse_error_at(
                    e,
                    json_code(),
                    m,
                    stream(*old(self)),
                    k,
                ),
            },
    {
        let ghost s = stream(*self);
        let ghost i = pos(*self);
        let start = self.cursor.mark();
        let mut source: Vec<char> = Vec::new();
        loop
            invariant
                same_parse(*old(self), *self),
                s == stream(*old(self)),
                i == pos(*old(self)),
                number_end(s, pos(*self)) == number_end(s, i),
                source@ == chars_between(s, i, pos(*self)),
            ensures
                same_parse(*old(self), *self),
                pos(*self) == number_end(s, i),
                source@ == chars_between(s, i, pos(*self)),
            decreases s.len() - pos(*self),
        {
            let ghost k = pos(*self);
            match self.cursor.current_char() {
                Some(ch) => {
                    if !(ch == '-' || ch == '+' || ch == '.' || ch == 'e' || ch == 'E' || ('0'
                        <= ch && ch <= '9')) {
                        break;
                    }
                    source.push(ch);
                    self.cursor.advance();
                    assert(source@ =~= chars_between(s, i, pos(*self)));
                },
                None => {
                    break;
                },
            }
        }
        if source.len() == 0 {
            return Err(self.error("Expected a JSON number."));
        }
        if !self.starts_value_terminator() {
            return Err(self.error("Invalid JSON number literal."));
        }
        let text = string_from_chars(&source);
        match serde_json_check(text.as_str()) {
            Some(err) => {
                let mut message = copy_str("Invalid JSON number literal: ");
                push_str(&mut message, err.as_str());
                Err(self.error(message.as_str()))
            },
            None => Ok(
                JsonLiteralNode {
                    span: self.cursor.span_from(start),
                    source: string_from_chars(&source),
                    value: JsonLiteralValue::Number(text),
                },
            ),
        }
    }

    fn parse_key(&mut self) -> (r: Result<JsonKeyNode, BackendError>)
        requires
            old(self).cursor.wf(),
        ensures
            same_parse(*old(self), *final(self)),
            match json_key(stream(*old(self)), pos(*old(self))) {
                Ok((key, k)) => r matches Ok(n) && pos(*final(self)) == k && key_view(n) == key,
                Err((m, k)) => r matches Err(e) && pos(*final(self)) == k && parse_error_at(
                    e,
                    json_code(),
                    m,
                    stream(*old(self)),
                    k,
                ),
            },
    {
        self.skip_whitespace();
        let start = self.cursor.mark();
        if self.cursor.at_interpolation() {
            let span = self.cursor.span_from(start);
            let node = self.consume_interpolation("key")?;
            return Ok(JsonKeyNode { span, value: JsonKeyValue::Interpolation(node) });
        }
        if self.cursor.current_char() != Some('"') {
            return Err(self.error("JSON object keys must be quoted strings or interpolations."));
        }
        let span = self.cursor.span_from(start);
        let value = self.parse_string(true)?;
        Ok(JsonKeyNode { span, value: JsonKeyValue::String(value) })
    }

    #[verifier::rlimit(60)]
    fn parse_value(&mut self) -> (r: Result<JsonValueNode, BackendError>)
        requires
            old(self).cursor.wf(),
        ensures
            same_parse(*old(self), *final(self)),
            match json_value(stream(*old(self)), pos(*old(self))) {
                Ok((v, k)) => r matches Ok(n) && pos(*final(self)) == k && value_view(n) == v,
                Err((m, k)) => r matches Err(e) && pos(*final(self)) == k && parse_error_at(
                    e,
                    json_code(),
                    m,
                    stream(*old(self)),
                    k,
                ),
            },
        decreases stream(*old(self)).len() - pos(*old(self)), 3int,
    {
        let ghost s = stream(*self);
        let ghost i = pos(*self);
        proof {
            lemma_skip_ws_bounds(s, i);
        }
        self.skip_whitespace();
        let ghost j = pos(*self);
        let start = self.cursor.mark();
        if self.cursor.at_interpolation() {
            let interpolation = self.consume_interpolation("value")?;
            if self.starts_value_terminator() {
                return Ok(JsonValueNode::Interpolation(interpolation));
            }
            let mut chunks: Vec<JsonStringPart> = Vec::new();
            chunks.push(JsonStringPart::Interpolation(interpolation));
            assert(fragments_view(chunks@) =~= seq![
                FragmentView::Slot(slot_at(s, j, value_role())),
            ]);
            let node = self.parse_promoted_string(start, chunks)?;
            return Ok(JsonValueNode::String(node));
        }
        let c = self.cursor.current_char();
        if c == Some('{') {
            let node = self.parse_object()?;
            return Ok(JsonValueNode::Object(node));
        }
        if c == Some('[') {
            let node = self.parse_array()?;
            return Ok(JsonValueNode::Array(node));
        }
        if c == Some('"') {
            let node = self.parse_string(true)?;
            return Ok(JsonValueNode::String(node));
        }
        let is_number_start = match c {
            Some(ch) => ch == '-' || ('0' <= ch && ch <= '9'),
            None => false,
        };
        if is_number_start {
            let node = self.parse_number()?;
            return Ok(JsonValueNode::Literal(node));
        }
        if let Some(literal) = self.try_consume_literal("true", JsonLiteralValue::Bool(true))? {
            return Ok(JsonValueNode::Literal(literal));
        }
        if let Some(literal) = self.try_consume_literal("false", JsonLiteralValue::Bool(false))? {
            return Ok(JsonValueNode::Literal(literal));
        }
        if let Some(literal) = self.try_consume_literal("null", JsonLiteralValue::Null)? {
            return Ok(JsonValueNode::Literal(literal));
        }
        let empty: Vec<JsonStringPart> = Vec::new();
        assert(fragments_view(empty@) =~= Seq::<FragmentView>::empty());
        let node = self.parse_promoted_string(start, empty)?;
        Ok(JsonValueNode::String(node))
    }

    fn parse_object(&mut self) -> (r: Result<JsonObjectNode, BackendError>)
        requires
            old(self).cursor.wf(),
        ensures
            same_parse(*old(self), *final(self)),
            match json_object(stream(*old(self)), pos(*old(self))) {
                Ok((v, k)) => r matches Ok(n) && pos(*final(self)) == k && value_view(
                    JsonValueNode::Object(n),
                ) == v,
                Err((m, k)) => r matches Err(e) && pos(*final(self)) == k && parse_error_at(
                    e,
                    json_code(),
                    m,
                    stream(*old(self)),
                    k,
                ),
            },
        decreases stream(*old(self)).len() - pos(*old(self)), 2int,
    {
        let ghost s = stream(*self);
        let ghost i = pos(*self);
        let start = self.cursor.mark();
        self.consume_char('{')?;
        proof {
            lemma_skip_ws_bounds(s, i + 1);
        }
        self.skip_whitespace();
        let mut members: Vec<JsonMemberNode> = Vec::new();
        if self.cursor.current_char() == Some('}') {
            self.cursor.advance();
            return Ok(JsonObjectNode { span: self.cursor.span_from(start), members });
        }
        let ghost k0 = pos(*self);
        loop
            invariant_except_break
                json_members(s, pos(*self), members_view(members@)) == json_members(
                    s,
                    k0,
                    seq![],
                ),
                i < pos(*self),
            invariant
                same_parse(*old(self), *self),
                s == stream(*old(self)),
                i == pos(*old(self)),
                start == mark_at(s, i),
                i < k0 < s.len(),
                json_object(s, i) matches Err(_) || json_object(s, i) matches Ok(_),
                char_at(s, i) == Some('{'),
                k0 == skip_ws(s, i + 1),
                char_at(s, k0) != Some('}'),
            ensures
                same_parse(*old(self), *self),
                json_members(s, k0, seq![]) == Ok::<_, (Seq<char>, int)>(
                    (members_view(members@), pos(*self)),
                ),
            decreases s.len() - pos(*self),
        {
            let ghost k = pos(*self);
            let member_start = self.cursor.mark();
            let key = self.parse_key()?;
            proof {
                lemma_skip_ws_bounds(s, pos(*self));
            }
            self.skip_whitespace();
            self.consume_char(':')?;
            let value = self.parse_value()?;
            let ghost before = members@;
            members.push(JsonMemberNode { span: self.cursor.span_from(member_start), key, value });
            assert(members@.drop_last() == before);
            proof {
                lemma_skip_ws_bounds(s, pos(*self));
            }
            self.skip_whitespace();
            if self.cursor.current_char() == Some('}') {
                self.cursor.advance();
                break;
            }
            self.consume_char(',')?;
            proof {
                lemma_skip_ws_bounds(s, pos(*self));
            }
            self.skip_whitespace();
        }
        Ok(JsonObjectNode { span: self.cursor.span_from(start), members })
    }

    fn parse_array(&mut self) -> (r: Result<JsonArrayNode, BackendError>)
        requires
            old(self).cursor.wf(),
        ensures
            same_parse(*old(self), *final(self)),
            match json_array(stream(*old(self)), pos(*old(self))) {
                Ok((v, k)) => r matches Ok(n) && pos(*final(self)) == k && value_view(
                    JsonValueNode::Array(n),
                ) == v,
                Err((m, k)) => r matches Err(e) && pos(*final(self)) == k && parse_error_at(
                    e,
                    json_code(),
                    m,
                    stream(*old(self)),
                    k,
                ),
            },
        decreases stream(*old(self)).len() - pos(*old(self)), 2int,
    {
        let ghost s = stream(*self);
        let ghost i = pos(*self);
        let start = self.cursor.mark();
        self.consume_char('[')?;
        proof {
            lemma_skip_ws_bounds(s, i + 1);
        }
        self.skip_whitespace();
        let mut items: Vec<JsonValueNode> = Vec::new();
        if self.cursor.current_char() == Some(']') {
            self.cursor.advance();
            return Ok(JsonArrayNode { span: self.cursor.span_from(start), items });
        }
        let ghost k0 = pos(*self);
        loop
            invariant_except_break
                json_items(s, pos(*self), values_view(items@)) == json_items(s, k0, seq![]),
                i < pos(*self),
            invariant
                same_parse(*old(self), *self),
                s == stream(*old(self)),
                i == pos(*old(self)),
                start == mark_at(s, i),
                i < k0 < s.len(),
                char_at(s, i) == Some('['),
                k0 == skip_ws(s, i + 1),
                char_at(s, k0) != Some(']'),
            ensures
                same_parse(*old(self), *self),
                json_items(s, k0, seq![]) == Ok::<_, (Seq<char>, int)>(
                    (values_view(items@), pos(*self)),
                ),
            decreases s.len() - pos(*self),
        {
            let ghost k = pos(*self);
            let value = self.parse_value()?;
            let ghost before = items@;
            items.push(value);
            assert(items@.drop_last() == before);
            proof {
                lemma_skip_ws_bounds(s, pos(*self));
            }
            self.skip_whitespace();
            if self.cursor.current_char() == Some(']') {
                self.cursor.advance();
                break;
            }
            self.consume_char(',')?;
            proof {
                lemma_skip_ws_bounds(s, pos(*self));
            }
            self.skip_whitespace();
        }
        Ok(JsonArrayNode { span: self.cursor.span_from(start), items })
    }

    /// Parses a whole document from the current position: one value, then
    /// nothing but white space.
    pub fn parse(&mut self) -> (r: Result<JsonDocumentNode, BackendError>)
        requires
            old(self).wf(),
        ensures
            final(self).wf(),
            stream(*final(self)) == stream(*old(self)),
            match json_document(stream(*old(self)), pos(*old(self))) {
                Ok((d, k)) => r matches Ok(n) && pos(*final(self)) == k && document_view(n) == d,
                Err((m, k)) => r matches Err(e) && pos(*final(self)) == k && parse_error_at(
                    e,
                    json_code(),
                    m,
                    stream(*old(self)),
                    k,
                ),
            },
    {
        let ghost s = stream(*self);
        let start = self.cursor.mark();
        let value = self.parse_value()?;
        proof {
            lemma_skip_ws_bounds(s, pos(*self));
        }
        self.skip_whitespace();
        if !self.cursor.at_eof() {
            return Err(self.error("Unexpected trailing content in JSON template."));
        }
        Ok(JsonDocumentNode { span: self.cursor.span_from(start), value })
    }
}

// ---------------------------------------------------------------------------
// Entry points
// ---------------------------------------------------------------------------

/// Parses a JSON template under a profile (every profile reads JSON the same
/// way).
pub fn parse_template_with_profile(template: &TemplateInput, profile: JsonProfile) -> (r: Result<
    JsonDocumentNode,
    BackendError,
>)
    ensures
        match json_document(crate::syntax::stream_of(template.segments@), 0) {
            Ok((d, _)) => r matches Ok(n) && document_view(n) == d,
            Err((m, k)) => r matches Err(e) && parse_error_at(
                e,
                json_code(),
                m,
                crate::syntax::stream_of(template.segments@),
                k,
            ),
        },
{
    let mut parser = JsonParser::new(template);
    parser.parse()
}

/// Parses a JSON template under the default profile.
pub fn parse_template(template: &TemplateInput) -> (r: Result<JsonDocumentNode, BackendError>)
    ensures
        match json_document(crate::syntax::stream_of(template.segments@), 0) {
            Ok((d, _)) => r matches Ok(n) && document_view(n) == d,
            Err((m, k)) => r matches Err(e) && parse_error_at(
                e,
                json_code(),
                m,
                crate::syntax::stream_of(template.segments@),
                k,
            ),
        },
{
    parse_template_with_profile(template, JsonProfile::Rfc8259)
}


// ---------------------------------------------------------------------------
// Checking and formatting
// ---------------------------------------------------------------------------

/// Checks a JSON template under a profile: it succeeds exactly when the
/// template parses.
pub fn check_template_with_profile(template: &TemplateInput, profile: JsonProfile) -> (r: Result<
    (),
    BackendError,
>)
    ensures
        match json_document(crate::syntax::stream_of(template.segments@), 0) {
            Ok(_) => r is Ok,
            Err((m, k)) => r matches Err(e) && parse_error_at(
                e,
                json_code(),
                m,
                crate::syntax::stream_of(template.segments@),
                k,
            ),
        },
{
    match parse_template_with_profile(template, profile) {
        Ok(_) => Ok(()),
        Err(e) => Err(e),
    }
}

/// Checks a JSON template under the default profile.
pub fn check_template(template: &TemplateInput) -> (r: Result<(), BackendError>)
    ensures
        match json_document(crate::syntax::stream_of(template.segments@), 0) {
            Ok(_) => r is Ok,
            Err((m, k)) => r matches Err(e) && parse_error_at(
                e,
                json_code(),
                m,
                crate::syntax::stream_of(template.segments@),
                k,
            ),
        },
{
    check_template_with_profile(template, JsonProfile::default())
}

/// The code of formatting errors.
pub open spec fn json_format_code() -> Seq<char> {
    "json.format"@
}

/// A lower-case hex digit for a value below sixteen.
pub open spec fn hex_lower_digit(v: int) -> char {
    if v < 10 {
        ('0' as int + v) as char
    } else {
        ('a' as int + v - 10) as char
    }
}

/// How a char is written inside a JSON string: `"` and `\` escaped, the
/// short escapes for backspace, form feed, line feed, carriage return and
/// tab, `\u00xx` for the other controls, and the char itself otherwise.
pub open spec fn escape_json_char(c: char) -> Seq<char> {
    if c == '"' {
        seq!['\\', '"']
    } else if c == '\\' {
        seq!['\\', '\\']
    } else if c == '\u{0008}' {
        seq!['\\', 'b']
    } else if c == '\u{000c}' {
        seq!['\\', 'f']
    } else if c == '\n' {
        seq!['\\', 'n']
    } else if c == '\r' {
        seq!['\\', 'r']
    } else if c == '\t' {
        seq!['\\', 't']
    } else if c <= '\u{001f}' {
        seq![
            '\\',
            'u',
            '0',
            '0',
            hex_lower_digit((c as int) / 16),
            hex_lower_digit((c as int) % 16),
        ]
    } else {
        seq![c]
    }
}

/// A JSON string escapes only what it must: a char that is not a quote, a
/// backslash or a C0 control (DEL and `/` included) is written as itself; the
/// controls with a short escape get it; the other controls get `\u00xy` with
/// the two lower-case hex digits of their code.
pub proof fn law_json_escapes_are_minimal(c: char)
    ensures
        c != '"' && c != '\\' && !('\u{0000}' <= c <= '\u{001f}') ==> escape_json_char(c) == seq![c],
        c == '"' ==> escape_json_char(c) == seq!['\\', '"'],
        c == '\\' ==> escape_json_char(c) == seq!['\\', '\\'],
        c == '\n' ==> escape_json_char(c) == seq!['\\', 'n'],
        c == '\t' ==> escape_json_char(c) == seq!['\\', 't'],
        c == '\r' ==> escape_json_char(c) == seq!['\\', 'r'],
        c == '\u{0008}' ==> escape_json_char(c) == seq!['\\', 'b'],
        c == '\u{000c}' ==> escape_json_char(c) == seq!['\\', 'f'],
        c == '\u{001b}' ==> escape_json_char(c) == seq!['\\', 'u', '0', '0', '1', 'b'],
{
}

/// A text escaped for a JSON string.
pub open spec fn escape_json(t: Seq<char>) -> Seq<char>
    decreases t.len(),
{
    if t.len() == 0 {
        seq![]
    } else {
        escape_json(t.drop_last()) + escape_json_char(t.last())
    }
}

/// The inside of a string: text escaped, interpolations as their raw source.
pub open spec fn json_pieces(segments: Seq<TemplateSegment>, parts: Seq<FragmentView>) -> Formatted
    decreases parts.len(),
{
    if parts.len() == 0 {
        Ok(seq![])
    } else {
        match json_pieces(segments, parts.drop_last()) {
            Err(f) => Err(f),
            Ok(t) => match parts.last() {
                FragmentView::Text { value, .. } => Ok(t + escape_json(value)),
                FragmentView::Slot(iv) => match raw_text(
                    segments,
                    iv.interpolation_index,
                    iv.span,
                    "JSON string fragment"@,
                ) {
                    Err(f) => Err(f),
                    Ok(raw) => Ok(t + raw),
                },
            },
        }
    }
}

/// A string, quoted or promoted, written as a quoted string.
pub open spec fn json_fmt_string(segments: Seq<TemplateSegment>, sv: StringView) -> Formatted {
    match json_pieces(segments, sv.chunks) {
        Err(f) => Err(f),
        Ok(t) => Ok("\""@ + t + "\""@),
    }
}

/// A key: a string, or an interpolation as its raw source.
pub open spec fn json_fmt_key(segments: Seq<TemplateSegment>, k: KeyView) -> Formatted {
    match k.value {
        KeyValueView::String(sv) => json_fmt_string(segments, sv),
        KeyValueView::Interpolation(iv) => raw_text(
            segments,
            iv.interpolation_index,
            iv.span,
            "JSON key"@,
        ),
    }
}

/// A value: literals as their source, objects and arrays in a normal spacing.
pub open spec fn json_fmt_value(segments: Seq<TemplateSegment>, v: ValueView) -> Formatted
    decreases v,
{
    match v {
        ValueView::String(sv) => json_fmt_string(segments, sv),
        ValueView::Literal(l) => Ok(l.source),
        ValueView::Interpolation(iv) => raw_text(
            segments,
            iv.interpolation_index,
            iv.span,
            "JSON value"@,
        ),
        ValueView::Object { members, .. } => match json_fmt_members(segments, members) {
            Err(f) => Err(f),
            Ok(t) => Ok("{"@ + t + "}"@),
        },
        ValueView::Array { items, .. } => match json_fmt_items(segments, items) {
            Err(f) => Err(f),
            Ok(t) => Ok("["@ + t + "]"@),
        },
    }
}

/// Values joined with `, `.
pub open spec fn json_fmt_items(segments: Seq<TemplateSegment>, items: Seq<ValueView>) -> Formatted
    decreases items,
{
    if items.len() == 0 {
        Ok(seq![])
    } else {
        match json_fmt_items(segments, items.drop_last()) {
            Err(f) => Err(f),
            Ok(t) => match json_fmt_value(segments, items.last()) {
                Err(f) => Err(f),
                Ok(x) => Ok(
                    if items.len() == 1 {
                        x
                    } else {
                        t + ", "@ + x
                    },
                ),
            },
        }
    }
}

/// `key: value` members joined with `, `.
pub open spec fn json_fmt_members(segments: Seq<TemplateSegment>, members: Seq<MemberView>) -> Formatted
    decreases members,
{
    if members.len() == 0 {
        Ok(seq![])
    } else {
        match json_fmt_members(segments, members.drop_last()) {
            Err(f) => Err(f),
            Ok(t) => match json_fmt_key(segments, members.last().key) {
                Err(f) => Err(f),
                Ok(k) => match json_fmt_value(segments, members.last().value) {
                    Err(f) => Err(f),
                    Ok(x) => Ok(
                        if members.len() == 1 {
                            k + ": "@ + x
                        } else {
                            t + ", "@ + k + ": "@ + x
                        },
                    ),
                },
            },
        }
    }
}

/// Whether every interpolation in a key has raw source text.
pub open spec fn json_key_raw(segments: Seq<TemplateSegment>, k: KeyView) -> bool {
    match k.value {
        KeyValueView::String(sv) => pieces_raw(segments, sv.chunks),
        KeyValueView::Interpolation(iv) => has_raw(segments, iv.interpolation_index),
    }
}

/// Whether every interpolation in a value has raw source text.
pub open spec fn json_value_raw(segments: Seq<TemplateSegment>, v: ValueView) -> bool
    decreases v,
{
    match v {
        ValueView::String(sv) => pieces_raw(segments, sv.chunks),
        ValueView::Literal(_) => true,
        ValueView::Interpolation(iv) => has_raw(segments, iv.interpolation_index),
        ValueView::Array { items, .. } => forall|k: int|
            0 <= k < items.len() ==> json_value_raw(segments, #[trigger] items[k]),
        ValueView::Object { members, .. } => forall|k: int|
            0 <= k < members.len() ==> json_key_raw(segments, (#[trigger] members[k]).key)
                && json_value_raw(segments, members[k].value),
    }
}

proof fn lemma_json_pieces_ok(segments: Seq<TemplateSegment>, parts: Seq<FragmentView>)
    ensures
        json_pieces(segments, parts) is Ok <==> pieces_raw(segments, parts),
    decreases parts.len(),
{
    if parts.len() > 0 {
        let prefix = parts.drop_last();
        lemma_json_pieces_ok(segments, prefix);
        assert forall|k: int| 0 <= k < parts.len() - 1 implies #[trigger] prefix[k] == parts[k] by {}
        if json_pieces(segments, parts) is Ok {
            assert forall|k: int| 0 <= k < parts.len() implies (#[trigger] parts[k] matches FragmentView::Slot(
                iv,
            ) ==> has_raw(segments, iv.interpolation_index)) by {
                if k < parts.len() - 1 {
                    assert(prefix[k] == parts[k]);
                }
            }
        }
        if pieces_raw(segments, parts) {
            assert forall|k: int| 0 <= k < prefix.len() implies (#[trigger] prefix[k] matches FragmentView::Slot(
                iv,
            ) ==> has_raw(segments, iv.interpolation_index)) by {
                assert(prefix[k] == parts[k]);
            }
            assert(parts[parts.len() - 1] == parts.last());
        }
    }
}

proof fn lemma_json_key_ok(segments: Seq<TemplateSegment>, k: KeyView)
    ensures
        json_fmt_key(segments, k) is Ok <==> json_key_raw(segments, k),
{
    match k.value {
        KeyValueView::String(sv) => lemma_json_pieces_ok(segments, sv.chunks),
        _ => {},
    }
}

proof fn lemma_json_value_ok(segments: Seq<TemplateSegment>, v: ValueView)
    ensures
        json_fmt_value(segments, v) is Ok <==> json_value_raw(segments, v),
    decreases v, 1int,
{
    match v {
        ValueView::String(sv) => lemma_json_pieces_ok(segments, sv.chunks),
        ValueView::Array { items, .. } => lemma_json_items_ok(segments, items),
        ValueView::Object { members, .. } => lemma_json_members_ok(segments, members),
        _ => {},
    }
}

proof fn lemma_json_items_ok(segments: Seq<TemplateSegment>, items: Seq<ValueView>)
    ensures
        json_fmt_items(segments, items) is Ok <==> (forall|k: int|
            0 <= k < items.len() ==> json_value_raw(segments, #[trigger] items[k])),
    decreases items, 0int,
{
    if items.len() > 0 {
        lemma_json_items_ok(segments, items.drop_last());
        lemma_json_value_ok(segments, items.last());
        assert forall|k: int| 0 <= k < items.len() - 1 implies #[trigger] items.drop_last()[k]
            == items[k] by {}
        if json_fmt_items(segments, items) is Ok {
            assert forall|k: int| 0 <= k < items.len() implies json_value_raw(
                segments,
                #[trigger] items[k],
            ) by {
                if k < items.len() - 1 {
                    assert(json_value_raw(segments, items.drop_last()[k]));
                }
            }
        }
        if forall|k: int| 0 <= k < items.len() ==> json_value_raw(segments, #[trigger] items[k]) {
            assert(json_value_raw(segments, items[items.len() - 1]));
        }
    }
}

proof fn lemma_json_members_ok(segments: Seq<TemplateSegment>, members: Seq<MemberView>)
    ensures
        json_fmt_members(segments, members) is Ok <==> (forall|k: int|
            0 <= k < members.len() ==> json_key_raw(segments, (#[trigger] members[k]).key)
                && json_value_raw(segments, members[k].value)),
    decreases members, 0int,
{
    if members.len() > 0 {
        lemma_json_members_ok(segments, members.drop_last());
        lemma_json_key_ok(segments, members.last().key);
        lemma_json_value_ok(segments, members.last().value);
        assert forall|k: int| 0 <= k < members.len() - 1 implies #[trigger] members.drop_last()[k]
            == members[k] by {}
        if json_fmt_members(segments, members) is Ok {
            assert forall|k: int| 0 <= k < members.len() implies json_key_raw(
                segments,
                (#[trigger] members[k]).key,
            ) && json_value_raw(segments, members[k].value) by {
                if k < members.len() - 1 {
                    assert(json_key_raw(segments, members.drop_last()[k].key));
                }
            }
        }
        if forall|k: int|
            0 <= k < members.len() ==> json_key_raw(segments, (#[trigger] members[k]).key)
                && json_value_raw(segments, members[k].value) {
            assert(json_key_raw(segments, members[members.len() - 1].key));
        }
    }
}

/// Formatting a parsed JSON document succeeds exactly when every
/// interpolation it places (as a key, a value or a string fragment) has raw
/// source text; otherwise it stops at the first one that has none.
pub proof fn law_json_format_needs_every_raw_source(segments: Seq<TemplateSegment>, d: DocumentView)
    ensures
        json_fmt_value(segments, d.value) is Ok <==> json_value_raw(segments, d.value),
{
    lemma_json_value_ok(segments, d.value);
}

// ---------------------------------------------------------------------------
// Reading back what the formatter writes
// ---------------------------------------------------------------------------

/// A text written as a quoted JSON string.
pub open spec fn json_quote(t: Seq<char>) -> Seq<char> {
    "\""@ + escape_json(t) + "\""@
}

proof fn lemma_hex_lower_value(d: int)
    requires
        0 <= d < 16,
    ensures
        hex_digit_value(hex_lower_digit(d)) == Some(d),
{
}

proof fn lemma_escape_json_prefix(t: Seq<char>, m: int)
    requires
        0 <= m <= t.len(),
    ensures
        escape_json(t.take(m)).len() <= escape_json(t).len(),
        forall|j: int|
            0 <= j < escape_json(t.take(m)).len() ==> #[trigger] escape_json(t)[j] == escape_json(
                t.take(m),
            )[j],
    decreases t.len(),
{
    if m < t.len() {
        assert(t.drop_last().take(m) =~= t.take(m));
        lemma_escape_json_prefix(t.drop_last(), m);
    } else {
        assert(t.take(m) =~= t);
    }
}

/// A `\u00xy` escape of a control char reads back as that char.
#[verifier::spinoff_prover]
proof fn lemma_read_json_control(s: Seq<StreamItem>, k: int, c: char)
    requires
        0 <= k,
        below_space(c),
        c != '\u{0008}' && c != '\t' && c != '\n' && c != '\u{000c}' && c != '\r',
        k + 6 < s.len(),
        forall|j: int|
            k <= j < k + escape_json_char(c).len() ==> #[trigger] char_at(s, j) == Some(
                escape_json_char(c)[j - k],
            ),
    ensures
        json_escape(s, k) == Ok::<(int, int), (Seq<char>, int)>((c as int, k + 6)),
{
    let e = escape_json_char(c);
    let v = c as int;
    assert(c <= '\u{001f}');
    assert(e.len() == 6);
    assert(char_at(s, k + 1) == Some(e[1]));
    assert(char_at(s, k + 2) == Some(e[2]));
    assert(char_at(s, k + 3) == Some(e[3]));
    assert(char_at(s, k + 4) == Some(e[4]));
    assert(char_at(s, k + 5) == Some(e[5]));
    let digits = chars_between(s, k + 2, k + 6);
    assert(digits =~= seq!['0', '0', hex_lower_digit(v / 16), hex_lower_digit(v % 16)]);
    lemma_hex_lower_value(v / 16);
    lemma_hex_lower_value(v % 16);
    assert(hex_digits_value(digits) == Some(v)) by {
        reveal_with_fuel(hex_digits_value, 5);
    }
    assert(hex_radix_value(digits) == Some(v));
    assert(first_non_char(s, k + 6, 0) is None);
    assert(first_non_char(s, k + 5, 1) is None);
    assert(first_non_char(s, k + 4, 2) is None);
    assert(first_non_char(s, k + 3, 3) is None);
    assert(first_non_char(s, k + 2, 4) is None);
    assert(json_hex4(s, k + 2) == Ok::<(int, int), (Seq<char>, int)>((v, k + 6)));
}

/// One escaped char at position `k` of a quoted string reads back as that
/// char.
#[verifier::spinoff_prover]
proof fn lemma_read_json_char(s: Seq<StreamItem>, k: int, c: char, buffer: Seq<char>)
    requires
        0 <= k,
        k + escape_json_char(c).len() < s.len(),
        forall|j: int|
            k <= j < k + escape_json_char(c).len() ==> #[trigger] char_at(s, j) == Some(
                escape_json_char(c)[j - k],
            ),
    ensures
        string_body(s, k, true, seq![], buffer) == string_body(
            s,
            k + escape_json_char(c).len(),
            true,
            seq![],
            buffer.push(c),
        ),
{
    let e = escape_json_char(c);
    assert(char_at(s, k) == Some(e[0]));
    assert(!is_interp_at(s, k));
    assert(!is_eof_at(s, k));
    if e.len() > 1 {
        assert(char_at(s, k + 1) == Some(e[1]));
    }
    crate::cursor::lemma_char_cast(c);
    if c == '"' || c == '\\' || c == '\u{0008}' || c == '\u{000c}' || c == '\n' || c == '\r' || c
        == '\t' {
        assert(json_escape(s, k) == Ok::<(int, int), (Seq<char>, int)>((c as int, k + 2)));
    } else if c <= '\u{001f}' {
        lemma_read_json_control(s, k, c);
    } else {
        assert(!below_space(c));
    }
}

/// Reading the inside of `json_quote(t)`, standing at `o`, up to the escape
/// of `t[n]`.
proof fn lemma_read_json_prefix_at(s: Seq<StreamItem>, o: int, t: Seq<char>, n: int)
    requires
        0 <= n <= t.len(),
        0 <= o,
        o + json_quote(t).len() < s.len(),
        forall|j: int| 0 <= j < json_quote(t).len() ==> #[trigger] char_at(s, o + j) == Some(
            json_quote(t)[j],
        ),
    ensures
        string_body(s, o + 1, true, seq![], seq![]) == string_body(
            s,
            o + 1 + escape_json(t.take(n)).len() as int,
            true,
            seq![],
            t.take(n),
        ),
    decreases n,
{
    let r = json_quote(t);
    let body = escape_json(t);
    reveal_strlit("\"");
    assert(r =~= seq!['"'] + body + seq!['"']);
    if n == 0 {
        assert(t.take(0) =~= Seq::<char>::empty());
    } else {
        lemma_read_json_prefix_at(s, o, t, n - 1);
        let before = escape_json(t.take(n - 1));
        let c = t[n - 1];
        assert(t.take(n).drop_last() =~= t.take(n - 1));
        assert(escape_json(t.take(n)) == before + escape_json_char(c));
        lemma_escape_json_prefix(t, n);
        let k: int = o + 1 + before.len() as int;
        assert forall|j: int| k <= j < k + escape_json_char(c).len() implies #[trigger] char_at(s, j)
            == Some(escape_json_char(c)[j - k]) by {
            assert(escape_json(t.take(n))[j - o - 1] == escape_json_char(c)[j - k]);
            assert(body[j - o - 1] == escape_json_char(c)[j - k]);
            assert(r[j - o] == body[j - o - 1]);
            assert(char_at(s, o + (j - o)) == Some(r[j - o]));
        }
        lemma_read_json_char(s, k, c, t.take(n - 1));
        assert(t.take(n - 1).push(c) =~= t.take(n));
    }
}

/// A text written as a quoted JSON string reads back as that text: the whole
/// template made of `json_quote(t)` reads as one quoted string holding `t`
/// (one text piece, none when `t` is empty), which the formatter writes as
/// `json_quote(t)` again.
pub proof fn law_json_string_round_trip(t: Seq<char>, segments: Seq<TemplateSegment>)
    ensures
        json_document(text_stream(json_quote(t)), 0) matches Ok((d, _)) && d.value == ValueView::String(
            StringView {
                span: d.value->String_0.span,
                chunks: flushed(seq![], t),
                quoted: true,
            },
        ) && json_fmt_value(segments, d.value) == Ok::<Seq<char>, FormatFailure>(json_quote(t)),
{
    let r = json_quote(t);
    let s = text_stream(r);
    let body = escape_json(t);
    reveal_strlit("\"");
    assert(r =~= seq!['"'] + body + seq!['"']);
    lemma_text_stream_chars(r);
    assert forall|j: int| 0 <= j < r.len() implies #[trigger] char_at(s, 0 + j) == Some(r[j]) by {}
    lemma_read_json_prefix_at(s, 0, t, t.len() as int);
    assert(t.take(t.len() as int) =~= t);
    assert(char_at(s, 0 + (r.len() - 1)) == Some(r[r.len() - 1]));
    assert(char_at(s, 0) == Some('"'));
    assert(skip_ws(s, 0) == 0);
    assert(skip_ws(s, r.len() as int) == r.len());
    lemma_json_fmt_quote(t, segments, json_document(s, 0)->Ok_0.0.value->String_0.span);
}

/// The formatter writes a string holding one text as that text quoted.
proof fn lemma_json_fmt_quote(t: Seq<char>, segments: Seq<TemplateSegment>, span: SourceSpan)
    ensures
        json_fmt_value(
            segments,
            ValueView::String(StringView { span, chunks: flushed(seq![], t), quoted: true }),
        ) == Ok::<Seq<char>, FormatFailure>(json_quote(t)),
{
    let parts = flushed(seq![], t);
    if t.len() > 0 {
        assert(parts.drop_last() =~= Seq::<FragmentView>::empty());
        assert(json_pieces(segments, parts) == Ok::<Seq<char>, FormatFailure>(seq![] + escape_json(t)));
        assert(seq![] + escape_json(t) =~= escape_json(t));
    } else {
        assert(escape_json(t) =~= Seq::<char>::empty());
    }
}

proof fn lemma_json_items_separated(
    segments: Seq<TemplateSegment>,
    items: Seq<ValueView>,
    texts: Seq<Seq<char>>,
)
    requires
        items.len() == texts.len(),
        forall|k: int| 0 <= k < items.len() ==> json_fmt_value(segments, #[trigger] items[k]) == Ok::<
            Seq<char>,
            FormatFailure,
        >(texts[k]),
    ensures
        json_fmt_items(segments, items) == Ok::<Seq<char>, FormatFailure>(separated(texts, ", "@)),
    decreases items.len(),
{
    if items.len() > 0 {
        let n = items.len() - 1;
        assert forall|k: int| 0 <= k < n implies json_fmt_value(
            segments,
            #[trigger] items.drop_last()[k],
        ) == Ok::<Seq<char>, FormatFailure>(texts.drop_last()[k]) by {
            assert(items.drop_last()[k] == items[k]);
        }
        lemma_json_items_separated(segments, items.drop_last(), texts.drop_last());
        assert(json_fmt_value(segments, items[n]) == Ok::<Seq<char>, FormatFailure>(texts[n]));
        assert(texts.drop_last().push(texts[n]) =~= texts);
        if items.len() == 1 {
            assert(texts =~= seq![texts[0]]);
        } else {
            lemma_separated_push(texts.drop_last(), ", "@, texts[n]);
        }
    }
}

/// A JSON array is written as `[`, its items written and joined with `, `,
/// and `]`, whatever the number of items.
pub proof fn law_json_array_items_joined(
    segments: Seq<TemplateSegment>,
    span: SourceSpan,
    items: Seq<ValueView>,
    texts: Seq<Seq<char>>,
)
    requires
        items.len() == texts.len(),
        forall|k: int| 0 <= k < items.len() ==> json_fmt_value(segments, #[trigger] items[k]) == Ok::<
            Seq<char>,
            FormatFailure,
        >(texts[k]),
    ensures
        json_fmt_value(segments, ValueView::Array { span, items }) == Ok::<Seq<char>, FormatFailure>(
            "["@ + separated(texts, ", "@) + "]"@,
        ),
{
    lemma_json_items_separated(segments, items, texts);
}

proof fn lemma_json_members_separated(
    segments: Seq<TemplateSegment>,
    members: Seq<MemberView>,
    keys: Seq<Seq<char>>,
    values: Seq<Seq<char>>,
)
    requires
        members.len() == keys.len(),
        members.len() == values.len(),
        forall|k: int| 0 <= k < members.len() ==> json_fmt_key(segments, (#[trigger] members[k]).key)
            == Ok::<Seq<char>, FormatFailure>(keys[k]) && json_fmt_value(segments, members[k].value)
            == Ok::<Seq<char>, FormatFailure>(values[k]),
    ensures
        json_fmt_members(segments, members) == Ok::<Seq<char>, FormatFailure>(
            separated(Seq::new(members.len(), |k: int| keys[k] + ": "@ + values[k]), ", "@),
        ),
    decreases members.len(),
{
    let pairs = Seq::new(members.len(), |k: int| keys[k] + ": "@ + values[k]);
    if members.len() > 0 {
        let n = members.len() - 1;
        let m1 = members.drop_last();
        assert forall|k: int| 0 <= k < n implies json_fmt_key(segments, (#[trigger] m1[k]).key)
            == Ok::<Seq<char>, FormatFailure>(keys.drop_last()[k]) && json_fmt_value(
            segments,
            m1[k].value,
        ) == Ok::<Seq<char>, FormatFailure>(values.drop_last()[k]) by {
            assert(m1[k] == members[k]);
        }
        lemma_json_members_separated(segments, m1, keys.drop_last(), values.drop_last());
        let p1 = Seq::new(m1.len(), |k: int| keys.drop_last()[k] + ": "@ + values.drop_last()[k]);
        assert(p1.push(pairs[n]) =~= pairs);
        assert(json_fmt_key(segments, members[n].key) == Ok::<Seq<char>, FormatFailure>(keys[n]));
        assert(members.last() == members[n]);
        if members.len() == 1 {
            assert(pairs =~= seq![pairs[0]]);
            assert(pairs[0] == keys[0] + ": "@ + values[0]);
        } else {
            lemma_separated_push(p1, ", "@, pairs[n]);
            assert(separated(p1, ", "@) + ", "@ + keys[n] + ": "@ + values[n] =~= separated(
                p1,
                ", "@,
            ) + ", "@ + pairs[n]);
        }
    }
}

/// A JSON object is written as `{`, its `key: value` members joined with
/// `, `, and `}`.
pub proof fn law_json_object_members_joined(
    segments: Seq<TemplateSegment>,
    span: SourceSpan,
    members: Seq<MemberView>,
    keys: Seq<Seq<char>>,
    values: Seq<Seq<char>>,
)
    requires
        members.len() == keys.len(),
        members.len() == values.len(),
        forall|k: int| 0 <= k < members.len() ==> json_fmt_key(segments, (#[trigger] members[k]).key)
            == Ok::<Seq<char>, FormatFailure>(keys[k]) && json_fmt_value(segments, members[k].value)
            == Ok::<Seq<char>, FormatFailure>(values[k]),
    ensures
        json_fmt_value(segments, ValueView::Object { span, members }) == Ok::<
            Seq<char>,
            FormatFailure,
        >(
            "{"@ + separated(Seq::new(members.len(), |k: int| keys[k] + ": "@ + values[k]), ", "@)
                + "}"@,
        ),
{
    lemma_json_members_separated(segments, members, keys, values);
}

fn hex_lower(v: u32) -> (r: char)
    requires
        v < 16,
    ensures
        r == hex_lower_digit(v as int),
{
    if v == 0 {
        '0'
    } else if v == 1 {
        '1'
    } else if v == 2 {
        '2'
    } else if v == 3 {
        '3'
    } else if v == 4 {
        '4'
    } else if v == 5 {
        '5'
    } else if v == 6 {
        '6'
    } else if v == 7 {
        '7'
    } else if v == 8 {
        '8'
    } else if v == 9 {
        '9'
    } else if v == 10 {
        'a'
    } else if v == 11 {
        'b'
    } else if v == 12 {
        'c'
    } else if v == 13 {
        'd'
    } else if v == 14 {
        'e'
    } else {
        'f'
    }
}

fn push_escaped_json_char(out: &mut String, c: char)
    ensures
        final(out)@ == old(out)@ + escape_json_char(c),
{
    let ghost before = out@;
    if c == '"' {
        push_char(out, '\\');
        push_char(out, '"');
    } else if c == '\\' {
        push_char(out, '\\');
        push_char(out, '\\');
    } else if c == '\u{0008}' {
        push_char(out, '\\');
        push_char(out, 'b');
    } else if c == '\u{000c}' {
        push_char(out, '\\');
        push_char(out, 'f');
    } else if c == '\n' {
        push_char(out, '\\');
        push_char(out, 'n');
    } else if c == '\r' {
        push_char(out, '\\');
        push_char(out, 'r');
    } else if c == '\t' {
        push_char(out, '\\');
        push_char(out, 't');
    } else if c <= '\u{001f}' {
        let v = c as u32;
        push_char(out, '\\');
        push_char(out, 'u');
        push_char(out, '0');
        push_char(out, '0');
        push_char(out, hex_lower(v / 16));
        push_char(out, hex_lower(v % 16));
    } else {
        push_char(out, c);
    }
    assert(out@ =~= before + escape_json_char(c));
}

/// A text escaped for a JSON string.
pub fn escape_json_text(text: &str) -> (r: String)
    ensures
        r@ == escape_json(text@),
{
    let chars = chars_of(text);
    let mut out = String::new();
    let mut i: usize = 0;
    assert(chars@.take(0) =~= Seq::<char>::empty());
    while i < chars.len()
        invariant
            i <= chars.len(),
            chars@ == text@,
            out@ == escape_json(chars@.take(i as int)),
        decreases chars.len() - i,
    {
        push_escaped_json_char(&mut out, chars[i]);
        assert(chars@.take(i + 1).drop_last() =~= chars@.take(i as int));
        i += 1;
    }
    assert(chars@.take(i as int) =~= chars@);
    out
}

proof fn lemma_json_pieces_err(segments: Seq<TemplateSegment>, parts: Seq<FragmentView>, n: int)
    requires
        0 <= n <= parts.len(),
        json_pieces(segments, parts.take(n)) is Err,
    ensures
        json_pieces(segments, parts) == json_pieces(segments, parts.take(n)),
    decreases parts.len(),
{
    if n < parts.len() {
        assert(parts.drop_last().take(n) =~= parts.take(n));
        lemma_json_pieces_err(segments, parts.drop_last(), n);
    } else {
        assert(parts.take(n) =~= parts);
    }
}

proof fn lemma_json_items_err(segments: Seq<TemplateSegment>, items: Seq<ValueView>, n: int)
    requires
        0 <= n <= items.len(),
        json_fmt_items(segments, items.take(n)) is Err,
    ensures
        json_fmt_items(segments, items) == json_fmt_items(segments, items.take(n)),
    decreases items.len(),
{
    if n < items.len() {
        assert(items.drop_last().take(n) =~= items.take(n));
        lemma_json_items_err(segments, items.drop_last(), n);
    } else {
        assert(items.take(n) =~= items);
    }
}

proof fn lemma_json_members_err(segments: Seq<TemplateSegment>, members: Seq<MemberView>, n: int)
    requires
        0 <= n <= members.len(),
        json_fmt_members(segments, members.take(n)) is Err,
    ensures
        json_fmt_members(segments, members) == json_fmt_members(segments, members.take(n)),
    decreases members.len(),
{
    if n < members.len() {
        assert(members.drop_last().take(n) =~= members.take(n));
        lemma_json_members_err(segments, members.drop_last(), n);
    } else {
        assert(members.take(n) =~= members);
    }
}

proof fn lemma_values_view_at(xs: Seq<JsonValueNode>)
    ensures
        values_view(xs).len() == xs.len(),
        forall|j: int| 0 <= j < xs.len() ==> values_view(xs)[j] == value_view(#[trigger] xs[j]),
    decreases xs.len(),
{
    if xs.len() > 0 {
        lemma_values_view_at(xs.drop_last());
        assert forall|j: int| 0 <= j < xs.len() implies values_view(xs)[j] == value_view(
            #[trigger] xs[j],
        ) by {
            if j < xs.len() - 1 {
                assert(xs[j] == xs.drop_last()[j]);
            }
        }
    }
}

proof fn lemma_members_view_at(xs: Seq<JsonMemberNode>)
    ensures
        members_view(xs).len() == xs.len(),
        forall|j: int|
            0 <= j < xs.len() ==> members_view(xs)[j] == (MemberView {
                span: xs[j].span,
                key: key_view(xs[j].key),
                value: value_view(#[trigger] xs[j].value),
            }),
    decreases xs.len(),
{
    if xs.len() > 0 {
        lemma_members_view_at(xs.drop_last());
        assert forall|j: int| 0 <= j < xs.len() implies members_view(xs)[j] == (MemberView {
            span: xs[j].span,
            key: key_view(xs[j].key),
            value: value_view(#[trigger] xs[j].value),
        }) by {
            if j < xs.len() - 1 {
                assert(xs[j] == xs.drop_last()[j]);
            }
        }
    }
}

fn format_json_string(template: &TemplateInput, node: &JsonStringNode) -> (r: Result<
    String,
    BackendError,
>)
    ensures
        format_result_as(
            json_format_code(),
            r,
            template.segments@,
            json_fmt_string(template.segments@, string_view(*node)),
        ),
{
    let ghost segs = template.segments@;
    let ghost parts = string_view(*node).chunks;
    let mut inner = String::new();
    let mut k: usize = 0;
    assert(parts.take(0) =~= Seq::<FragmentView>::empty());
    while k < node.chunks.len()
        invariant
            k <= node.chunks.len(),
            segs == template.segments@,
            parts == string_view(*node).chunks,
            parts.len() == node.chunks.len(),
            json_pieces(segs, parts.take(k as int)) == Ok::<Seq<char>, FormatFailure>(inner@),
        decreases node.chunks.len() - k,
    {
        assert(parts.take(k + 1).drop_last() =~= parts.take(k as int));
        match &node.chunks[k] {
            JsonStringPart::Chunk(chunk) => {
                let escaped = escape_json_text(chunk.value.as_str());
                push_str(&mut inner, escaped.as_str());
            },
            JsonStringPart::Interpolation(n) => {
                let raw = match interpolation_raw_source_as(
                    "json.format",
                    template,
                    n.interpolation_index,
                    &n.span,
                    "JSON string fragment",
                ) {
                    Ok(raw) => raw,
                    Err(e) => {
                        proof {
                            lemma_json_pieces_err(segs, parts, k + 1);
                        }
                        return Err(e);
                    },
                };
                push_str(&mut inner, raw.as_str());
            },
        }
        k += 1;
    }
    assert(parts.take(k as int) =~= parts);
    let mut out = copy_str("\"");
    push_str(&mut out, inner.as_str());
    push_str(&mut out, "\"");
    Ok(out)
}

fn format_json_key(template: &TemplateInput, node: &JsonKeyNode) -> (r: Result<
    String,
    BackendError,
>)
    ensures
        format_result_as(
            json_format_code(),
            r,
            template.segments@,
            json_fmt_key(template.segments@, key_view(*node)),
        ),
{
    match &node.value {
        JsonKeyValue::String(s) => format_json_string(template, s),
        JsonKeyValue::Interpolation(n) => interpolation_raw_source_as(
            "json.format",
            template,
            n.interpolation_index,
            &n.span,
            "JSON key",
        ),
    }
}

fn format_json_value(template: &TemplateInput, node: &JsonValueNode) -> (r: Result<
    String,
    BackendError,
>)
    ensures
        format_result_as(
            json_format_code(),
            r,
            template.segments@,
            json_fmt_value(template.segments@, value_view(*node)),
        ),
    decreases node,
{
    let ghost segs = template.segments@;
    match node {
        JsonValueNode::String(n) => format_json_string(template, n),
        JsonValueNode::Literal(n) => Ok(copy_str(n.source.as_str())),
        JsonValueNode::Interpolation(n) => interpolation_raw_source_as(
            "json.format",
            template,
            n.interpolation_index,
            &n.span,
            "JSON value",
        ),
        JsonValueNode::Array(a) => {
            let ghost views = values_view(a.items@);
            proof {
                lemma_values_view_at(a.items@);
            }
            let mut text = String::new();
            let mut k: usize = 0;
            assert(views.take(0) =~= Seq::<ValueView>::empty());
            while k < a.items.len()
                invariant
                    k <= a.items.len(),
                    segs == template.segments@,
                    views == values_view(a.items@),
                    views.len() == a.items.len(),
                    forall|j: int| 0 <= j < a.items.len() ==> views[j] == value_view(#[trigger] a.items@[j]),
                    json_fmt_items(segs, views.take(k as int)) == Ok::<Seq<char>, FormatFailure>(text@),
                    *node == JsonValueNode::Array(*a),
                decreases a.items.len() - k,
            {
                assert(views.take(k + 1).drop_last() =~= views.take(k as int));
                proof {
                    assert(decreases_to!(*node => a.items@[k as int]));
                }
                let item = match format_json_value(template, &a.items[k]) {
                    Ok(x) => x,
                    Err(e) => {
                        proof {
                            lemma_json_items_err(segs, views, k + 1);
                        }
                        return Err(e);
                    },
                };
                if k > 0 {
                    push_str(&mut text, ", ");
                }
                push_str(&mut text, item.as_str());
                k += 1;
            }
            assert(views.take(k as int) =~= views);
            let mut out = copy_str("[");
            push_str(&mut out, text.as_str());
            push_str(&mut out, "]");
            Ok(out)
        },
        JsonValueNode::Object(o) => {
            let ghost views = members_view(o.members@);
            proof {
                lemma_members_view_at(o.members@);
            }
            let mut text = String::new();
            let mut k: usize = 0;
            assert(views.take(0) =~= Seq::<MemberView>::empty());
            while k < o.members.len()
                invariant
                    k <= o.members.len(),
                    segs == template.segments@,
                    views == members_view(o.members@),
                    views.len() == o.members.len(),
                    forall|j: int|
                        0 <= j < o.members.len() ==> views[j] == (MemberView {
                            span: o.members@[j].span,
                            key: key_view(o.members@[j].key),
                            value: value_view(#[trigger] o.members@[j].value),
                        }),
                    json_fmt_members(segs, views.take(k as int)) == Ok::<Seq<char>, FormatFailure>(
                        text@,
                    ),
                    *node == JsonValueNode::Object(*o),
                decreases o.members.len() - k,
            {
                assert(views.take(k + 1).drop_last() =~= views.take(k as int));
                let member = &o.members[k];
                let key = match format_json_key(template, &member.key) {
                    Ok(x) => x,
                    Err(e) => {
                        proof {
                            lemma_json_members_err(segs, views, k + 1);
                        }
                        return Err(e);
                    },
                };
                proof {
                    assert(decreases_to!(*node => o.members@[k as int].value));
                }
                let value = match format_json_value(template, &member.value) {
                    Ok(x) => x,
                    Err(e) => {
                        proof {
                            lemma_json_members_err(segs, views, k + 1);
                        }
                        return Err(e);
                    },
                };
                if k > 0 {
                    push_str(&mut text, ", ");
                }
                push_str(&mut text, key.as_str());
                push_str(&mut text, ": ");
                push_str(&mut text, value.as_str());
                k += 1;
            }
            assert(views.take(k as int) =~= views);
            let mut out = copy_str("{");
            push_str(&mut out, text.as_str());
            push_str(&mut out, "}");
            Ok(out)
        },
    }
}

/// Formats a JSON template under a profile: the template is parsed, then
/// written back in a normal form with each interpolation replaced by its raw
/// `{...}` source.
pub fn format_template_with_profile(template: &TemplateInput, profile: JsonProfile) -> (r: Result<
    String,
    BackendError,
>)
    ensures
        match json_document(crate::syntax::stream_of(template.segments@), 0) {
            Err((m, k)) => r matches Err(e) && parse_error_at(
                e,
                json_code(),
                m,
                crate::syntax::stream_of(template.segments@),
                k,
            ),
            Ok((d, _)) => format_result_as(
                json_format_code(),
                r,
                template.segments@,
                json_fmt_value(template.segments@, d.value),
            ),
        },
{
    let document = parse_template_with_profile(template, profile)?;
    format_json_value(template, &document.value)
}

/// Formats a JSON template under the default profile.
pub fn format_template(template: &TemplateInput) -> (r: Result<String, BackendError>)
    ensures
        match json_document(crate::syntax::stream_of(template.segments@), 0) {
            Err((m, k)) => r matches Err(e) && parse_error_at(
                e,
                json_code(),
                m,
                crate::syntax::stream_of(template.segments@),
                k,
            ),
            Ok((d, _)) => format_result_as(
                json_format_code(),
                r,
                template.segments@,
                json_fmt_value(template.segments@, d.value),
            ),
        },
{
    format_template_with_profile(template, JsonProfile::default())
}

} // verus!
