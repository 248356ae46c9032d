//! A read position over a template's char stream, shared by the backends'
//! parsers, with the char-level helpers and the string-piece values they have
//! in common.
use vstd::prelude::*;

use crate::syntax::{
    char_item, error_shape, item_char, item_span, lemma_stream_wf, point_span, stream_of, stream_wf,
    BackendError, ErrorKind, SourcePosition, SourceSpan, StreamItem, TemplateInput, text_stream,
};
use crate::text::{copy_str, push_char, push_str};

verus! {

/// The char at position `i`, if the item there is a char.
pub open spec fn char_at(s: Seq<StreamItem>, i: int) -> Option<char> {
    if 0 <= i < s.len() {
        item_char(s[i])
    } else {
        None
    }
}

/// The start of the item at position `i`.
pub open spec fn mark_at(s: Seq<StreamItem>, i: int) -> SourcePosition {
    item_span(s[i]).start
}

/// The end of the item before position `i`, or the start of the first item.
pub open spec fn previous_end_at(s: Seq<StreamItem>, i: int) -> SourcePosition {
    if i == 0 {
        item_span(s[0]).start
    } else {
        item_span(s[i - 1]).end
    }
}

/// The span from `start` to the end of the item before position `i`.
pub open spec fn span_to(s: Seq<StreamItem>, start: SourcePosition, i: int) -> SourceSpan {
    SourceSpan { start, end: previous_end_at(s, i) }
}

/// The position after stepping once from `i`: the end item is never left.
pub open spec fn step(s: Seq<StreamItem>, i: int) -> int {
    if s[i] is Eof {
        i
    } else {
        i + 1
    }
}

/// Whether the item at position `i` is an interpolation.
pub open spec fn is_interp_at(s: Seq<StreamItem>, i: int) -> bool {
    0 <= i < s.len() && s[i] is Interpolation
}

/// Whether the item at position `i` is the end item.
pub open spec fn is_eof_at(s: Seq<StreamItem>, i: int) -> bool {
    0 <= i < s.len() && s[i] is Eof
}

/// `e` is a parse error with the given code and message, located at the item
/// at position `i`.
pub open spec fn parse_error_at(
    e: BackendError,
    code: Seq<char>,
    message: Seq<char>,
    s: Seq<StreamItem>,
    i: int,
) -> bool {
    error_shape(e, ErrorKind::Parse, code, message, Some(item_span(s[i])))
}

/// A parser's read position over a well-formed char stream.
pub struct Cursor {
    pub items: Vec<StreamItem>,
    pub index: usize,
}

impl Cursor {
    /// The stream is well formed and the position is inside it.
    pub open spec fn wf(&self) -> bool {
        stream_wf(self.items@) && self.index < self.items@.len()
    }

    /// The cursor at the start of a template's char stream.
    pub fn new(template: &TemplateInput) -> (r: Self)
        ensures
            r.wf(),
            r.items@ == stream_of(template.segments@),
            r.index == 0,
    {
        proof {
            lemma_stream_wf(template.segments@);
        }
        Cursor { items: template.flatten(), index: 0 }
    }

    /// The current item.
    pub fn current(&self) -> (r: &StreamItem)
        requires
            self.wf(),
        ensures
            *r == self.items@[self.index as int],
    {
        &self.items[self.index]
    }

    /// The current char, if the current item is a char.
    pub fn current_char(&self) -> (r: Option<char>)
        requires
            self.wf(),
        ensures
            r == char_at(self.items@, self.index as int),
    {
        self.items[self.index].char()
    }

    /// Whether the current item is the end item.
    pub fn at_eof(&self) -> (r: bool)
        requires
            self.wf(),
        ensures
            r == is_eof_at(self.items@, self.index as int),
    {
        match &self.items[self.index] {
            StreamItem::Eof { .. } => true,
            _ => false,
        }
    }

    /// Whether the current item is an interpolation.
    pub fn at_interpolation(&self) -> (r: bool)
        requires
            self.wf(),
        ensures
            r == is_interp_at(self.items@, self.index as int),
    {
        match &self.items[self.index] {
            StreamItem::Interpolation { .. } => true,
            _ => false,
        }
    }

    /// The start of the current item.
    pub fn mark(&self) -> (r: SourcePosition)
        requires
            self.wf(),
        ensures
            r == mark_at(self.items@, self.index as int),
    {
        self.items[self.index].span().start
    }

    /// The end of the item before the current one.
    pub fn previous_end(&self) -> (r: SourcePosition)
        requires
            self.wf(),
        ensures
            r == previous_end_at(self.items@, self.index as int),
    {
        if self.index == 0 {
            return self.items[self.index].span().start;
        }
        self.items[self.index - 1].span().end
    }

    /// The span from `start` to the end of the item before the current one.
    pub fn span_from(&self, start: SourcePosition) -> (r: SourceSpan)
        requires
            self.wf(),
        ensures
            r == span_to(self.items@, start, self.index as int),
    {
        SourceSpan::between(start, self.previous_end())
    }

    /// A parse error with the given code and message at the current item.
    pub fn error(&self, code: &str, message: &str) -> (r: BackendError)
        requires
            self.wf(),
        ensures
            parse_error_at(r, code@, message@, self.items@, self.index as int),
    {
        BackendError::parse_at(code, message, Some(*self.items[self.index].span()))
    }

    /// Steps to the next item, unless the current one is the end item.
    pub fn advance(&mut self)
        requires
            old(self).wf(),
        ensures
            final(self).wf(),
            final(self).items == old(self).items,
            final(self).index == step(old(self).items@, old(self).index as int),
    {
        let eof = match &self.items[self.index] {
            StreamItem::Eof { .. } => true,
            _ => false,
        };
        if !eof {
            assert(self.items@.last() is Eof);
            assert(self.index + 1 < self.items.len());
            self.index = self.index + 1;
        }
    }

    /// The char `offset` items ahead, if there is an item there and it is a char.
    pub fn peek_char(&self, offset: usize) -> (r: Option<char>)
        requires
            self.wf(),
        ensures
            r == char_at(self.items@, self.index + offset),
    {
        if offset >= self.items.len() - self.index {
            return None;
        }
        self.items[self.index + offset].char()
    }
}

// ---------------------------------------------------------------------------
// Char-level helpers
// ---------------------------------------------------------------------------

/// `char::from_u32` from std: the char with that code point, if it is one.
#[verifier::external_body]
pub fn char_from_u32(v: u32) -> (r: Option<char>)
    ensures
        r is Some <==> is_scalar_value(v as int),
        r matches Some(c) ==> c as int == v as int,
{
    char::from_u32(v)
}

/// A char is the char of its own code point.
pub proof fn lemma_char_cast(c: char)
    ensures
        (c as int) as char == c,
{
}

/// Unicode scalar values: code points that are not surrogates.
pub open spec fn is_scalar_value(v: int) -> bool {
    0 <= v <= 0xD7FF || 0xE000 <= v <= 0x10FFFF
}

/// The value of a hex digit, if the char is one.
pub open spec fn hex_digit_value(c: char) -> Option<int> {
    if '0' <= c <= '9' {
        Some(c as int - '0' as int)
    } else if 'a' <= c <= 'f' {
        Some(c as int - 'a' as int + 10)
    } else if 'A' <= c <= 'F' {
        Some(c as int - 'A' as int + 10)
    } else {
        None
    }
}

/// The value of a sequence of hex digits, if all of them are hex digits.
pub open spec fn hex_digits_value(d: Seq<char>) -> Option<int>
    decreases d.len(),
{
    if d.len() == 0 {
        Some(0)
    } else {
        match (hex_digits_value(d.drop_last()), hex_digit_value(d.last())) {
            (Some(a), Some(b)) => Some(a * 16 + b),
            _ => None,
        }
    }
}

/// The value of at most eight chars read as a hex number: at least one char,
/// and every char a hex digit (no sign).
pub open spec fn hex_radix_value(text: Seq<char>) -> Option<int> {
    if text.len() == 0 {
        None
    } else {
        hex_digits_value(text)
    }
}

/// Sixteen to the power `n`.
pub open spec fn pow16(n: nat) -> int
    decreases n,
{
    if n == 0 {
        1
    } else {
        16 * pow16((n - 1) as nat)
    }
}

/// Sixteen to the powers the escapes use.
pub proof fn lemma_pow16_values()
    ensures
        pow16(2) == 256,
        pow16(4) == 65536,
        pow16(8) == 4294967296,
{
    assert(pow16(0) == 1);
    assert(pow16(1) == 16);
    assert(pow16(2) == 256);
    assert(pow16(3) == 4096);
    assert(pow16(4) == 65536);
    assert(pow16(5) == 1048576);
    assert(pow16(6) == 16777216);
    assert(pow16(7) == 268435456);
    assert(pow16(8) == 4294967296);
}

proof fn lemma_pow16_small(n: nat)
    requires
        n <= 7,
    ensures
        1 <= pow16(n) <= 268435456,
{
    assert(pow16(0) == 1);
    assert(pow16(1) == 16);
    assert(pow16(2) == 256);
    assert(pow16(3) == 4096);
    assert(pow16(4) == 65536);
    assert(pow16(5) == 1048576);
    assert(pow16(6) == 16777216);
    assert(pow16(7) == 268435456);
}

proof fn lemma_hex_digits_bound(d: Seq<char>)
    ensures
        hex_digits_value(d) matches Some(v) ==> 0 <= v < pow16(d.len()),
    decreases d.len(),
{
    if d.len() > 0 {
        lemma_hex_digits_bound(d.drop_last());
        let a = hex_digits_value(d.drop_last());
        let b = hex_digit_value(d.last());
        if a is Some && b is Some {
            let av = a->0;
            let bv = b->0;
            assert(0 <= bv < 16);
            assert(av * 16 + bv < pow16((d.len() - 1) as nat) * 16) by (nonlinear_arith)
                requires
                    av < pow16((d.len() - 1) as nat),
                    bv < 16,
                    0 <= av,
            ;
        }
    }
}

/// A hex number read from `n` chars is below sixteen to the `n`.
pub proof fn lemma_hex_radix_bound(t: Seq<char>)
    ensures
        hex_radix_value(t) matches Some(v) ==> 0 <= v < pow16(t.len()),
{
    lemma_hex_digits_bound(t);
}

fn hex_digit(c: char) -> (r: Option<u32>)
    ensures
        r matches Some(v) ==> hex_digit_value(c) == Some(v as int),
        r is None ==> hex_digit_value(c) is None,
{
    if '0' <= c && c <= '9' {
        Some((c as u32) - ('0' as u32))
    } else if 'a' <= c && c <= 'f' {
        Some((c as u32) - ('a' as u32) + 10)
    } else if 'A' <= c && c <= 'F' {
        Some((c as u32) - ('A' as u32) + 10)
    } else {
        None
    }
}

/// Reads up to eight chars as a hex number, every one a hex digit.
pub fn hex_radix(text: &Vec<char>) -> (r: Option<u32>)
    requires
        text.len() <= 8,
    ensures
        r matches Some(v) ==> hex_radix_value(text@) == Some(v as int),
        r is None ==> hex_radix_value(text@) is None,
{
    let start: usize = 0;
    let ghost digits = text@.skip(start as int);
    assert(digits =~= text@);
    if start == text.len() {
        return None;
    }
    let mut acc: u32 = 0;
    let mut i: usize = start;
    while i < text.len()
        invariant
            start <= i <= text.len() <= 8,
            digits == text@.skip(start as int),
            hex_radix_value(text@) == hex_digits_value(digits),
            hex_digits_value(text@.subrange(start as int, i as int)) == Some(acc as int),
            acc < pow16((i - start) as nat),
        decreases text.len() - i,
    {
        assert(text@.subrange(start as int, (i + 1) as int).drop_last() == text@.subrange(
            start as int,
            i as int,
        ));
        match hex_digit(text[i]) {
            Some(d) => {
                proof {
                    lemma_pow16_small((i - start) as nat);
                    assert(pow16((i + 1 - start) as nat) == 16 * pow16((i - start) as nat));
                }
                acc = acc * 16 + d;
            },
            None => {
                proof {
                    assert(text@.subrange(start as int, (i + 1) as int) =~= digits.take(
                        (i + 1 - start) as int,
                    ));
                    lemma_hex_none_extends(text@.subrange(start as int, (i + 1) as int), digits);
                }
                return None;
            },
        }
        i += 1;
    }
    assert(text@.subrange(start as int, text.len() as int) == digits);
    Some(acc)
}

proof fn lemma_hex_none_extends(prefix: Seq<char>, whole: Seq<char>)
    requires
        prefix.len() <= whole.len(),
        prefix == whole.take(prefix.len() as int),
        hex_digits_value(prefix) is None,
    ensures
        hex_digits_value(whole) is None,
    decreases whole.len(),
{
    if whole.len() > prefix.len() {
        assert(whole.drop_last().take(prefix.len() as int) == prefix);
        lemma_hex_none_extends(prefix, whole.drop_last());
    } else {
        assert(whole == prefix);
    }
}

/// How `{:?}` writes one of the punctuation chars that the parsers expect:
/// between single quotes, with `\` and `'` escaped by a backslash.
pub open spec fn quoted_char(c: char) -> Seq<char> {
    if c == '\\' || c == '\'' {
        seq!['\'', '\\', c, '\'']
    } else {
        seq!['\'', c, '\'']
    }
}

/// The chars that the parsers ever expect by name: printable ASCII.
pub open spec fn is_printable_ascii(c: char) -> bool {
    ' ' <= c <= '~'
}

/// `Expected 'c' in <what>.` with `c` written as `{:?}` writes it.
pub open spec fn expected_message(c: char, what: Seq<char>) -> Seq<char> {
    "Expected "@ + quoted_char(c) + " in "@ + what + "."@
}

/// Builds `expected_message(c, what)`.
pub fn expected_message_text(c: char, what: &str) -> (r: String)
    requires
        is_printable_ascii(c),
    ensures
        r@ == expected_message(c, what@),
{
    let mut m = copy_str("Expected ");
    push_char(&mut m, '\'');
    if c == '\\' || c == '\'' {
        push_char(&mut m, '\\');
    }
    push_char(&mut m, c);
    push_char(&mut m, '\'');
    push_str(&mut m, " in ");
    push_str(&mut m, what);
    push_str(&mut m, ".");
    assert(m@ =~= expected_message(c, what@));
    m
}

// ---------------------------------------------------------------------------
// Runs of chars and string pieces
// ---------------------------------------------------------------------------

/// The chars at positions `a..b`, all of which hold chars.
pub open spec fn chars_between(s: Seq<StreamItem>, a: int, b: int) -> Seq<char> {
    Seq::new((b - a) as nat, |k: int| char_at(s, a + k)->0)
}

/// Whether positions `a..b` all hold chars.
pub open spec fn all_chars(s: Seq<StreamItem>, a: int, b: int) -> bool {
    forall|k: int| a <= k < b ==> #[trigger] char_at(s, k) is Some
}

/// The first of the `n` positions from `k` that does not hold a char, if any.
pub open spec fn first_non_char(s: Seq<StreamItem>, k: int, n: nat) -> Option<int>
    decreases n,
{
    if n == 0 {
        None
    } else if char_at(s, k) is None {
        Some(k)
    } else {
        first_non_char(s, k + 1, (n - 1) as nat)
    }
}

/// Reading `n` chars from `k` as a hex number (as `u32::from_str_radix` does),
/// with the position after them; or the error message and its position.
pub open spec fn hex_at(
    s: Seq<StreamItem>,
    k: int,
    n: nat,
    eof_message: Seq<char>,
    invalid_message: Seq<char>,
) -> Result<(int, int), (Seq<char>, int)> {
    match first_non_char(s, k, n) {
        Some(p) => Err((eof_message, p)),
        None => match hex_radix_value(chars_between(s, k, k + n)) {
            Some(v) => Ok((v, k + n)),
            None => Err((invalid_message, k + n)),
        },
    }
}

/// Whether the chars of `t` stand from position `i` on.
pub open spec fn text_at(s: Seq<StreamItem>, i: int, t: Seq<char>) -> bool {
    forall|k: int| 0 <= k < t.len() ==> char_at(s, i + k) == Some(#[trigger] t[k])
}

/// The interpolation item at `k` as a string piece with the given role.
pub open spec fn slot_at(s: Seq<StreamItem>, k: int, role: Seq<char>) -> InterpView {
    InterpView {
        span: item_span(s[k]),
        interpolation_index: s[k]->Interpolation_interpolation_index,
        role,
    }
}

/// The pieces with the pending text appended as a chunk, when there is any.
pub open spec fn flushed(parts: Seq<FragmentView>, buffer: Seq<char>) -> Seq<FragmentView> {
    if buffer.len() == 0 {
        parts
    } else {
        parts.push(FragmentView::Text { value: buffer, span: point_span(0, 0) })
    }
}

/// The role of interpolations inside strings.
pub open spec fn fragment_role() -> Seq<char> {
    "string_fragment"@
}

/// The role of interpolations that stand for keys.
pub open spec fn key_role() -> Seq<char> {
    "key"@
}

/// The role of interpolations that stand for whole values.
pub open spec fn value_role() -> Seq<char> {
    "value"@
}

/// An interpolation node as a value.
pub struct InterpView {
    pub span: SourceSpan,
    pub interpolation_index: usize,
    pub role: Seq<char>,
}

/// A piece of a string as a value.
pub enum FragmentView {
    Text { value: Seq<char>, span: SourceSpan },
    Slot(InterpView),
}

/// The char stream of a text: its chars, in order, then the end item.
pub proof fn lemma_text_stream_chars(r: Seq<char>)
    ensures
        text_stream(r).len() == r.len() + 1,
        forall|k: int| 0 <= k < r.len() ==> #[trigger] char_at(text_stream(r), k) == Some(r[k]),
        forall|k: int| 0 <= k < text_stream(r).len() ==> !is_interp_at(text_stream(r), k),
        is_eof_at(text_stream(r), r.len() as int),
        forall|k: int| 0 <= k < r.len() ==> !is_eof_at(text_stream(r), k),
{
    let s = text_stream(r);
    assert forall|k: int| 0 <= k < r.len() implies #[trigger] char_at(s, k) == Some(r[k]) by {
        assert(s[k] == char_item(r, 0, k));
    }
    assert forall|k: int| 0 <= k < s.len() implies !is_interp_at(s, k) by {
        if k < r.len() {
            assert(s[k] == char_item(r, 0, k));
        }
    }
    assert forall|k: int| 0 <= k < r.len() implies !is_eof_at(s, k) by {
        assert(s[k] == char_item(r, 0, k));
    }
}

} // verus!
