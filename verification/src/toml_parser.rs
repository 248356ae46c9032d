//! The TOML template parser, proved to read exactly what `toml_grammar`
//! states, and its entry points.
use vstd::prelude::*;

use crate::cursor::{
    all_chars, char_at, chars_between, expected_message, expected_message_text, first_non_char,
    char_from_u32, flushed, hex_radix, is_interp_at, is_printable_ascii, mark_at,
    parse_error_at, slot_at, span_to, text_at, Cursor, FragmentView,
};
use crate::syntax::{
    lemma_text_stream, stream_of, BackendError, SourcePosition, SourceSpan, StreamItem,
    TemplateInput, TemplateSegment,
};
use crate::text::{trim_end_spec, chars_of, copy_str, push_char, push_str, string_from_chars, trim_end_chars};
use crate::toml_backend::{
    t_assign_view, t_assigns_view, t_document_view, t_statement_view, t_statements_view,
    t_value_view, t_values_view, TAssignView, TStatementView, TomlArrayNode,
    TomlArrayTableHeaderNode, TomlAssignmentNode, TomlDocumentNode, TomlInlineTableNode,
    TomlStatementNode, TomlTableHeaderNode, TomlValueNode, is_v1_datetime_without_seconds,
    t_path_view, toml_table_from_str, toml_table_value, TStringView, TValueView,
    TomlLiteralNode, is_disallowed_toml_control, t_fragments_view, t_interp_view,
    t_segment_view, t_segments_view, t_string_view, TomlInterpolationNode, TomlKeyPathNode,
    TomlKeySegmentNode, TomlKeySegmentValue, TomlProfile, TomlStringChunkNode, TomlStringNode,
    TomlStringPart,
};
use crate::toml_grammar::{
    basic_body, basic_escape, blank_end, code_escape, comment_end, crlf_at, direct_error,
    hspace_end, lemma_comment_end, is_basic_style, is_multiline_style, junk_end, key_path,
    key_path_rest, key_segment, line_suffix, literal_body, literal_end, literal_value, materialize_error,
    mode_rank, multiline_escape_at, multiline_escape_end, opening_newline_end, quote_run,
    repeated, restricted, style_delimiter, style_name, style_quote, terminator_probe,
    toml_array, toml_array_table_header, toml_assignment, toml_code, toml_document,
    toml_entries, toml_inline_table, toml_items, toml_literal, toml_statement, toml_statements,
    toml_string, toml_table_header, toml_template, first_bare_cr, toml_template_name,
    toml_value, value_space_end, value_terminator_at, bare_end, LiteralMaterialization,
    StringStyle, ValueContext,
};

verus! {

/// A TOML template parser over a template's char stream.
pub struct TomlParser {
    pub(crate) cursor: Cursor,
    pub(crate) inline_table_depth: usize,
    pub(crate) profile: TomlProfile,
    pub(crate) literal_materialization: LiteralMaterialization,
}

/// The stream of a parser state.
pub closed spec fn stream(p: TomlParser) -> Seq<StreamItem> {
    p.cursor.items@
}

/// The position of a parser state.
pub closed spec fn pos(p: TomlParser) -> int {
    p.cursor.index as int
}

/// How many inline tables the position is in.
pub closed spec fn depth(p: TomlParser) -> nat {
    p.inline_table_depth as nat
}

/// The profile a parser reads.
pub closed spec fn profile(p: TomlParser) -> TomlProfile {
    p.profile
}

/// How a parser checks bare literals.
pub closed spec fn mode(p: TomlParser) -> LiteralMaterialization {
    p.literal_materialization
}

/// A later state of the same parse: same stream, profile and mode, well
/// formed, not behind.
pub closed spec fn same_parse(before: TomlParser, after: TomlParser) -> bool {
    &&& after.wf()
    &&& after.cursor.items == before.cursor.items
    &&& after.profile == before.profile
    &&& after.literal_materialization == before.literal_materialization
    &&& pos(before) <= pos(after)
}

/// A later state of the same parse at the same depth.
pub closed spec fn steady(before: TomlParser, after: TomlParser) -> bool {
    same_parse(before, after) && after.inline_table_depth == before.inline_table_depth
}

/// `r` failed with the parse error `x` (message and position), and the
/// parser stands at that position.
pub open spec fn failed<T>(r: Result<T, BackendError>, x: (Seq<char>, int), s: Seq<StreamItem>, at: int) -> bool {
    r is Err && at == x.1 && parse_error_at(r->Err_0, toml_code(), x.0, s, x.1)
}

/// Whether a char may stand in a bare key.
fn bare_key_char(c: char) -> (r: bool)
    ensures
        r == crate::toml_backend::is_bare_key_char(c),
{
    ('A' <= c && c <= 'Z') || ('a' <= c && c <= 'z') || ('0' <= c && c <= '9') || c == '_' || c
        == '-'
}

/// The name of a string style.
fn style_str(style: StringStyle) -> (r: &'static str)
    ensures
        r@ == style_name(style),
{
    match style {
        StringStyle::Basic => "basic",
        StringStyle::MultilineBasic => "multiline_basic",
        StringStyle::Literal => "literal",
        StringStyle::MultilineLiteral => "multiline_literal",
    }
}

impl TomlParser {
    /// The parser stands inside a well-formed stream.
    pub closed spec fn wf(&self) -> bool {
        self.cursor.wf() && self.inline_table_depth <= self.cursor.index
    }

    /// A parser at the start of the template, for the given profile.
    pub fn new(template: &TemplateInput, profile: TomlProfile) -> (r: Self)
        ensures
            r.wf(),
            stream(r) == stream_of(template.segments@),
            pos(r) == 0,
            depth(r) == 0,
            crate::toml_parser::profile(r) == profile,
            mode(r) == LiteralMaterialization::SharedHelper,
    {
        Self::new_with_materialization(template, profile, LiteralMaterialization::SharedHelper)
    }

    fn new_with_materialization(
        template: &TemplateInput,
        profile: TomlProfile,
        literal_materialization: LiteralMaterialization,
    ) -> (r: Self)
        ensures
            r.wf(),
            stream(r) == stream_of(template.segments@),
            pos(r) == 0,
            depth(r) == 0,
            crate::toml_parser::profile(r) == profile,
            mode(r) == literal_materialization,
    {
        TomlParser {
            cursor: Cursor::new(template),
            inline_table_depth: 0,
            profile,
            literal_materialization,
        }
    }

    fn error(&self, message: &str) -> (r: BackendError)
        requires
            self.wf(),
        ensures
            parse_error_at(r, toml_code(), message@, stream(*self), pos(*self)),
    {
        self.cursor.error("toml.parse", message)
    }

    fn starts_with(&self, text: &str) -> (r: bool)
        requires
            self.wf(),
        ensures
            r == text_at(stream(*self), pos(*self), text@),
    {
        let t = chars_of(text);
        let mut probe = self.cursor.index;
        let mut n: usize = 0;
        while n < t.len()
            invariant
                self.wf(),
                t@ == text@,
                n <= t.len(),
                probe == self.cursor.index + n,
                probe < self.cursor.items.len(),
                forall|k: int| 0 <= k < n ==> char_at(stream(*self), pos(*self) + k) == Some(#[trigger] t@[k]),
            decreases t.len() - n,
        {
            let matched = match &self.cursor.items[probe] {
                StreamItem::Char { ch, .. } => *ch == t[n],
                _ => false,
            };
            if !matched {
                assert(char_at(stream(*self), pos(*self) + n) != Some(t@[n as int]));
                return false;
            }
            assert(!(stream(*self)[probe as int] is Eof));
            assert(probe + 1 < self.cursor.items.len());
            probe += 1;
            n += 1;
        }
        true
    }

    fn skip_horizontal_space(&mut self)
        requires
            old(self).wf(),
        ensures
            steady(*old(self), *final(self)),
            pos(*final(self)) == hspace_end(stream(*old(self)), pos(*old(self))),
    {
        loop
            invariant
                steady(*old(self), *self),
                hspace_end(stream(*self), pos(*self)) == hspace_end(
                    stream(*old(self)),
                    pos(*old(self)),
                ),
            decreases stream(*self).len() - pos(*self),
        {
            let c = self.cursor.current_char();
            if !(c == Some(' ') || c == Some('\t')) {
                return;
            }
            self.cursor.advance();
        }
    }

    fn skip_comment(&mut self)
        requires
            old(self).wf(),
        ensures
            steady(*old(self), *final(self)),
            pos(*final(self)) == comment_end(stream(*old(self)), pos(*old(self))),
    {
        loop
            invariant
                steady(*old(self), *self),
                comment_end(stream(*self), pos(*self)) == comment_end(
                    stream(*old(self)),
                    pos(*old(self)),
                ),
            decreases stream(*self).len() - pos(*self),
        {
            match self.cursor.current_char() {
                None => {
                    return;
                },
                Some(ch) => {
                    if ch == '\n' || is_disallowed_toml_control(ch, false) {
                        return;
                    }
                },
            }
            self.cursor.advance();
        }
    }

    fn skip_document_junk(&mut self)
        requires
            old(self).wf(),
        ensures
            steady(*old(self), *final(self)),
            pos(*final(self)) == junk_end(stream(*old(self)), pos(*old(self))),
    {
        loop
            invariant
                steady(*old(self), *self),
                junk_end(stream(*self), pos(*self)) == junk_end(stream(*old(self)), pos(*old(self))),
            decreases stream(*self).len() - pos(*self),
        {
            let ghost i = pos(*self);
            self.skip_horizontal_space();
            let c = self.cursor.current_char();
            if c == Some('#') {
                proof {
                    lemma_comment_end(stream(*self), pos(*self));
                }
                self.skip_comment();
            } else if c == Some('\n') {
                self.cursor.advance();
            } else if c == Some('\r') && self.cursor.peek_char(1) == Some('\n') {
                self.cursor.advance();
                self.cursor.advance();
            } else {
                return;
            }
        }
    }

    fn skip_line_suffix(&mut self) -> (r: Result<(), BackendError>)
        requires
            old(self).wf(),
        ensures
            steady(*old(self), *final(self)),
            match line_suffix(stream(*old(self)), pos(*old(self))) {
                Ok(k) => r is Ok && pos(*final(self)) == k,
                Err(x) => failed(r, x, stream(*old(self)), pos(*final(self))),
            },
    {
        self.skip_horizontal_space();
        if self.cursor.current_char() == Some('#') {
            self.skip_comment();
        }
        if self.cursor.current_char() == Some('\n') {
            self.cursor.advance();
            return Ok(());
        }
        if self.cursor.current_char() == Some('\r') && self.cursor.peek_char(1) == Some('\n') {
            self.cursor.advance();
            self.cursor.advance();
            return Ok(());
        }
        if !self.cursor.at_eof() {
            return Err(self.error("Unexpected trailing TOML content on the line."));
        }
        Ok(())
    }

    fn consume_char(&mut self, expected: char) -> (r: Result<(), BackendError>)
        requires
            old(self).wf(),
            is_printable_ascii(expected),
        ensures
            steady(*old(self), *final(self)),
            char_at(stream(*old(self)), pos(*old(self))) == Some(expected) ==> r is Ok && pos(
                *final(self),
            ) == pos(*old(self)) + 1,
            char_at(stream(*old(self)), pos(*old(self))) != Some(expected) ==> failed(
                r,
                (expected_message(expected, toml_template_name()), pos(*old(self))),
                stream(*old(self)),
                pos(*final(self)),
            ),
    {
        if self.cursor.current_char() != Some(expected) {
            let message = expected_message_text(expected, "TOML template");
            return Err(self.error(message.as_str()));
        }
        self.cursor.advance();
        Ok(())
    }

    fn consume_interpolation(&mut self, role: &str) -> (r: Result<
        TomlInterpolationNode,
        BackendError,
    >)
        requires
            old(self).wf(),
            is_interp_at(stream(*old(self)), pos(*old(self))),
        ensures
            steady(*old(self), *final(self)),
            r matches Ok(node) && pos(*final(self)) == pos(*old(self)) + 1 && t_interp_view(node)
                == slot_at(stream(*old(self)), pos(*old(self)), role@),
    {
        let (interpolation_index, span) = match self.cursor.current() {
            StreamItem::Interpolation { interpolation_index, span, .. } => (
                *interpolation_index,
                *span,
            ),
            _ => {
                return Err(self.error("Expected an interpolation."));
            },
        };
        self.cursor.advance();
        Ok(TomlInterpolationNode { span, interpolation_index, role: copy_str(role) })
    }

    fn peek_char(&self, offset: usize) -> (r: Option<char>)
        requires
            self.wf(),
        ensures
            r == char_at(stream(*self), pos(*self) + offset),
    {
        self.cursor.peek_char(offset)
    }

    fn count_consecutive_chars(&self, ch: char) -> (r: usize)
        requires
            self.wf(),
        ensures
            r == quote_run(stream(*self), pos(*self), ch),
    {
        let mut probe = self.cursor.index;
        let mut count: usize = 0;
        while probe < self.cursor.items.len() && self.cursor.items[probe].char() == Some(ch)
            invariant
                self.wf(),
                pos(*self) <= probe <= self.cursor.items.len(),
                count == probe - pos(*self),
                quote_run(stream(*self), pos(*self), ch) == count + quote_run(
                    stream(*self),
                    probe as int,
                    ch,
                ),
            decreases self.cursor.items.len() - probe,
        {
            count += 1;
            probe += 1;
        }
        count
    }

    fn flush_buffer(&self, buffer: &mut Vec<char>, chunks: &mut Vec<TomlStringPart>)
        ensures
            t_fragments_view(final(chunks)@) == flushed(t_fragments_view(old(chunks)@), old(buffer)@),
            final(buffer)@ == Seq::<char>::empty(),
    {
        if buffer.len() == 0 {
            return;
        }
        let value = string_from_chars(buffer);
        chunks.push(
            TomlStringPart::Chunk(TomlStringChunkNode { span: SourceSpan::point(0, 0), value }),
        );
        *buffer = Vec::new();
        assert(t_fragments_view(chunks@) =~= flushed(t_fragments_view(old(chunks)@), old(buffer)@));
    }

    fn consume_multiline_opening_newline(&mut self)
        requires
            old(self).wf(),
        ensures
            steady(*old(self), *final(self)),
            pos(*final(self)) == opening_newline_end(stream(*old(self)), pos(*old(self))),
    {
        if self.cursor.current_char() == Some('\r') {
            self.cursor.advance();
        }
        if self.cursor.current_char() == Some('\n') {
            self.cursor.advance();
        }
    }

    fn starts_multiline_escape(&self) -> (r: bool)
        requires
            self.wf(),
        ensures
            r == multiline_escape_at(stream(*self), pos(*self)),
    {
        let ghost s = stream(*self);
        let len = self.cursor.items.len();
        let mut probe = self.cursor.index + 1;
        while probe < self.cursor.items.len() && (self.cursor.items[probe].char() == Some(' ')
            || self.cursor.items[probe].char() == Some('\t'))
            invariant
                self.wf(),
                s == stream(*self),
                pos(*self) + 1 <= probe <= self.cursor.items.len(),
                hspace_end(s, probe as int) == hspace_end(s, pos(*self) + 1),
            decreases self.cursor.items.len() - probe,
        {
            probe += 1;
        }
        if probe < self.cursor.items.len() && self.cursor.items[probe].char() == Some('\r') {
            probe += 1;
        }
        probe < self.cursor.items.len() && self.cursor.items[probe].char() == Some('\n')
    }

    fn consume_multiline_escape(&mut self)
        requires
            old(self).wf(),
            char_at(stream(*old(self)), pos(*old(self))) == Some('\\'),
        ensures
            steady(*old(self), *final(self)),
            pos(*final(self)) == multiline_escape_end(stream(*old(self)), pos(*old(self))),
            pos(*old(self)) < pos(*final(self)),
    {
        let ghost s = stream(*self);
        self.cursor.advance();
        self.skip_horizontal_space();
        if self.cursor.current_char() == Some('\r') {
            self.cursor.advance();
        }
        if self.cursor.current_char() == Some('\n') {
            self.cursor.advance();
        }
        let ghost c = pos(*self);
        assert(blank_end(s, c) == multiline_escape_end(s, pos(*old(self))));
        loop
            invariant
                steady(*old(self), *self),
                s == stream(*self),
                s == stream(*old(self)),
                blank_end(s, pos(*self)) == multiline_escape_end(s, pos(*old(self))),
                pos(*old(self)) < pos(*self),
            decreases s.len() - pos(*self),
        {
            let ch = self.cursor.current_char();
            if !(ch == Some(' ') || ch == Some('\t') || ch == Some('\n') || ch == Some('\r')) {
                return;
            }
            self.cursor.advance();
        }
    }

    fn collect_exact_chars(&mut self, count: usize) -> (r: Result<Vec<char>, BackendError>)
        requires
            old(self).wf(),
            count <= 8,
        ensures
            steady(*old(self), *final(self)),
            match first_non_char(stream(*old(self)), pos(*old(self)), count as nat) {
                Some(p) => failed(
                    r,
                    ("Unexpected end of TOML escape sequence."@, p),
                    stream(*old(self)),
                    pos(*final(self)),
                ),
                None => r matches Ok(d) && d@ == chars_between(
                    stream(*old(self)),
                    pos(*old(self)),
                    pos(*old(self)) + count,
                ) && pos(*final(self)) == pos(*old(self)) + count,
            },
    {
        let ghost s = stream(*self);
        let ghost k0 = pos(*self);
        let mut chars: Vec<char> = Vec::new();
        let mut n: usize = 0;
        while n < count
            invariant
                steady(*old(self), *self),
                s == stream(*old(self)),
                k0 == pos(*old(self)),
                n <= count <= 8,
                pos(*self) == k0 + n,
                first_non_char(s, k0, count as nat) == first_non_char(s, k0 + n, (count - n) as nat),
                chars@ == chars_between(s, k0, k0 + n),
                all_chars(s, k0, k0 + n),
            decreases count - n,
        {
            match self.cursor.current_char() {
                Some(ch) => {
                    chars.push(ch);
                    self.cursor.advance();
                    n += 1;
                    assert(chars@ =~= chars_between(s, k0, k0 + n));
                },
                None => {
                    return Err(self.error("Unexpected end of TOML escape sequence."));
                },
            }
        }
        assert(first_non_char(s, k0 + count, 0) is None);
        Ok(chars)
    }

    fn read_code_escape(&mut self, count: usize) -> (r: Result<char, BackendError>)
        requires
            old(self).wf(),
            count == 2 || count == 4 || count == 8,
        ensures
            steady(*old(self), *final(self)),
            match code_escape(stream(*old(self)), pos(*old(self)), count as nat) {
                Ok((c, k)) => r == Ok::<char, BackendError>(c) && pos(*final(self)) == k,
                Err(x) => failed(r, x, stream(*old(self)), pos(*final(self))),
            },
    {
        let ghost s = stream(*self);
        let ghost k0 = pos(*self);
        let digits = self.collect_exact_chars(count)?;
        let codepoint = match hex_radix(&digits) {
            Some(v) => v,
            None => {
                return Err(self.error("Invalid TOML escape sequence."));
            },
        };
        match char_from_u32(codepoint) {
            Some(c) => {
                proof {
                    crate::cursor::lemma_char_cast(c);
                }
                Ok(c)
            },
            None => Err(self.error("Invalid TOML escape sequence.")),
        }
    }

    fn parse_basic_escape(&mut self) -> (r: Result<char, BackendError>)
        requires
            old(self).wf(),
            char_at(stream(*old(self)), pos(*old(self))) == Some('\\'),
        ensures
            steady(*old(self), *final(self)),
            match basic_escape(stream(*old(self)), pos(*old(self)), profile(*old(self))) {
                Ok((c, k)) => r == Ok::<char, BackendError>(c) && pos(*final(self)) == k,
                Err(x) => failed(r, x, stream(*old(self)), pos(*final(self))),
            },
            r is Ok ==> pos(*old(self)) < pos(*final(self)),
    {
        self.consume_char('\\')?;
        let ch = match self.cursor.current_char() {
            Some(c) => c,
            None => {
                return Err(self.error("Incomplete TOML escape sequence."));
            },
        };
        self.cursor.advance();
        let mapped: Option<char> = if ch == '"' {
            Some('"')
        } else if ch == '\\' {
            Some('\\')
        } else if ch == 'b' {
            Some('\u{0008}')
        } else if ch == 'f' {
            Some('\u{000c}')
        } else if ch == 'n' {
            Some('\n')
        } else if ch == 'r' {
            Some('\r')
        } else if ch == 't' {
            Some('\t')
        } else {
            None
        };
        if let Some(value) = mapped {
            return Ok(value);
        }
        if ch == 'u' {
            return self.read_code_escape(4);
        }
        if ch == 'U' {
            return self.read_code_escape(8);
        }
        if self.profile.allows_extended_basic_string_escapes() && ch == 'e' {
            return Ok('\u{001b}');
        }
        if self.profile.allows_extended_basic_string_escapes() && ch == 'x' {
            return self.read_code_escape(2);
        }
        Err(self.error("Invalid TOML escape sequence."))
    }

    fn parse_basic_like_string(
        &mut self,
        start: SourcePosition,
        style: StringStyle,
        multiline: bool,
    ) -> (r: Result<TomlStringNode, BackendError>)
        requires
            old(self).wf(),
            is_basic_style(style),
            multiline == is_multiline_style(style),
        ensures
            steady(*old(self), *final(self)),
            match basic_body(
                stream(*old(self)),
                pos(*old(self)),
                multiline,
                profile(*old(self)),
                seq![],
                seq![],
            ) {
                Ok((parts, k)) => r matches Ok(n) && pos(*final(self)) == k && t_string_view(n)
                    == (TStringView {
                    span: span_to(stream(*old(self)), start, k),
                    style: style_name(style),
                    chunks: parts,
                }),
                Err(x) => failed(r, x, stream(*old(self)), pos(*final(self))),
            },
    {
        let ghost s = stream(*self);
        let ghost i = pos(*self);
        let ghost p = profile(*self);
        let mut chunks: Vec<TomlStringPart> = Vec::new();
        let mut buffer: Vec<char> = Vec::new();
        assert(t_fragments_view(chunks@) =~= Seq::<FragmentView>::empty());
        loop
            invariant_except_break
                basic_body(s, pos(*self), multiline, p, t_fragments_view(chunks@), buffer@)
                    == basic_body(s, i, multiline, p, seq![], seq![]),
            invariant
                steady(*old(self), *self),
                s == stream(*old(self)),
                i == pos(*old(self)),
                p == profile(*old(self)),
            ensures
                steady(*old(self), *self),
                basic_body(s, i, multiline, p, seq![], seq![]) == Ok::<_, (Seq<char>, int)>(
                    (t_fragments_view(chunks@), pos(*self)),
                ),
            decreases s.len() - pos(*self),
        {
            let ghost k = pos(*self);
            if multiline && self.starts_with("\"\"\"") {
                proof {
                    reveal_strlit("\"\"\"");
                    assert("\"\"\""@[0] == '"');
                    assert("\"\"\""@[1] == '"');
                    assert("\"\"\""@[2] == '"');
                }
                let quote_run = self.count_consecutive_chars('"');
                if quote_run == 4 || quote_run == 5 {
                    let ghost b0 = buffer@;
                    buffer.push('"');
                    self.cursor.advance();
                    if quote_run == 5 {
                        buffer.push('"');
                        self.cursor.advance();
                    }
                    assert(buffer@ =~= b0 + repeated('"', (quote_run - 3) as nat));
                    continue;
                }
                self.flush_buffer(&mut buffer, &mut chunks);
                self.consume_char('"')?;
                self.consume_char('"')?;
                self.consume_char('"')?;
                break;
            }
            let c = self.cursor.current_char();
            if !multiline && c == Some('"') {
                self.flush_buffer(&mut buffer, &mut chunks);
                self.cursor.advance();
                break;
            }
            if !multiline && (c == Some('\r') || c == Some('\n')) {
                return Err(self.error("TOML single-line basic strings cannot contain newlines."));
            }
            if self.cursor.at_eof() {
                return Err(self.error("Unterminated TOML basic string."));
            }
            if self.cursor.at_interpolation() {
                self.flush_buffer(&mut buffer, &mut chunks);
                let node = self.consume_interpolation("string_fragment")?;
                let ghost before = chunks@;
                chunks.push(TomlStringPart::Interpolation(node));
                assert(t_fragments_view(chunks@) =~= t_fragments_view(before).push(
                    FragmentView::Slot(t_interp_view(node)),
                ));
                continue;
            }
            if multiline && c == Some('\\') && self.starts_multiline_escape() {
                self.consume_multiline_escape();
                continue;
            }
            if c == Some('\\') {
                let escaped = self.parse_basic_escape()?;
                buffer.push(escaped);
                continue;
            }
            if multiline && c == Some('\r') && self.peek_char(1) == Some('\n') {
                buffer.push('\n');
                self.cursor.advance();
                self.cursor.advance();
                continue;
            }
            if multiline && c == Some('\n') {
                buffer.push('\n');
                self.cursor.advance();
                continue;
            }
            if let Some(ch) = c {
                if is_disallowed_toml_control(ch, multiline) {
                    return Err(self.error("Invalid TOML character in basic string."));
                }
                buffer.push(ch);
                self.cursor.advance();
                continue;
            }
            return Err(self.error("Unterminated TOML basic string."));
        }
        Ok(TomlStringNode { span: self.cursor.span_from(start), style: copy_str(style_str(style)), chunks })
    }

    fn parse_literal_like_string(
        &mut self,
        start: SourcePosition,
        style: StringStyle,
        multiline: bool,
    ) -> (r: Result<TomlStringNode, BackendError>)
        requires
            old(self).wf(),
            !is_basic_style(style),
            multiline == is_multiline_style(style),
        ensures
            steady(*old(self), *final(self)),
            match literal_body(stream(*old(self)), pos(*old(self)), multiline, seq![], seq![]) {
                Ok((parts, k)) => r matches Ok(n) && pos(*final(self)) == k && t_string_view(n)
                    == (TStringView {
                    span: span_to(stream(*old(self)), start, k),
                    style: style_name(style),
                    chunks: parts,
                }),
                Err(x) => failed(r, x, stream(*old(self)), pos(*final(self))),
            },
    {
        let ghost s = stream(*self);
        let ghost i = pos(*self);
        let mut chunks: Vec<TomlStringPart> = Vec::new();
        let mut buffer: Vec<char> = Vec::new();
        assert(t_fragments_view(chunks@) =~= Seq::<FragmentView>::empty());
        loop
            invariant_except_break
                literal_body(s, pos(*self), multiline, t_fragments_view(chunks@), buffer@)
                    == literal_body(s, i, multiline, seq![], seq![]),
            invariant
                steady(*old(self), *self),
                s == stream(*old(self)),
                i == pos(*old(self)),
            ensures
                steady(*old(self), *self),
                literal_body(s, i, multiline, seq![], seq![]) == Ok::<_, (Seq<char>, int)>(
                    (t_fragments_view(chunks@), pos(*self)),
                ),
            decreases s.len() - pos(*self),
        {
            let ghost k = pos(*self);
            if multiline && self.starts_with("\'\'\'") {
                proof {
                    reveal_strlit("\'\'\'");
                    assert("\'\'\'"@[0] == '\'');
                    assert("\'\'\'"@[1] == '\'');
                    assert("\'\'\'"@[2] == '\'');
                }
                let quote_run = self.count_consecutive_chars('\'');
                if quote_run == 4 || quote_run == 5 {
                    let ghost b0 = buffer@;
                    buffer.push('\'');
                    self.cursor.advance();
                    if quote_run == 5 {
                        buffer.push('\'');
                        self.cursor.advance();
                    }
                    assert(buffer@ =~= b0 + repeated('\'', (quote_run - 3) as nat));
                    continue;
                }
                self.flush_buffer(&mut buffer, &mut chunks);
                self.consume_char('\'')?;
                self.consume_char('\'')?;
                self.consume_char('\'')?;
                break;
            }
            let c = self.cursor.current_char();
            if !multiline && c == Some('\'') {
                self.flush_buffer(&mut buffer, &mut chunks);
                self.cursor.advance();
                break;
            }
            if !multiline && (c == Some('\r') || c == Some('\n')) {
                return Err(
                    self.error("TOML single-line literal strings cannot contain newlines."),
                );
            }
            if self.cursor.at_eof() {
                return Err(self.error("Unterminated TOML literal string."));
            }
            if self.cursor.at_interpolation() {
                self.flush_buffer(&mut buffer, &mut chunks);
                let node = self.consume_interpolation("string_fragment")?;
                let ghost before = chunks@;
                chunks.push(TomlStringPart::Interpolation(node));
                assert(t_fragments_view(chunks@) =~= t_fragments_view(before).push(
                    FragmentView::Slot(t_interp_view(node)),
                ));
                continue;
            }
            if multiline && c == Some('\r') && self.peek_char(1) == Some('\n') {
                buffer.push('\n');
                self.cursor.advance();
                self.cursor.advance();
                continue;
            }
            if multiline && c == Some('\n') {
                buffer.push('\n');
                self.cursor.advance();
                continue;
            }
            if let Some(ch) = c {
                if is_disallowed_toml_control(ch, multiline) {
                    return Err(self.error("Invalid TOML character in literal string."));
                }
                buffer.push(ch);
                self.cursor.advance();
                continue;
            }
            return Err(self.error("Unterminated TOML literal string."));
        }
        Ok(TomlStringNode { span: self.cursor.span_from(start), style: copy_str(style_str(style)), chunks })
    }

    fn parse_string(&mut self, style: StringStyle) -> (r: Result<TomlStringNode, BackendError>)
        requires
            old(self).wf(),
            text_at(stream(*old(self)), pos(*old(self)), style_delimiter(style)),
        ensures
            steady(*old(self), *final(self)),
            match toml_string(stream(*old(self)), pos(*old(self)), style, profile(*old(self))) {
                Ok((v, k)) => r matches Ok(n) && pos(*final(self)) == k && t_string_view(n) == v,
                Err(x) => failed(r, x, stream(*old(self)), pos(*final(self))),
            },
            r is Ok ==> pos(*old(self)) < pos(*final(self)),
    {
        let ghost s = stream(*self);
        let ghost i = pos(*self);
        proof {
            reveal(toml_string);
        }
        assert(style_delimiter(style)[0] == style_quote(style));
        let start = self.cursor.mark();
        match style {
            StringStyle::Basic => {
                self.consume_char('"')?;
                self.parse_basic_like_string(start, style, false)
            },
            StringStyle::MultilineBasic => {
                assert(style_delimiter(style)[1] == '"');
                assert(style_delimiter(style)[2] == '"');
                self.consume_char('"')?;
                self.consume_char('"')?;
                self.consume_char('"')?;
                self.consume_multiline_opening_newline();
                self.parse_basic_like_string(start, style, true)
            },
            StringStyle::Literal => {
                self.consume_char('\'')?;
                self.parse_literal_like_string(start, style, false)
            },
            StringStyle::MultilineLiteral => {
                assert(style_delimiter(style)[1] == '\'');
                assert(style_delimiter(style)[2] == '\'');
                self.consume_char('\'')?;
                self.consume_char('\'')?;
                self.consume_char('\'')?;
                self.consume_multiline_opening_newline();
                self.parse_literal_like_string(start, style, true)
            },
        }
    }

    fn collect_bare_key(&mut self) -> (r: String)
        requires
            old(self).wf(),
        ensures
            steady(*old(self), *final(self)),
            pos(*final(self)) == bare_end(stream(*old(self)), pos(*old(self))),
            r@ == chars_between(stream(*old(self)), pos(*old(self)), pos(*final(self))),
    {
        let ghost s = stream(*self);
        let ghost i = pos(*self);
        let mut value = String::new();
        loop
            invariant
                steady(*old(self), *self),
                s == stream(*old(self)),
                i == pos(*old(self)),
                bare_end(s, pos(*self)) == bare_end(s, i),
                value@ == chars_between(s, i, pos(*self)),
            decreases s.len() - pos(*self),
        {
            let ch = match self.cursor.current_char() {
                Some(c) => c,
                None => {
                    return value;
                },
            };
            if !bare_key_char(ch) {
                return value;
            }
            push_char(&mut value, ch);
            self.cursor.advance();
            assert(value@ =~= chars_between(s, i, pos(*self)));
        }
    }

    fn parse_key_segment(&mut self) -> (r: Result<TomlKeySegmentNode, BackendError>)
        requires
            old(self).wf(),
        ensures
            steady(*old(self), *final(self)),
            match key_segment(stream(*old(self)), pos(*old(self)), profile(*old(self))) {
                Ok((v, k)) => r matches Ok(n) && pos(*final(self)) == k && t_segment_view(n) == v,
                Err(x) => failed(r, x, stream(*old(self)), pos(*final(self))),
            },
            r is Ok ==> pos(*old(self)) < pos(*final(self)),
    {
        self.skip_horizontal_space();
        let start = self.cursor.mark();
        if self.cursor.at_interpolation() {
            let span = self.cursor.span_from(start);
            let node = self.consume_interpolation("key")?;
            return Ok(
                TomlKeySegmentNode {
                    span,
                    value: TomlKeySegmentValue::Interpolation(node),
                    bare: false,
                },
            );
        }
        if self.starts_with("\"\"\"") {
            return Err(self.error("TOML v1.0 quoted keys cannot be multiline strings."));
        }
        if self.starts_with("\'\'\'") {
            return Err(self.error("TOML v1.0 quoted keys cannot be multiline strings."));
        }
        if self.cursor.current_char() == Some('"') {
            let span = self.cursor.span_from(start);
            let node = self.parse_string(StringStyle::Basic)?;
            return Ok(
                TomlKeySegmentNode { span, value: TomlKeySegmentValue::String(node), bare: false },
            );
        }
        if self.cursor.current_char() == Some('\'') {
            let span = self.cursor.span_from(start);
            let node = self.parse_string(StringStyle::Literal)?;
            return Ok(
                TomlKeySegmentNode { span, value: TomlKeySegmentValue::String(node), bare: false },
            );
        }
        let bare = self.collect_bare_key();
        if bare.as_str().is_empty() {
            return Err(self.error("Expected a TOML key segment."));
        }
        Ok(
            TomlKeySegmentNode {
                span: self.cursor.span_from(start),
                value: TomlKeySegmentValue::Bare(bare),
                bare: true,
            },
        )
    }

    fn parse_key_path(&mut self, header: bool) -> (r: Result<TomlKeyPathNode, BackendError>)
        requires
            old(self).wf(),
        ensures
            steady(*old(self), *final(self)),
            match key_path(stream(*old(self)), pos(*old(self)), header, profile(*old(self))) {
                Ok((v, k)) => r matches Ok(n) && pos(*final(self)) == k && t_path_view(n) == v,
                Err(x) => failed(r, x, stream(*old(self)), pos(*final(self))),
            },
            r is Ok ==> pos(*old(self)) < pos(*final(self)),
    {
        let ghost s = stream(*self);
        let ghost i = pos(*self);
        let ghost p = profile(*self);
        let start = self.cursor.mark();
        let first = self.parse_key_segment()?;
        let mut segments: Vec<TomlKeySegmentNode> = Vec::new();
        segments.push(first);
        let ghost k0 = pos(*self);
        assert(t_segments_view(segments@) =~= seq![t_segment_view(first)]);
        loop
            invariant_except_break
                key_path_rest(s, pos(*self), p, t_segments_view(segments@)) == key_path_rest(
                    s,
                    k0,
                    p,
                    seq![t_segment_view(first)],
                ),
            invariant
                steady(*old(self), *self),
                s == stream(*old(self)),
                i == pos(*old(self)),
                p == profile(*old(self)),
                start == mark_at(s, i),
                i < k0 <= pos(*self),
                key_segment(s, i, p) == Ok::<_, (Seq<char>, int)>((t_segment_view(first), k0)),
            ensures
                steady(*old(self), *self),
                i < pos(*self),
                key_path_rest(s, k0, p, seq![t_segment_view(first)]) == Ok::<
                    _,
                    (Seq<char>, int),
                >((t_segments_view(segments@), pos(*self))),
            decreases s.len() - pos(*self),
        {
            self.skip_horizontal_space();
            if self.cursor.current_char() != Some('.') {
                break;
            }
            self.cursor.advance();
            self.skip_horizontal_space();
            let segment = self.parse_key_segment()?;
            let ghost before = segments@;
            segments.push(segment);
            assert(t_segments_view(segments@) =~= t_segments_view(before).push(
                t_segment_view(segment),
            ));
        }
        if header {
            self.skip_horizontal_space();
        }
        Ok(TomlKeyPathNode { span: self.cursor.span_from(start), segments })
    }

    fn skip_value_space(&mut self, context: ValueContext)
        requires
            old(self).wf(),
        ensures
            steady(*old(self), *final(self)),
            pos(*final(self)) == value_space_end(
                stream(*old(self)),
                pos(*old(self)),
                depth(*old(self)),
                context,
                profile(*old(self)),
            ),
    {
        let ghost s = stream(*self);
        let ghost d = depth(*self);
        let ghost p = profile(*self);
        let ghost i = pos(*self);
        loop
            invariant
                steady(*old(self), *self),
                s == stream(*old(self)),
                d == depth(*old(self)),
                p == profile(*old(self)),
                i == pos(*old(self)),
                value_space_end(s, pos(*self), d, context, p) == value_space_end(s, i, d, context, p),
            decreases s.len() - pos(*self),
        {
            let ghost k = pos(*self);
            self.skip_horizontal_space();
            let ghost j = pos(*self);
            assert(0 <= k <= j < s.len());
            let c = self.cursor.current_char();
            let restricted = self.inline_table_depth > 0 && context != ValueContext::Array;
            assert(restricted == crate::toml_grammar::restricted(d, context));
            if c == Some('#') {
                if restricted {
                    assert(value_space_end(s, k, d, context, p) == j);
                    return;
                }
                proof {
                    lemma_comment_end(s, pos(*self));
                }
                self.skip_comment();
                continue;
            }
            if c == Some('\n') {
                if restricted {
                    return;
                }
                if context == ValueContext::Line {
                    return;
                }
                self.cursor.advance();
                continue;
            }
            if c == Some('\r') && self.peek_char(1) == Some('\n') {
                if context == ValueContext::Line || restricted {
                    assert(crlf_at(s, j));
                    assert(value_space_end(s, k, d, context, p) == j);
                    return;
                }
                self.cursor.advance();
                self.cursor.advance();
                continue;
            }
            if restricted {
                return;
            }
            return;
        }
    }

    fn starts_value_terminator(&self, context: ValueContext) -> (r: bool)
        requires
            self.wf(),
        ensures
            r == value_terminator_at(
                stream(*self),
                pos(*self),
                depth(*self),
                context,
                profile(*self),
            ),
    {
        let ghost s = stream(*self);
        let mut probe = self.cursor.index;
        loop
            invariant
                self.wf(),
                s == stream(*self),
                pos(*self) <= probe < s.len(),
                terminator_probe(s, probe as int) == terminator_probe(s, pos(*self)),
            ensures
                pos(*self) <= probe < s.len(),
                terminator_probe(s, pos(*self)) == probe,
            decreases s.len() - probe,
        {
            let c = self.cursor.items[probe].char();
            if !(c == Some(' ') || c == Some('\t') || c == Some('\r')) {
                break;
            }
            assert(!(s[probe as int] is Eof));
            assert(probe + 1 < self.cursor.items.len());
            probe += 1;
        }
        let is_eof = match &self.cursor.items[probe] {
            StreamItem::Eof { .. } => true,
            _ => false,
        };
        let c = self.cursor.items[probe].char();
        if self.inline_table_depth > 0 {
            if context == ValueContext::Array {
                return is_eof || c == Some(',') || c == Some(']') || c == Some('#');
            }
            return is_eof || c == Some(',') || c == Some('}') || c == Some('#') || c == Some('\n')
                || c == Some('\r');
        }
        if context == ValueContext::Line {
            is_eof || c == Some('#') || c == Some('\n')
        } else {
            is_eof || c == Some(',') || c == Some(']') || c == Some('}') || c == Some('#') || c
                == Some('\n')
        }
    }

    fn materialize(&self, source: &str) -> (r: Result<::toml::Value, String>)
        ensures
            match materialize_error(profile(*self), mode(*self), source@) {
                Some(m) => r matches Err(e) && e@ == m,
                None => r matches Ok(v) && literal_value(source@) == Some(v),
            },
        decreases mode_rank(mode(*self)), 0int, 1int,
    {
        proof {
            reveal(materialize_error);
        }
        match self.literal_materialization {
            LiteralMaterialization::SharedHelper => materialize_value_source(
                self.profile,
                source,
            ),
            LiteralMaterialization::Direct => materialize_value_source_direct(self.profile, source),
        }
    }

    fn scan_literal_source(&mut self, context: ValueContext) -> (r: Result<
        Vec<char>,
        BackendError,
    >)
        requires
            old(self).wf(),
        ensures
            steady(*old(self), *final(self)),
            match literal_end(
                stream(*old(self)),
                pos(*old(self)),
                depth(*old(self)),
                context,
                profile(*old(self)),
            ) {
                Ok(k) => r matches Ok(v) && pos(*final(self)) == k && v@ == chars_between(
                    stream(*old(self)),
                    pos(*old(self)),
                    k,
                ),
                Err(x) => failed(r, x, stream(*old(self)), pos(*final(self))),
            },
    {
        let ghost s = stream(*self);
        let ghost i = pos(*self);
        let ghost d = depth(*self);
        let ghost p = profile(*self);
        proof {
            reveal(literal_end);
        }
        let mut source_chars: Vec<char> = Vec::new();
        loop
            invariant
                steady(*old(self), *self),
                s == stream(*old(self)),
                i == pos(*old(self)),
                d == depth(*old(self)),
                p == profile(*old(self)),
                literal_end(s, pos(*self), d, context, p) == literal_end(s, i, d, context, p),
                source_chars@ == chars_between(s, i, pos(*self)),
            decreases s.len() - pos(*self),
        {
            proof {
                reveal(literal_end);
            }
            if self.cursor.at_eof() {
                return Ok(source_chars);
            }
            if self.starts_value_terminator(context) {
                return Ok(source_chars);
            }
            if self.cursor.at_interpolation() {
                return Err(self.error("TOML bare literals cannot contain fragment interpolations."));
            }
            match self.cursor.current_char() {
                Some(ch) => {
                    source_chars.push(ch);
                    self.cursor.advance();
                    assert(source_chars@ =~= chars_between(s, i, pos(*self)));
                },
                None => {
                    return Ok(source_chars);
                },
            }
        }
    }

    fn finish_literal(&self, start: SourcePosition, source_chars: &Vec<char>) -> (r: Result<
        TomlLiteralNode,
        BackendError,
    >)
        requires
            self.wf(),
        ensures
            trim_end_spec(source_chars@).len() == 0 ==> failed(
                r,
                ("Expected a TOML value."@, pos(*self)),
                stream(*self),
                pos(*self),
            ),
            trim_end_spec(source_chars@).len() > 0 ==> match materialize_error(
                profile(*self),
                mode(*self),
                trim_end_spec(source_chars@),
            ) {
                Some(m) => failed(r, (m, pos(*self)), stream(*self), pos(*self)),
                None => r matches Ok(n) && n.span == span_to(stream(*self), start, pos(*self))
                    && n.source@ == trim_end_spec(source_chars@) && literal_value(n.source@) == Some(
                    n.value,
                ),
            },
        decreases mode_rank(mode(*self)), 0int, 2int,
    {
        let trimmed = trim_end_chars(source_chars);
        if trimmed.len() == 0 {
            return Err(self.error("Expected a TOML value."));
        }
        let source = string_from_chars(&trimmed);
        let value = match self.materialize(source.as_str()) {
            Ok(v) => v,
            Err(message) => {
                return Err(self.error(message.as_str()));
            },
        };
        Ok(TomlLiteralNode { span: self.cursor.span_from(start), source, value })
    }

    #[verifier::spinoff_prover]
    fn parse_literal(&mut self, context: ValueContext) -> (r: Result<
        TomlLiteralNode,
        BackendError,
    >)
        requires
            old(self).wf(),
        ensures
            steady(*old(self), *final(self)),
            match toml_literal(
                stream(*old(self)),
                pos(*old(self)),
                depth(*old(self)),
                context,
                profile(*old(self)),
                mode(*old(self)),
            ) {
                Ok((v, k)) => r matches Ok(n) && pos(*final(self)) == k && v == (TValueView::Literal {
                    span: n.span,
                    source: n.source@,
                    value: Some(n.value),
                }),
                Err(x) => failed(r, x, stream(*old(self)), pos(*final(self))),
            },
        decreases mode_rank(mode(*old(self))), stream(*old(self)).len() - pos(*old(self)), 5int,
    {
        proof {
            reveal(toml_literal);
        }
        let start = self.cursor.mark();
        let source_chars = self.scan_literal_source(context)?;
        self.finish_literal(start, &source_chars)
    }

    #[verifier::spinoff_prover]
    #[verifier::rlimit(60)]
    fn parse_value(&mut self, context: ValueContext) -> (r: Result<TomlValueNode, BackendError>)
        requires
            old(self).wf(),
        ensures
            same_parse(*old(self), *final(self)),
            match toml_value(
                stream(*old(self)),
                pos(*old(self)),
                depth(*old(self)),
                context,
                profile(*old(self)),
                mode(*old(self)),
            ) {
                Ok((v, k)) => r matches Ok(n) && pos(*final(self)) == k && t_value_view(n) == v
                    && depth(*final(self)) == depth(*old(self)),
                Err(x) => failed(r, x, stream(*old(self)), pos(*final(self))),
            },
        decreases mode_rank(mode(*old(self))), stream(*old(self)).len() - pos(*old(self)), 6int,
    {
        proof {
            reveal_strlit("\"\"\"");
            reveal_strlit("\'\'\'");
        }
        self.skip_value_space(context);
        if self.cursor.at_interpolation() {
            let interpolation = self.consume_interpolation("value")?;
            if self.starts_value_terminator(context) {
                return Ok(TomlValueNode::Interpolation(interpolation));
            }
            return Err(self.error("Whole-value TOML interpolations cannot have bare suffix text."));
        }
        let c = self.cursor.current_char();
        if c == Some('[') {
            let node = self.parse_array()?;
            return Ok(TomlValueNode::Array(node));
        }
        if c == Some('{') {
            let node = self.parse_inline_table()?;
            return Ok(TomlValueNode::InlineTable(node));
        }
        if self.starts_with("\"\"\"") {
            assert(style_delimiter(StringStyle::MultilineBasic) =~= "\"\"\""@);
            let node = self.parse_string(StringStyle::MultilineBasic)?;
            return Ok(TomlValueNode::String(node));
        }
        if self.starts_with("\'\'\'") {
            assert(style_delimiter(StringStyle::MultilineLiteral) =~= "\'\'\'"@);
            let node = self.parse_string(StringStyle::MultilineLiteral)?;
            return Ok(TomlValueNode::String(node));
        }
        if c == Some('"') {
            let node = self.parse_string(StringStyle::Basic)?;
            return Ok(TomlValueNode::String(node));
        }
        if c == Some('\'') {
            let node = self.parse_string(StringStyle::Literal)?;
            return Ok(TomlValueNode::String(node));
        }
        let node = self.parse_literal(context)?;
        Ok(TomlValueNode::Literal(node))
    }

    fn parse_array(&mut self) -> (r: Result<TomlArrayNode, BackendError>)
        requires
            old(self).wf(),
            char_at(stream(*old(self)), pos(*old(self))) == Some('['),
        ensures
            same_parse(*old(self), *final(self)),
            match toml_array(
                stream(*old(self)),
                pos(*old(self)),
                depth(*old(self)),
                profile(*old(self)),
                mode(*old(self)),
            ) {
                Ok((v, k)) => r matches Ok(n) && pos(*final(self)) == k && t_value_view(
                    TomlValueNode::Array(n),
                ) == v && depth(*final(self)) == depth(*old(self)),
                Err(x) => failed(r, x, stream(*old(self)), pos(*final(self))),
            },
        decreases mode_rank(mode(*old(self))), stream(*old(self)).len() - pos(*old(self)), 5int,
    {
        let ghost s = stream(*self);
        let ghost i = pos(*self);
        let ghost d = depth(*self);
        let ghost p = profile(*self);
        let ghost m = mode(*self);
        let start = self.cursor.mark();
        self.consume_char('[')?;
        self.skip_value_space(ValueContext::Array);
        let mut items: Vec<TomlValueNode> = Vec::new();
        if self.cursor.current_char() == Some(']') {
            self.cursor.advance();
            assert(t_values_view(items@) =~= Seq::<TValueView>::empty());
            return Ok(TomlArrayNode { span: self.cursor.span_from(start), items });
        }
        let ghost k0 = pos(*self);
        assert(t_values_view(items@) =~= Seq::<TValueView>::empty());
        loop
            invariant_except_break
                toml_items(s, pos(*self), d, p, m, t_values_view(items@)) == toml_items(
                    s,
                    k0,
                    d,
                    p,
                    m,
                    seq![],
                ),
            invariant
                same_parse(*old(self), *self),
                depth(*self) == d,
                s == stream(*old(self)),
                i == pos(*old(self)),
                d == depth(*old(self)),
                p == profile(*old(self)),
                m == mode(*old(self)),
                start == mark_at(s, i),
                i < k0 < s.len(),
                i < pos(*self),
                k0 == value_space_end(s, i + 1, d, ValueContext::Array, p),
                char_at(s, k0) != Some(']'),
            ensures
                same_parse(*old(self), *self),
                depth(*self) == d,
                toml_items(s, k0, d, p, m, seq![]) == Ok::<_, (Seq<char>, int)>(
                    (t_values_view(items@), pos(*self)),
                ),
            decreases s.len() - pos(*self),
        {
            let value = self.parse_value(ValueContext::Array)?;
            let ghost before = items@;
            items.push(value);
            assert(items@.drop_last() == before);
            self.skip_value_space(ValueContext::Array);
            if self.cursor.current_char() == Some(']') {
                self.cursor.advance();
                break;
            }
            self.consume_char(',')?;
            self.skip_value_space(ValueContext::Array);
            if self.cursor.current_char() == Some(']') {
                self.cursor.advance();
                break;
            }
        }
        Ok(TomlArrayNode { span: self.cursor.span_from(start), items })
    }

    fn parse_inline_table(&mut self) -> (r: Result<TomlInlineTableNode, BackendError>)
        requires
            old(self).wf(),
            char_at(stream(*old(self)), pos(*old(self))) == Some('{'),
        ensures
            same_parse(*old(self), *final(self)),
            match toml_inline_table(
                stream(*old(self)),
                pos(*old(self)),
                depth(*old(self)),
                profile(*old(self)),
                mode(*old(self)),
            ) {
                Ok((v, k)) => r matches Ok(n) && pos(*final(self)) == k && t_value_view(
                    TomlValueNode::InlineTable(n),
                ) == v && depth(*final(self)) == depth(*old(self)),
                Err(x) => failed(r, x, stream(*old(self)), pos(*final(self))),
            },
        decreases mode_rank(mode(*old(self))), stream(*old(self)).len() - pos(*old(self)), 5int,
    {
        let ghost s = stream(*self);
        let ghost i = pos(*self);
        let ghost d = depth(*self);
        let ghost p = profile(*self);
        let ghost m = mode(*self);
        let start = self.cursor.mark();
        self.consume_char('{')?;
        self.inline_table_depth = self.inline_table_depth + 1;
        let mut entries: Vec<TomlAssignmentNode> = Vec::new();
        self.skip_value_space(ValueContext::Inline);
        if self.cursor.current_char() == Some('}') {
            self.cursor.advance();
            self.inline_table_depth = self.inline_table_depth - 1;
            assert(t_assigns_view(entries@) =~= Seq::<TAssignView>::empty());
            return Ok(TomlInlineTableNode { span: self.cursor.span_from(start), entries });
        }
        let ghost k0 = pos(*self);
        assert(t_assigns_view(entries@) =~= Seq::<TAssignView>::empty());
        loop
            invariant_except_break
                toml_entries(s, pos(*self), d + 1, p, m, t_assigns_view(entries@)) == toml_entries(
                    s,
                    k0,
                    d + 1,
                    p,
                    m,
                    seq![],
                ),
            invariant
                same_parse(*old(self), *self),
                depth(*self) == d + 1,
                s == stream(*old(self)),
                i == pos(*old(self)),
                d == depth(*old(self)),
                p == profile(*old(self)),
                m == mode(*old(self)),
                start == mark_at(s, i),
                i < k0 < s.len(),
                i < pos(*self),
                k0 == value_space_end(s, i + 1, d + 1, ValueContext::Inline, p),
                char_at(s, k0) != Some('}'),
            ensures
                same_parse(*old(self), *self),
                depth(*self) == d + 1,
                toml_entries(s, k0, d + 1, p, m, seq![]) == Ok::<_, (Seq<char>, int)>(
                    (t_assigns_view(entries@), pos(*self)),
                ),
            decreases s.len() - pos(*self),
        {
            let entry_start = self.cursor.mark();
            let key_path = self.parse_key_path(false)?;
            self.skip_horizontal_space();
            self.consume_char('=')?;
            let value = self.parse_value(ValueContext::Inline)?;
            let ghost before = entries@;
            entries.push(
                TomlAssignmentNode { span: self.cursor.span_from(entry_start), key_path, value },
            );
            assert(entries@.drop_last() == before);
            self.skip_value_space(ValueContext::Inline);
            if self.cursor.current_char() == Some('}') {
                self.cursor.advance();
                break;
            }
            self.consume_char(',')?;
            self.skip_value_space(ValueContext::Inline);
            if self.cursor.current_char() == Some('}') && self.profile.names_inline_trailing_commas() {
                return Err(
                    self.error("Trailing commas are not permitted in TOML 1.0 inline tables."),
                );
            }
        }
        self.inline_table_depth = self.inline_table_depth - 1;
        Ok(TomlInlineTableNode { span: self.cursor.span_from(start), entries })
    }

    fn parse_assignment(&mut self) -> (r: Result<TomlAssignmentNode, BackendError>)
        requires
            old(self).wf(),
        ensures
            same_parse(*old(self), *final(self)),
            match toml_assignment(
                stream(*old(self)),
                pos(*old(self)),
                depth(*old(self)),
                profile(*old(self)),
                mode(*old(self)),
            ) {
                Ok((v, k)) => r matches Ok(n) && pos(*final(self)) == k && t_assign_view(n) == v
                    && depth(*final(self)) == depth(*old(self)),
                Err(x) => failed(r, x, stream(*old(self)), pos(*final(self))),
            },
            r is Ok ==> pos(*old(self)) < pos(*final(self)),
        decreases mode_rank(mode(*old(self))), stream(*old(self)).len() - pos(*old(self)), 7int,
    {
        let start = self.cursor.mark();
        let key_path = self.parse_key_path(false)?;
        self.skip_horizontal_space();
        self.consume_char('=')?;
        let value = self.parse_value(ValueContext::Line)?;
        Ok(TomlAssignmentNode { span: self.cursor.span_from(start), key_path, value })
    }

    fn parse_table_header(&mut self) -> (r: Result<TomlTableHeaderNode, BackendError>)
        requires
            old(self).wf(),
            char_at(stream(*old(self)), pos(*old(self))) == Some('['),
        ensures
            steady(*old(self), *final(self)),
            match toml_table_header(stream(*old(self)), pos(*old(self)), profile(*old(self))) {
                Ok((v, k)) => r matches Ok(n) && pos(*final(self)) == k && t_statement_view(
                    TomlStatementNode::TableHeader(n),
                ) == v,
                Err(x) => failed(r, x, stream(*old(self)), pos(*final(self))),
            },
            r is Ok ==> pos(*old(self)) < pos(*final(self)),
    {
        let start = self.cursor.mark();
        self.consume_char('[')?;
        let key_path = self.parse_key_path(true)?;
        self.consume_char(']')?;
        Ok(TomlTableHeaderNode { span: self.cursor.span_from(start), key_path })
    }

    fn parse_array_table_header(&mut self) -> (r: Result<TomlArrayTableHeaderNode, BackendError>)
        requires
            old(self).wf(),
            text_at(stream(*old(self)), pos(*old(self)), "[["@),
        ensures
            steady(*old(self), *final(self)),
            match toml_array_table_header(stream(*old(self)), pos(*old(self)), profile(*old(self))) {
                Ok((v, k)) => r matches Ok(n) && pos(*final(self)) == k && t_statement_view(
                    TomlStatementNode::ArrayTableHeader(n),
                ) == v,
                Err(x) => failed(r, x, stream(*old(self)), pos(*final(self))),
            },
            r is Ok ==> pos(*old(self)) < pos(*final(self)),
    {
        proof {
            reveal_strlit("[[");
            assert("[["@[0] == '[');
            assert("[["@[1] == '[');
        }
        let start = self.cursor.mark();
        self.consume_char('[')?;
        self.consume_char('[')?;
        let key_path = self.parse_key_path(true)?;
        self.consume_char(']')?;
        self.consume_char(']')?;
        Ok(TomlArrayTableHeaderNode { span: self.cursor.span_from(start), key_path })
    }

    /// Parses a whole document from the current position.
    pub fn parse(&mut self) -> (r: Result<TomlDocumentNode, BackendError>)
        requires
            old(self).wf(),
        ensures
            final(self).wf(),
            stream(*final(self)) == stream(*old(self)),
            match toml_document(
                stream(*old(self)),
                pos(*old(self)),
                depth(*old(self)),
                profile(*old(self)),
                mode(*old(self)),
            ) {
                Ok((v, k)) => r matches Ok(n) && pos(*final(self)) == k && t_document_view(n) == v,
                Err(x) => failed(r, x, stream(*old(self)), pos(*final(self))),
            },
        decreases mode_rank(mode(*old(self))), stream(*old(self)).len() - pos(*old(self)), 10int,
    {
        let ghost s = stream(*self);
        let ghost i = pos(*self);
        let ghost d = depth(*self);
        let ghost p = profile(*self);
        let ghost m = mode(*self);
        let start = self.cursor.mark();
        let mut statements: Vec<TomlStatementNode> = Vec::new();
        self.skip_document_junk();
        let ghost k0 = pos(*self);
        assert(t_statements_view(statements@) =~= Seq::<TStatementView>::empty());
        while !self.cursor.at_eof()
            invariant
                same_parse(*old(self), *self),
                depth(*self) == d,
                s == stream(*old(self)),
                i == pos(*old(self)),
                d == depth(*old(self)),
                p == profile(*old(self)),
                m == mode(*old(self)),
                start == mark_at(s, i),
                i <= k0 < s.len(),
                k0 == junk_end(s, i),
                toml_statements(s, pos(*self), d, p, m, t_statements_view(statements@))
                    == toml_statements(s, k0, d, p, m, seq![]),
            decreases s.len() - pos(*self),
        {
            let ghost k = pos(*self);
            let statement = if self.starts_with("[[") {
                TomlStatementNode::ArrayTableHeader(self.parse_array_table_header()?)
            } else if self.cursor.current_char() == Some('[') {
                TomlStatementNode::TableHeader(self.parse_table_header()?)
            } else {
                TomlStatementNode::Assignment(self.parse_assignment()?)
            };
            assert(toml_statement(s, k, d, p, m) == Ok::<_, (Seq<char>, int)>(
                (t_statement_view(statement), pos(*self)),
            ));
            let ghost before = statements@;
            statements.push(statement);
            assert(t_statements_view(statements@) =~= t_statements_view(before).push(
                t_statement_view(statement),
            ));
            self.skip_line_suffix()?;
            self.skip_document_junk();
        }
        Ok(TomlDocumentNode { span: self.cursor.span_from(start), statements })
    }
}

/// Checks a literal's source with the `toml` crate alone: under TOML 1.0 a
/// time without seconds is refused first; then `value = <source>` must read
/// as a table with a `value` key.
fn materialize_value_source_direct(profile: TomlProfile, source_text: &str) -> (r: Result<
    ::toml::Value,
    String,
>)
    ensures
        match direct_error(profile, source_text@) {
            Some(m) => r matches Err(e) && e@ == m,
            None => r matches Ok(v) && literal_value(source_text@) == Some(v),
        },
{
    if !profile.allows_missing_seconds() && is_v1_datetime_without_seconds(source_text) {
        return Err(copy_str("Invalid TOML literal: missing seconds in time value."));
    }
    let mut text = copy_str("value = ");
    push_str(&mut text, source_text);
    let table = match toml_table_from_str(text.as_str()) {
        Ok(t) => t,
        Err(err) => {
            let mut message = copy_str("Invalid TOML literal: ");
            push_str(&mut message, err.as_str());
            return Err(message);
        },
    };
    match toml_table_value(&table, "value") {
        Some(v) => Ok(v),
        None => Err(copy_str("Expected a TOML value.")),
    }
}

/// The value of a bare TOML literal, read the way the template parser reads
/// it: `value = <source>` is first parsed as a one-line template, then read by
/// the `toml` crate. The error is the message of the first check that fails.
pub fn materialize_value_source(profile: TomlProfile, source_text: &str) -> (r: Result<
    ::toml::Value,
    String,
>)
    ensures
        match materialize_error(profile, LiteralMaterialization::SharedHelper, source_text@) {
            Some(m) => r matches Err(e) && e@ == m,
            None => r matches Ok(v) && literal_value(source_text@) == Some(v),
        },
    decreases 1int, 0int, 0int,
{
    let mut text = copy_str("value = ");
    push_str(&mut text, source_text);
    proof {
        lemma_text_stream(text);
        reveal(materialize_error);
    }
    let mut segments: Vec<TemplateSegment> = Vec::new();
    segments.push(TemplateSegment::StaticText(text));
    let template = TemplateInput::from_segments(segments);
    let mut parser = TomlParser::new_with_materialization(
        &template,
        profile,
        LiteralMaterialization::Direct,
    );
    match parser.parse() {
        Ok(_) => {},
        Err(err) => {
            return Err(copy_str(err.message.as_str()));
        },
    }
    materialize_value_source_direct(profile, source_text)
}

/// Parses a TOML template under a profile. A carriage return that is not
/// followed by a line feed is refused before anything else is read.
pub fn parse_template_with_profile(template: &TemplateInput, profile: TomlProfile) -> (r: Result<
    TomlDocumentNode,
    BackendError,
>)
    ensures
        match toml_template(stream_of(template.segments@), profile) {
            Ok((v, _)) => r matches Ok(n) && t_document_view(n) == v,
            Err((m, k)) => r matches Err(e) && parse_error_at(
                e,
                toml_code(),
                m,
                stream_of(template.segments@),
                k,
            ),
        },
{
    let items = template.flatten();
    let ghost s = items@;
    let mut k: usize = 0;
    while k + 1 < items.len()
        invariant
            items@ == s,
            s == stream_of(template.segments@),
            first_bare_cr(s, 0) == first_bare_cr(s, k as int),
            k < items.len() || items.len() == 0,
        decreases items.len() - k,
    {
        if items[k].char() == Some('\r') && items[k + 1].char() != Some('\n') {
            return Err(
                BackendError::parse_at(
                    "toml.parse",
                    "Bare carriage returns are not valid in TOML input.",
                    Some(*items[k].span()),
                ),
            );
        }
        k += 1;
    }
    let mut parser = TomlParser::new(template, profile);
    parser.parse()
}

/// Parses a TOML template under the default profile (TOML 1.1).
pub fn parse_template(template: &TemplateInput) -> (r: Result<TomlDocumentNode, BackendError>)
    ensures
        match toml_template(stream_of(template.segments@), TomlProfile::V1_1) {
            Ok((v, _)) => r matches Ok(n) && t_document_view(n) == v,
            Err((m, k)) => r matches Err(e) && parse_error_at(
                e,
                toml_code(),
                m,
                stream_of(template.segments@),
                k,
            ),
        },
{
    parse_template_with_profile(template, TomlProfile::default())
}

/// Checks that a TOML template parses under a profile.
pub fn check_template_with_profile(template: &TemplateInput, profile: TomlProfile) -> (r: Result<
    (),
    BackendError,
>)
    ensures
        match toml_template(stream_of(template.segments@), profile) {
            Ok(_) => r is Ok,
            Err((m, k)) => r matches Err(e) && parse_error_at(
                e,
                toml_code(),
                m,
                stream_of(template.segments@),
                k,
            ),
        },
{
    match parse_template_with_profile(template, profile) {
        Ok(_) => Ok(()),
        Err(e) => Err(e),
    }
}

/// Checks that a TOML template parses under the default profile.
pub fn check_template(template: &TemplateInput) -> (r: Result<(), BackendError>)
    ensures
        match toml_template(stream_of(template.segments@), TomlProfile::V1_1) {
            Ok(_) => r is Ok,
            Err((m, k)) => r matches Err(e) && parse_error_at(
                e,
                toml_code(),
                m,
                stream_of(template.segments@),
                k,
            ),
        },
{
    check_template_with_profile(template, TomlProfile::default())
}

} // verus!
