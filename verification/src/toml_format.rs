//! Writing a parsed TOML template back as text, with each interpolation
//! replaced by its raw `{...}` source: the statements one per line, values
//! and keys in a normal form, strings as basic strings.
use vstd::prelude::*;

use crate::cursor::{
    char_at, chars_between, first_non_char, flushed, lemma_text_stream_chars, text_at, hex_digit_value, hex_digits_value,
    hex_radix_value, is_eof_at, is_interp_at, parse_error_at, FragmentView,
};
use crate::syntax::{
    lemma_text_stream, stream_of, text_stream, BackendError, StreamItem, SourceSpan,
    TemplateInput, TemplateSegment,
};
use crate::text::{
    copy_str, push_str,
};
use crate::toml_backend::{
    disallowed_control, escape_basic_body, is_bare_key_char, escape_basic_char, hex_upper_digit,
    TomlAssignmentNode, bare_key_text, is_bare_key, render_basic, render_basic_string,
    t_assign_view, t_assigns_view, t_document_view, t_path_view, t_segment_view,
    t_statement_view, t_string_view, t_value_view, t_values_view, TAssignView, TDocumentView,
    TPathView, TSegmentValueView, TSegmentView, TStatementView, TStringView, TValueView,
    TomlDocumentNode, TomlKeyPathNode, TomlKeySegmentNode, TomlKeySegmentValue, TomlProfile,
    TomlStatementNode, TomlStringNode, TomlStringPart, TomlValueNode,
};
use crate::toml_grammar::{
    bare_end, basic_body, basic_escape, code_escape, first_bare_cr, hspace_end, junk_end,
    line_suffix, toml_code, toml_string, toml_template, value_space_end, Parsed, StringStyle,
    ValueContext,
};
use crate::toml_parser::parse_template_with_profile;
use crate::formatting::{
    format_result_as, has_raw, interpolation_raw_source_as, lemma_separated_push, pieces_raw,
    raw_text, separated, FormatFailure, Formatted,
};

verus! {

// ---------------------------------------------------------------------------
// What formatting gives
// ---------------------------------------------------------------------------

/// `r` is what TOML formatting should give, with `spec` as its text or failure.
pub open spec fn format_result(
    r: Result<String, BackendError>,
    segments: Seq<TemplateSegment>,
    spec: Formatted,
) -> bool {
    format_result_as("toml.format"@, r, segments, spec)
}

/// The text of a string's pieces, interpolations replaced by their raw source.
pub open spec fn pieces_text(segments: Seq<TemplateSegment>, parts: Seq<FragmentView>) -> Formatted
    decreases parts.len(),
{
    if parts.len() == 0 {
        Ok(seq![])
    } else {
        match pieces_text(segments, parts.drop_last()) {
            Err(f) => Err(f),
            Ok(t) => match parts.last() {
                FragmentView::Text { value, .. } => Ok(t + value),
                FragmentView::Slot(iv) => match raw_text(segments, iv.interpolation_index, iv.span, "TOML string fragment"@) {
                    Err(f) => Err(f),
                    Ok(raw) => Ok(t + raw),
                },
            },
        }
    }
}

/// A string, whatever its style, written as a basic string.
pub open spec fn fmt_string(segments: Seq<TemplateSegment>, sv: TStringView) -> Formatted {
    match pieces_text(segments, sv.chunks) {
        Err(f) => Err(f),
        Ok(t) => Ok(render_basic(t)),
    }
}

/// A key segment: a bare key as it is when it may stay bare, else quoted.
pub open spec fn fmt_segment(segments: Seq<TemplateSegment>, seg: TSegmentView) -> Formatted {
    match seg.value {
        TSegmentValueView::Bare(v) => if seg.bare && bare_key_text(v) {
            Ok(v)
        } else {
            Ok(render_basic(v))
        },
        TSegmentValueView::String(sv) => fmt_string(segments, sv),
        TSegmentValueView::Interpolation(iv) => raw_text(segments, iv.interpolation_index, iv.span, "TOML key"@),
    }
}

/// Key segments joined with `.`.
pub open spec fn fmt_segments(segments: Seq<TemplateSegment>, ss: Seq<TSegmentView>) -> Formatted
    decreases ss.len(),
{
    if ss.len() == 0 {
        Ok(seq![])
    } else {
        match fmt_segments(segments, ss.drop_last()) {
            Err(f) => Err(f),
            Ok(t) => match fmt_segment(segments, ss.last()) {
                Err(f) => Err(f),
                Ok(x) => Ok(
                    if ss.len() == 1 {
                        x
                    } else {
                        t + "."@ + x
                    },
                ),
            },
        }
    }
}

/// A dotted key.
pub open spec fn fmt_path(segments: Seq<TemplateSegment>, path: TPathView) -> Formatted {
    fmt_segments(segments, path.segments)
}

/// A value: literals as their source, arrays and inline tables in a normal
/// spacing.
pub open spec fn fmt_value(segments: Seq<TemplateSegment>, v: TValueView) -> Formatted
    decreases v,
{
    match v {
        TValueView::String(sv) => fmt_string(segments, sv),
        TValueView::Literal { source, .. } => Ok(source),
        TValueView::Interpolation(iv) => raw_text(segments, iv.interpolation_index, iv.span, "TOML value"@),
        TValueView::Array { items, .. } => match fmt_items(segments, items) {
            Err(f) => Err(f),
            Ok(t) => Ok("["@ + t + "]"@),
        },
        TValueView::InlineTable { entries, .. } => match fmt_entries(segments, entries) {
            Err(f) => Err(f),
            Ok(t) => Ok(
                if entries.len() == 0 {
                    "{}"@
                } else {
                    "{ "@ + t + " }"@
                },
            ),
        },
    }
}

/// Values joined with `, `.
pub open spec fn fmt_items(segments: Seq<TemplateSegment>, items: Seq<TValueView>) -> Formatted
    decreases items,
{
    if items.len() == 0 {
        Ok(seq![])
    } else {
        match fmt_items(segments, items.drop_last()) {
            Err(f) => Err(f),
            Ok(t) => match fmt_value(segments, items.last()) {
                Err(f) => Err(f),
                Ok(x) => Ok(
                    if items.len() == 1 {
                        x
                    } else {
                        t + ", "@ + x
                    },
                ),
            },
        }
    }
}

/// `key = value` pairs joined with `, `.
pub open spec fn fmt_entries(segments: Seq<TemplateSegment>, entries: Seq<TAssignView>) -> Formatted
    decreases entries,
{
    if entries.len() == 0 {
        Ok(seq![])
    } else {
        match fmt_entries(segments, entries.drop_last()) {
            Err(f) => Err(f),
            Ok(t) => match fmt_path(segments, entries.last().key_path) {
                Err(f) => Err(f),
                Ok(k) => match fmt_value(segments, entries.last().value) {
                    Err(f) => Err(f),
                    Ok(x) => Ok(
                        if entries.len() == 1 {
                            k + " = "@ + x
                        } else {
                            t + ", "@ + k + " = "@ + x
                        },
                    ),
                },
            },
        }
    }
}

/// A statement on its own line (without the line end).
pub open spec fn fmt_statement(segments: Seq<TemplateSegment>, st: TStatementView) -> Formatted {
    match st {
        TStatementView::Assignment(a) => match fmt_path(segments, a.key_path) {
            Err(f) => Err(f),
            Ok(k) => match fmt_value(segments, a.value) {
                Err(f) => Err(f),
                Ok(x) => Ok(k + " = "@ + x),
            },
        },
        TStatementView::TableHeader { key_path, .. } => match fmt_path(segments, key_path) {
            Err(f) => Err(f),
            Ok(k) => Ok("["@ + k + "]"@),
        },
        TStatementView::ArrayTableHeader { key_path, .. } => match fmt_path(segments, key_path) {
            Err(f) => Err(f),
            Ok(k) => Ok("[["@ + k + "]]"@),
        },
    }
}

/// Statements joined with line feeds.
pub open spec fn fmt_statements(segments: Seq<TemplateSegment>, ss: Seq<TStatementView>) -> Formatted
    decreases ss.len(),
{
    if ss.len() == 0 {
        Ok(seq![])
    } else {
        match fmt_statements(segments, ss.drop_last()) {
            Err(f) => Err(f),
            Ok(t) => match fmt_statement(segments, ss.last()) {
                Err(f) => Err(f),
                Ok(x) => Ok(
                    if ss.len() == 1 {
                        x
                    } else {
                        t + "\n"@ + x
                    },
                ),
            },
        }
    }
}

/// A document.
pub open spec fn fmt_document(segments: Seq<TemplateSegment>, d: TDocumentView) -> Formatted {
    fmt_statements(segments, d.statements)
}

// ---------------------------------------------------------------------------
// What the formatter writes, part by part
// ---------------------------------------------------------------------------

proof fn lemma_items_separated(
    segments: Seq<TemplateSegment>,
    items: Seq<TValueView>,
    texts: Seq<Seq<char>>,
)
    requires
        items.len() == texts.len(),
        forall|k: int| 0 <= k < items.len() ==> fmt_value(segments, #[trigger] items[k]) == Ok::<
            Seq<char>,
            FormatFailure,
        >(texts[k]),
    ensures
        fmt_items(segments, items) == Ok::<Seq<char>, FormatFailure>(separated(texts, ", "@)),
    decreases items.len(),
{
    if items.len() > 0 {
        let n = items.len() - 1;
        assert forall|k: int| 0 <= k < n implies fmt_value(segments, #[trigger] items.drop_last()[k])
            == Ok::<Seq<char>, FormatFailure>(texts.drop_last()[k]) by {
            assert(items.drop_last()[k] == items[k]);
        }
        lemma_items_separated(segments, items.drop_last(), texts.drop_last());
        assert(fmt_value(segments, items[n]) == Ok::<Seq<char>, FormatFailure>(texts[n]));
        assert(texts.drop_last().push(texts[n]) =~= texts);
        if items.len() == 1 {
            assert(texts =~= seq![texts[0]]);
        } else {
            lemma_separated_push(texts.drop_last(), ", "@, texts[n]);
        }
    }
}

/// An array is written as `[`, its items written and joined with `, `, and
/// `]`, whatever the number of items.
pub proof fn law_array_items_joined(
    segments: Seq<TemplateSegment>,
    span: SourceSpan,
    items: Seq<TValueView>,
    texts: Seq<Seq<char>>,
)
    requires
        items.len() == texts.len(),
        forall|k: int| 0 <= k < items.len() ==> fmt_value(segments, #[trigger] items[k]) == Ok::<
            Seq<char>,
            FormatFailure,
        >(texts[k]),
    ensures
        fmt_value(segments, TValueView::Array { span, items }) == Ok::<Seq<char>, FormatFailure>(
            "["@ + separated(texts, ", "@) + "]"@,
        ),
{
    lemma_items_separated(segments, items, texts);
}

proof fn lemma_segments_separated(
    segments: Seq<TemplateSegment>,
    ss: Seq<TSegmentView>,
    texts: Seq<Seq<char>>,
)
    requires
        ss.len() == texts.len(),
        forall|k: int| 0 <= k < ss.len() ==> fmt_segment(segments, #[trigger] ss[k]) == Ok::<
            Seq<char>,
            FormatFailure,
        >(texts[k]),
    ensures
        fmt_segments(segments, ss) == Ok::<Seq<char>, FormatFailure>(separated(texts, "."@)),
    decreases ss.len(),
{
    if ss.len() > 0 {
        let n = ss.len() - 1;
        assert forall|k: int| 0 <= k < n implies fmt_segment(segments, #[trigger] ss.drop_last()[k])
            == Ok::<Seq<char>, FormatFailure>(texts.drop_last()[k]) by {
            assert(ss.drop_last()[k] == ss[k]);
        }
        lemma_segments_separated(segments, ss.drop_last(), texts.drop_last());
        assert(fmt_segment(segments, ss[n]) == Ok::<Seq<char>, FormatFailure>(texts[n]));
        assert(texts.drop_last().push(texts[n]) =~= texts);
        if ss.len() == 1 {
            assert(texts =~= seq![texts[0]]);
        } else {
            lemma_separated_push(texts.drop_last(), "."@, texts[n]);
        }
    }
}

/// A dotted key is written as its segments, each written on its own, joined
/// with `.`.
pub proof fn law_key_path_segments_joined(
    segments: Seq<TemplateSegment>,
    path: TPathView,
    texts: Seq<Seq<char>>,
)
    requires
        path.segments.len() == texts.len(),
        forall|k: int| 0 <= k < path.segments.len() ==> fmt_segment(
            segments,
            #[trigger] path.segments[k],
        ) == Ok::<Seq<char>, FormatFailure>(texts[k]),
    ensures
        fmt_path(segments, path) == Ok::<Seq<char>, FormatFailure>(separated(texts, "."@)),
{
    lemma_segments_separated(segments, path.segments, texts);
}

proof fn lemma_entries_separated(
    segments: Seq<TemplateSegment>,
    entries: Seq<TAssignView>,
    keys: Seq<Seq<char>>,
    values: Seq<Seq<char>>,
)
    requires
        entries.len() == keys.len(),
        entries.len() == values.len(),
        forall|k: int| 0 <= k < entries.len() ==> fmt_path(segments, (#[trigger] entries[k]).key_path)
            == Ok::<Seq<char>, FormatFailure>(keys[k]) && fmt_value(segments, entries[k].value)
            == Ok::<Seq<char>, FormatFailure>(values[k]),
    ensures
        fmt_entries(segments, entries) == Ok::<Seq<char>, FormatFailure>(
            separated(Seq::new(entries.len(), |k: int| keys[k] + " = "@ + values[k]), ", "@),
        ),
    decreases entries.len(),
{
    let pairs = Seq::new(entries.len(), |k: int| keys[k] + " = "@ + values[k]);
    if entries.len() > 0 {
        let n = entries.len() - 1;
        let e1 = entries.drop_last();
        assert forall|k: int| 0 <= k < n implies fmt_path(segments, (#[trigger] e1[k]).key_path)
            == Ok::<Seq<char>, FormatFailure>(keys.drop_last()[k]) && fmt_value(
            segments,
            e1[k].value,
        ) == Ok::<Seq<char>, FormatFailure>(values.drop_last()[k]) by {
            assert(e1[k] == entries[k]);
        }
        lemma_entries_separated(segments, e1, keys.drop_last(), values.drop_last());
        let p1 = Seq::new(e1.len(), |k: int| keys.drop_last()[k] + " = "@ + values.drop_last()[k]);
        assert(p1.push(pairs[n]) =~= pairs);
        assert(fmt_path(segments, entries[n].key_path) == Ok::<Seq<char>, FormatFailure>(keys[n]));
        assert(entries.last() == entries[n]);
        if entries.len() == 1 {
            assert(pairs =~= seq![pairs[0]]);
            assert(pairs[0] == keys[0] + " = "@ + values[0]);
        } else {
            lemma_separated_push(p1, ", "@, pairs[n]);
            assert(separated(p1, ", "@) + ", "@ + keys[n] + " = "@ + values[n] =~= separated(
                p1,
                ", "@,
            ) + ", "@ + pairs[n]);
        }
    }
}

/// An inline table is written as `{}` when it is empty, else as `{ `, its
/// `key = value` entries joined with `, `, and ` }`.
pub proof fn law_inline_table_entries_joined(
    segments: Seq<TemplateSegment>,
    span: SourceSpan,
    entries: Seq<TAssignView>,
    keys: Seq<Seq<char>>,
    values: Seq<Seq<char>>,
)
    requires
        entries.len() == keys.len(),
        entries.len() == values.len(),
        forall|k: int| 0 <= k < entries.len() ==> fmt_path(segments, (#[trigger] entries[k]).key_path)
            == Ok::<Seq<char>, FormatFailure>(keys[k]) && fmt_value(segments, entries[k].value)
            == Ok::<Seq<char>, FormatFailure>(values[k]),
    ensures
        fmt_value(segments, TValueView::InlineTable { span, entries }) == Ok::<
            Seq<char>,
            FormatFailure,
        >(
            if entries.len() == 0 {
                "{}"@
            } else {
                "{ "@ + separated(
                    Seq::new(entries.len(), |k: int| keys[k] + " = "@ + values[k]),
                    ", "@,
                ) + " }"@
            },
        ),
{
    lemma_entries_separated(segments, entries, keys, values);
}

proof fn lemma_statements_separated(
    segments: Seq<TemplateSegment>,
    ss: Seq<TStatementView>,
    texts: Seq<Seq<char>>,
)
    requires
        ss.len() == texts.len(),
        forall|k: int| 0 <= k < ss.len() ==> fmt_statement(segments, #[trigger] ss[k]) == Ok::<
            Seq<char>,
            FormatFailure,
        >(texts[k]),
    ensures
        fmt_statements(segments, ss) == Ok::<Seq<char>, FormatFailure>(separated(texts, "\n"@)),
    decreases ss.len(),
{
    if ss.len() > 0 {
        let n = ss.len() - 1;
        assert forall|k: int| 0 <= k < n implies fmt_statement(
            segments,
            #[trigger] ss.drop_last()[k],
        ) == Ok::<Seq<char>, FormatFailure>(texts.drop_last()[k]) by {
            assert(ss.drop_last()[k] == ss[k]);
        }
        lemma_statements_separated(segments, ss.drop_last(), texts.drop_last());
        assert(fmt_statement(segments, ss[n]) == Ok::<Seq<char>, FormatFailure>(texts[n]));
        assert(texts.drop_last().push(texts[n]) =~= texts);
        if ss.len() == 1 {
            assert(texts =~= seq![texts[0]]);
        } else {
            lemma_separated_push(texts.drop_last(), "\n"@, texts[n]);
        }
    }
}

/// A document is written as its statements, each written on its own, one
/// per line: joined with line feeds.
pub proof fn law_document_statements_joined(
    segments: Seq<TemplateSegment>,
    d: TDocumentView,
    texts: Seq<Seq<char>>,
)
    requires
        d.statements.len() == texts.len(),
        forall|k: int| 0 <= k < d.statements.len() ==> fmt_statement(
            segments,
            #[trigger] d.statements[k],
        ) == Ok::<Seq<char>, FormatFailure>(texts[k]),
    ensures
        fmt_document(segments, d) == Ok::<Seq<char>, FormatFailure>(separated(texts, "\n"@)),
{
    lemma_statements_separated(segments, d.statements, texts);
}

/// A key segment read bare is written as it was when all its chars may
/// stand in a bare key (letters, digits, `_` and `-`); any other bare text is
/// written as a quoted basic string.
pub proof fn law_key_segment_forms(segments: Seq<TemplateSegment>, span: SourceSpan, v: Seq<char>)
    ensures
        (forall|k: int| 0 <= k < v.len() ==> is_bare_key_char(#[trigger] v[k])) ==> fmt_segment(
            segments,
            TSegmentView { span, value: TSegmentValueView::Bare(v), bare: true },
        ) == Ok::<Seq<char>, FormatFailure>(v),
        !(forall|k: int| 0 <= k < v.len() ==> is_bare_key_char(#[trigger] v[k])) ==> fmt_segment(
            segments,
            TSegmentView { span, value: TSegmentValueView::Bare(v), bare: true },
        ) == Ok::<Seq<char>, FormatFailure>(render_basic(v)),
{
}

/// An assignment is written as its key, ` = ` and its value; a table header
/// as `[key]`; an array-of-tables header as `[[key]]`.
pub proof fn law_statement_forms(
    segments: Seq<TemplateSegment>,
    a: TAssignView,
    key: Seq<char>,
    value: Seq<char>,
    span: SourceSpan,
)
    requires
        fmt_path(segments, a.key_path) == Ok::<Seq<char>, FormatFailure>(key),
        fmt_value(segments, a.value) == Ok::<Seq<char>, FormatFailure>(value),
    ensures
        fmt_statement(segments, TStatementView::Assignment(a)) == Ok::<Seq<char>, FormatFailure>(
            key + " = "@ + value,
        ),
        fmt_statement(segments, TStatementView::TableHeader { span, key_path: a.key_path }) == Ok::<
            Seq<char>,
            FormatFailure,
        >("["@ + key + "]"@),
        fmt_statement(segments, TStatementView::ArrayTableHeader { span, key_path: a.key_path })
            == Ok::<Seq<char>, FormatFailure>("[["@ + key + "]]"@),
{
}

// ---------------------------------------------------------------------------
// When formatting succeeds
// ---------------------------------------------------------------------------

/// Whether every interpolation in a key segment has raw source text.
pub open spec fn segment_raw(segments: Seq<TemplateSegment>, seg: TSegmentView) -> bool {
    match seg.value {
        TSegmentValueView::Bare(_) => true,
        TSegmentValueView::String(sv) => pieces_raw(segments, sv.chunks),
        TSegmentValueView::Interpolation(iv) => has_raw(segments, iv.interpolation_index),
    }
}

/// Whether every interpolation in a dotted key has raw source text.
pub open spec fn path_raw(segments: Seq<TemplateSegment>, path: TPathView) -> bool {
    forall|k: int| 0 <= k < path.segments.len() ==> segment_raw(segments, #[trigger] path.segments[k])
}

/// Whether every interpolation in a value has raw source text.
pub open spec fn value_raw(segments: Seq<TemplateSegment>, v: TValueView) -> bool
    decreases v,
{
    match v {
        TValueView::String(sv) => pieces_raw(segments, sv.chunks),
        TValueView::Literal { .. } => true,
        TValueView::Interpolation(iv) => has_raw(segments, iv.interpolation_index),
        TValueView::Array { items, .. } => forall|k: int|
            0 <= k < items.len() ==> value_raw(segments, #[trigger] items[k]),
        TValueView::InlineTable { entries, .. } => forall|k: int|
            0 <= k < entries.len() ==> path_raw(segments, (#[trigger] entries[k]).key_path)
                && value_raw(segments, entries[k].value),
    }
}

/// Whether every interpolation in a statement has raw source text.
pub open spec fn statement_raw(segments: Seq<TemplateSegment>, st: TStatementView) -> bool {
    match st {
        TStatementView::Assignment(a) => path_raw(segments, a.key_path) && value_raw(
            segments,
            a.value,
        ),
        TStatementView::TableHeader { key_path, .. } => path_raw(segments, key_path),
        TStatementView::ArrayTableHeader { key_path, .. } => path_raw(segments, key_path),
    }
}

/// Whether every interpolation a document places has raw source text.
pub open spec fn document_raw(segments: Seq<TemplateSegment>, d: TDocumentView) -> bool {
    forall|k: int| 0 <= k < d.statements.len() ==> statement_raw(segments, #[trigger] d.statements[k])
}

proof fn lemma_pieces_ok(segments: Seq<TemplateSegment>, parts: Seq<FragmentView>)
    ensures
        pieces_text(segments, parts) is Ok <==> pieces_raw(segments, parts),
    decreases parts.len(),
{
    if parts.len() > 0 {
        let prefix = parts.drop_last();
        lemma_pieces_ok(segments, prefix);
        assert forall|k: int| 0 <= k < parts.len() - 1 implies #[trigger] prefix[k] == parts[k] by {}
        if pieces_text(segments, parts) is Ok {
            assert forall|k: int| 0 <= k < parts.len() implies (#[trigger] parts[k] matches FragmentView::Slot(
                iv,
            ) ==> has_raw(segments, iv.interpolation_index)) by {
                if k < parts.len() - 1 {
                    assert(prefix[k] == parts[k]);
                }
            }
        }
        if pieces_raw(segments, parts) {
            assert forall|k: int| 0 <= k < prefix.len() implies (#[trigger] prefix[k] matches FragmentView::Slot(
                iv,
            ) ==> has_raw(segments, iv.interpolation_index)) by {
                assert(prefix[k] == parts[k]);
            }
            assert(parts[parts.len() - 1] == parts.last());
        }
    }
}

proof fn lemma_segments_ok(segments: Seq<TemplateSegment>, ss: Seq<TSegmentView>)
    ensures
        fmt_segments(segments, ss) is Ok <==> (forall|k: int|
            0 <= k < ss.len() ==> segment_raw(segments, #[trigger] ss[k])),
    decreases ss.len(),
{
    if ss.len() > 0 {
        lemma_segments_ok(segments, ss.drop_last());
        let last = ss.last();
        match last.value {
            TSegmentValueView::String(sv) => lemma_pieces_ok(segments, sv.chunks),
            _ => {},
        }
        assert forall|k: int| 0 <= k < ss.len() - 1 implies #[trigger] ss.drop_last()[k]
            == ss[k] by {}
        if fmt_segments(segments, ss) is Ok {
            assert forall|k: int| 0 <= k < ss.len() implies segment_raw(segments, #[trigger] ss[k]) by {
                if k < ss.len() - 1 {
                    assert(segment_raw(segments, ss.drop_last()[k]));
                }
            }
        }
        if forall|k: int| 0 <= k < ss.len() ==> segment_raw(segments, #[trigger] ss[k]) {
            assert(segment_raw(segments, ss[ss.len() - 1]));
        }
    }
}

proof fn lemma_value_ok(segments: Seq<TemplateSegment>, v: TValueView)
    ensures
        fmt_value(segments, v) is Ok <==> value_raw(segments, v),
    decreases v, 1int,
{
    match v {
        TValueView::String(sv) => lemma_pieces_ok(segments, sv.chunks),
        TValueView::Array { items, .. } => lemma_items_ok(segments, items),
        TValueView::InlineTable { entries, .. } => lemma_entries_ok(segments, entries),
        _ => {},
    }
}

proof fn lemma_items_ok(segments: Seq<TemplateSegment>, items: Seq<TValueView>)
    ensures
        fmt_items(segments, items) is Ok <==> (forall|k: int|
            0 <= k < items.len() ==> value_raw(segments, #[trigger] items[k])),
    decreases items, 0int,
{
    if items.len() > 0 {
        lemma_items_ok(segments, items.drop_last());
        lemma_value_ok(segments, items.last());
        assert forall|k: int| 0 <= k < items.len() - 1 implies #[trigger] items.drop_last()[k]
            == items[k] by {}
        if fmt_items(segments, items) is Ok {
            assert forall|k: int| 0 <= k < items.len() implies value_raw(segments, #[trigger] items[k]) by {
                if k < items.len() - 1 {
                    assert(value_raw(segments, items.drop_last()[k]));
                }
            }
        }
        if forall|k: int| 0 <= k < items.len() ==> value_raw(segments, #[trigger] items[k]) {
            assert(value_raw(segments, items[items.len() - 1]));
        }
    }
}

proof fn lemma_entries_ok(segments: Seq<TemplateSegment>, entries: Seq<TAssignView>)
    ensures
        fmt_entries(segments, entries) is Ok <==> (forall|k: int|
            0 <= k < entries.len() ==> path_raw(segments, (#[trigger] entries[k]).key_path)
                && value_raw(segments, entries[k].value)),
    decreases entries, 0int,
{
    if entries.len() > 0 {
        lemma_entries_ok(segments, entries.drop_last());
        lemma_segments_ok(segments, entries.last().key_path.segments);
        lemma_value_ok(segments, entries.last().value);
        assert forall|k: int| 0 <= k < entries.len() - 1 implies #[trigger] entries.drop_last()[k]
            == entries[k] by {}
        if fmt_entries(segments, entries) is Ok {
            assert forall|k: int| 0 <= k < entries.len() implies path_raw(
                segments,
                (#[trigger] entries[k]).key_path,
            ) && value_raw(segments, entries[k].value) by {
                if k < entries.len() - 1 {
                    assert(path_raw(segments, entries.drop_last()[k].key_path));
                }
            }
        }
        if forall|k: int|
            0 <= k < entries.len() ==> path_raw(segments, (#[trigger] entries[k]).key_path)
                && value_raw(segments, entries[k].value) {
            assert(path_raw(segments, entries[entries.len() - 1].key_path));
        }
    }
}

proof fn lemma_statement_ok(segments: Seq<TemplateSegment>, st: TStatementView)
    ensures
        fmt_statement(segments, st) is Ok <==> statement_raw(segments, st),
{
    match st {
        TStatementView::Assignment(a) => {
            lemma_segments_ok(segments, a.key_path.segments);
            lemma_value_ok(segments, a.value);
        },
        TStatementView::TableHeader { key_path, .. } => lemma_segments_ok(
            segments,
            key_path.segments,
        ),
        TStatementView::ArrayTableHeader { key_path, .. } => lemma_segments_ok(
            segments,
            key_path.segments,
        ),
    }
}

proof fn lemma_statements_ok(segments: Seq<TemplateSegment>, ss: Seq<TStatementView>)
    ensures
        fmt_statements(segments, ss) is Ok <==> (forall|k: int|
            0 <= k < ss.len() ==> statement_raw(segments, #[trigger] ss[k])),
    decreases ss.len(),
{
    if ss.len() > 0 {
        lemma_statements_ok(segments, ss.drop_last());
        lemma_statement_ok(segments, ss.last());
        assert forall|k: int| 0 <= k < ss.len() - 1 implies #[trigger] ss.drop_last()[k]
            == ss[k] by {}
        if fmt_statements(segments, ss) is Ok {
            assert forall|k: int| 0 <= k < ss.len() implies statement_raw(segments, #[trigger] ss[k]) by {
                if k < ss.len() - 1 {
                    assert(statement_raw(segments, ss.drop_last()[k]));
                }
            }
        }
        if forall|k: int| 0 <= k < ss.len() ==> statement_raw(segments, #[trigger] ss[k]) {
            assert(statement_raw(segments, ss[ss.len() - 1]));
        }
    }
}

/// Formatting a parsed document succeeds exactly when every interpolation
/// it places (as a key, a value or a string fragment) has raw source text;
/// otherwise it stops at the first one that has none.
pub proof fn law_format_needs_every_raw_source(segments: Seq<TemplateSegment>, d: TDocumentView)
    ensures
        fmt_document(segments, d) is Ok <==> document_raw(segments, d),
{
    lemma_statements_ok(segments, d.statements);
}

// ---------------------------------------------------------------------------
// Reading back what the formatter writes
// ---------------------------------------------------------------------------


proof fn lemma_escape_prefix(t: Seq<char>, m: int)
    requires
        0 <= m <= t.len(),
    ensures
        escape_basic_body(t.take(m)).len() <= escape_basic_body(t).len(),
        forall|j: int|
            0 <= j < escape_basic_body(t.take(m)).len() ==> #[trigger] escape_basic_body(t)[j]
                == escape_basic_body(t.take(m))[j],
    decreases t.len(),
{
    if m < t.len() {
        assert(t.drop_last().take(m) =~= t.take(m));
        lemma_escape_prefix(t.drop_last(), m);
    } else {
        assert(t.take(m) =~= t);
    }
}

proof fn lemma_hex_upper_value(d: int)
    requires
        0 <= d < 16,
    ensures
        hex_digit_value(hex_upper_digit(d)) == Some(d),
{
}

/// A `\u00XY` escape of a control char reads back as that char.
#[verifier::spinoff_prover]
proof fn lemma_read_control_escape(s: Seq<StreamItem>, k: int, c: char, p: TomlProfile)
    requires
        0 <= k,
        ('\u{0000}' <= c <= '\u{001f}') || c == '\u{007f}',
        c != '\u{0008}' && c != '\t' && c != '\n' && c != '\u{000c}' && c != '\r',
        k + 6 < s.len(),
        forall|j: int|
            k <= j < k + escape_basic_char(c).len() ==> #[trigger] char_at(s, j) == Some(
                escape_basic_char(c)[j - k],
            ),
    ensures
        basic_escape(s, k, p) == Ok::<(char, int), (Seq<char>, int)>((c, k + 6)),
{
    let e = escape_basic_char(c);
    let v = c as int;
    assert(e.len() == 6);
    assert(char_at(s, k + 1) == Some(e[1]));
    assert(char_at(s, k + 2) == Some(e[2]));
    assert(char_at(s, k + 3) == Some(e[3]));
    assert(char_at(s, k + 4) == Some(e[4]));
    assert(char_at(s, k + 5) == Some(e[5]));
    let digits = chars_between(s, k + 2, k + 6);
    assert(digits =~= seq!['0', '0', hex_upper_digit(v / 16), hex_upper_digit(v % 16)]);
    lemma_hex_upper_value(v / 16);
    lemma_hex_upper_value(v % 16);
    assert(hex_digits_value(digits) == Some(v)) by {
        reveal_with_fuel(hex_digits_value, 5);
    }
    assert(hex_radix_value(digits) == Some(v));
    assert(first_non_char(s, k + 6, 0) is None);
    assert(first_non_char(s, k + 5, 1) is None);
    assert(first_non_char(s, k + 4, 2) is None);
    assert(first_non_char(s, k + 3, 3) is None);
    assert(first_non_char(s, k + 2, 4) is None);
    crate::cursor::lemma_char_cast(c);
    assert(code_escape(s, k + 2, 4) == Ok::<(char, int), (Seq<char>, int)>((c, k + 6)));
}

/// One escaped char at position `k` of a single-line basic string reads
/// back as that char.
#[verifier::spinoff_prover]
proof fn lemma_read_escaped_char(
    s: Seq<StreamItem>,
    k: int,
    c: char,
    p: TomlProfile,
    buffer: Seq<char>,
)
    requires
        0 <= k,
        k + escape_basic_char(c).len() < s.len(),
        forall|j: int|
            k <= j < k + escape_basic_char(c).len() ==> #[trigger] char_at(s, j) == Some(
                escape_basic_char(c)[j - k],
            ),
        !is_interp_at(s, k),
        !is_eof_at(s, k),
    ensures
        basic_body(s, k, false, p, seq![], buffer) == basic_body(
            s,
            k + escape_basic_char(c).len(),
            false,
            p,
            seq![],
            buffer.push(c),
        ),
{
    let e = escape_basic_char(c);
    assert(char_at(s, k) == Some(e[0]));
    if e.len() > 1 {
        assert(char_at(s, k + 1) == Some(e[1]));
    }
    if c == '\u{0008}' || c == '\t' || c == '\n' || c == '\u{000c}' || c == '\r' || c == '"' || c
        == '\\' {
        assert(basic_escape(s, k, p) == Ok::<(char, int), (Seq<char>, int)>((c, k + 2)));
    } else if ('\u{0000}' <= c <= '\u{001f}') || c == '\u{007f}' {
        lemma_read_control_escape(s, k, c, p);
    } else {
        assert(!disallowed_control(c, false));
    }
}

/// The chars of `s` from position `o` on spell `r`, and more items follow.
pub open spec fn spells_at(s: Seq<StreamItem>, o: int, r: Seq<char>) -> bool {
    &&& 0 <= o
    &&& o + r.len() < s.len()
    &&& forall|j: int| 0 <= j < r.len() ==> #[trigger] char_at(s, o + j) == Some(r[j])
}

/// Reading the body of `render_basic(t)`, standing at `o`, up to the escape
/// of `t[n]`.
proof fn lemma_read_prefix_at(s: Seq<StreamItem>, o: int, t: Seq<char>, p: TomlProfile, n: int)
    requires
        0 <= n <= t.len(),
        spells_at(s, o, render_basic(t)),
    ensures
        basic_body(s, o + 1, false, p, seq![], seq![]) == basic_body(
            s,
            o + 1 + escape_basic_body(t.take(n)).len() as int,
            false,
            p,
            seq![],
            t.take(n),
        ),
    decreases n,
{
    let r = render_basic(t);
    let body = escape_basic_body(t);
    assert(r =~= seq!['"'] + body + seq!['"']);
    if n == 0 {
        assert(t.take(0) =~= Seq::<char>::empty());
    } else {
        lemma_read_prefix_at(s, o, t, p, n - 1);
        let before = escape_basic_body(t.take(n - 1));
        let c = t[n - 1];
        assert(t.take(n).drop_last() =~= t.take(n - 1));
        assert(escape_basic_body(t.take(n)) == before + escape_basic_char(c));
        lemma_escape_prefix(t, n);
        let k: int = o + 1 + before.len() as int;
        assert forall|j: int| k <= j < k + escape_basic_char(c).len() implies #[trigger] char_at(s, j)
            == Some(escape_basic_char(c)[j - k]) by {
            assert(escape_basic_body(t.take(n))[j - o - 1] == escape_basic_char(c)[j - k]);
            assert(body[j - o - 1] == escape_basic_char(c)[j - k]);
            assert(r[j - o] == body[j - o - 1]);
            assert(char_at(s, o + (j - o)) == Some(r[j - o]));
        }
        assert(char_at(s, k) == Some(r[k - o]));
        lemma_read_escaped_char(s, k, c, p, t.take(n - 1));
        assert(t.take(n - 1).push(c) =~= t.take(n));
    }
}

/// Wherever `render_basic(t)` stands, the TOML string reader reads it back
/// as one text piece holding `t` (none when `t` is empty), stopping right
/// after the closing quote.
proof fn lemma_basic_string_at(s: Seq<StreamItem>, o: int, t: Seq<char>, p: TomlProfile)
    requires
        spells_at(s, o, render_basic(t)),
    ensures
        toml_string(s, o, StringStyle::Basic, p) matches Ok((sv, k)) && sv.chunks == flushed(
            seq![],
            t,
        ) && sv.style == "basic"@ && k == o + render_basic(t).len(),
{
    let r = render_basic(t);
    let body = escape_basic_body(t);
    assert(r =~= seq!['"'] + body + seq!['"']);
    lemma_read_prefix_at(s, o, t, p, t.len() as int);
    assert(t.take(t.len() as int) =~= t);
    assert(char_at(s, o + (r.len() - 1)) == Some(r[r.len() - 1]));
    assert(char_at(s, o + 0) == Some(r[0]));
    reveal(toml_string);
}

/// A rendered basic string reads back as the text it was rendered from: on
/// the char stream of `render_basic(t)` alone, the TOML string reader reads
/// one text piece holding `t` (no piece when `t` is empty) and stops right
/// after the closing quote.
pub proof fn law_basic_string_round_trip(t: Seq<char>, p: TomlProfile)
    ensures
        toml_string(text_stream(render_basic(t)), 0, StringStyle::Basic, p) matches Ok((sv, k)) && sv.chunks
            == flushed(seq![], t) && sv.style == "basic"@ && k == render_basic(t).len(),
{
    let r = render_basic(t);
    lemma_text_stream_chars(r);
    assert forall|j: int| 0 <= j < r.len() implies #[trigger] char_at(text_stream(r), 0 + j) == Some(
        r[j],
    ) by {}
    lemma_basic_string_at(text_stream(r), 0, t, p);
}

/// A char that may not stand raw in a TOML basic string: C0 controls and DEL.
pub open spec fn is_raw_control(c: char) -> bool {
    ('\u{0000}' <= c <= '\u{001f}') || c == '\u{007f}'
}

proof fn lemma_escape_char_clean(c: char)
    ensures
        escape_basic_char(c).len() >= 1,
        escape_basic_char(c)[0] != '"',
        forall|j: int|
            0 <= j < escape_basic_char(c).len() ==> !is_raw_control(
                #[trigger] escape_basic_char(c)[j],
            ),
{
    let e = escape_basic_char(c);
    if is_raw_control(c) && c != '\u{0008}' && c != '\t' && c != '\n' && c != '\u{000c}' && c
        != '\r' {
        let v = c as int;
        assert(0 <= v / 16 < 8);
        assert(0 <= v % 16 < 16);
        assert(!is_raw_control(hex_upper_digit(v / 16)));
        assert(!is_raw_control(hex_upper_digit(v % 16)));
        assert(e[4] == hex_upper_digit(v / 16));
        assert(e[5] == hex_upper_digit(v % 16));
    }
}

proof fn lemma_escape_body_clean(t: Seq<char>)
    ensures
        escape_basic_body(t).len() >= t.len(),
        t.len() > 0 ==> escape_basic_body(t)[0] != '"',
        forall|j: int|
            0 <= j < escape_basic_body(t).len() ==> !is_raw_control(
                #[trigger] escape_basic_body(t)[j],
            ),
    decreases t.len(),
{
    if t.len() > 0 {
        let b = escape_basic_body(t.drop_last());
        let e = escape_basic_char(t.last());
        lemma_escape_body_clean(t.drop_last());
        lemma_escape_char_clean(t.last());
        assert(escape_basic_body(t) == b + e);
        assert forall|j: int| 0 <= j < (b + e).len() implies !is_raw_control(#[trigger] (b + e)[j]) by {
            if j >= b.len() {
                assert((b + e)[j] == e[j - b.len()]);
            }
        }
    }
}

proof fn lemma_no_cr(s: Seq<StreamItem>, i: int)
    requires
        0 <= i,
        forall|k: int| i <= k < s.len() ==> #[trigger] char_at(s, k) != Some('\r'),
    ensures
        first_bare_cr(s, i) is None,
    decreases s.len() - i,
{
    if 0 <= i < s.len() - 1 {
        lemma_no_cr(s, i + 1);
    }
}

/// A document read as one assignment of a basic string holding `value` to
/// the bare key `key`.
pub open spec fn one_string_assignment(
    r: Parsed<TDocumentView>,
    key: Seq<char>,
    value: Seq<char>,
) -> bool {
    match r {
        Ok((d, _)) => d.statements.len() == 1 && match d.statements[0] {
            TStatementView::Assignment(a) => a.key_path.segments.len() == 1
                && a.key_path.segments[0].value == TSegmentValueView::Bare(key) && match a.value {
                TValueView::String(sv) => sv.style == "basic"@ && sv.chunks == flushed(
                    seq![],
                    value,
                ),
                _ => false,
            },
            _ => false,
        },
        Err(_) => false,
    }
}

/// A rendered basic string starts and ends with a quote and holds no raw
/// control char; written as the value of a key, as the template text
/// `v = <rendered>` and a line end, it reads under either profile as one
/// assignment to the bare key `v` of a basic string holding the value (one
/// text piece, none when the value is empty).
#[verifier::spinoff_prover]
pub proof fn law_rendered_string_in_a_template(value: Seq<char>, text: String, p: TomlProfile)
    requires
        text@ == "v = "@ + render_basic(value) + "\n"@,
    ensures
        render_basic(value)[0] == '"',
        render_basic(value).last() == '"',
        forall|j: int|
            0 <= j < render_basic(value).len() ==> !is_raw_control(#[trigger] render_basic(value)[j]),
        one_string_assignment(
            toml_template(stream_of(seq![TemplateSegment::StaticText(text)]), p),
            "v"@,
            value,
        ),
{
    let r = render_basic(value);
    let body = escape_basic_body(value);
    let x = text@;
    let n = r.len() as int;
    reveal_strlit("v = ");
    reveal_strlit("\n");
    reveal_strlit("v");
    assert(r =~= seq!['"'] + body + seq!['"']);
    lemma_escape_body_clean(value);
    assert forall|j: int| 0 <= j < r.len() implies !is_raw_control(#[trigger] r[j]) by {
        if 1 <= j < r.len() - 1 {
            assert(r[j] == body[j - 1]);
        }
    }
    lemma_text_stream(text);
    let s = text_stream(x);
    lemma_text_stream_chars(x);
    assert(x.len() == n + 5);
    assert(s.len() == n + 6);
    assert(char_at(s, 0) == Some('v'));
    assert(char_at(s, 1) == Some(' '));
    assert(char_at(s, 2) == Some('='));
    assert(char_at(s, 3) == Some(' '));
    assert(char_at(s, 4 + n) == Some('\n'));
    assert(is_eof_at(s, 5 + n));
    assert(char_at(s, 5 + n) is None);
    assert forall|j: int| 0 <= j < r.len() implies #[trigger] char_at(s, 4 + j) == Some(r[j]) by {
        assert(x[4 + j] == r[j]);
    }
    assert(spells_at(s, 4, r));
    assert forall|k: int| 0 <= k < s.len() implies #[trigger] char_at(s, k) != Some('\r') by {
        if 4 <= k < 4 + n {
            assert(char_at(s, 4 + (k - 4)) == Some(r[k - 4]));
            assert(!is_raw_control(r[k - 4]));
        }
    }
    lemma_no_cr(s, 0);
    assert(hspace_end(s, 0) == 0);
    assert(!text_at(s, 0, "\"\"\""@)) by {
        reveal_strlit("\"\"\"");
        assert(char_at(s, 0int + 0int) != Some("\"\"\""@[0]));
    }
    assert(!text_at(s, 0, "'''"@)) by {
        reveal_strlit("'''");
        assert(char_at(s, 0int + 0int) != Some("'''"@[0]));
    }
    assert(bare_end(s, 1) == 1);
    assert(bare_end(s, 0) == 1);
    assert(chars_between(s, 0, 1) =~= "v"@);
    assert(hspace_end(s, 2) == 2);
    assert(hspace_end(s, 1) == 2);
    assert(hspace_end(s, 4) == 4);
    assert(hspace_end(s, 3) == 4);
    assert(value_space_end(s, 3, 0, ValueContext::Line, p) == 4);
    assert(!text_at(s, 4, "\"\"\""@)) by {
        reveal_strlit("\"\"\"");
        if value.len() == 0 {
            assert(char_at(s, 4int + 2int) != Some("\"\"\""@[2]));
        } else {
            assert(r[1] == body[0]);
            assert(char_at(s, 4int + 1int) != Some("\"\"\""@[1]));
        }
    }
    assert(!text_at(s, 4, "'''"@)) by {
        reveal_strlit("'''");
        assert(char_at(s, 4int + 0int) != Some("'''"@[0]));
    }
    lemma_basic_string_at(s, 4, value, p);
    assert(hspace_end(s, 4 + n) == 4 + n);
    assert(line_suffix(s, 4 + n) == Ok::<int, (Seq<char>, int)>(5 + n));
    assert(hspace_end(s, 5 + n) == 5 + n);
    assert(junk_end(s, 5 + n) == 5 + n);
    assert(junk_end(s, 0) == 0);
    assert(!text_at(s, 0, "[["@)) by {
        reveal_strlit("[[");
        assert(char_at(s, 0int + 0int) != Some("[["@[0]));
    }
}

// ---------------------------------------------------------------------------
// Facts about the folds
// ---------------------------------------------------------------------------

proof fn lemma_pieces_err(segments: Seq<TemplateSegment>, parts: Seq<FragmentView>, n: int)
    requires
        0 <= n <= parts.len(),
        pieces_text(segments, parts.take(n)) is Err,
    ensures
        pieces_text(segments, parts) == pieces_text(segments, parts.take(n)),
    decreases parts.len(),
{
    if n < parts.len() {
        assert(parts.drop_last().take(n) =~= parts.take(n));
        lemma_pieces_err(segments, parts.drop_last(), n);
    } else {
        assert(parts.take(n) =~= parts);
    }
}

proof fn lemma_segments_err(segments: Seq<TemplateSegment>, ss: Seq<TSegmentView>, n: int)
    requires
        0 <= n <= ss.len(),
        fmt_segments(segments, ss.take(n)) is Err,
    ensures
        fmt_segments(segments, ss) == fmt_segments(segments, ss.take(n)),
    decreases ss.len(),
{
    if n < ss.len() {
        assert(ss.drop_last().take(n) =~= ss.take(n));
        lemma_segments_err(segments, ss.drop_last(), n);
    } else {
        assert(ss.take(n) =~= ss);
    }
}

proof fn lemma_items_err(segments: Seq<TemplateSegment>, items: Seq<TValueView>, n: int)
    requires
        0 <= n <= items.len(),
        fmt_items(segments, items.take(n)) is Err,
    ensures
        fmt_items(segments, items) == fmt_items(segments, items.take(n)),
    decreases items.len(),
{
    if n < items.len() {
        assert(items.drop_last().take(n) =~= items.take(n));
        lemma_items_err(segments, items.drop_last(), n);
    } else {
        assert(items.take(n) =~= items);
    }
}

proof fn lemma_entries_err(segments: Seq<TemplateSegment>, entries: Seq<TAssignView>, n: int)
    requires
        0 <= n <= entries.len(),
        fmt_entries(segments, entries.take(n)) is Err,
    ensures
        fmt_entries(segments, entries) == fmt_entries(segments, entries.take(n)),
    decreases entries.len(),
{
    if n < entries.len() {
        assert(entries.drop_last().take(n) =~= entries.take(n));
        lemma_entries_err(segments, entries.drop_last(), n);
    } else {
        assert(entries.take(n) =~= entries);
    }
}

proof fn lemma_statements_err(segments: Seq<TemplateSegment>, ss: Seq<TStatementView>, n: int)
    requires
        0 <= n <= ss.len(),
        fmt_statements(segments, ss.take(n)) is Err,
    ensures
        fmt_statements(segments, ss) == fmt_statements(segments, ss.take(n)),
    decreases ss.len(),
{
    if n < ss.len() {
        assert(ss.drop_last().take(n) =~= ss.take(n));
        lemma_statements_err(segments, ss.drop_last(), n);
    } else {
        assert(ss.take(n) =~= ss);
    }
}

proof fn lemma_values_view(xs: Seq<TomlValueNode>)
    ensures
        t_values_view(xs).len() == xs.len(),
        forall|j: int| 0 <= j < xs.len() ==> t_values_view(xs)[j] == t_value_view(#[trigger] xs[j]),
    decreases xs.len(),
{
    if xs.len() > 0 {
        lemma_values_view(xs.drop_last());
        assert forall|j: int| 0 <= j < xs.len() implies t_values_view(xs)[j] == t_value_view(
            #[trigger] xs[j],
        ) by {
            if j < xs.len() - 1 {
                assert(xs[j] == xs.drop_last()[j]);
            }
        }
    }
}

proof fn lemma_assigns_view(xs: Seq<crate::toml_backend::TomlAssignmentNode>)
    ensures
        t_assigns_view(xs).len() == xs.len(),
        forall|j: int| 0 <= j < xs.len() ==> t_assigns_view(xs)[j] == t_assign_view(#[trigger] xs[j]),
    decreases xs.len(),
{
    if xs.len() > 0 {
        lemma_assigns_view(xs.drop_last());
        assert forall|j: int| 0 <= j < xs.len() implies t_assigns_view(xs)[j] == t_assign_view(
            #[trigger] xs[j],
        ) by {
            if j < xs.len() - 1 {
                assert(xs[j] == xs.drop_last()[j]);
            }
        }
    }
}

// ---------------------------------------------------------------------------
// The formatter
// ---------------------------------------------------------------------------

fn interpolation_raw_source(
    template: &TemplateInput,
    interpolation_index: usize,
    span: &SourceSpan,
    context: &str,
) -> (r: Result<String, BackendError>)
    ensures
        format_result(
            r,
            template.segments@,
            raw_text(template.segments@, interpolation_index, *span, context@),
        ),
{
    interpolation_raw_source_as("toml.format", template, interpolation_index, span, context)
}

fn format_toml_string(template: &TemplateInput, node: &TomlStringNode) -> (r: Result<
    String,
    BackendError,
>)
    ensures
        format_result(r, template.segments@, fmt_string(template.segments@, t_string_view(*node))),
{
    let ghost segs = template.segments@;
    let ghost parts = t_string_view(*node).chunks;
    let mut rendered = String::new();
    let mut k: usize = 0;
    assert(parts.take(0) =~= Seq::<FragmentView>::empty());
    while k < node.chunks.len()
        invariant
            k <= node.chunks.len(),
            segs == template.segments@,
            parts == t_string_view(*node).chunks,
            parts.len() == node.chunks.len(),
            pieces_text(segs, parts.take(k as int)) == Ok::<Seq<char>, FormatFailure>(rendered@),
        decreases node.chunks.len() - k,
    {
        assert(parts.take(k + 1).drop_last() =~= parts.take(k as int));
        match &node.chunks[k] {
            TomlStringPart::Chunk(chunk) => {
                push_str(&mut rendered, chunk.value.as_str());
            },
            TomlStringPart::Interpolation(n) => {
                let raw = match interpolation_raw_source(
                    template,
                    n.interpolation_index,
                    &n.span,
                    "TOML string fragment",
                ) {
                    Ok(raw) => raw,
                    Err(e) => {
                        proof {
                            lemma_pieces_err(segs, parts, k + 1);
                        }
                        return Err(e);
                    },
                };
                push_str(&mut rendered, raw.as_str());
            },
        }
        k += 1;
    }
    assert(parts.take(k as int) =~= parts);
    Ok(render_basic_string(rendered.as_str()))
}

fn format_key_segment(template: &TemplateInput, node: &TomlKeySegmentNode) -> (r: Result<
    String,
    BackendError,
>)
    ensures
        format_result(
            r,
            template.segments@,
            fmt_segment(template.segments@, t_segment_view(*node)),
        ),
{
    match &node.value {
        TomlKeySegmentValue::Bare(value) => {
            if node.bare && is_bare_key(value.as_str()) {
                Ok(copy_str(value.as_str()))
            } else {
                Ok(render_basic_string(value.as_str()))
            }
        },
        TomlKeySegmentValue::String(value) => format_toml_string(template, value),
        TomlKeySegmentValue::Interpolation(value) => interpolation_raw_source(
            template,
            value.interpolation_index,
            &value.span,
            "TOML key",
        ),
    }
}

fn format_key_path(template: &TemplateInput, node: &TomlKeyPathNode) -> (r: Result<
    String,
    BackendError,
>)
    ensures
        format_result(r, template.segments@, fmt_path(template.segments@, t_path_view(*node))),
{
    let ghost segs = template.segments@;
    let ghost views = t_path_view(*node).segments;
    let mut text = String::new();
    let mut k: usize = 0;
    assert(views.take(0) =~= Seq::<TSegmentView>::empty());
    while k < node.segments.len()
        invariant
            k <= node.segments.len(),
            segs == template.segments@,
            views == t_path_view(*node).segments,
            views.len() == node.segments.len(),
            fmt_segments(segs, views.take(k as int)) == Ok::<Seq<char>, FormatFailure>(text@),
        decreases node.segments.len() - k,
    {
        assert(views.take(k + 1).drop_last() =~= views.take(k as int));
        let segment = match format_key_segment(template, &node.segments[k]) {
            Ok(x) => x,
            Err(e) => {
                proof {
                    lemma_segments_err(segs, views, k + 1);
                }
                return Err(e);
            },
        };
        if k > 0 {
            push_str(&mut text, ".");
        }
        push_str(&mut text, segment.as_str());
        k += 1;
    }
    assert(views.take(k as int) =~= views);
    Ok(text)
}

fn format_toml_value(template: &TemplateInput, node: &TomlValueNode) -> (r: Result<
    String,
    BackendError,
>)
    ensures
        format_result(r, template.segments@, fmt_value(template.segments@, t_value_view(*node))),
    decreases node,
{
    let ghost segs = template.segments@;
    match node {
        TomlValueNode::String(n) => format_toml_string(template, n),
        TomlValueNode::Literal(n) => Ok(copy_str(n.source.as_str())),
        TomlValueNode::Interpolation(n) => interpolation_raw_source(
            template,
            n.interpolation_index,
            &n.span,
            "TOML value",
        ),
        TomlValueNode::Array(a) => {
            let ghost views = t_values_view(a.items@);
            proof {
                lemma_values_view(a.items@);
            }
            let mut text = String::new();
            let mut k: usize = 0;
            assert(views.take(0) =~= Seq::<TValueView>::empty());
            while k < a.items.len()
                invariant
                    k <= a.items.len(),
                    segs == template.segments@,
                    views == t_values_view(a.items@),
                    views.len() == a.items.len(),
                    forall|j: int| 0 <= j < a.items.len() ==> views[j] == t_value_view(#[trigger] a.items@[j]),
                    fmt_items(segs, views.take(k as int)) == Ok::<Seq<char>, FormatFailure>(text@),
                    *node == TomlValueNode::Array(*a),
                decreases a.items.len() - k,
            {
                assert(views.take(k + 1).drop_last() =~= views.take(k as int));
                proof {
                    assert(decreases_to!(*node => a.items@[k as int]));
                }
                let item = match format_toml_value(template, &a.items[k]) {
                    Ok(x) => x,
                    Err(e) => {
                        proof {
                            lemma_items_err(segs, views, k + 1);
                        }
                        return Err(e);
                    },
                };
                if k > 0 {
                    push_str(&mut text, ", ");
                }
                push_str(&mut text, item.as_str());
                k += 1;
            }
            assert(views.take(k as int) =~= views);
            let mut out = copy_str("[");
            push_str(&mut out, text.as_str());
            push_str(&mut out, "]");
            Ok(out)
        },
        TomlValueNode::InlineTable(t) => {
            let ghost views = t_assigns_view(t.entries@);
            proof {
                lemma_assigns_view(t.entries@);
            }
            let mut text = String::new();
            let mut k: usize = 0;
            assert(views.take(0) =~= Seq::<TAssignView>::empty());
            while k < t.entries.len()
                invariant
                    k <= t.entries.len(),
                    segs == template.segments@,
                    views == t_assigns_view(t.entries@),
                    views.len() == t.entries.len(),
                    forall|j: int| 0 <= j < t.entries.len() ==> views[j] == t_assign_view(#[trigger] t.entries@[j]),
                    fmt_entries(segs, views.take(k as int)) == Ok::<Seq<char>, FormatFailure>(text@),
                    *node == TomlValueNode::InlineTable(*t),
                decreases t.entries.len() - k,
            {
                assert(views.take(k + 1).drop_last() =~= views.take(k as int));
                let entry = &t.entries[k];
                let key = match format_key_path(template, &entry.key_path) {
                    Ok(x) => x,
                    Err(e) => {
                        proof {
                            lemma_entries_err(segs, views, k + 1);
                        }
                        return Err(e);
                    },
                };
                proof {
                    assert(decreases_to!(*node => t.entries@[k as int].value));
                }
                let value = match format_toml_value(template, &entry.value) {
                    Ok(x) => x,
                    Err(e) => {
                        proof {
                            lemma_entries_err(segs, views, k + 1);
                        }
                        return Err(e);
                    },
                };
                if k > 0 {
                    push_str(&mut text, ", ");
                }
                push_str(&mut text, key.as_str());
                push_str(&mut text, " = ");
                push_str(&mut text, value.as_str());
                k += 1;
            }
            assert(views.take(k as int) =~= views);
            if t.entries.len() == 0 {
                Ok(copy_str("{}"))
            } else {
                let mut out = copy_str("{ ");
                push_str(&mut out, text.as_str());
                push_str(&mut out, " }");
                Ok(out)
            }
        },
    }
}

fn format_toml_statement(template: &TemplateInput, node: &TomlStatementNode) -> (r: Result<
    String,
    BackendError,
>)
    ensures
        format_result(
            r,
            template.segments@,
            fmt_statement(template.segments@, t_statement_view(*node)),
        ),
{
    match node {
        TomlStatementNode::Assignment(a) => {
            let key = format_key_path(template, &a.key_path)?;
            let value = format_toml_value(template, &a.value)?;
            let mut out = key;
            push_str(&mut out, " = ");
            push_str(&mut out, value.as_str());
            Ok(out)
        },
        TomlStatementNode::TableHeader(h) => {
            let key = format_key_path(template, &h.key_path)?;
            let mut out = copy_str("[");
            push_str(&mut out, key.as_str());
            push_str(&mut out, "]");
            Ok(out)
        },
        TomlStatementNode::ArrayTableHeader(h) => {
            let key = format_key_path(template, &h.key_path)?;
            let mut out = copy_str("[[");
            push_str(&mut out, key.as_str());
            push_str(&mut out, "]]");
            Ok(out)
        },
    }
}

fn format_toml_document(template: &TemplateInput, node: &TomlDocumentNode) -> (r: Result<
    String,
    BackendError,
>)
    ensures
        format_result(
            r,
            template.segments@,
            fmt_document(template.segments@, t_document_view(*node)),
        ),
{
    let ghost segs = template.segments@;
    let ghost views = t_document_view(*node).statements;
    let mut text = String::new();
    let mut k: usize = 0;
    assert(views.take(0) =~= Seq::<TStatementView>::empty());
    while k < node.statements.len()
        invariant
            k <= node.statements.len(),
            segs == template.segments@,
            views == t_document_view(*node).statements,
            views.len() == node.statements.len(),
            fmt_statements(segs, views.take(k as int)) == Ok::<Seq<char>, FormatFailure>(text@),
        decreases node.statements.len() - k,
    {
        assert(views.take(k + 1).drop_last() =~= views.take(k as int));
        let statement = match format_toml_statement(template, &node.statements[k]) {
            Ok(x) => x,
            Err(e) => {
                proof {
                    lemma_statements_err(segs, views, k + 1);
                }
                return Err(e);
            },
        };
        if k > 0 {
            push_str(&mut text, "\n");
        }
        push_str(&mut text, statement.as_str());
        k += 1;
    }
    assert(views.take(k as int) =~= views);
    Ok(text)
}

/// Formats a TOML template under a profile: the template is parsed, then
/// written back with each interpolation replaced by its raw `{...}` source.
pub fn format_template_with_profile(template: &TemplateInput, profile: TomlProfile) -> (r: Result<
    String,
    BackendError,
>)
    ensures
        match toml_template(stream_of(template.segments@), profile) {
            Err((m, k)) => r matches Err(e) && parse_error_at(
                e,
                toml_code(),
                m,
                stream_of(template.segments@),
                k,
            ),
            Ok((d, _)) => format_result(r, template.segments@, fmt_document(template.segments@, d)),
        },
{
    let document = parse_template_with_profile(template, profile)?;
    format_toml_document(template, &document)
}

/// Formats a TOML template under the default profile (TOML 1.1).
pub fn format_template(template: &TemplateInput) -> (r: Result<String, BackendError>)
    ensures
        match toml_template(stream_of(template.segments@), TomlProfile::V1_1) {
            Err((m, k)) => r matches Err(e) && parse_error_at(
                e,
                toml_code(),
                m,
                stream_of(template.segments@),
                k,
            ),
            Ok((d, _)) => format_result(r, template.segments@, fmt_document(template.segments@, d)),
        },
{
    format_template_with_profile(template, TomlProfile::default())
}

} // verus!
