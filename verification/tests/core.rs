use tstring::syntax::{
    BackendError, Diagnostic, DiagnosticSeverity, ErrorKind, Metadata, SourcePosition, SourceSpan,
    StreamItem, TemplateInput, TemplateInterpolation, TemplateSegment, TemplateToken,
};

fn interpolation(index: usize, expression: &str, raw: Option<&str>) -> TemplateInterpolation {
    TemplateInterpolation {
        expression: expression.to_owned(),
        conversion: None,
        format_spec: String::new(),
        interpolation_index: index,
        raw_source: raw.map(str::to_owned),
    }
}

#[test]
fn span_helpers_compose() {
    let base = SourceSpan::between(
        SourcePosition {
            token_index: 0,
            offset: 0,
        },
        SourcePosition {
            token_index: 0,
            offset: 3,
        },
    );
    let extended = base.extend(SourcePosition {
        token_index: 0,
        offset: 5,
    });
    let merged = base.merge(&SourceSpan::point(2, 0));
    assert_eq!(extended.end.offset, 5);
    assert_eq!(merged.end.token_index, 2);
}

#[test]
fn tokenize_and_flatten_templates_preserve_structure() {
    let template = TemplateInput::from_segments(vec![
        TemplateSegment::StaticText("{\"name\": ".to_owned()),
        TemplateSegment::Interpolation(TemplateInterpolation {
            expression: "value".to_owned(),
            conversion: None,
            format_spec: String::new(),
            interpolation_index: 0,
            raw_source: Some("{value}".to_owned()),
        }),
        TemplateSegment::StaticText("}".to_owned()),
    ]);

    let tokens = template.tokenize();
    assert_eq!(tokens.len(), 3);
    assert!(matches!(tokens[0], TemplateToken::StaticText(_)));
    assert!(matches!(tokens[1], TemplateToken::Interpolation(_)));
    assert!(matches!(tokens[2], TemplateToken::StaticText(_)));

    let items = template.flatten();
    assert_eq!(
        items
            .iter()
            .take(5)
            .map(StreamItem::kind)
            .collect::<Vec<_>>(),
        vec!["char", "char", "char", "char", "char"]
    );
    assert_eq!(items.last().map(StreamItem::kind), Some("eof"));
}

#[test]
fn from_parts_preserves_interpolation_metadata() {
    let extracted = TemplateInput::from_parts(
        vec!["hello ".to_owned(), String::new()],
        vec![TemplateInterpolation {
            expression: "value".to_owned(),
            conversion: Some("r".to_owned()),
            format_spec: ">5".to_owned(),
            interpolation_index: 0,
            raw_source: Some("{value!r:>5}".to_owned()),
        }],
    );

    assert_eq!(extracted.segments.len(), 2);
    let TemplateSegment::Interpolation(interpolation) = &extracted.segments[1] else {
        panic!("expected interpolation segment");
    };
    assert_eq!(interpolation.expression, "value");
    assert_eq!(interpolation.conversion.as_deref(), Some("r"));
    assert_eq!(interpolation.format_spec, ">5");
    assert_eq!(interpolation.interpolation_index, 0);
    assert_eq!(interpolation.expression_label(), "value");
}

#[test]
fn diagnostics_capture_code_and_span() {
    let span = SourceSpan::point(3, 2);
    let diagnostic = Diagnostic::error("json.parse", "unexpected token", Some(span.clone()));
    assert_eq!(diagnostic.code, "json.parse");
    assert_eq!(diagnostic.severity, DiagnosticSeverity::Error);
    assert_eq!(diagnostic.span, Some(span));
    let error = BackendError::parse_at(
        "json.parse",
        "unexpected token",
        Some(SourceSpan::point(1, 0)),
    );
    assert_eq!(error.kind, ErrorKind::Parse);
    assert_eq!(error.diagnostics.len(), 1);
    assert_eq!(error.diagnostics[0].code, "json.parse");
}

#[test]
fn flatten_gives_one_char_item_per_char_with_its_span() {
    let template = TemplateInput::from_segments(vec![
        TemplateSegment::StaticText("ab".to_owned()),
        TemplateSegment::Interpolation(interpolation(0, "x", None)),
        TemplateSegment::StaticText("c".to_owned()),
    ]);
    let items = template.flatten();
    assert_eq!(items.len(), 5);
    assert_eq!(items[0].char(), Some('a'));
    assert_eq!(items[1].char(), Some('b'));
    assert_eq!(
        *items[1].span(),
        SourceSpan::between(
            SourcePosition { token_index: 0, offset: 1 },
            SourcePosition { token_index: 0, offset: 2 }
        )
    );
    assert_eq!(items[2].interpolation_index(), Some(0));
    assert_eq!(*items[2].span(), SourceSpan::point(1, 0));
    assert_eq!(items[3].char(), Some('c'));
    assert_eq!(items[4].kind(), "eof");
    assert_eq!(*items[4].span(), *items[3].span());
}

#[test]
fn flatten_of_an_empty_template_is_a_lone_end_item() {
    let template = TemplateInput::from_segments(vec![]);
    let items = template.flatten();
    assert_eq!(items.len(), 1);
    assert_eq!(items[0].kind(), "eof");
    assert_eq!(*items[0].span(), SourceSpan::point(0, 0));
}

#[test]
fn from_parts_drops_empty_texts_but_keeps_a_lone_empty_template() {
    let template = TemplateInput::from_parts(
        vec![String::new(), "mid".to_owned(), String::new()],
        vec![interpolation(0, "a", None), interpolation(1, "b", None)],
    );
    assert_eq!(template.segments.len(), 3);
    assert!(matches!(template.segments[0], TemplateSegment::Interpolation(_)));
    assert!(matches!(&template.segments[1], TemplateSegment::StaticText(t) if t == "mid"));
    assert!(matches!(template.segments[2], TemplateSegment::Interpolation(_)));

    let empty = TemplateInput::from_parts(vec![String::new()], vec![]);
    assert_eq!(empty.segments.len(), 1);
    assert!(matches!(&empty.segments[0], TemplateSegment::StaticText(t) if t.is_empty()));
}

#[test]
fn interpolation_lookup_finds_the_first_with_the_index() {
    let template = TemplateInput::from_segments(vec![
        TemplateSegment::Interpolation(interpolation(3, "first", Some("{first}"))),
        TemplateSegment::Interpolation(interpolation(3, "second", None)),
        TemplateSegment::Interpolation(interpolation(4, "", None)),
    ]);
    assert_eq!(template.interpolation(3).map(|i| i.expression.as_str()), Some("first"));
    assert_eq!(template.interpolation_raw_source(3), Some("{first}"));
    assert_eq!(template.interpolation_raw_source(4), None);
    assert_eq!(template.interpolation(4).map(|i| i.expression_label()), Some("slot"));
    assert!(template.interpolation(9).is_none());
}

#[test]
fn error_constructors_set_kind_code_and_span() {
    let parse = BackendError::parse("bad");
    assert_eq!(parse.kind, ErrorKind::Parse);
    assert_eq!(parse.message, "bad");
    assert_eq!(parse.diagnostics[0].code, "tstring.parse");
    assert_eq!(parse.diagnostics[0].span, None);

    let semantic = BackendError::semantic_at("toml.format", "no raw", Some(SourceSpan::point(2, 1)));
    assert_eq!(semantic.kind, ErrorKind::Semantic);
    assert_eq!(semantic.diagnostics[0].code, "toml.format");
    assert_eq!(semantic.diagnostics[0].span, Some(SourceSpan::point(2, 1)));

    let unrepresentable = BackendError::unrepresentable("no null");
    assert_eq!(unrepresentable.kind, ErrorKind::Unrepresentable);
    assert_eq!(unrepresentable.diagnostics[0].code, "tstring.unrepresentable");
}

#[test]
fn metadata_keeps_one_value_per_key() {
    let mut metadata = Metadata::new();
    assert_eq!(metadata.len(), 0);
    metadata.insert("path".to_owned(), "/a".to_owned());
    metadata.insert("kind".to_owned(), "value".to_owned());
    metadata.insert("path".to_owned(), "/b".to_owned());
    assert_eq!(metadata.len(), 2);
    assert_eq!(metadata.get("path").map(String::as_str), Some("/b"));
    assert_eq!(metadata.get("kind").map(String::as_str), Some("value"));
    assert!(metadata.get("other").is_none());

    let error = BackendError::parse("bad").with_metadata("path", "/x");
    assert_eq!(error.diagnostics[0].metadata.get("path").map(String::as_str), Some("/x"));
}

#[test]
fn merge_and_extend_keep_the_start() {
    let a = SourceSpan::point(1, 4);
    let b = SourceSpan::between(
        SourcePosition { token_index: 2, offset: 0 },
        SourcePosition { token_index: 3, offset: 7 },
    );
    let merged = a.merge(&b);
    assert_eq!(merged.start, a.start);
    assert_eq!(merged.end, b.end);
    let extended = a.extend(SourcePosition { token_index: 9, offset: 9 });
    assert_eq!(extended.start, a.start);
    assert_eq!(extended.end, SourcePosition { token_index: 9, offset: 9 });
}

#[test]
fn metadata_equality_ignores_insertion_order() {
    let e = BackendError::semantic("bad");
    let ab = e.clone().with_metadata("b", "2").with_metadata("a", "1");
    let ba = e.clone().with_metadata("a", "1").with_metadata("b", "2");
    assert_eq!(ab, ba);
    let twice = e.clone().with_metadata("k", "v1").with_metadata("k", "v2");
    assert_eq!(twice, e.clone().with_metadata("k", "v2"));
    assert_ne!(twice, e.with_metadata("k", "v1"));
    let mut m = Metadata::new();
    m.insert("zeta".to_owned(), "1".to_owned());
    m.insert("alpha".to_owned(), "2".to_owned());
    m.insert("mu".to_owned(), "3".to_owned());
    assert_eq!(format!("{m:?}"), "Metadata { entries: [(\"alpha\", \"2\"), (\"mu\", \"3\"), (\"zeta\", \"1\")] }");
}

#[test]
fn merging_spans_is_associative_and_idempotent() {
    let a = SourceSpan::point(0, 1);
    let b = SourceSpan::between(
        SourcePosition { token_index: 1, offset: 0 },
        SourcePosition { token_index: 1, offset: 5 },
    );
    let c = SourceSpan::point(3, 2);
    assert_eq!(a.merge(&b), SourceSpan::between(a.start, b.end));
    assert_eq!(a.merge(&b), a.extend(b.end));
    assert_eq!(a.merge(&b).merge(&c), a.merge(&b.merge(&c)));
    assert_eq!(b.merge(&b), b);
}

#[test]
fn stream_item_accessors_agree() {
    let template = TemplateInput::from_segments(vec![
        TemplateSegment::StaticText("a".to_owned()),
        TemplateSegment::Interpolation(interpolation(4, "x", None)),
    ]);
    for item in template.flatten() {
        let index = item.interpolation_index();
        assert_eq!(index.is_some(), item.interpolation().is_some());
        assert_eq!(index.is_some(), item.kind() == "interpolation");
        if index.is_some() {
            assert!(item.char().is_none());
            assert_eq!(index, Some(4));
        }
    }
}
