use tstring::syntax::{ErrorKind, TemplateInput, TemplateInterpolation, TemplateSegment};
use tstring::toml_backend::{
    render_basic_string, TomlKeySegmentValue, TomlProfile, TomlStatementNode, TomlStringPart,
    TomlValueNode,
};
use tstring::formatting::decimal_text;
use tstring::toml_format::{format_template, format_template_with_profile};
use tstring::toml_parser::{
    check_template, check_template_with_profile, materialize_value_source, parse_template,
    parse_template_with_profile,
};

fn interpolation(index: usize, expression: &str) -> TemplateSegment {
    TemplateSegment::Interpolation(TemplateInterpolation {
        expression: expression.to_owned(),
        conversion: None,
        format_spec: String::new(),
        interpolation_index: index,
        raw_source: None,
    })
}

fn raw_interpolation(index: usize, expression: &str, raw: &str) -> TemplateSegment {
    TemplateSegment::Interpolation(TemplateInterpolation {
        expression: expression.to_owned(),
        conversion: None,
        format_spec: String::new(),
        interpolation_index: index,
        raw_source: Some(raw.to_owned()),
    })
}

fn text(source: &str) -> TemplateInput {
    TemplateInput::from_segments(vec![TemplateSegment::StaticText(source.to_owned())])
}

fn parse_error(source: &str, profile: TomlProfile) -> String {
    parse_template_with_profile(&text(source), profile)
        .expect_err("expected TOML parse failure")
        .message
}

fn formatted(source: &str) -> String {
    format_template(&text(source)).expect("expected format success")
}

#[test]
fn parses_toml_assignments_and_interpolations() {
    let template = TemplateInput::from_segments(vec![
        TemplateSegment::StaticText("title = \"Hello ".to_owned()),
        interpolation(0, "name"),
        TemplateSegment::StaticText("\"\n".to_owned()),
    ]);

    let document = parse_template(&template).expect("expected TOML parse success");
    let TomlStatementNode::Assignment(assignment) = &document.statements[0] else {
        panic!("expected TOML assignment");
    };
    assert!(matches!(assignment.value, TomlValueNode::String(_)));
}

#[test]
fn toml_parse_errors_include_spans() {
    let template = TemplateInput::from_segments(vec![TemplateSegment::StaticText(
        "value = \"a\nb\"".to_owned(),
    )]);

    let error = parse_template(&template).expect_err("expected TOML parse failure");
    assert_eq!(error.diagnostics[0].code, "toml.parse");
    assert!(error.diagnostics[0].span.is_some());
}

#[test]
fn checks_valid_toml_templates() {
    let template = TemplateInput::from_segments(vec![
        TemplateSegment::StaticText("title = ".to_owned()),
        TemplateSegment::Interpolation(TemplateInterpolation {
            expression: "title".to_owned(),
            conversion: None,
            format_spec: String::new(),
            interpolation_index: 0,
            raw_source: Some("{title}".to_owned()),
        }),
        TemplateSegment::StaticText("\nname = \"Hello ".to_owned()),
        TemplateSegment::Interpolation(TemplateInterpolation {
            expression: "name".to_owned(),
            conversion: Some("s".to_owned()),
            format_spec: String::new(),
            interpolation_index: 1,
            raw_source: Some("{name!s}".to_owned()),
        }),
        TemplateSegment::StaticText("\"\n".to_owned()),
    ]);

    check_template(&template).expect("expected check success");
}

#[test]
fn formats_toml_templates_with_raw_interpolations() {
    let template = TemplateInput::from_segments(vec![
        TemplateSegment::StaticText("[".to_owned()),
        TemplateSegment::Interpolation(TemplateInterpolation {
            expression: "table".to_owned(),
            conversion: None,
            format_spec: String::new(),
            interpolation_index: 0,
            raw_source: Some("{table}".to_owned()),
        }),
        TemplateSegment::StaticText("]\nmessage = \"Hello ".to_owned()),
        TemplateSegment::Interpolation(TemplateInterpolation {
            expression: "name".to_owned(),
            conversion: Some("r".to_owned()),
            format_spec: ">5".to_owned(),
            interpolation_index: 1,
            raw_source: Some("{name!r:>5}".to_owned()),
        }),
        TemplateSegment::StaticText("\"\nitems = [".to_owned()),
        TemplateSegment::Interpolation(TemplateInterpolation {
            expression: "item".to_owned(),
            conversion: None,
            format_spec: String::new(),
            interpolation_index: 2,
            raw_source: Some("{item}".to_owned()),
        }),
        TemplateSegment::StaticText("]\n".to_owned()),
    ]);

    assert_eq!(
        format_template(&template).expect("expected format success"),
        "[{table}]\nmessage = \"Hello {name!r:>5}\"\nitems = [{item}]"
    );
}

#[test]
fn format_requires_raw_source_for_toml_interpolations() {
    let template = TemplateInput::from_segments(vec![
        TemplateSegment::StaticText("value = ".to_owned()),
        interpolation(0, "value"),
        TemplateSegment::StaticText("\n".to_owned()),
    ]);

    let error = format_template(&template).expect_err("expected format failure");
    assert_eq!(error.kind, ErrorKind::Semantic);
    assert_eq!(error.diagnostics[0].code, "toml.format");
}

#[test]
fn missing_raw_source_message_names_context_and_expression() {
    let template = TemplateInput::from_segments(vec![
        TemplateSegment::StaticText("a = \"x".to_owned()),
        interpolation(7, "user"),
        TemplateSegment::StaticText("\"\n".to_owned()),
        interpolation(8, ""),
        TemplateSegment::StaticText(" = 1\n".to_owned()),
    ]);
    let error = format_template(&template).expect_err("expected format failure");
    assert_eq!(
        error.message,
        "Cannot format TOML string fragment interpolation \"user\" without raw source text."
    );
    assert_eq!(error.diagnostics[0].span, Some(tstring::syntax::SourceSpan::point(1, 0)));

    let key_only = TemplateInput::from_segments(vec![
        interpolation(8, ""),
        TemplateSegment::StaticText(" = 1\n".to_owned()),
    ]);
    let error = format_template(&key_only).expect_err("expected format failure");
    assert_eq!(
        error.message,
        "Cannot format TOML key interpolation \"slot\" without raw source text."
    );
}

#[test]
fn toml_profile_names_and_defaults() {
    assert_eq!(TomlProfile::default(), TomlProfile::V1_1);
    assert_eq!(TomlProfile::V1_0.as_str(), "1.0");
    assert_eq!(TomlProfile::V1_1.as_str(), "1.1");
    assert_eq!(TomlProfile::from_name("1.0"), Ok(TomlProfile::V1_0));
    assert_eq!("1.1".parse::<TomlProfile>(), Ok(TomlProfile::V1_1));
    assert_eq!(
        TomlProfile::from_name("2.0"),
        Err("Unsupported TOML profile \"2.0\". Supported profiles: \"1.0\", \"1.1\".".to_owned())
    );
}

#[test]
fn parses_headers_dotted_keys_and_interpolated_segments() {
    let template = TemplateInput::from_segments(vec![
        TemplateSegment::StaticText("[servers.".to_owned()),
        interpolation(0, "env"),
        TemplateSegment::StaticText("]\nservice = \"".to_owned()),
        interpolation(1, "name"),
        TemplateSegment::StaticText("\"\n[[services]]\nid = 1\n".to_owned()),
    ]);
    let document = parse_template(&template).expect("expected TOML parse success");
    assert_eq!(document.statements.len(), 4);
    let TomlStatementNode::TableHeader(header) = &document.statements[0] else {
        panic!("expected table header");
    };
    assert_eq!(header.key_path.segments.len(), 2);
    assert!(matches!(&header.key_path.segments[0].value, TomlKeySegmentValue::Bare(b) if b == "servers"));
    assert!(matches!(
        &header.key_path.segments[1].value,
        TomlKeySegmentValue::Interpolation(i) if i.role == "key" && i.interpolation_index == 0
    ));
    assert!(matches!(document.statements[2], TomlStatementNode::ArrayTableHeader(_)));
}

#[test]
fn parses_string_styles_and_escapes() {
    let document = parse_template(&text(
        "a = \"x\\ty\\u00e9\\U0001F600\"\nb = 'raw\\n'\nc = \"\"\"\nline\\\n   next\"\"\"\nd = '''\nkeep\r\nit'''\n",
    ))
    .expect("expected TOML parse success");
    let strings: Vec<(String, Vec<String>)> = document
        .statements
        .iter()
        .map(|statement| {
            let TomlStatementNode::Assignment(a) = statement else {
                panic!("expected assignment");
            };
            let TomlValueNode::String(s) = &a.value else {
                panic!("expected string");
            };
            let chunks = s
                .chunks
                .iter()
                .map(|c| match c {
                    TomlStringPart::Chunk(c) => c.value.clone(),
                    TomlStringPart::Interpolation(_) => "{}".to_owned(),
                })
                .collect();
            (s.style.clone(), chunks)
        })
        .collect();
    assert_eq!(strings[0], ("basic".to_owned(), vec!["x\ty\u{e9}\u{1F600}".to_owned()]));
    assert_eq!(strings[1], ("literal".to_owned(), vec!["raw\\n".to_owned()]));
    assert_eq!(strings[2], ("multiline_basic".to_owned(), vec!["linenext".to_owned()]));
    assert_eq!(strings[3], ("multiline_literal".to_owned(), vec!["keep\nit".to_owned()]));
}

#[test]
fn quote_runs_before_a_multiline_terminator_stay_in_the_string() {
    assert_eq!(formatted("value = \"\"\"\"\"\"\"\n"), "value = \"\\\"\"");
    assert_eq!(formatted("one = \"\"\"\"\"\"\"\"\n"), "one = \"\\\"\\\"\"");
    assert_eq!(formatted("literal = '''''''\n"), "literal = \"'\"");
    assert_eq!(formatted("literal_two = ''''''''\n"), "literal_two = \"''\"");
}

#[test]
fn formatter_writes_canonical_text() {
    assert_eq!(
        formatted("[\"a.b\"]\nvalue = 1\n\n[\"a.b\".c]\nname = \"x\"\n"),
        "[\"a.b\"]\nvalue = 1\n[\"a.b\".c]\nname = \"x\""
    );
    assert_eq!(formatted("value = [\n  1,\n  # comment\n  2,\n]\n"), "value = [1, 2]");
    assert_eq!(formatted("value = '''a\r\nb'''\n"), "value = \"a\\nb\"");
    assert_eq!(
        formatted("[[items]]\nname = \"a\"\n\n[tool]\nvalue = 1\n"),
        "[[items]]\nname = \"a\"\n[tool]\nvalue = 1"
    );
    assert_eq!(formatted("value = {}\nempty = []\n"), "value = {}\nempty = []");
    assert_eq!(
        formatted("meta = {enabled=true,  target = 'x' }"),
        "meta = { enabled = true, target = \"x\" }"
    );
    assert_eq!(formatted("a.\"\".b = 1\n"), "a.\"\".b = 1");
    assert_eq!(formatted("\"plain\" = 1\n"), "\"plain\" = 1");
    assert_eq!(formatted("# only a comment\n\n"), "");
}

#[test]
fn bare_literals_are_checked_by_the_toml_crate() {
    let document = parse_template(&text("n = 0xDEAD_BEEF\nf = -2e-2\nd = 2024-01-02T03:04:05\n"))
        .expect("expected TOML parse success");
    let sources: Vec<String> = document
        .statements
        .iter()
        .map(|statement| {
            let TomlStatementNode::Assignment(a) = statement else {
                panic!("expected assignment");
            };
            let TomlValueNode::Literal(l) = &a.value else {
                panic!("expected literal");
            };
            l.source.clone()
        })
        .collect();
    assert_eq!(sources, vec!["0xDEAD_BEEF", "-2e-2", "2024-01-02T03:04:05"]);
    for source in ["value = 00\n", "value = 1__2\n", "value = ++1\n", "value = 0x_DEAD\n"] {
        let message = parse_error(source, TomlProfile::V1_1);
        assert!(message.starts_with("Invalid TOML literal"), "{source}: {message}");
    }
    assert_eq!(parse_error("value = \n", TomlProfile::V1_1), "Expected a TOML value.");
}

#[test]
fn materializes_literal_sources() {
    assert_eq!(
        materialize_value_source(TomlProfile::V1_1, "42").expect("expected a value"),
        toml::Value::Integer(42)
    );
    assert_eq!(
        materialize_value_source(TomlProfile::V1_1, "[1, 2]").expect("expected a value"),
        toml::Value::Array(vec![toml::Value::Integer(1), toml::Value::Integer(2)])
    );
    let err = materialize_value_source(TomlProfile::V1_0, "07:32").expect_err("expected failure");
    assert_eq!(err, "Invalid TOML literal: missing seconds in time value.");
    assert!(materialize_value_source(TomlProfile::V1_1, "07:32").is_ok());
    let err = materialize_value_source(TomlProfile::V1_1, "1 2").expect_err("expected failure");
    assert!(err.starts_with("Invalid TOML literal"), "{err}");
}

#[test]
fn profiles_differ_on_inline_tables_escapes_and_seconds() {
    let trailing = "value = { a = 1, }\n";
    assert_eq!(parse_error(trailing, TomlProfile::V1_1), "Expected a TOML key segment.");
    assert_eq!(
        parse_error(trailing, TomlProfile::V1_0),
        "Trailing commas are not permitted in TOML 1.0 inline tables."
    );
    let multiline = "value = { a = 1,\n b = 2 }\n";
    assert_eq!(parse_error(multiline, TomlProfile::V1_1), "Expected a TOML key segment.");
    assert_eq!(parse_error(multiline, TomlProfile::V1_0), "Expected a TOML key segment.");
    let escape = "value = \"\\e\\x41\"\n";
    assert!(check_template_with_profile(&text(escape), TomlProfile::V1_1).is_ok());
    assert_eq!(parse_error(escape, TomlProfile::V1_0), "Invalid TOML escape sequence.");
    assert!(parse_error("when = 07:32\n", TomlProfile::V1_0).contains("missing seconds"));
    assert!(check_template_with_profile(&text("when = 07:32\n"), TomlProfile::V1_1).is_ok());
}

#[test]
fn toml_error_messages_name_the_problem() {
    let p = TomlProfile::V1_1;
    assert_eq!(parse_error("value = \"a\nb\"", p), "TOML single-line basic strings cannot contain newlines.");
    assert_eq!(parse_error("value = 'a\nb'", p), "TOML single-line literal strings cannot contain newlines.");
    assert_eq!(parse_error("value = \"abc", p), "Unterminated TOML basic string.");
    assert_eq!(parse_error("value = 'abc", p), "Unterminated TOML literal string.");
    assert_eq!(parse_error("value = \"a\u{1}\"", p), "Invalid TOML character in basic string.");
    assert_eq!(parse_error("value = 'a\u{7f}'", p), "Invalid TOML character in literal string.");
    assert_eq!(parse_error("value = \"\\q\"", p), "Invalid TOML escape sequence.");
    assert_eq!(parse_error("value = \"\\uD800\"", p), "Invalid TOML escape sequence.");
    assert_eq!(parse_error("value = \"\\u12", p), "Unexpected end of TOML escape sequence.");
    assert_eq!(parse_error("\"\"\"a\"\"\" = 1", p), "TOML v1.0 quoted keys cannot be multiline strings.");
    assert_eq!(parse_error("a..b = 1", p), "Expected a TOML key segment.");
    assert_eq!(parse_error("a 1", p), "Expected '=' in TOML template.");
    assert_eq!(parse_error("[a\nb = 1", p), "Expected ']' in TOML template.");
    assert_eq!(parse_error("value = [\"a\" \"b\"]", p), "Expected ',' in TOML template.");
    assert!(parse_error("value = [1 2]", p).starts_with("Invalid TOML literal"));
    assert_eq!(parse_error("value = [1,,2]", p), "Expected a TOML value.");
    assert_eq!(parse_error("a = \"x\" b", p), "Unexpected trailing TOML content on the line.");
    assert_eq!(parse_error("a = 1\rb = 2", p), "Bare carriage returns are not valid in TOML input.");
}

#[test]
fn interpolations_in_bare_literals_are_refused() {
    let fragment = TemplateInput::from_segments(vec![
        TemplateSegment::StaticText("value = 2".to_owned()),
        interpolation(0, "count"),
        TemplateSegment::StaticText("\n".to_owned()),
    ]);
    assert_eq!(
        parse_template(&fragment).expect_err("expected failure").message,
        "TOML bare literals cannot contain fragment interpolations."
    );
    let suffix = TemplateInput::from_segments(vec![
        TemplateSegment::StaticText("value = ".to_owned()),
        interpolation(0, "count"),
        TemplateSegment::StaticText("ms\n".to_owned()),
    ]);
    assert_eq!(
        parse_template(&suffix).expect_err("expected failure").message,
        "Whole-value TOML interpolations cannot have bare suffix text."
    );
}

#[test]
fn bare_carriage_return_is_reported_where_it_stands() {
    let error = parse_template(&text("a = 1\rb = 2")).expect_err("expected failure");
    let span = error.diagnostics[0].span.expect("expected span");
    assert_eq!(span.start.offset, 5);
    assert_eq!(error.diagnostics[0].code, "toml.parse");
}

#[test]
fn format_round_trips_through_the_parser() {
    let source = "title = 'x'\n[t]\nk.\"q\" = [1, { a = \"b\\n\" }]\n";
    let once = formatted(source);
    assert_eq!(once, "title = \"x\"\n[t]\nk.\"q\" = [1, { a = \"b\\n\" }]");
    assert_eq!(formatted(&once), once);
}

#[test]
fn formats_interpolations_in_every_position() {
    let template = TemplateInput::from_segments(vec![
        TemplateSegment::StaticText("title = \"item-".to_owned()),
        raw_interpolation(0, "left", "{left}"),
        TemplateSegment::StaticText("\"\n[root.".to_owned()),
        raw_interpolation(1, "key", "{key}"),
        TemplateSegment::StaticText("]\nrows = [".to_owned()),
        raw_interpolation(2, "left", "{left}"),
        TemplateSegment::StaticText(", ".to_owned()),
        raw_interpolation(3, "right", "{right!r}"),
        TemplateSegment::StaticText("]\nmeta = { target = ".to_owned()),
        raw_interpolation(4, "right", "{right}"),
        TemplateSegment::StaticText(" }\n".to_owned()),
    ]);
    assert_eq!(
        format_template_with_profile(&template, TomlProfile::V1_0).expect("expected format success"),
        "title = \"item-{left}\"\n[root.{key}]\nrows = [{left}, {right!r}]\nmeta = { target = {right} }"
    );
}

#[test]
fn render_basic_string_escapes_quotes_and_controls() {
    assert_eq!(render_basic_string("a\"b\\c"), "\"a\\\"b\\\\c\"");
    assert_eq!(render_basic_string("\u{8}\t\n\u{c}\r"), "\"\\b\\t\\n\\f\\r\"");
    assert_eq!(render_basic_string("\u{1}\u{1f}\u{7f}"), "\"\\u0001\\u001F\\u007F\"");
    assert_eq!(render_basic_string("é"), "\"é\"");
}

#[test]
fn decimal_text_writes_numbers() {
    assert_eq!(decimal_text(0), "0");
    assert_eq!(decimal_text(7), "7");
    assert_eq!(decimal_text(1234), "1234");
}

#[test]
fn parses_toml_string_families() {
    let template = TemplateInput::from_segments(vec![
        TemplateSegment::StaticText("basic = \"hi-".to_owned()),
        interpolation(0, "1"),
        TemplateSegment::StaticText("\"\nliteral = 'hi-".to_owned()),
        interpolation(1, "2"),
        TemplateSegment::StaticText("'".to_owned()),
    ]);
    let document = parse_template(&template).unwrap();
    assert_eq!(document.statements.len(), 2);
    let TomlStatementNode::Assignment(first) = &document.statements[0] else {
        panic!("expected assignment");
    };
    let TomlValueNode::String(first_value) = &first.value else {
        panic!("expected string");
    };
    assert_eq!(first_value.style, "basic");
}

#[test]
fn parses_headers_and_interpolated_key_segments() {
    let template = TemplateInput::from_segments(vec![
        TemplateSegment::StaticText("[servers.".to_owned()),
        interpolation(0, "env"),
        TemplateSegment::StaticText("]\nservice = \"".to_owned()),
        interpolation(1, "name"),
        TemplateSegment::StaticText("\"\n[[services]]\nid = 1\n".to_owned()),
    ]);
    let document = parse_template(&template).unwrap();

    assert_eq!(document.statements.len(), 4);
    let TomlStatementNode::TableHeader(header) = &document.statements[0] else {
        panic!("expected table header");
    };
    assert_eq!(header.key_path.segments.len(), 2);
    assert!(matches!(
        header.key_path.segments[1].value,
        TomlKeySegmentValue::Interpolation(_)
    ));
    assert!(matches!(
        document.statements[2],
        TomlStatementNode::ArrayTableHeader(_)
    ));
}

#[test]
fn rejects_newlines_in_single_line_strings() {
    let err = match parse_template(&text("value = \"a\nb\"")) {
        Ok(_) => panic!("expected TOML parse failure"),
        Err(err) => err,
    };
    assert_eq!(err.kind, ErrorKind::Parse);
    assert!(err
        .message
        .contains("single-line basic strings cannot contain newlines"));
}

#[test]
fn rejects_invalid_numeric_literal_families() {
    for (name, source) in [
        ("leading_zero", "value = 00\n"),
        ("positive_leading_zero", "value = +01\n"),
        ("double_underscore", "value = 1__2\n"),
        ("hex_underscore", "value = 0x_DEAD\n"),
        ("double_plus", "value = ++1\n"),
    ] {
        let err = parse_template(&text(source)).expect_err("expected TOML parse failure");
        assert_eq!(err.kind, ErrorKind::Parse);
        assert!(
            err.message.contains("Invalid TOML literal"),
            "{name}: {}",
            err.message
        );
    }
}

#[test]
fn rejects_additional_invalid_literal_families() {
    for (name, source) in [
        ("invalid_exp_mixed_sign", "value = 1e_+1\n"),
        ("invalid_float_then_exp", "value = 1.e1\n"),
        ("invalid_inline_pos", "value = { pos = ++1 }\n"),
        ("invalid_nested_inline_pos", "value = { inner = { pos = ++1 } }\n"),
        ("invalid_triple_nested_plus", "value = [[[++1]]]\n"),
    ] {
        let err = parse_template(&text(source)).expect_err("expected TOML parse failure");
        assert_eq!(err.kind, ErrorKind::Parse);
        assert!(
            err.message.contains("Invalid TOML literal"),
            "{name}: {}",
            err.message
        );
    }
}

#[test]
fn rejects_bare_literal_fragment_and_suffix_families() {
    let fragment = TemplateInput::from_segments(vec![
        TemplateSegment::StaticText("value = 2".to_owned()),
        interpolation(0, "count"),
        TemplateSegment::StaticText("\n".to_owned()),
    ]);
    let suffix = TemplateInput::from_segments(vec![
        TemplateSegment::StaticText("value = ".to_owned()),
        interpolation(0, "count"),
        TemplateSegment::StaticText("ms\n".to_owned()),
    ]);
    for (name, template, expected) in [
        (
            "fragment",
            fragment,
            "TOML bare literals cannot contain fragment interpolations.",
        ),
        (
            "suffix",
            suffix,
            "Whole-value TOML interpolations cannot have bare suffix text.",
        ),
    ] {
        let err = parse_template(&template).expect_err("expected TOML parse failure");
        assert_eq!(err.kind, ErrorKind::Parse);
        assert!(err.message.contains(expected), "{name}: {}", err.message);
    }
}

#[test]
fn rejects_multiline_inline_tables() {
    let err = match parse_template(&text("value = { a = 1,\n b = 2 }\n")) {
        Ok(_) => panic!("expected TOML parse failure"),
        Err(err) => err,
    };
    assert_eq!(err.kind, ErrorKind::Parse);
    assert!(err.message.contains("Expected a TOML key segment"));
}

#[test]
fn rejects_invalid_table_redefinitions_and_newlines_after_dots() {
    for name in ["table_redefine", "array_redefine"] {
        let source = match name {
            "table_redefine" => "[a]\nvalue = 1\n[a]\nname = \"x\"\n",
            _ => "[[a]]\nname = \"x\"\n[a]\nvalue = 1\n",
        };
        // The template parses; the TOML text it stands for does not.
        let template = text(source);
        parse_template(&template).expect("expected TOML parse success");
        let rendered = format_template(&template).expect("expected format success");
        let err = rendered
            .parse::<toml::Table>()
            .expect_err("expected TOML parse failure");
        assert!(err.to_string().contains("duplicate key"), "{name}: {err}");
    }
    let err = match parse_template(&text("a.\nb = 1\n")) {
        Ok(_) => panic!("expected TOML parse failure for newline_after_dot"),
        Err(err) => err,
    };
    assert_eq!(err.kind, ErrorKind::Parse);
    assert!(err.message.contains("Expected a TOML key segment"));

    for (name, source, expected) in [
        ("extra_array_comma", "value = [1,,2]\n", "Expected a TOML value"),
        ("inline_double_comma", "value = { a = 1,, b = 2 }\n", "Expected a TOML key segment"),
        ("array_leading_comma", "value = [,1]\n", "Expected a TOML value"),
        ("inline_trailing_comma", "value = { a = 1, }\n", "Expected a TOML key segment"),
        ("invalid_decimal_underscore", "value = 1__2\n", "Invalid TOML literal"),
        ("invalid_hex_underscore", "value = 0x_DEAD\n", "Invalid TOML literal"),
        ("header_trailing_dot", "[a.]\nvalue = 1\n", "Expected a TOML key segment"),
        ("invalid_octal_underscore", "value = 0o_7\n", "Invalid TOML literal"),
        ("invalid_fraction_underscore", "value = 1_.0\n", "Invalid TOML literal"),
        ("invalid_plus_zero_float_underscore", "value = +0_.0\n", "Invalid TOML literal"),
        ("invalid_fraction_double_underscore", "value = 1_2.3__4\n", "Invalid TOML literal"),
        ("invalid_exp_double_underscore", "value = 1e1__0\n", "Invalid TOML literal"),
        ("invalid_double_plus", "value = ++1\n", "Invalid TOML literal"),
        ("invalid_double_plus_inline_table", "value = { pos = ++1 }\n", "Invalid TOML literal"),
        ("invalid_double_plus_nested", "value = { inner = { deeper = ++1 } }\n", "Invalid TOML literal"),
        ("invalid_double_plus_nested_inline_table", "value = { inner = { pos = ++1 } }\n", "Invalid TOML literal"),
        ("invalid_double_plus_array_nested", "value = [[++1]]\n", "Invalid TOML literal"),
        ("invalid_double_plus_array_mixed", "value = [1, ++1]\n", "Invalid TOML literal"),
        ("invalid_double_plus_after_scalar", "value = [1, 2, ++1]\n", "Invalid TOML literal"),
        ("leading_zero", "value = 00\n", "Invalid TOML literal"),
        ("leading_zero_plus", "value = +01\n", "Invalid TOML literal"),
        ("leading_zero_float", "value = 01.2\n", "Invalid TOML literal"),
        ("binary_leading_underscore", "value = 0b_1\n", "Invalid TOML literal"),
        ("signed_binary", "value = +0b1\n", "Invalid TOML literal"),
        ("time_with_offset", "value = 03:04:05+09:00\n", "Invalid TOML literal"),
        ("plus_inf_underscore", "value = +inf_\n", "Invalid TOML literal"),
        ("plus_nan_underscore", "value = +nan_\n", "Invalid TOML literal"),
        ("time_lower_z", "value = 03:04:05z\n", "Invalid TOML literal"),
        ("invalid_exp_leading_underscore", "value = 1e_1\n", "Invalid TOML literal"),
        ("invalid_exp_trailing_underscore", "value = 1e1_\n", "Invalid TOML literal"),
        ("double_sign_exp", "value = 1e--1\n", "Invalid TOML literal"),
        ("double_sign_float", "value = --1.0\n", "Invalid TOML literal"),
        ("double_dot_dotted_key", "a..b = 1\n", "Expected a TOML key segment"),
        ("hex_float_like", "value = 0x1.2\n", "Invalid TOML literal"),
        ("signed_octal", "value = -0o7\n", "Invalid TOML literal"),
        ("inline_table_missing_comma", "value = { a = 1 b = 2 }\n", "Invalid TOML literal"),
    ] {
        let err = parse_template(&text(source)).expect_err("expected TOML parse failure");
        assert_eq!(err.kind, ErrorKind::Parse);
        assert!(err.message.contains(expected), "{name}: {}", err.message);
    }
}

#[test]
fn rendered_strings_read_back_in_a_template() {
    for value in ["", "plain", "quote \" and \\ backslash", "tab\tline\nbell\u{7}del\u{7f}", "é ∑ 🎉"] {
        let rendered = render_basic_string(value);
        assert!(rendered.starts_with('"') && rendered.ends_with('"'));
        assert!(!rendered.chars().any(|c| c <= '\u{1f}' || c == '\u{7f}'), "{rendered}");
        for profile in [TomlProfile::V1_0, TomlProfile::V1_1] {
            let document = parse_template_with_profile(&text(&format!("v = {rendered}\n")), profile)
                .expect("expected TOML parse success");
            assert_eq!(document.statements.len(), 1);
            let TomlStatementNode::Assignment(assignment) = &document.statements[0] else {
                panic!("expected assignment");
            };
            let TomlValueNode::String(string) = &assignment.value else {
                panic!("expected string");
            };
            assert_eq!(string.style, "basic");
            let mut read = String::new();
            for part in &string.chunks {
                let TomlStringPart::Chunk(chunk) = part else {
                    panic!("expected text");
                };
                read.push_str(&chunk.value);
            }
            assert_eq!(read, value);
        }
    }
}

#[test]
fn toml_unicode_escapes_take_exactly_hex_digits() {
    let error = parse_template(&text("v = \"\\u+041\"\n")).expect_err("expected TOML parse failure");
    assert_eq!(error.kind, ErrorKind::Parse);
    assert!(parse_template(&text("v = \"\\u0041\"\n")).is_ok());
}

#[test]
fn literal_nodes_carry_the_value_the_toml_crate_reads() {
    let document = parse_template(&text("a = 42\nb = [1, 2]\n")).expect("expected TOML parse success");
    let TomlStatementNode::Assignment(a) = &document.statements[0] else {
        panic!("expected assignment");
    };
    let TomlValueNode::Literal(literal) = &a.value else {
        panic!("expected literal");
    };
    assert_eq!(literal.source, "42");
    assert_eq!(literal.value, toml::Value::Integer(42));
}
