use tstring::json::{
    check_template, check_template_with_profile, escape_json_text, format_template,
    is_float_number_source, parse_template, parse_template_with_profile, JsonKeyValue, JsonLiteralValue, JsonProfile,
    JsonStringPart, JsonValueNode,
};
use tstring::syntax::{ErrorKind, TemplateInput, TemplateInterpolation, TemplateSegment};

fn interpolation(index: usize, expression: &str) -> TemplateSegment {
    TemplateSegment::Interpolation(TemplateInterpolation {
        expression: expression.to_owned(),
        conversion: None,
        format_spec: String::new(),
        interpolation_index: index,
        raw_source: None,
    })
}

fn text(source: &str) -> TemplateInput {
    TemplateInput::from_segments(vec![TemplateSegment::StaticText(source.to_owned())])
}

fn parse_error_message(source: &str) -> String {
    parse_template(&text(source))
        .expect_err("expected JSON parse failure")
        .message
}

#[test]
fn parses_json_with_interpolated_key_and_value_segments() {
    let template = TemplateInput::from_segments(vec![
        TemplateSegment::StaticText("{\"name-".to_owned()),
        interpolation(0, "left"),
        TemplateSegment::StaticText("\": ".to_owned()),
        interpolation(1, "right"),
        TemplateSegment::StaticText("}".to_owned()),
    ]);

    let document = parse_template(&template).expect("expected JSON parse success");
    let JsonValueNode::Object(object) = document.value else {
        panic!("expected JSON object");
    };
    assert_eq!(object.members.len(), 1);
    let JsonKeyValue::String(key) = &object.members[0].key.value else {
        panic!("expected promoted JSON string key");
    };
    assert!(matches!(key.chunks[1], JsonStringPart::Interpolation(_)));
    assert!(matches!(
        object.members[0].value,
        JsonValueNode::Interpolation(_)
    ));
}

#[test]
fn json_parse_errors_include_spans() {
    let template = TemplateInput::from_segments(vec![TemplateSegment::StaticText(
        "{\"a\": 1 trailing}".to_owned(),
    )]);

    let error = parse_template(&template).expect_err("expected JSON parse failure");
    assert_eq!(error.diagnostics[0].code, "json.parse");
    assert!(error.diagnostics[0].span.is_some());
}

#[test]
fn json_profile_names_round_trip() {
    assert_eq!(JsonProfile::default().as_str(), "rfc8259");
    assert_eq!(JsonProfile::from_name("rfc8259"), Ok(JsonProfile::Rfc8259));
    let err = JsonProfile::from_name("draft").expect_err("expected unknown profile");
    assert!(err.contains("\"draft\""), "{err}");
    assert!("rfc8259".parse::<JsonProfile>().is_ok());
}

#[test]
fn json_numbers_and_escapes_are_read() {
    let document = parse_template(&text("[1.5e2, \"\\u00df\\uD834\\uDD1E\\n\", true, null]"))
        .expect("expected JSON parse success");
    let JsonValueNode::Array(array) = document.value else {
        panic!("expected array");
    };
    assert_eq!(array.items.len(), 4);
    let JsonValueNode::Literal(number) = &array.items[0] else {
        panic!("expected number");
    };
    assert_eq!(number.source, "1.5e2");
    assert!(matches!(&number.value, JsonLiteralValue::Number(n) if n == "1.5e2"));
    let JsonValueNode::String(string) = &array.items[1] else {
        panic!("expected string");
    };
    let JsonStringPart::Chunk(chunk) = &string.chunks[0] else {
        panic!("expected chunk");
    };
    assert_eq!(chunk.value, "ß𝄞\n");
    assert!(matches!(&array.items[2], JsonValueNode::Literal(l) if matches!(l.value, JsonLiteralValue::Bool(true))));
    assert!(matches!(&array.items[3], JsonValueNode::Literal(l) if matches!(l.value, JsonLiteralValue::Null)));
}

#[test]
fn json_error_messages_name_the_problem() {
    assert!(parse_error_message("\"\\u12zz\"").contains("Invalid JSON unicode escape"));
    assert!(parse_error_message("\"\\u12\"").contains("Unexpected end of JSON escape sequence"));
    assert!(parse_error_message("\"\\uD834\"").contains("Expected '\\\\' in JSON template"));
    assert!(parse_error_message("\"\\uDD1E\"").contains("Invalid JSON unicode escape"));
    assert!(parse_error_message("\"a\u{1}\"").contains("Control characters are not allowed"));
    assert!(parse_error_message("\"abc").contains("Unterminated JSON string"));
    assert!(parse_error_message("[1 2]").contains("Invalid JSON number literal"));
    assert!(parse_error_message("01").contains("Invalid JSON number literal"));
    assert!(parse_error_message("[1,]").contains("Expected a JSON value"));
    assert!(parse_error_message("{\"a\" 1}").contains("Expected ':' in JSON template"));
    assert!(parse_error_message("{1: 2}").contains("JSON object keys must be quoted strings or interpolations"));
    assert!(parse_error_message("[1] 2").contains("Unexpected trailing content in JSON template"));
    assert!(parse_error_message("").contains("Expected a JSON value"));
}

#[test]
fn json_errors_point_at_the_offending_char() {
    let error = parse_template(&text("[1, 2 x]")).expect_err("expected failure");
    assert_eq!(error.kind, ErrorKind::Parse);
    let span = error.diagnostics[0].span.expect("expected span");
    assert_eq!(span.start.offset, 5);
}

#[test]
fn promoted_fragments_keep_their_interpolations() {
    let template = TemplateInput::from_segments(vec![
        TemplateSegment::StaticText("{\"label\": prefix-".to_owned()),
        interpolation(0, "value"),
        TemplateSegment::StaticText("  }".to_owned()),
    ]);
    let document = parse_template_with_profile(&template, JsonProfile::Rfc8259)
        .expect("expected JSON parse success");
    let JsonValueNode::Object(object) = document.value else {
        panic!("expected object");
    };
    let JsonValueNode::String(value) = &object.members[0].value else {
        panic!("expected promoted string");
    };
    assert!(!value.quoted);
    assert_eq!(value.chunks.len(), 2);
    assert!(matches!(&value.chunks[0], JsonStringPart::Chunk(c) if c.value == "prefix-"));
    assert!(matches!(&value.chunks[1], JsonStringPart::Interpolation(i) if i.role == "string_fragment"));
}

#[test]
fn numbers_with_fraction_or_exponent_are_floats() {
    assert!(is_float_number_source("1.5"));
    assert!(is_float_number_source("1e10"));
    assert!(is_float_number_source("-2E-3"));
    assert!(!is_float_number_source("-42"));
    assert!(!is_float_number_source("12345678901234567890"));
    assert!(!is_float_number_source(""));
}

#[test]
fn rejects_invalid_unicode_and_control_sequences() {
    for (name, source, expected) in [
        ("incomplete", "\"\\u12\"", "Unexpected end of JSON escape sequence"),
        ("control", "\"a\nb\"", "Control characters are not allowed"),
        ("low", "\"\\uDD1E\"", "Invalid JSON unicode escape"),
        ("exp", "1e+", "Invalid JSON number literal"),
        ("exp2", "1e", "Invalid JSON number literal"),
        ("dot", "1.", "Invalid JSON number literal"),
        ("minus", "-", "Invalid JSON number literal"),
        ("object_exp", "{\"a\": 1e+}", "Invalid JSON number literal"),
        ("object_dot", "{\"a\": 1.}", "Invalid JSON number literal"),
        ("trailing_true", "true false", "Expected a JSON value"),
        ("trailing_string", "\"a\" \"b\"", "Unexpected trailing content in JSON template"),
        ("extra_close", "[1]]", "Unexpected trailing content in JSON template"),
        ("object_extra_close", "{\"a\":1}}", "Unexpected trailing content in JSON template"),
        ("double_trailing_close", "{\"a\": [1]}]", "Unexpected trailing content in JSON template"),
        ("missing_array_comma", "[1 2]", "Invalid JSON number literal"),
        ("missing_object_comma", "{\"a\":1 \"b\":2}", "Invalid JSON number literal"),
        ("nested_missing_object_array_comma", "{\"a\": [1 2]}", "Invalid JSON number literal"),
        ("extra_array_comma", "[1,,2]", "Expected a JSON value"),
        ("leading_comma_array", "[,1]", "Expected a JSON value"),
        ("missing_value", "{\"a\":,1}", "Expected a JSON value"),
        ("missing_key", "{,}", "JSON object keys must be quoted strings or interpolations"),
        ("missing_colon", "{\"a\" 1}", "Expected ':' in JSON template"),
        ("trailing_object_comma", "{\"a\":1,}", "JSON object keys must be quoted strings or interpolations"),
        ("trailing_array_comma", "[1,2,]", "Expected a JSON value"),
        ("nested_trailing_object_comma", "[{\"a\":1,}]", "quoted strings or interpolations"),
        ("plus_number", "+1", "Expected a JSON value"),
        ("leading_decimal", ".1", "Expected a JSON value"),
        ("leading_zero", "00", "Invalid JSON number literal"),
        ("negative_leading_zero", "-01", "Invalid JSON number literal"),
        ("leading_zero_exp", "01e0", "Invalid JSON number literal"),
        ("negative_leading_zero_exp", "-01e0", "Invalid JSON number literal"),
        ("missing_exp_digits_minus", "1e-", "Invalid JSON number literal"),
        ("object_missing_exp_digits_minus", "{\"x\": 1e-}", "Invalid JSON number literal"),
        ("object_negative_leading_zero", "{\"a\": -01}", "Invalid JSON number literal"),
        ("array_double_value_no_comma", "[true false]", "Expected a JSON value"),
        ("nested_missing_comma_bool", "{\"a\": [true false]}", "Expected a JSON value"),
        ("array_true_number_no_comma", "[true 1]", "Expected a JSON value"),
        ("array_false_object_no_comma", "[false {\"a\":1}]", "Invalid promoted JSON fragment content"),
        ("nested_missing_comma_obj_after_null", "[null {\"a\":1}]", "Invalid promoted JSON fragment content"),
        ("object_double_value_no_comma", "{\"a\": true false}", "Expected a JSON value"),
        ("object_keyword_number_no_comma", "{\"a\": true 1}", "Expected a JSON value"),
        ("truncated_true", "tru", "Expected a JSON value"),
        ("truncated_false", "fals", "Expected a JSON value"),
        ("truncated_null", "nul", "Expected a JSON value"),
        ("object_truncated_true", "{\"a\": tru}", "Expected a JSON value"),
        ("object_truncated_false", "{\"a\": fals}", "Expected a JSON value"),
        ("object_truncated_null", "{\"a\": nul}", "Expected a JSON value"),
        ("array_truncated_true", "[tru]", "Expected a JSON value"),
        ("array_truncated_false", "[fals]", "Expected a JSON value"),
        ("nested_array_truncated_true", "{\"a\": [tru]}", "Expected a JSON value"),
        ("nested_array_truncated_false", "{\"a\": [fals]}", "Expected a JSON value"),
        ("array_truncated_null", "[nul]", "Expected a JSON value"),
        ("nested_object_truncated_null", "[{\"a\": nul}]", "Expected a JSON value"),
        ("keyword_prefix", "[truee]", "Expected a JSON value"),
        ("bad_true_case", "truE", "Expected a JSON value"),
        ("array_bad_true_case", "[truE]", "Expected a JSON value"),
        ("bad_false_case", "falsE", "Expected a JSON value"),
        ("bad_null_case", "nulL", "Expected a JSON value"),
        ("object_bad_true_case", "{\"a\": truE}", "Expected a JSON value"),
        ("object_bad_false_case", "{\"a\": falsE}", "Expected a JSON value"),
        ("object_bad_null_case", "{\"a\": nulL}", "Expected a JSON value"),
        ("array_bad_false_case", "[falsE]", "Expected a JSON value"),
        ("array_bad_null_case", "[nulL]", "Expected a JSON value"),
        ("nested_array_bad_null_case", "{\"a\": [nulL]}", "Expected a JSON value"),
        ("array_missing_comma_after_string", "[\"a\" true]", "Expected ',' in JSON template"),
        ("object_missing_comma_after_null", "{\"a\": null \"b\": 1}", "Invalid promoted JSON fragment content"),
        ("double_decimal_point", "1.2.3", "Invalid JSON number literal"),
        ("object_bad_leading_zero", "{\"a\": 00}", "Invalid JSON number literal"),
        ("nested_extra_close", "[{\"a\":1}]]", "Unexpected trailing content in JSON template"),
    ] {
        let err = match parse_template(&text(source)) {
            Ok(_) => panic!("expected JSON parse failure for {name}"),
            Err(err) => err,
        };
        assert_eq!(err.kind, ErrorKind::Parse);
        assert!(err.message.contains(expected), "{name}: {}", err.message);
    }
}

#[test]
fn rejects_structural_invalid_message_families() {
    for (name, source, expected) in [
        ("missing_comma", "[\"a\" true]", "Expected ',' in JSON template"),
        ("trailing_comma", "{\"a\":1,}", "JSON object keys must be quoted strings or interpolations"),
        ("invalid_fragment", "[null {\"a\":1}]", "Invalid promoted JSON fragment content"),
        ("unexpected_trailing", "{\"a\":1}}", "Unexpected trailing content in JSON template"),
    ] {
        let err = match parse_template(&text(source)) {
            Ok(_) => panic!("expected JSON parse failure for {name}"),
            Err(err) => err,
        };
        assert_eq!(err.kind, ErrorKind::Parse);
        assert!(err.message.contains(expected), "{name}: {}", err.message);
    }
}

#[test]
fn rejects_keyword_truncation_and_collection_separator_errors() {
    for (name, source, expected) in [
        ("bad_true", "[tru]", "Expected a JSON value"),
        ("bad_false", "{\"a\": falsE}", "Expected a JSON value"),
        ("bad_null", "[nulL]", "Expected a JSON value"),
        ("missing_comma_array", "[null {\"a\": 1}]", "Invalid promoted JSON fragment content"),
        ("trailing_array_comma", "[1,2,]", "Expected a JSON value"),
        ("trailing_object_comma", "{\"a\":1,}", "quoted strings or interpolations"),
    ] {
        let err = match parse_template(&text(source)) {
            Ok(_) => panic!("expected JSON parse failure for {name}"),
            Err(err) => err,
        };
        assert_eq!(err.kind, ErrorKind::Parse);
        assert!(err.message.contains(expected), "{name}: {}", err.message);
    }
}

#[test]
fn rejects_additional_number_and_trailing_content_families() {
    for (name, source, expected) in [
        ("leading_zero_exp", "01e0", "Invalid JSON number literal"),
        ("leading_zero_exp_negative", "-01e0", "Invalid JSON number literal"),
        ("missing_exp_digits", "1e-", "Invalid JSON number literal"),
        ("embedded_missing_exp_digits", "{\"x\": 1e-}", "Invalid JSON number literal"),
        ("double_sign_number", "-+1", "Invalid JSON number literal"),
        ("leading_plus_minus", "+-1", "Expected a JSON value"),
        ("bad_exp_plus_minus", "1e+-1", "Invalid JSON number literal"),
        ("bad_exp_minus_plus", "1e-+1", "Invalid JSON number literal"),
        ("extra_decimal", "1.2.3", "Invalid JSON number literal"),
        ("array_space_number", "[1 2]", "Invalid JSON number literal"),
        ("object_space_number", "{\"a\":1 \"b\":2}", "Invalid JSON number literal"),
        ("truee", "[truee]", "Expected a JSON value"),
        ("true_then_number", "[true 1]", "Expected a JSON value"),
        ("object_true_then_number", "{\"a\": true 1}", "Expected a JSON value"),
        ("false_fragment", "[false {\"a\":1}]", "Invalid promoted JSON fragment content"),
        ("array_trailing_object", "{\"a\": [1]}]", "Unexpected trailing content in JSON template"),
        ("object_trailing_array", "[{\"a\":1}]]", "Unexpected trailing content in JSON template"),
        ("deep_object_trailing", "{\"a\": {\"b\": 1}}}", "Unexpected trailing content in JSON template"),
    ] {
        let err = match parse_template(&text(source)) {
            Ok(_) => panic!("expected JSON parse failure for {name}"),
            Err(err) => err,
        };
        assert_eq!(err.kind, ErrorKind::Parse);
        assert!(err.message.contains(expected), "{name}: {}", err.message);
    }
}

#[test]
fn parses_json_structure() {
    let template = TemplateInput::from_segments(vec![
        TemplateSegment::StaticText("{\"prefix-".to_owned()),
        interpolation(0, "left"),
        TemplateSegment::StaticText("\": ".to_owned()),
        interpolation(1, "left"),
        TemplateSegment::StaticText("-".to_owned()),
        interpolation(2, "right"),
        TemplateSegment::StaticText("}".to_owned()),
    ]);
    let document = parse_template(&template).unwrap();
    let JsonValueNode::Object(object) = document.value else {
        panic!("expected object");
    };
    assert_eq!(object.members.len(), 1);
    let JsonKeyValue::String(key) = &object.members[0].key.value else {
        panic!("expected interpolated string key");
    };
    assert_eq!(key.chunks.len(), 2);
    assert!(matches!(key.chunks[1], JsonStringPart::Interpolation(_)));
    let JsonValueNode::String(value) = &object.members[0].value else {
        panic!("expected promoted string value");
    };
    assert_eq!(value.chunks.len(), 3);
    assert!(matches!(value.chunks[0], JsonStringPart::Interpolation(_)));
}

fn raw_interpolation(index: usize, expression: &str, conversion: Option<&str>, spec: &str, raw: &str) -> TemplateSegment {
    TemplateSegment::Interpolation(TemplateInterpolation {
        expression: expression.to_owned(),
        conversion: conversion.map(str::to_owned),
        format_spec: spec.to_owned(),
        interpolation_index: index,
        raw_source: Some(raw.to_owned()),
    })
}

#[test]
fn checks_valid_json_templates() {
    let template = TemplateInput::from_segments(vec![
        TemplateSegment::StaticText("{\"name\": ".to_owned()),
        interpolation(0, "name"),
        TemplateSegment::StaticText(", \"message\": \"hello ".to_owned()),
        raw_interpolation(1, "user", Some("r"), ">5", "{user!r:>5}"),
        TemplateSegment::StaticText("\"}".to_owned()),
    ]);

    check_template(&template).expect("expected check success");
}

#[test]
fn formats_json_templates_with_raw_interpolations() {
    let template = TemplateInput::from_segments(vec![
        TemplateSegment::StaticText("{".to_owned()),
        raw_interpolation(0, "key", None, "", "{key}"),
        TemplateSegment::StaticText(": ".to_owned()),
        raw_interpolation(1, "value", None, "", "{value}"),
        TemplateSegment::StaticText(", \"greeting\": \"hi ".to_owned()),
        raw_interpolation(2, "user", Some("r"), ">5", "{user!r:>5}"),
        TemplateSegment::StaticText("\"}".to_owned()),
    ]);

    assert_eq!(
        format_template(&template).expect("expected format success"),
        r#"{{key}: {value}, "greeting": "hi {user!r:>5}"}"#
    );
}

#[test]
fn format_requires_raw_source_for_interpolations() {
    let template = TemplateInput::from_segments(vec![
        TemplateSegment::StaticText("{\"name\": ".to_owned()),
        interpolation(0, "name"),
        TemplateSegment::StaticText("}".to_owned()),
    ]);

    let error = format_template(&template).expect_err("expected format failure");
    assert_eq!(error.kind, ErrorKind::Semantic);
    assert_eq!(error.diagnostics[0].code, "json.format");
    assert_eq!(error.message, "Cannot format JSON value interpolation \"name\" without raw source text.");
}

#[test]
fn json_backend_public_api_smoke_test() {
    let template = TemplateInput::from_segments(vec![
        TemplateSegment::StaticText("{\"name\": ".to_owned()),
        raw_interpolation(0, "name", None, "", "{name}"),
        TemplateSegment::StaticText(", \"message\": \"Hello ".to_owned()),
        raw_interpolation(1, "user", Some("r"), ">5", "{user!r:>5}"),
        TemplateSegment::StaticText("\"}".to_owned()),
    ]);

    check_template(&template).expect("expected json check success");
    assert_eq!(
        format_template(&template).expect("expected json format success"),
        r#"{"name": {name}, "message": "Hello {user!r:>5}"}"#
    );
}

#[test]
fn check_reports_spans_for_invalid_templates_end_to_end() {
    let template =
        TemplateInput::from_segments(vec![TemplateSegment::StaticText("{\"name\": ]".to_owned())]);

    let error = check_template(&template).expect_err("expected json parse failure");
    let first = error
        .diagnostics
        .first()
        .expect("expected at least one diagnostic");
    assert_eq!(first.code, "json.parse");
    assert!(first.span.is_some());
    assert!(check_template_with_profile(&text("[1, 2]"), JsonProfile::Rfc8259).is_ok());
}

#[test]
fn formatter_writes_normal_json_text() {
    let source = "{ \"a\" :[1,  true,null ,{}], \"b\":\"x\\u0001\\ty\\\"\\\\/\" ,\"c\":[] }";
    assert_eq!(
        format_template(&text(source)).expect("expected format success"),
        "{\"a\": [1, true, null, {}], \"b\": \"x\\u0001\\ty\\\"\\\\/\", \"c\": []}"
    );
    let promoted = TemplateInput::from_segments(vec![
        TemplateSegment::StaticText("[".to_owned()),
        raw_interpolation(0, "a", None, "", "{a}"),
        TemplateSegment::StaticText("-".to_owned()),
        raw_interpolation(1, "b", None, "", "{b}"),
        TemplateSegment::StaticText("]".to_owned()),
    ]);
    assert_eq!(format_template(&promoted).unwrap(), "[\"{a}-{b}\"]");
    assert_eq!(escape_json_text("a\"\\\n\u{1f}é"), "a\\\"\\\\\\n\\u001fé");
}

#[test]
fn unicode_escapes_take_exactly_four_hex_digits() {
    let error = parse_template(&text("\"\\u+041\"")).expect_err("expected JSON parse failure");
    assert_eq!(error.kind, ErrorKind::Parse);
    assert!(parse_template(&text("\"\\u0041\"")).is_ok());
}

#[test]
fn quoted_json_strings_read_back_and_format_the_same() {
    for value in ["", "plain", "q\" b\\ /", "tab\tnl\nctl\u{1}\u{1f}", "é ∑ 🎉"] {
        let quoted = format!("\"{}\"", escape_json_text(value));
        let document = parse_template(&text(&quoted)).expect("expected JSON parse success");
        let JsonValueNode::String(string) = &document.value else {
            panic!("expected string");
        };
        assert!(string.quoted);
        let mut read = String::new();
        for part in &string.chunks {
            let JsonStringPart::Chunk(chunk) = part else {
                panic!("expected text");
            };
            read.push_str(&chunk.value);
        }
        assert_eq!(read, value);
        assert_eq!(format_template(&text(&quoted)).unwrap(), quoted);
    }
}
