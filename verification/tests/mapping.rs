use surch_index::mapping::{
    infer_field_type, parse_field_definition, parse_index_prefixes, AnalyzerName, FieldMapping, FieldPrefixes,
    FieldType, IndexMapping, JsonNumber, JsonValue, MappingError, DEFAULT_DATE_FORMAT,
};

fn s(x: &str) -> JsonValue {
    JsonValue::String(x.to_owned())
}

fn n(x: u64) -> JsonValue {
    JsonValue::Number(JsonNumber::PosInt(x))
}

fn arr(values: Vec<JsonValue>) -> JsonValue {
    JsonValue::Array(values)
}

/// An object with its keys in `String` order, as a JSON map keeps them.
fn obj(entries: Vec<(&str, JsonValue)>) -> JsonValue {
    let mut entries: Vec<(String, JsonValue)> = entries.into_iter().map(|(k, v)| (k.to_owned(), v)).collect();
    entries.sort_by(|a, b| a.0.cmp(&b.0));
    JsonValue::Object(entries)
}

fn member<'a>(value: &'a JsonValue, key: &str) -> Option<&'a JsonValue> {
    match value {
        JsonValue::Object(entries) => entries.iter().find(|(k, _)| k == key).map(|(_, v)| v),
        _ => None,
    }
}

fn pointer<'a>(value: &'a JsonValue, path: &str) -> Option<&'a JsonValue> {
    let mut current = value;
    for key in path.split('/').filter(|k| !k.is_empty()) {
        current = member(current, key)?;
    }
    Some(current)
}

#[test]
fn index_mapping_from_properties_value_builds_fields_with_text_default_and_analyzer() {
    let properties = obj(vec![
        ("title", obj(vec![("type", s("text")), ("analyzer", s("whitespace"))])),
        ("year", obj(vec![("type", s("integer"))])),
    ]);

    let mapping = IndexMapping::from_properties_value(&properties).expect("mapping should parse");
    let title = mapping.field("title").expect("title field exists");
    let year = mapping.field("year").expect("year field exists");

    assert_eq!(title.field_type, FieldType::Text);
    assert_eq!(title.analyzer, Some(AnalyzerName::Whitespace));
    assert_eq!(year.field_type, FieldType::Integer);
    assert_eq!(year.analyzer, None);
}

#[test]
fn index_mapping_accepts_short_and_byte_numeric_types() {
    let properties = obj(vec![("AGE_DECES", obj(vec![("type", s("short"))])), ("tiny", obj(vec![("type", s("byte"))]))]);

    let mapping = IndexMapping::from_properties_value(&properties).expect("mapping should parse");
    assert_eq!(mapping.field("AGE_DECES").expect("AGE_DECES exists").field_type, FieldType::Short);
    assert_eq!(mapping.field("tiny").expect("tiny exists").field_type, FieldType::Byte);
    assert_eq!(pointer(&mapping.as_value(), "/properties/AGE_DECES/type"), Some(&s("short")));
    assert_eq!(pointer(&mapping.as_value(), "/properties/tiny/type"), Some(&s("byte")));
}

#[test]
fn index_mapping_preserves_explicit_norms_option() {
    let properties = obj(vec![("body", obj(vec![("type", s("text")), ("norms", JsonValue::Bool(false))]))]);

    let mapping = IndexMapping::from_properties_value(&properties).expect("mapping should parse");
    assert_eq!(pointer(&mapping.as_value(), "/properties/body/norms"), Some(&JsonValue::Bool(false)));
}

#[test]
fn index_mapping_infer_from_document_indexes_scalar_and_array_types() {
    let document = obj(vec![
        ("title", s("Rust Search")),
        ("stock", n(10)),
        ("meta", obj(vec![("flag", JsonValue::Bool(true))])),
        ("tags", arr(vec![s("a"), s("b")])),
    ]);

    let mapping = IndexMapping::infer_from_document(&document);
    let title = mapping.field("title").expect("title exists");
    let stock = mapping.field("stock").expect("stock exists");
    let tags = mapping.field("tags").expect("tags exists");

    assert_eq!(title.field_type, FieldType::Text);
    assert_eq!(stock.field_type, FieldType::Integer);
    assert_eq!(tags.field_type, FieldType::Text);
}

#[test]
fn index_mapping_infers_numeric_strings_as_keyword_fields() {
    let document = obj(vec![("postcode", s("33000")), ("city_code", s("75103")), ("label", s("1 Rue Payenne 75003 Paris"))]);

    let mapping = IndexMapping::infer_from_document(&document);
    let postcode = mapping.field("postcode").expect("postcode exists");
    let city_code = mapping.field("city_code").expect("city_code exists");
    let label = mapping.field("label").expect("label exists");

    assert_eq!(postcode.field_type, FieldType::Keyword);
    assert_eq!(city_code.field_type, FieldType::Keyword);
    assert_eq!(label.field_type, FieldType::Text);
}

#[test]
fn index_mapping_accepts_custom_analyzer_name() {
    let properties = obj(vec![("title", obj(vec![("type", s("text")), ("analyzer", s("autocomplete_analyzer"))]))]);

    let mapping = IndexMapping::from_properties_value(&properties).expect("custom analyzer parses");
    let title = mapping.field("title").expect("title exists");
    assert_eq!(title.analyzer, None);
    assert_eq!(title.custom_analyzer.as_deref(), Some("autocomplete_analyzer"));
}

#[test]
fn index_mapping_rejects_analyzer_on_non_text_field() {
    let properties = obj(vec![("year", obj(vec![("type", s("integer")), ("analyzer", s("simple"))]))]);

    let error = IndexMapping::from_properties_value(&properties).expect_err("analyzer on non-text");
    assert!(matches!(error, MappingError::AnalyzerNotSupported { .. }), "unexpected mapping error: {error:?}");
}

#[test]
fn index_mapping_adds_default_mapping_for_new_fields() {
    let mut mapping = IndexMapping::default();
    mapping.set_field_mapping("title", FieldMapping::new(FieldType::Text, Some(AnalyzerName::Standard)));

    let document = obj(vec![("title", s("one")), ("year", n(2026))]);

    mapping.ensure_fields(&document);
    assert!(mapping.has_field("year"));
    assert_eq!(mapping.field("year").expect("year exists").field_type, FieldType::Integer);
}

#[test]
fn parses_deces_index_settings_with_edge_ngram_norm_and_normalizer() {
    let settings = obj(vec![(
        "analysis",
        obj(vec![
            (
                "tokenizer",
                obj(vec![(
                    "edge_ngram_tokenizer",
                    obj(vec![
                        ("type", s("edge_ngram")),
                        ("min_gram", n(2)),
                        ("max_gram", n(20)),
                        ("token_chars", arr(vec![s("letter"), s("digit")])),
                    ]),
                )]),
            ),
            (
                "analyzer",
                obj(vec![
                    ("autocomplete_analyzer", obj(vec![("tokenizer", s("edge_ngram_tokenizer"))])),
                    ("norm", obj(vec![("tokenizer", s("standard")), ("filter", arr(vec![s("lowercase"), s("asciifolding")]))])),
                ]),
            ),
            (
                "normalizer",
                obj(vec![("norm", obj(vec![("type", s("custom")), ("filter", arr(vec![s("lowercase"), s("asciifolding")]))]))]),
            ),
        ]),
    )]);

    let analysis = IndexMapping::from_index_settings_value(&settings).expect("settings.analysis should parse without error");

    let tokenizer = analysis.tokenizers.get("edge_ngram_tokenizer").expect("edge_ngram_tokenizer registered");
    assert_eq!(tokenizer.min_gram, 2);
    assert_eq!(tokenizer.max_gram, 20);
    assert_eq!(tokenizer.token_chars, vec!["letter".to_owned(), "digit".to_owned()]);

    let norm_analyzer = analysis.analyzers.get("norm").expect("norm analyzer registered");
    assert_eq!(norm_analyzer.tokenizer, "standard");
    assert_eq!(norm_analyzer.filter, vec!["lowercase".to_owned(), "asciifolding".to_owned()]);

    let autocomplete = analysis.analyzers.get("autocomplete_analyzer").expect("autocomplete_analyzer registered");
    assert_eq!(autocomplete.tokenizer, "edge_ngram_tokenizer");
    assert!(autocomplete.filter.is_empty());

    let normalizer = analysis.normalizers.get("norm").expect("norm normalizer registered");
    assert_eq!(normalizer.kind, "custom");
    assert_eq!(normalizer.filter, vec!["lowercase".to_owned(), "asciifolding".to_owned()]);
}

#[test]
fn from_properties_value_accepts_norm_analyzer_on_text_field() {
    let properties = obj(vec![("NOM", obj(vec![("type", s("text")), ("analyzer", s("norm"))]))]);

    let mapping = IndexMapping::from_properties_value(&properties).expect("norm analyzer should resolve to a builtin");
    let nom = mapping.field("NOM").expect("NOM field exists");
    assert_eq!(nom.field_type, FieldType::Text);
    assert_eq!(nom.analyzer, Some(AnalyzerName::Norm));
}

#[test]
fn from_properties_value_accepts_normalizer_on_keyword_field() {
    let properties = obj(vec![("raw", obj(vec![("type", s("keyword")), ("normalizer", s("norm"))]))]);

    let mapping = IndexMapping::from_properties_value(&properties).expect("normalizer on keyword should parse");
    let raw = mapping.field("raw").expect("raw field exists");
    assert_eq!(raw.field_type, FieldType::Keyword);
    assert_eq!(raw.normalizer, Some(AnalyzerName::Norm));
}

#[test]
fn from_properties_value_accepts_empty_index_prefixes_with_defaults() {
    let properties = obj(vec![("NOM", obj(vec![("type", s("text")), ("index_prefixes", obj(vec![]))]))]);

    let mapping = IndexMapping::from_properties_value(&properties).expect("empty index_prefixes should default to min=2/max=5");
    let nom = mapping.field("NOM").expect("NOM field exists");
    assert_eq!(nom.field_type, FieldType::Text);
    let prefixes = nom.index_prefixes.expect("index_prefixes recorded on NOM");
    assert_eq!(prefixes.min_chars, FieldPrefixes::DEFAULT_MIN_CHARS);
    assert_eq!(prefixes.max_chars, FieldPrefixes::DEFAULT_MAX_CHARS);
    assert_eq!(prefixes.min_chars, 2);
    assert_eq!(prefixes.max_chars, 5);
}

#[test]
fn from_properties_value_accepts_explicit_index_prefixes_bounds() {
    let properties = obj(vec![(
        "NOM",
        obj(vec![("type", s("text")), ("index_prefixes", obj(vec![("min_chars", n(2)), ("max_chars", n(5))]))]),
    )]);

    let mapping = IndexMapping::from_properties_value(&properties).expect("explicit index_prefixes bounds should parse");
    let prefixes = mapping.field("NOM").and_then(|field| field.index_prefixes).expect("index_prefixes recorded on NOM");
    assert_eq!(prefixes.min_chars, 2);
    assert_eq!(prefixes.max_chars, 5);
}

#[test]
fn from_properties_value_rejects_inverted_index_prefixes_bounds() {
    let properties = obj(vec![(
        "NOM",
        obj(vec![("type", s("text")), ("index_prefixes", obj(vec![("min_chars", n(20)), ("max_chars", n(5))]))]),
    )]);

    let error = IndexMapping::from_properties_value(&properties).expect_err("min_chars > max_chars should be rejected");
    assert!(
        matches!(
            &error,
            MappingError::IndexPrefixesBoundsInvalid { field, min_chars: 20, max_chars: 5 } if field == "NOM"
        ),
        "expected IndexPrefixesBoundsInvalid for NOM, got {error:?}",
    );
}

#[test]
fn from_properties_value_accepts_geo_point_field_type() {
    let properties = obj(vec![("GEOPOINT_NAISSANCE", obj(vec![("type", s("geo_point"))]))]);

    let mapping = IndexMapping::from_properties_value(&properties).expect("geo_point should be accepted as a field type");
    let field = mapping.field("GEOPOINT_NAISSANCE").expect("GEOPOINT_NAISSANCE field exists");
    assert_eq!(field.field_type, FieldType::GeoPoint);
}

#[test]
fn geo_point_field_round_trips_through_as_value() {
    let properties = obj(vec![("GEOPOINT_DECES", obj(vec![("type", s("geo_point"))]))]);

    let mapping = IndexMapping::from_properties_value(&properties).expect("geo_point parse");
    let value = mapping.as_value();
    assert_eq!(pointer(&value, "/properties/GEOPOINT_DECES/type"), Some(&JsonValue::String("geo_point".to_owned())));
}

#[test]
fn geo_point_field_rejects_analyzer_and_normalizer() {
    let properties = obj(vec![("GEOPOINT_NAISSANCE", obj(vec![("type", s("geo_point")), ("analyzer", s("norm"))]))]);
    let error = IndexMapping::from_properties_value(&properties).expect_err("analyzer on geo_point must be rejected");
    assert!(
        matches!(
            &error,
            MappingError::AnalyzerNotSupported { field, field_type }
                if field == "GEOPOINT_NAISSANCE" && field_type == "geo_point",
        ),
        "got {error:?}"
    );
}

#[test]
fn from_properties_value_accepts_date_with_explicit_yyyymmdd_format() {
    let properties = obj(vec![("DATE_NAISSANCE", obj(vec![("type", s("date")), ("format", s("yyyyMMdd"))]))]);
    let mapping = IndexMapping::from_properties_value(&properties).expect("date{format:yyyyMMdd} should parse");
    let field = mapping.field("DATE_NAISSANCE").expect("DATE_NAISSANCE field exists");
    assert_eq!(field.field_type, FieldType::Date);
    assert_eq!(field.date_format.as_deref(), Some("yyyyMMdd"));
    assert_eq!(field.date_format(), Some("yyyyMMdd"));
}

#[test]
fn from_properties_value_accepts_bare_date_with_default_format() {
    let properties = obj(vec![("DATE_NAISSANCE", obj(vec![("type", s("date"))]))]);
    let mapping = IndexMapping::from_properties_value(&properties).expect("bare `type: date` should parse");
    let field = mapping.field("DATE_NAISSANCE").expect("DATE_NAISSANCE field exists");
    assert_eq!(field.field_type, FieldType::Date);
    assert!(field.date_format.is_none());
    assert_eq!(field.date_format(), Some(DEFAULT_DATE_FORMAT));
    assert_eq!(field.date_format(), Some("yyyyMMdd"));
}

#[test]
fn from_properties_value_accepts_arbitrary_date_format_string_for_mvp() {
    let properties = obj(vec![("WHEN", obj(vec![("type", s("date")), ("format", s("nonsensical"))]))]);
    let mapping = IndexMapping::from_properties_value(&properties).expect("unknown date format strings are accepted at parse time");
    let field = mapping.field("WHEN").expect("WHEN field exists");
    assert_eq!(field.field_type, FieldType::Date);
    assert_eq!(field.date_format.as_deref(), Some("nonsensical"));
    let rendered = mapping.as_value();
    let format = match pointer(&rendered, "/properties/WHEN/format") {
        Some(JsonValue::String(f)) => Some(f.as_str()),
        _ => None,
    };
    assert_eq!(format, Some("nonsensical"));
}

#[test]
fn from_properties_value_rejects_format_on_non_date_field() {
    let properties = obj(vec![("NOM", obj(vec![("type", s("text")), ("format", s("yyyyMMdd"))]))]);
    let error = IndexMapping::from_properties_value(&properties).expect_err("format on non-date should error");
    assert!(matches!(error, MappingError::DateFormatNotSupported { .. }), "unexpected error: {error:?}");
}

fn multi_field_properties() -> JsonValue {
    obj(vec![(
        "NOM",
        obj(vec![
            ("type", s("text")),
            ("analyzer", s("norm")),
            ("fields", obj(vec![("raw", obj(vec![("type", s("keyword")), ("normalizer", s("norm"))]))])),
        ]),
    )])
}

#[test]
fn from_properties_value_parses_multi_field_subfields() {
    let mapping = IndexMapping::from_properties_value(&multi_field_properties()).expect("multi-field mapping should parse");
    let nom = mapping.field("NOM").expect("NOM field exists");
    assert_eq!(nom.field_type, FieldType::Text);
    assert_eq!(nom.analyzer, Some(AnalyzerName::Norm));
    let raw = nom.fields.get("raw").expect("NOM.raw sub-field recorded");
    assert_eq!(raw.field_type, FieldType::Keyword);
    assert_eq!(raw.normalizer, Some(AnalyzerName::Norm));
}

#[test]
fn multi_field_subfields_round_trip_through_as_value() {
    let mapping = IndexMapping::from_properties_value(&multi_field_properties()).expect("multi-field mapping should parse");
    let value = mapping.as_value();
    let raw = pointer(&value, "/properties/NOM/fields/raw").expect("NOM.raw rendered under fields.raw");
    assert_eq!(member(raw, "type"), Some(&JsonValue::String("keyword".to_owned())));
    assert_eq!(member(raw, "normalizer"), Some(&JsonValue::String("norm".to_owned())));
}

#[test]
fn resolve_field_walks_into_multi_field_subfields() {
    let properties = obj(vec![(
        "NOM",
        obj(vec![
            ("type", s("text")),
            ("fields", obj(vec![("raw", obj(vec![("type", s("keyword")), ("normalizer", s("norm"))]))])),
        ]),
    )]);
    let mapping = IndexMapping::from_properties_value(&properties).expect("multi-field mapping should parse");
    let raw = mapping.resolve_field("NOM.raw").expect("NOM.raw resolvable via dotted path");
    assert_eq!(raw.field_type, FieldType::Keyword);
    assert_eq!(mapping.subfield_normalizer("NOM.raw"), Some(AnalyzerName::Norm));
    assert!(mapping.resolve_field("NOM").is_some());
    assert!(mapping.resolve_field("UNKNOWN.sub").is_none());
    assert!(mapping.subfield_normalizer("NOM").is_none());
}

#[test]
fn from_properties_value_rejects_nested_multi_field_subfields() {
    let properties = obj(vec![(
        "NOM",
        obj(vec![
            ("type", s("text")),
            (
                "fields",
                obj(vec![(
                    "raw",
                    obj(vec![("type", s("keyword")), ("fields", obj(vec![("inner", obj(vec![("type", s("keyword"))]))]))]),
                )]),
            ),
        ]),
    )]);
    let error = IndexMapping::from_properties_value(&properties).expect_err("nested fields must be rejected");
    assert!(
        matches!(&error, MappingError::NestedSubfieldsNotSupported { field } if field == "NOM.raw"),
        "unexpected error: {error:?}",
    );
}

#[test]
fn from_properties_value_rejects_unsupported_multi_field_subfield_type() {
    let properties = obj(vec![(
        "NOM",
        obj(vec![("type", s("text")), ("fields", obj(vec![("raw", obj(vec![("type", s("bogus"))]))]))]),
    )]);
    let error = IndexMapping::from_properties_value(&properties).expect_err("unsupported sub-field type must error");
    assert!(
        matches!(
            &error,
            MappingError::UnsupportedFieldType { field, field_type } if field == "NOM.raw" && field_type == "bogus"
        ),
        "unexpected error: {error:?}",
    );
}

#[test]
fn mapping_rejects_non_object_inputs() {
    assert!(matches!(IndexMapping::from_properties_value(&s("x")), Err(MappingError::PropertiesNotObject)));
    assert!(matches!(IndexMapping::from_index_settings_value(&n(1)), Err(MappingError::SettingsNotObject)));
    let settings = obj(vec![("analysis", s("x"))]);
    assert!(matches!(IndexMapping::from_index_settings_value(&settings), Err(MappingError::AnalysisNotObject)));
    let settings = obj(vec![("analysis", obj(vec![("analyzer", arr(vec![]))]))]);
    assert!(matches!(
        IndexMapping::from_index_settings_value(&settings),
        Err(MappingError::AnalysisSectionNotObject { section }) if section == "analyzer"
    ));
    let properties = obj(vec![("title", s("text"))]);
    assert!(matches!(
        IndexMapping::from_properties_value(&properties),
        Err(MappingError::FieldDefinitionNotObject { field }) if field == "title"
    ));
}

#[test]
fn mapping_rejects_blank_field_names() {
    let properties = obj(vec![("  ", obj(vec![("type", s("text"))]))]);
    assert!(matches!(IndexMapping::from_properties_value(&properties), Err(MappingError::EmptyFieldName)));
    let properties = obj(vec![("NOM", obj(vec![("fields", obj(vec![(" ", obj(vec![]))]))]))]);
    assert!(matches!(
        IndexMapping::from_properties_value(&properties),
        Err(MappingError::EmptySubfieldName { field }) if field == "NOM"
    ));
}

#[test]
fn settings_skip_other_tokenizers_and_require_edge_ngram_bounds() {
    let settings = obj(vec![(
        "analysis",
        obj(vec![("tokenizer", obj(vec![("plain", obj(vec![("type", s("standard"))])), ("grams", obj(vec![("type", s("edge_ngram")), ("min_gram", n(1))]))]))]),
    )]);
    let error = IndexMapping::from_index_settings_value(&settings).expect_err("missing max_gram");
    assert!(matches!(
        error,
        MappingError::EdgeNgramMissingBound { name, bound } if name == "grams" && bound == "max_gram"
    ));

    let settings = obj(vec![("analysis", obj(vec![("tokenizer", obj(vec![("plain", obj(vec![("type", s("standard"))]))]))]))]);
    let analysis = IndexMapping::from_index_settings_value(&settings).expect("unknown tokenizer skipped");
    assert!(analysis.tokenizers.is_empty());
    let analysis = IndexMapping::from_index_settings_value(&obj(vec![])).expect("no analysis block");
    assert!(analysis.analyzers.is_empty());
}

#[test]
fn settings_reject_a_filter_that_is_not_an_array() {
    let settings = obj(vec![("analysis", obj(vec![("normalizer", obj(vec![("lower", obj(vec![("filter", s("lowercase"))]))]))]))]);
    let error = IndexMapping::from_index_settings_value(&settings).expect_err("filter must be an array");
    assert!(matches!(
        error,
        MappingError::AnalysisFilterNotArray { section, name } if section == "normalizer" && name == "lower"
    ));
}

#[test]
fn index_prefixes_reject_unknown_keys_and_non_integers() {
    let error = parse_index_prefixes("NOM", &obj(vec![("max_chars", n(5)), ("size", n(2))])).expect_err("unknown key");
    assert!(matches!(error, MappingError::IndexPrefixesUnknownKey { field, key } if field == "NOM" && key == "size"));
    let error = parse_index_prefixes("NOM", &obj(vec![("min_chars", s("2"))])).expect_err("not an integer");
    assert!(matches!(error, MappingError::IndexPrefixesBoundNotUnsigned { bound, .. } if bound == "min_chars"));
    let error = parse_index_prefixes("NOM", &n(3)).expect_err("not an object");
    assert!(matches!(error, MappingError::IndexPrefixesNotObject { .. }));
    let error = parse_index_prefixes("NOM", &obj(vec![("max_chars", n(21))])).expect_err("too wide");
    assert!(matches!(error, MappingError::IndexPrefixesBoundsInvalid { min_chars: 2, max_chars: 21, .. }));
    assert_eq!(
        parse_index_prefixes("NOM", &obj(vec![("max_chars", n(20)), ("min_chars", n(3))])).expect("valid"),
        FieldPrefixes { min_chars: 3, max_chars: 20 }
    );
}

#[test]
fn field_definitions_default_to_text_and_keep_options() {
    let parsed = parse_field_definition("title", &obj(vec![]), true).expect("empty definition");
    assert_eq!(parsed.field_type, FieldType::Text);
    assert_eq!(parsed.analyzer(), AnalyzerName::Simple);
    assert!(parsed.norms_enabled());
    let parsed = parse_field_definition("code", &obj(vec![("type", s("keyword")), ("norms", JsonValue::Bool(true))]), true)
        .expect("keyword");
    assert_eq!(parsed.analyzer(), AnalyzerName::Keyword);
    assert!(parsed.norms_enabled());
    let error = parse_field_definition("code", &obj(vec![("norms", s("no"))]), true).expect_err("norms must be a bool");
    assert!(matches!(error, MappingError::NormsNotBoolean { .. }));
    let error = parse_field_definition("code", &obj(vec![("normalizer", s("fancy"))]), true).expect_err("unknown normalizer");
    assert!(matches!(error, MappingError::UnsupportedNormalizer { normalizer, .. } if normalizer == "fancy"));
}

#[test]
fn analyzer_names_are_matched_case_insensitively() {
    assert_eq!(AnalyzerName::from_name("NORM"), Some(AnalyzerName::Norm));
    assert_eq!(AnalyzerName::from_name("Whitespace"), Some(AnalyzerName::Whitespace));
    assert_eq!(AnalyzerName::from_name("autocomplete"), None);
    assert_eq!(FieldType::from_name("int"), Some(FieldType::Integer));
    assert_eq!(FieldType::from_name("bool"), Some(FieldType::Boolean));
    assert_eq!(FieldType::from_name("unknown"), None);
    assert_eq!(FieldType::Unknown.as_str(), "unknown");
    assert_eq!(AnalyzerName::default_for(FieldType::Text), AnalyzerName::Simple);
}

#[test]
fn inferred_types_follow_the_json_kind() {
    assert_eq!(infer_field_type(&JsonValue::Null), FieldType::Unknown);
    assert_eq!(infer_field_type(&JsonValue::Number(JsonNumber::Float)), FieldType::Double);
    assert_eq!(infer_field_type(&JsonValue::Number(JsonNumber::NegInt(-3))), FieldType::Integer);
    assert_eq!(infer_field_type(&arr(vec![])), FieldType::Array);
    assert_eq!(infer_field_type(&arr(vec![JsonValue::Null, n(1)])), FieldType::Integer);
    assert_eq!(infer_field_type(&s("")), FieldType::Text);
    assert_eq!(infer_field_type(&obj(vec![])), FieldType::Object);
}

#[test]
fn ensure_fields_keeps_declared_mappings() {
    let mut mapping = IndexMapping::new();
    mapping.set_field_mapping("year", FieldMapping::new(FieldType::Keyword, None));
    mapping.ensure_fields(&obj(vec![("year", n(2026))]));
    assert_eq!(mapping.field("year").expect("year").field_type, FieldType::Keyword);
    assert_eq!(mapping.analyzer("missing"), AnalyzerName::Simple);
    assert!(mapping.norms_enabled("missing"));
    assert!(!mapping.norms_enabled("year"));
    assert_eq!(mapping.fields().len(), 1);
}

#[test]
fn field_mapping_renders_every_option_in_key_order() {
    let mapping = FieldMapping::with_norms(FieldType::Text, Some(AnalyzerName::Stop), Some(false))
        .with_index_prefixes(Some(FieldPrefixes { min_chars: 2, max_chars: 6 }));
    let value = mapping.as_value();
    let keys: Vec<&str> = match &value {
        JsonValue::Object(entries) => entries.iter().map(|(k, _)| k.as_str()).collect(),
        _ => Vec::new(),
    };
    assert_eq!(keys, vec!["analyzer", "index_prefixes", "norms", "type"]);
    assert_eq!(pointer(&value, "/index_prefixes/max_chars"), Some(&n(6)));
    let date = FieldMapping::new(FieldType::Date, None).as_value();
    assert_eq!(member(&date, "format"), Some(&s("yyyyMMdd")));
}

#[test]
fn mapping_round_trips_through_its_json_form() {
    let properties = obj(vec![
        (
            "NOM",
            obj(vec![
                ("type", s("text")),
                ("analyzer", s("norm")),
                ("norms", JsonValue::Bool(false)),
                ("index_prefixes", obj(vec![("min_chars", n(3)), ("max_chars", n(9))])),
                ("fields", obj(vec![("raw", obj(vec![("type", s("keyword")), ("normalizer", s("norm"))]))])),
            ]),
        ),
        ("DATE", obj(vec![("type", s("date")), ("format", s("yyyy"))])),
        ("title", obj(vec![("analyzer", s("autocomplete_analyzer"))])),
    ]);
    let mapping = IndexMapping::from_properties_value(&properties).expect("mapping");
    let rendered = mapping.as_value();
    let again = IndexMapping::from_properties_value(pointer(&rendered, "/properties").expect("properties")).expect("re-parse");
    assert_eq!(again, mapping);
    assert_eq!(again.as_value(), rendered);
}
