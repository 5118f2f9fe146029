//! Index mappings: field types, analyzers and per-field options parsed from
//! the JSON `properties` and `settings.analysis` blocks of an index
//! definition, and rendered back to JSON.

use vstd::prelude::*;

use crate::string_map::{sorted_names, StringMap};
use crate::mapping_laws::{law_properties_round_trip, lemma_object_view_index, renderable_field};
use crate::text::{blank, chars_of, concat, is_blank, str_eq, string_of, substring};
use vstd::string::StringSliceAdditionalSpecFns;

verus! {

// ----- JSON values -----

/// A JSON number, by the kind that the mapping logic reads: unsigned,
/// negative, or floating point (whose value the logic never reads).
#[derive(Debug, Clone, Copy, PartialEq, Eq, Structural)]
pub enum JsonNumber {
    PosInt(u64),
    NegInt(i64),
    Float,
}

/// A JSON value; an object maps its keys, in order, to values.
#[derive(Debug, PartialEq, Eq)]
pub enum JsonValue {
    Null,
    Bool(bool),
    Number(JsonNumber),
    String(String),
    Array(Vec<JsonValue>),
    Object(Vec<(String, JsonValue)>),
}

/// Every object of `v`, however deep, has ordered keys.
pub open spec fn json_wf(v: JsonValue) -> bool
    decreases v,
{
    match v {
        JsonValue::Array(a) => forall|i: int| 0 <= i < a@.len() ==> json_wf(#[trigger] a@[i]),
        JsonValue::Object(m) => crate::string_map::sorted_names(m@.map_values(|e: (String, JsonValue)| e.0@))
            && forall|i: int| 0 <= i < m@.len() ==> json_wf(#[trigger] m@[i].1),
        _ => true,
    }
}

pub open spec fn str_of(v: JsonValue) -> Option<Seq<char>> {
    match v {
        JsonValue::String(s) => Some(s@),
        _ => None,
    }
}

pub open spec fn u64_of(v: JsonValue) -> Option<u64> {
    match v {
        JsonValue::Number(JsonNumber::PosInt(n)) => Some(n),
        _ => None,
    }
}

pub open spec fn bool_of(v: JsonValue) -> Option<bool> {
    match v {
        JsonValue::Bool(b) => Some(b),
        _ => None,
    }
}

/// The value of the first entry of `m` named `k`.
pub open spec fn field_of(m: Seq<(String, JsonValue)>, k: Seq<char>) -> Option<JsonValue>
    decreases m.len(),
{
    if m.len() == 0 {
        None
    } else if m[0].0@ == k {
        Some(m[0].1)
    } else {
        field_of(m.drop_first(), k)
    }
}

fn json_get<'a>(m: &'a Vec<(String, JsonValue)>, key: &str) -> (r: Option<&'a JsonValue>)
    ensures
        match field_of(m@, key@) {
            Some(v) => r == Some(&v),
            None => r is None,
        },
{
    let mut i: usize = 0;
    assert(m@.subrange(0, m@.len() as int) =~= m@);
    while i < m.len()
        invariant
            i <= m@.len(),
            field_of(m@, key@) == field_of(m@.subrange(i as int, m@.len() as int), key@),
        decreases m.len() - i,
    {
        let ghost rest = m@.subrange(i as int, m@.len() as int);
        assert(rest.drop_first() =~= m@.subrange(i + 1, m@.len() as int));
        if str_eq(m[i].0.as_str(), key) {
            return Some(&m[i].1);
        }
        i += 1;
    }
    None
}

fn json_str(v: &JsonValue) -> (r: Option<&str>)
    ensures
        match str_of(*v) {
            Some(s) => (r matches Some(x) && x@ == s),
            None => r is None,
        },
{
    match v {
        JsonValue::String(s) => Some(s.as_str()),
        _ => None,
    }
}

// ----- field types and analyzers -----

#[derive(Debug, Clone, Copy, PartialEq, Eq, Structural)]
pub enum FieldType {
    Text,
    Keyword,
    Integer,
    Long,
    Short,
    Byte,
    Float,
    Double,
    Boolean,
    Date,
    /// A latitude and longitude pair.
    GeoPoint,
    Object,
    Array,
    Unknown,
}

pub open spec fn field_type_name(t: FieldType) -> Seq<char> {
    match t {
        FieldType::Text => "text"@,
        FieldType::Keyword => "keyword"@,
        FieldType::Integer => "integer"@,
        FieldType::Long => "long"@,
        FieldType::Short => "short"@,
        FieldType::Byte => "byte"@,
        FieldType::Float => "float"@,
        FieldType::Double => "double"@,
        FieldType::Boolean => "boolean"@,
        FieldType::Date => "date"@,
        FieldType::GeoPoint => "geo_point"@,
        FieldType::Object => "object"@,
        FieldType::Array => "array"@,
        FieldType::Unknown => "unknown"@,
    }
}

/// The type a mapping names: the names of [`field_type_name`], `int` and `bool`
/// too; `unknown` is no name.
pub open spec fn type_of_name(s: Seq<char>) -> Option<FieldType> {
    if s == "text"@ {
        Some(FieldType::Text)
    } else if s == "keyword"@ {
        Some(FieldType::Keyword)
    } else if s == "integer"@ || s == "int"@ {
        Some(FieldType::Integer)
    } else if s == "long"@ {
        Some(FieldType::Long)
    } else if s == "short"@ {
        Some(FieldType::Short)
    } else if s == "byte"@ {
        Some(FieldType::Byte)
    } else if s == "float"@ {
        Some(FieldType::Float)
    } else if s == "double"@ {
        Some(FieldType::Double)
    } else if s == "boolean"@ || s == "bool"@ {
        Some(FieldType::Boolean)
    } else if s == "date"@ {
        Some(FieldType::Date)
    } else if s == "geo_point"@ {
        Some(FieldType::GeoPoint)
    } else if s == "object"@ {
        Some(FieldType::Object)
    } else if s == "array"@ {
        Some(FieldType::Array)
    } else {
        None
    }
}

impl FieldType {
    pub fn as_str(&self) -> (r: &'static str)
        ensures
            r@ == field_type_name(*self),
    {
        match self {
            FieldType::Text => "text",
            FieldType::Keyword => "keyword",
            FieldType::Integer => "integer",
            FieldType::Long => "long",
            FieldType::Short => "short",
            FieldType::Byte => "byte",
            FieldType::Float => "float",
            FieldType::Double => "double",
            FieldType::Boolean => "boolean",
            FieldType::Date => "date",
            FieldType::GeoPoint => "geo_point",
            FieldType::Object => "object",
            FieldType::Array => "array",
            FieldType::Unknown => "unknown",
        }
    }

    pub fn from_name(value: &str) -> (r: Option<FieldType>)
        ensures
            r == type_of_name(value@),
    {
        if str_eq(value, "text") {
            Some(FieldType::Text)
        } else if str_eq(value, "keyword") {
            Some(FieldType::Keyword)
        } else if str_eq(value, "integer") || str_eq(value, "int") {
            Some(FieldType::Integer)
        } else if str_eq(value, "long") {
            Some(FieldType::Long)
        } else if str_eq(value, "short") {
            Some(FieldType::Short)
        } else if str_eq(value, "byte") {
            Some(FieldType::Byte)
        } else if str_eq(value, "float") {
            Some(FieldType::Float)
        } else if str_eq(value, "double") {
            Some(FieldType::Double)
        } else if str_eq(value, "boolean") || str_eq(value, "bool") {
            Some(FieldType::Boolean)
        } else if str_eq(value, "date") {
            Some(FieldType::Date)
        } else if str_eq(value, "geo_point") {
            Some(FieldType::GeoPoint)
        } else if str_eq(value, "object") {
            Some(FieldType::Object)
        } else if str_eq(value, "array") {
            Some(FieldType::Array)
        } else {
            None
        }
    }
}

#[derive(Debug, Clone, Copy, PartialEq, Eq, Structural)]
pub enum AnalyzerName {
    Standard,
    Simple,
    Stop,
    Keyword,
    Whitespace,
    /// The standard tokenizer, then lowercasing and ASCII folding.
    Norm,
}

pub open spec fn analyzer_name(a: AnalyzerName) -> Seq<char> {
    match a {
        AnalyzerName::Standard => "standard"@,
        AnalyzerName::Simple => "simple"@,
        AnalyzerName::Stop => "stop"@,
        AnalyzerName::Keyword => "keyword"@,
        AnalyzerName::Whitespace => "whitespace"@,
        AnalyzerName::Norm => "norm"@,
    }
}

/// The builtin analyzer named exactly `s`.
pub open spec fn analyzer_of_exact_name(s: Seq<char>) -> Option<AnalyzerName> {
    if s == "standard"@ {
        Some(AnalyzerName::Standard)
    } else if s == "simple"@ {
        Some(AnalyzerName::Simple)
    } else if s == "stop"@ {
        Some(AnalyzerName::Stop)
    } else if s == "keyword"@ {
        Some(AnalyzerName::Keyword)
    } else if s == "whitespace"@ {
        Some(AnalyzerName::Whitespace)
    } else if s == "norm"@ {
        Some(AnalyzerName::Norm)
    } else {
        None
    }
}

/// The lower-case form of `s`, as `str::to_lowercase` gives it.
pub uninterp spec fn lowercase(s: Seq<char>) -> Seq<char>;

/// Whether `s` holds only the letters `a` to `z`.
pub open spec fn lower_ascii_letters(s: Seq<char>) -> bool {
    forall|i: int| 0 <= i < s.len() ==> 'a' <= #[trigger] s[i] && s[i] <= 'z'
}

/// Whether every character of `s` is ASCII.
pub open spec fn ascii_chars(s: Seq<char>) -> bool {
    forall|i: int| 0 <= i < s.len() ==> (#[trigger] s[i] as u32) < 128
}

/// `c` with `A` to `Z` lowered to `a` to `z`, any other character kept.
pub open spec fn ascii_lower_char(c: char) -> char {
    if 'A' <= c && c <= 'Z' {
        ((c as u32) + 32) as char
    } else {
        c
    }
}

/// `s` with its ASCII capitals lowered.
pub open spec fn ascii_lower(s: Seq<char>) -> Seq<char> {
    s.map_values(|c: char| ascii_lower_char(c))
}

/// Lower-case ASCII letters are ASCII and their own lowered form.
pub proof fn lemma_lower_letters_ascii(s: Seq<char>)
    requires
        lower_ascii_letters(s),
    ensures
        ascii_chars(s),
        ascii_lower(s) == s,
{
    assert forall|i: int| 0 <= i < s.len() implies (#[trigger] s[i] as u32) < 128 by {
        assert('a' <= s[i] && s[i] <= 'z');
    }
    assert(ascii_lower(s) =~= s);
}

/// Lowercases a string.
///
/// Trusted: calls `str::to_lowercase`, which std documents as the Unicode
/// lower-case mapping of each character; the contract names the result
/// `lowercase` of the input, and states that an ASCII string comes back
/// with `A` to `Z` lowered and every other character unchanged (the
/// Unicode lower case of an ASCII character). What it gives outside ASCII
/// is left to the name.
#[verifier::external_body]
fn to_lowercase(s: &str) -> (r: String)
    ensures
        r@ == lowercase(s@),
        ascii_chars(s@) ==> r@ == ascii_lower(s@),
{
    s.to_lowercase()
}

/// The builtin analyzer a name designates, case aside: an ASCII name is
/// compared with its capitals lowered.
pub open spec fn analyzer_of_name(s: Seq<char>) -> Option<AnalyzerName> {
    if ascii_chars(s) {
        analyzer_of_exact_name(ascii_lower(s))
    } else {
        analyzer_of_exact_name(lowercase(s))
    }
}

pub open spec fn default_analyzer(t: FieldType) -> AnalyzerName {
    match t {
        FieldType::Text => AnalyzerName::Simple,
        _ => AnalyzerName::Keyword,
    }
}

impl AnalyzerName {
    pub fn as_str(&self) -> (r: &'static str)
        ensures
            r@ == analyzer_name(*self),
    {
        match self {
            AnalyzerName::Standard => "standard",
            AnalyzerName::Simple => "simple",
            AnalyzerName::Stop => "stop",
            AnalyzerName::Keyword => "keyword",
            AnalyzerName::Whitespace => "whitespace",
            AnalyzerName::Norm => "norm",
        }
    }

    /// The builtin analyzer named `value`, case aside.
    pub fn from_name(value: &str) -> (r: Option<AnalyzerName>)
        ensures
            r == analyzer_of_name(value@),
    {
        let lower = to_lowercase(value);
        let v = lower.as_str();
        if str_eq(v, "standard") {
            Some(AnalyzerName::Standard)
        } else if str_eq(v, "simple") {
            Some(AnalyzerName::Simple)
        } else if str_eq(v, "stop") {
            Some(AnalyzerName::Stop)
        } else if str_eq(v, "keyword") {
            Some(AnalyzerName::Keyword)
        } else if str_eq(v, "whitespace") {
            Some(AnalyzerName::Whitespace)
        } else if str_eq(v, "norm") {
            Some(AnalyzerName::Norm)
        } else {
            None
        }
    }

    /// The analyzer a field of type `field_type` gets by default: `simple`
    /// for text, `keyword` otherwise.
    pub fn default_for(field_type: FieldType) -> (r: AnalyzerName)
        ensures
            r == default_analyzer(field_type),
    {
        match field_type {
            FieldType::Text => AnalyzerName::Simple,
            _ => AnalyzerName::Keyword,
        }
    }
}

/// The `index_prefixes` option of a text field.
#[derive(Debug, Clone, Copy, PartialEq, Eq, Structural)]
pub struct FieldPrefixes {
    pub min_chars: usize,
    pub max_chars: usize,
}

impl FieldPrefixes {
    pub const DEFAULT_MIN_CHARS: usize = 2;

    pub const DEFAULT_MAX_CHARS: usize = 5;

    pub const MAX_BOUND: usize = 20;

    pub fn defaults() -> (r: FieldPrefixes)
        ensures
            r == (FieldPrefixes { min_chars: 2, max_chars: 5 }),
    {
        FieldPrefixes { min_chars: Self::DEFAULT_MIN_CHARS, max_chars: Self::DEFAULT_MAX_CHARS }
    }
}

/// The `format` a date field gets when its mapping omits one.
pub const DEFAULT_DATE_FORMAT: &'static str = "yyyyMMdd";

} // verus!

verus! {

// ----- errors -----

#[derive(Debug, Clone, PartialEq, Eq)]
pub enum MappingError {
    PropertiesNotObject,
    EmptyFieldName,
    FieldDefinitionNotObject { field: String },
    UnsupportedFieldType { field: String, field_type: String },
    AnalyzerNotString { field: String },
    AnalyzerNotSupported { field: String, field_type: String },
    NormsNotBoolean { field: String },
    NormalizerNotString { field: String },
    UnsupportedNormalizer { field: String, normalizer: String },
    DateFormatNotString { field: String },
    DateFormatNotSupported { field: String, field_type: String },
    SettingsNotObject,
    AnalysisNotObject,
    AnalysisSectionNotObject { section: String },
    AnalysisEntryNotObject { section: String, name: String },
    AnalysisFilterNotArray { section: String, name: String },
    EdgeNgramMissingBound { name: String, bound: String },
    IndexPrefixesNotObject { field: String },
    IndexPrefixesUnknownKey { field: String, key: String },
    IndexPrefixesBoundNotUnsigned { field: String, bound: String },
    IndexPrefixesBoundsInvalid { field: String, min_chars: usize, max_chars: usize },
    IndexPrefixesNotSupported { field: String, field_type: String },
    SubfieldsNotObject { field: String },
    EmptySubfieldName { field: String },
    NestedSubfieldsNotSupported { field: String },
}

/// A [`MappingError`] with its strings taken by their characters.
pub enum MappingErrorView {
    PropertiesNotObject,
    EmptyFieldName,
    FieldDefinitionNotObject { field: Seq<char> },
    UnsupportedFieldType { field: Seq<char>, field_type: Seq<char> },
    AnalyzerNotString { field: Seq<char> },
    AnalyzerNotSupported { field: Seq<char>, field_type: Seq<char> },
    NormsNotBoolean { field: Seq<char> },
    NormalizerNotString { field: Seq<char> },
    UnsupportedNormalizer { field: Seq<char>, normalizer: Seq<char> },
    DateFormatNotString { field: Seq<char> },
    DateFormatNotSupported { field: Seq<char>, field_type: Seq<char> },
    SettingsNotObject,
    AnalysisNotObject,
    AnalysisSectionNotObject { section: Seq<char> },
    AnalysisEntryNotObject { section: Seq<char>, name: Seq<char> },
    AnalysisFilterNotArray { section: Seq<char>, name: Seq<char> },
    EdgeNgramMissingBound { name: Seq<char>, bound: Seq<char> },
    IndexPrefixesNotObject { field: Seq<char> },
    IndexPrefixesUnknownKey { field: Seq<char>, key: Seq<char> },
    IndexPrefixesBoundNotUnsigned { field: Seq<char>, bound: Seq<char> },
    IndexPrefixesBoundsInvalid { field: Seq<char>, min_chars: usize, max_chars: usize },
    IndexPrefixesNotSupported { field: Seq<char>, field_type: Seq<char> },
    SubfieldsNotObject { field: Seq<char> },
    EmptySubfieldName { field: Seq<char> },
    NestedSubfieldsNotSupported { field: Seq<char> },
}

impl View for MappingError {
    type V = MappingErrorView;

    open spec fn view(&self) -> MappingErrorView {
        match self {
            MappingError::PropertiesNotObject => MappingErrorView::PropertiesNotObject,
            MappingError::EmptyFieldName => MappingErrorView::EmptyFieldName,
            MappingError::FieldDefinitionNotObject { field } => MappingErrorView::FieldDefinitionNotObject { field: field@ },
            MappingError::UnsupportedFieldType { field, field_type } => MappingErrorView::UnsupportedFieldType {
                field: field@,
                field_type: field_type@,
            },
            MappingError::AnalyzerNotString { field } => MappingErrorView::AnalyzerNotString { field: field@ },
            MappingError::AnalyzerNotSupported { field, field_type } => MappingErrorView::AnalyzerNotSupported {
                field: field@,
                field_type: field_type@,
            },
            MappingError::NormsNotBoolean { field } => MappingErrorView::NormsNotBoolean { field: field@ },
            MappingError::NormalizerNotString { field } => MappingErrorView::NormalizerNotString { field: field@ },
            MappingError::UnsupportedNormalizer { field, normalizer } => MappingErrorView::UnsupportedNormalizer {
                field: field@,
                normalizer: normalizer@,
            },
            MappingError::DateFormatNotString { field } => MappingErrorView::DateFormatNotString { field: field@ },
            MappingError::DateFormatNotSupported { field, field_type } => MappingErrorView::DateFormatNotSupported {
                field: field@,
                field_type: field_type@,
            },
            MappingError::SettingsNotObject => MappingErrorView::SettingsNotObject,
            MappingError::AnalysisNotObject => MappingErrorView::AnalysisNotObject,
            MappingError::AnalysisSectionNotObject { section } => MappingErrorView::AnalysisSectionNotObject {
                section: section@,
            },
            MappingError::AnalysisEntryNotObject { section, name } => MappingErrorView::AnalysisEntryNotObject {
                section: section@,
                name: name@,
            },
            MappingError::AnalysisFilterNotArray { section, name } => MappingErrorView::AnalysisFilterNotArray {
                section: section@,
                name: name@,
            },
            MappingError::EdgeNgramMissingBound { name, bound } => MappingErrorView::EdgeNgramMissingBound {
                name: name@,
                bound: bound@,
            },
            MappingError::IndexPrefixesNotObject { field } => MappingErrorView::IndexPrefixesNotObject { field: field@ },
            MappingError::IndexPrefixesUnknownKey { field, key } => MappingErrorView::IndexPrefixesUnknownKey {
                field: field@,
                key: key@,
            },
            MappingError::IndexPrefixesBoundNotUnsigned { field, bound } => MappingErrorView::IndexPrefixesBoundNotUnsigned {
                field: field@,
                bound: bound@,
            },
            MappingError::IndexPrefixesBoundsInvalid { field, min_chars, max_chars } => MappingErrorView::IndexPrefixesBoundsInvalid {
                field: field@,
                min_chars: *min_chars,
                max_chars: *max_chars,
            },
            MappingError::IndexPrefixesNotSupported { field, field_type } => MappingErrorView::IndexPrefixesNotSupported {
                field: field@,
                field_type: field_type@,
            },
            MappingError::SubfieldsNotObject { field } => MappingErrorView::SubfieldsNotObject { field: field@ },
            MappingError::EmptySubfieldName { field } => MappingErrorView::EmptySubfieldName { field: field@ },
            MappingError::NestedSubfieldsNotSupported { field } => MappingErrorView::NestedSubfieldsNotSupported {
                field: field@,
            },
        }
    }
}

fn owned(s: &str) -> (r: String)
    ensures
        r@ == s@,
{
    s.to_owned()
}

// ----- field mappings -----

/// The sub-fields of a multi-field, by name, in `String` order.
#[derive(Debug, PartialEq, Eq)]
pub struct SubfieldMap {
    pub entries: Vec<(String, FieldMapping)>,
}

/// The options of a field.
#[derive(Debug, PartialEq, Eq)]
pub struct FieldMapping {
    pub field_type: FieldType,
    pub analyzer: Option<AnalyzerName>,
    /// An analyzer named in the mapping that is no builtin, kept verbatim.
    pub custom_analyzer: Option<String>,
    pub norms: Option<bool>,
    /// A builtin normalizer of keyword fields.
    pub normalizer: Option<AnalyzerName>,
    /// The `index_prefixes` option of text fields.
    pub index_prefixes: Option<FieldPrefixes>,
    /// The `format` of a date field, verbatim.
    pub date_format: Option<String>,
    /// The sub-fields declared under `fields`.
    pub fields: SubfieldMap,
}

/// A [`FieldMapping`] with its strings taken by their characters.
pub struct FieldMappingView {
    pub field_type: FieldType,
    pub analyzer: Option<AnalyzerName>,
    pub custom_analyzer: Option<Seq<char>>,
    pub norms: Option<bool>,
    pub normalizer: Option<AnalyzerName>,
    pub index_prefixes: Option<FieldPrefixes>,
    pub date_format: Option<Seq<char>>,
    pub fields: Seq<(Seq<char>, FieldMappingView)>,
}

pub open spec fn opt_view(s: Option<String>) -> Option<Seq<char>> {
    match s {
        Some(x) => Some(x@),
        None => None,
    }
}

pub open spec fn mapping_view(m: FieldMapping) -> FieldMappingView
    decreases m,
{
    FieldMappingView {
        field_type: m.field_type,
        analyzer: m.analyzer,
        custom_analyzer: opt_view(m.custom_analyzer),
        norms: m.norms,
        normalizer: m.normalizer,
        index_prefixes: m.index_prefixes,
        date_format: opt_view(m.date_format),
        fields: entries_view(m.fields.entries@),
    }
}

pub open spec fn entries_view(s: Seq<(String, FieldMapping)>) -> Seq<(Seq<char>, FieldMappingView)>
    decreases s,
{
    if s.len() == 0 {
        Seq::empty()
    } else {
        entries_view(s.subrange(0, s.len() - 1)).push((s[s.len() - 1].0@, mapping_view(s[s.len() - 1].1)))
    }
}

impl View for FieldMapping {
    type V = FieldMappingView;

    open spec fn view(&self) -> FieldMappingView {
        mapping_view(*self)
    }
}

} // verus!

verus! {

// ----- JSON views -----

/// A [`JsonValue`] with its strings taken by their characters.
pub enum JsonView {
    Null,
    Bool(bool),
    Number(JsonNumber),
    String(Seq<char>),
    Array(Seq<JsonView>),
    Object(Seq<(Seq<char>, JsonView)>),
}

pub open spec fn json_view(v: JsonValue) -> JsonView
    decreases v,
{
    match v {
        JsonValue::Null => JsonView::Null,
        JsonValue::Bool(b) => JsonView::Bool(b),
        JsonValue::Number(n) => JsonView::Number(n),
        JsonValue::String(s) => JsonView::String(s@),
        JsonValue::Array(a) => JsonView::Array(array_view(a@)),
        JsonValue::Object(o) => JsonView::Object(object_view(o@)),
    }
}

pub open spec fn array_view(a: Seq<JsonValue>) -> Seq<JsonView>
    decreases a,
{
    if a.len() == 0 {
        Seq::empty()
    } else {
        array_view(a.subrange(0, a.len() - 1)).push(json_view(a[a.len() - 1]))
    }
}

pub open spec fn object_view(o: Seq<(String, JsonValue)>) -> Seq<(Seq<char>, JsonView)>
    decreases o,
{
    if o.len() == 0 {
        Seq::empty()
    } else {
        object_view(o.subrange(0, o.len() - 1)).push((o[o.len() - 1].0@, json_view(o[o.len() - 1].1)))
    }
}

impl View for JsonValue {
    type V = JsonView;

    open spec fn view(&self) -> JsonView {
        json_view(*self)
    }
}

proof fn lemma_object_view_push(o: Seq<(String, JsonValue)>, e: (String, JsonValue))
    ensures
        object_view(o.push(e)) == object_view(o).push((e.0@, json_view(e.1))),
{
    assert(o.push(e).subrange(0, o.len() as int) =~= o);
}

proof fn lemma_entries_view_push(s: Seq<(String, FieldMapping)>, e: (String, FieldMapping))
    ensures
        entries_view(s.push(e)) == entries_view(s).push((e.0@, mapping_view(e.1))),
{
    assert(s.push(e).subrange(0, s.len() as int) =~= s);
}

// ----- field mapping methods -----

pub open spec fn default_norms(t: FieldType) -> bool {
    t == FieldType::Text
}

impl SubfieldMap {
    pub fn new() -> (r: SubfieldMap)
        ensures
            r.entries@.len() == 0,
    {
        SubfieldMap { entries: Vec::new() }
    }

    /// The sub-field named `name`.
    pub fn get(&self, name: &str) -> (r: Option<&FieldMapping>)
        ensures
            match field_of_mapping(self.entries@, name@) {
                Some(m) => r == Some(&m),
                None => r is None,
            },
    {
        let mut i: usize = 0;
        assert(self.entries@.subrange(0, self.entries@.len() as int) =~= self.entries@);
        while i < self.entries.len()
            invariant
                i <= self.entries@.len(),
                field_of_mapping(self.entries@, name@) == field_of_mapping(
                    self.entries@.subrange(i as int, self.entries@.len() as int),
                    name@,
                ),
            decreases self.entries.len() - i,
        {
            let ghost rest = self.entries@.subrange(i as int, self.entries@.len() as int);
            assert(rest.drop_first() =~= self.entries@.subrange(i + 1, self.entries@.len() as int));
            if str_eq(self.entries[i].0.as_str(), name) {
                return Some(&self.entries[i].1);
            }
            i += 1;
        }
        None
    }

    pub fn is_empty(&self) -> (r: bool)
        ensures
            r == (self.entries@.len() == 0),
    {
        self.entries.len() == 0
    }

    pub fn len(&self) -> (r: usize)
        ensures
            r == self.entries@.len(),
    {
        self.entries.len()
    }
}

/// The mapping of the first entry of `m` named `k`.
pub open spec fn field_of_mapping(m: Seq<(String, FieldMapping)>, k: Seq<char>) -> Option<FieldMapping>
    decreases m.len(),
{
    if m.len() == 0 {
        None
    } else if m[0].0@ == k {
        Some(m[0].1)
    } else {
        field_of_mapping(m.drop_first(), k)
    }
}

impl FieldMapping {
    pub fn new(field_type: FieldType, analyzer: Option<AnalyzerName>) -> (r: FieldMapping)
        ensures
            r@ == plain_mapping(field_type, analyzer, None),
    {
        Self::with_norms(field_type, analyzer, None)
    }

    pub fn with_norms(field_type: FieldType, analyzer: Option<AnalyzerName>, norms: Option<bool>) -> (r: FieldMapping)
        ensures
            r@ == plain_mapping(field_type, analyzer, norms),
    {
        let r = FieldMapping {
            field_type,
            analyzer,
            custom_analyzer: None,
            norms,
            normalizer: None,
            index_prefixes: None,
            date_format: None,
            fields: SubfieldMap::new(),
        };
        assert(entries_view(r.fields.entries@) =~= Seq::<(Seq<char>, FieldMappingView)>::empty());
        r
    }

    pub fn with_normalizer(self, normalizer: Option<AnalyzerName>) -> (r: FieldMapping)
        ensures
            r@ == (FieldMappingView { normalizer, ..self@ }),
    {
        let mut m = self;
        m.normalizer = normalizer;
        m
    }

    pub fn with_index_prefixes(self, prefixes: Option<FieldPrefixes>) -> (r: FieldMapping)
        ensures
            r@ == (FieldMappingView { index_prefixes: prefixes, ..self@ }),
    {
        let mut m = self;
        m.index_prefixes = prefixes;
        m
    }

    pub fn with_date_format(self, date_format: Option<String>) -> (r: FieldMapping)
        ensures
            r@ == (FieldMappingView { date_format: opt_view(date_format), ..self@ }),
    {
        let mut m = self;
        m.date_format = date_format;
        m
    }

    pub fn with_subfields(self, fields: SubfieldMap) -> (r: FieldMapping)
        ensures
            r@ == (FieldMappingView { fields: entries_view(fields.entries@), ..self@ }),
    {
        let mut m = self;
        m.fields = fields;
        m
    }

    /// The format of a date field, the default one when the mapping omits
    /// it; none for other types.
    pub fn date_format(&self) -> (r: Option<&str>)
        ensures
            self.field_type != FieldType::Date ==> r is None,
            self.field_type == FieldType::Date ==> (r matches Some(f) && f@ == match self.date_format {
                Some(d) => d@,
                None => "yyyyMMdd"@,
            }),
    {
        if self.field_type != FieldType::Date {
            return None;
        }
        match &self.date_format {
            Some(d) => Some(d.as_str()),
            None => Some(DEFAULT_DATE_FORMAT),
        }
    }

    /// The declared analyzer, else the default of the field's type.
    pub fn analyzer(&self) -> (r: AnalyzerName)
        ensures
            r == match self.analyzer {
                Some(a) => a,
                None => default_analyzer(self.field_type),
            },
    {
        match self.analyzer {
            Some(a) => a,
            None => AnalyzerName::default_for(self.field_type),
        }
    }

    /// The analyzer applied when indexing into this field: its normalizer
    /// when it has one, else [`Self::analyzer`].
    pub fn effective_analyzer(&self) -> (r: AnalyzerName)
        ensures
            r == match self.normalizer {
                Some(n) => n,
                None => match self.analyzer {
                    Some(a) => a,
                    None => default_analyzer(self.field_type),
                },
            },
    {
        if let Some(n) = self.normalizer {
            return n;
        }
        self.analyzer()
    }

    /// The declared norms option, else whether the field is text.
    pub fn norms_enabled(&self) -> (r: bool)
        ensures
            r == match self.norms {
                Some(n) => n,
                None => default_norms(self.field_type),
            },
    {
        match self.norms {
            Some(n) => n,
            None => self.field_type == FieldType::Text,
        }
    }

    /// The sub-fields, in name order.
    pub fn subfields(&self) -> (r: &[(String, FieldMapping)])
        ensures
            r@ == self.fields.entries@,
    {
        self.fields.entries.as_slice()
    }

    pub fn has_subfields(&self) -> (r: bool)
        ensures
            r == (self.fields.entries@.len() > 0),
    {
        !self.fields.is_empty()
    }
}

/// A field with a type, analyzer and norms option and nothing else.
pub open spec fn plain_mapping(field_type: FieldType, analyzer: Option<AnalyzerName>, norms: Option<bool>) -> FieldMappingView {
    FieldMappingView {
        field_type,
        analyzer,
        custom_analyzer: None,
        norms,
        normalizer: None,
        index_prefixes: None,
        date_format: None,
        fields: Seq::empty(),
    }
}

} // verus!

verus! {

// ----- parsing a field definition -----

/// The first key of `obj` other than `min_chars` and `max_chars`.
pub open spec fn first_unknown_prefix_key(obj: Seq<(String, JsonValue)>) -> Option<Seq<char>>
    decreases obj.len(),
{
    if obj.len() == 0 {
        None
    } else if obj[0].0@ != "min_chars"@ && obj[0].0@ != "max_chars"@ {
        Some(obj[0].0@)
    } else {
        first_unknown_prefix_key(obj.drop_first())
    }
}

/// A prefix bound: absent gives `default`, a non-negative integer gives
/// itself, anything else is refused.
pub open spec fn prefix_bound(field: Seq<char>, obj: Seq<(String, JsonValue)>, bound: Seq<char>, default: usize) -> Result<usize, MappingErrorView> {
    match field_of(obj, bound) {
        None => Ok(default),
        Some(v) => match u64_of(v) {
            Some(n) => Ok(n as usize),
            None => Err(MappingErrorView::IndexPrefixesBoundNotUnsigned { field, bound }),
        },
    }
}

/// What parsing the `index_prefixes` option of `field` answers.
pub open spec fn prefixes_spec(field: Seq<char>, v: JsonValue) -> Result<FieldPrefixes, MappingErrorView> {
    match v {
        JsonValue::Object(obj) => prefix_object_spec(field, obj@),
        _ => Err(MappingErrorView::IndexPrefixesNotObject { field }),
    }
}

/// What parsing the `index_prefixes` object `obj` of `field` answers.
pub open spec fn prefix_object_spec(field: Seq<char>, obj: Seq<(String, JsonValue)>) -> Result<FieldPrefixes, MappingErrorView> {
    match first_unknown_prefix_key(obj) {
        Some(key) => Err(MappingErrorView::IndexPrefixesUnknownKey { field, key }),
        None => match prefix_bound(field, obj, "min_chars"@, 2) {
            Err(e) => Err(e),
            Ok(min_chars) => match prefix_bound(field, obj, "max_chars"@, 5) {
                Err(e) => Err(e),
                Ok(max_chars) => if min_chars < 2 || max_chars > 20 || min_chars >= max_chars {
                    Err(MappingErrorView::IndexPrefixesBoundsInvalid { field, min_chars, max_chars })
                } else {
                    Ok(FieldPrefixes { min_chars, max_chars })
                },
            },
        },
    }
}

fn read_prefix_bound(field: &str, obj: &Vec<(String, JsonValue)>, bound: &str, default: usize) -> (r: Result<usize, MappingError>)
    ensures
        match prefix_bound(field@, obj@, bound@, default) {
            Ok(n) => r == Ok::<usize, MappingError>(n),
            Err(e) => (r matches Err(x) && x@ == e),
        },
{
    match json_get(obj, bound) {
        None => Ok(default),
        Some(JsonValue::Number(JsonNumber::PosInt(n))) => Ok(*n as usize),
        Some(_) => Err(MappingError::IndexPrefixesBoundNotUnsigned { field: owned(field), bound: owned(bound) }),
    }
}

/// Parses the `index_prefixes` option of `field`: an object with at most
/// `min_chars` (default 2) and `max_chars` (default 5), with
/// `2 <= min_chars < max_chars <= 20`.
pub fn parse_index_prefixes(field: &str, value: &JsonValue) -> (r: Result<FieldPrefixes, MappingError>)
    ensures
        match prefixes_spec(field@, *value) {
            Ok(p) => r == Ok::<FieldPrefixes, MappingError>(p),
            Err(e) => (r matches Err(x) && x@ == e),
        },
{
    match value {
        JsonValue::Object(obj) => parse_prefix_object(field, obj),
        _ => Err(MappingError::IndexPrefixesNotObject { field: owned(field) }),
    }
}

fn parse_prefix_object(field: &str, obj: &Vec<(String, JsonValue)>) -> (r: Result<FieldPrefixes, MappingError>)
    ensures
        match prefix_object_spec(field@, obj@) {
            Ok(p) => r == Ok::<FieldPrefixes, MappingError>(p),
            Err(e) => (r matches Err(x) && x@ == e),
        },
{
    let mut i: usize = 0;
    assert(obj@.subrange(0, obj@.len() as int) =~= obj@);
    while i < obj.len()
        invariant
            i <= obj@.len(),
            first_unknown_prefix_key(obj@) == first_unknown_prefix_key(obj@.subrange(i as int, obj@.len() as int)),
        decreases obj.len() - i,
    {
        let ghost rest = obj@.subrange(i as int, obj@.len() as int);
        assert(rest.drop_first() =~= obj@.subrange(i + 1, obj@.len() as int));
        let key = obj[i].0.as_str();
        assert(rest[0] == obj@[i as int]);
        if !str_eq(key, "min_chars") && !str_eq(key, "max_chars") {
            return Err(MappingError::IndexPrefixesUnknownKey { field: owned(field), key: owned(key) });
        }
        i += 1;
    }
    let min_chars = match read_prefix_bound(field, obj, "min_chars", FieldPrefixes::DEFAULT_MIN_CHARS) {
        Ok(n) => n,
        Err(e) => return Err(e),
    };
    let max_chars = match read_prefix_bound(field, obj, "max_chars", FieldPrefixes::DEFAULT_MAX_CHARS) {
        Ok(n) => n,
        Err(e) => return Err(e),
    };
    if min_chars < FieldPrefixes::DEFAULT_MIN_CHARS || max_chars > FieldPrefixes::MAX_BOUND || min_chars >= max_chars {
        return Err(MappingError::IndexPrefixesBoundsInvalid { field: owned(field), min_chars, max_chars });
    }
    Ok(FieldPrefixes { min_chars, max_chars })
}

/// The type a definition names: its `type` string, `text` when absent or
/// not a string.
pub open spec fn type_given(obj: Seq<(String, JsonValue)>) -> Seq<char> {
    match field_of(obj, "type"@) {
        Some(v) => match str_of(v) {
            Some(s) => s,
            None => "text"@,
        },
        None => "text"@,
    }
}

/// The analyzer option: a builtin, or a custom name kept verbatim.
pub open spec fn analyzer_spec(field: Seq<char>, obj: Seq<(String, JsonValue)>) -> Result<(Option<AnalyzerName>, Option<Seq<char>>), MappingErrorView> {
    match field_of(obj, "analyzer"@) {
        None => Ok((None, None)),
        Some(v) => match str_of(v) {
            None => Err(MappingErrorView::AnalyzerNotString { field }),
            Some(s) => match analyzer_of_name(s) {
                Some(a) => Ok((Some(a), None)),
                None => Ok((None, Some(s))),
            },
        },
    }
}

pub open spec fn norms_spec(field: Seq<char>, obj: Seq<(String, JsonValue)>) -> Result<Option<bool>, MappingErrorView> {
    match field_of(obj, "norms"@) {
        None => Ok(None),
        Some(v) => match bool_of(v) {
            Some(b) => Ok(Some(b)),
            None => Err(MappingErrorView::NormsNotBoolean { field }),
        },
    }
}

pub open spec fn normalizer_spec(field: Seq<char>, obj: Seq<(String, JsonValue)>) -> Result<Option<AnalyzerName>, MappingErrorView> {
    match field_of(obj, "normalizer"@) {
        None => Ok(None),
        Some(v) => match str_of(v) {
            None => Err(MappingErrorView::NormalizerNotString { field }),
            Some(s) => match analyzer_of_name(s) {
                Some(a) => Ok(Some(a)),
                None => Err(MappingErrorView::UnsupportedNormalizer { field, normalizer: s }),
            },
        },
    }
}

pub open spec fn format_spec(field: Seq<char>, obj: Seq<(String, JsonValue)>, t: FieldType) -> Result<Option<Seq<char>>, MappingErrorView> {
    match field_of(obj, "format"@) {
        None => Ok(None),
        Some(v) => match str_of(v) {
            None => Err(MappingErrorView::DateFormatNotString { field }),
            Some(s) => if t != FieldType::Date {
                Err(MappingErrorView::DateFormatNotSupported { field, field_type: field_type_name(t) })
            } else {
                Ok(Some(s))
            },
        },
    }
}

pub open spec fn index_prefixes_spec(field: Seq<char>, obj: Seq<(String, JsonValue)>) -> Result<Option<FieldPrefixes>, MappingErrorView> {
    match field_of(obj, "index_prefixes"@) {
        None => Ok(None),
        Some(v) => match prefixes_spec(field, v) {
            Ok(p) => Ok(Some(p)),
            Err(e) => Err(e),
        },
    }
}

/// The name of sub-field `sub` of `field`.
pub open spec fn qualified(field: Seq<char>, sub: Seq<char>) -> Seq<char> {
    field + seq!['.'] + sub
}

/// What parsing the definition `def` of `field` answers; `allow_subfields`
/// is false for a sub-field, which may not declare sub-fields itself.
pub open spec fn field_spec(field: Seq<char>, def: JsonValue, allow_subfields: bool) -> Result<FieldMappingView, MappingErrorView>
    decreases (if allow_subfields { 1int } else { 0int }), 3int, 0int,
{
    match def {
        JsonValue::Object(obj) => field_object_spec(field, obj@, allow_subfields),
        _ => Err(MappingErrorView::FieldDefinitionNotObject { field }),
    }
}

/// What parsing the definition object `obj` of `field` answers: the type,
/// then each option in turn, the first refusal winning.
pub open spec fn field_object_spec(field: Seq<char>, obj: Seq<(String, JsonValue)>, allow_subfields: bool) -> Result<FieldMappingView, MappingErrorView>
    decreases (if allow_subfields { 1int } else { 0int }), 2int, 0int,
{
    let tname = type_given(obj);
    match type_of_name(tname) {
        None => Err(MappingErrorView::UnsupportedFieldType { field, field_type: tname }),
        Some(t) => match analyzer_spec(field, obj) {
            Err(e) => Err(e),
            Ok(an) => match norms_spec(field, obj) {
                Err(e) => Err(e),
                Ok(norms) => if t != FieldType::Text && (an.0 is Some || an.1 is Some) {
                    Err(MappingErrorView::AnalyzerNotSupported { field, field_type: field_type_name(t) })
                } else {
                    match normalizer_spec(field, obj) {
                        Err(e) => Err(e),
                        Ok(normalizer) => match index_prefixes_spec(field, obj) {
                            Err(e) => Err(e),
                            Ok(prefixes) => if prefixes is Some && t != FieldType::Text {
                                Err(MappingErrorView::IndexPrefixesNotSupported { field, field_type: field_type_name(t) })
                            } else {
                                match format_spec(field, obj, t) {
                                    Err(e) => Err(e),
                                    Ok(date_format) => match subfields_spec(field, obj, allow_subfields) {
                                        Err(e) => Err(e),
                                        Ok(subs) => Ok(
                                            FieldMappingView {
                                                field_type: t,
                                                analyzer: an.0,
                                                custom_analyzer: an.1,
                                                norms,
                                                normalizer,
                                                index_prefixes: prefixes,
                                                date_format,
                                                fields: subs,
                                            },
                                        ),
                                    },
                                }
                            },
                        },
                    }
                },
            },
        },
    }
}

/// The `fields` block of `field`: absent, or an object of sub-field
/// definitions when sub-fields are allowed.
pub open spec fn subfields_spec(field: Seq<char>, obj: Seq<(String, JsonValue)>, allow_subfields: bool) -> Result<Seq<(Seq<char>, FieldMappingView)>, MappingErrorView>
    decreases (if allow_subfields { 1int } else { 0int }), 1int, 0int,
{
    match field_of(obj, "fields"@) {
        None => Ok(Seq::empty()),
        Some(fv) => if !allow_subfields {
            Err(MappingErrorView::NestedSubfieldsNotSupported { field })
        } else {
            match fv {
                JsonValue::Object(entries) => subfield_entries_spec(field, entries@, entries@.len()),
                _ => Err(MappingErrorView::SubfieldsNotObject { field }),
            }
        },
    }
}

/// The first `n` sub-field definitions parsed in order.
pub open spec fn subfield_entries_spec(field: Seq<char>, entries: Seq<(String, JsonValue)>, n: nat) -> Result<Seq<(Seq<char>, FieldMappingView)>, MappingErrorView>
    decreases 1int, 0int, n,
{
    if n == 0 {
        Ok(Seq::empty())
    } else {
        match subfield_entries_spec(field, entries, (n - 1) as nat) {
            Err(e) => Err(e),
            Ok(acc) => {
                let name = entries[n - 1].0@;
                if is_blank(name) {
                    Err(MappingErrorView::EmptySubfieldName { field })
                } else {
                    match field_spec(qualified(field, name), entries[n - 1].1, false) {
                        Err(e) => Err(e),
                        Ok(m) => Ok(acc.push((name, m))),
                    }
                }
            },
        }
    }
}

proof fn lemma_entries_err(field: Seq<char>, entries: Seq<(String, JsonValue)>, k: nat, n: nat)
    requires
        k <= n,
        subfield_entries_spec(field, entries, k) is Err,
    ensures
        subfield_entries_spec(field, entries, n) == subfield_entries_spec(field, entries, k),
    decreases n,
{
    if n > k {
        lemma_entries_err(field, entries, k, (n - 1) as nat);
    }
}

fn read_type_name(obj: &Vec<(String, JsonValue)>) -> (r: &str)
    ensures
        r@ == type_given(obj@),
{
    match json_get(obj, "type") {
        Some(v) => match json_str(v) {
            Some(s) => s,
            None => "text",
        },
        None => "text",
    }
}

fn read_analyzer(field: &str, obj: &Vec<(String, JsonValue)>) -> (r: Result<(Option<AnalyzerName>, Option<String>), MappingError>)
    ensures
        match analyzer_spec(field@, obj@) {
            Ok(p) => (r matches Ok(x) && x.0 == p.0 && opt_view(x.1) == p.1),
            Err(e) => (r matches Err(x) && x@ == e),
        },
{
    match json_get(obj, "analyzer") {
        None => Ok((None, None)),
        Some(v) => match json_str(v) {
            None => Err(MappingError::AnalyzerNotString { field: owned(field) }),
            Some(name) => match AnalyzerName::from_name(name) {
                Some(a) => Ok((Some(a), None)),
                None => Ok((None, Some(owned(name)))),
            },
        },
    }
}

fn read_norms(field: &str, obj: &Vec<(String, JsonValue)>) -> (r: Result<Option<bool>, MappingError>)
    ensures
        match norms_spec(field@, obj@) {
            Ok(p) => r == Ok::<Option<bool>, MappingError>(p),
            Err(e) => (r matches Err(x) && x@ == e),
        },
{
    match json_get(obj, "norms") {
        None => Ok(None),
        Some(JsonValue::Bool(b)) => Ok(Some(*b)),
        Some(_) => Err(MappingError::NormsNotBoolean { field: owned(field) }),
    }
}

fn read_normalizer(field: &str, obj: &Vec<(String, JsonValue)>) -> (r: Result<Option<AnalyzerName>, MappingError>)
    ensures
        match normalizer_spec(field@, obj@) {
            Ok(p) => r == Ok::<Option<AnalyzerName>, MappingError>(p),
            Err(e) => (r matches Err(x) && x@ == e),
        },
{
    match json_get(obj, "normalizer") {
        None => Ok(None),
        Some(v) => match json_str(v) {
            None => Err(MappingError::NormalizerNotString { field: owned(field) }),
            Some(name) => match AnalyzerName::from_name(name) {
                Some(a) => Ok(Some(a)),
                None => Err(MappingError::UnsupportedNormalizer { field: owned(field), normalizer: owned(name) }),
            },
        },
    }
}

fn read_index_prefixes(field: &str, obj: &Vec<(String, JsonValue)>) -> (r: Result<Option<FieldPrefixes>, MappingError>)
    ensures
        match index_prefixes_spec(field@, obj@) {
            Ok(p) => r == Ok::<Option<FieldPrefixes>, MappingError>(p),
            Err(e) => (r matches Err(x) && x@ == e),
        },
{
    match json_get(obj, "index_prefixes") {
        None => Ok(None),
        Some(v) => match parse_index_prefixes(field, v) {
            Ok(p) => Ok(Some(p)),
            Err(e) => Err(e),
        },
    }
}

fn read_format(field: &str, obj: &Vec<(String, JsonValue)>, t: FieldType) -> (r: Result<Option<String>, MappingError>)
    ensures
        match format_spec(field@, obj@, t) {
            Ok(p) => (r matches Ok(x) && opt_view(x) == p),
            Err(e) => (r matches Err(x) && x@ == e),
        },
{
    match json_get(obj, "format") {
        None => Ok(None),
        Some(v) => match json_str(v) {
            None => Err(MappingError::DateFormatNotString { field: owned(field) }),
            Some(f) => if t != FieldType::Date {
                Err(MappingError::DateFormatNotSupported { field: owned(field), field_type: owned(t.as_str()) })
            } else {
                Ok(Some(owned(f)))
            },
        },
    }
}

/// The name of sub-field `sub` of `field`: `field.sub`.
fn qualified_name(field: &str, sub: &str) -> (r: String)
    ensures
        r@ == qualified(field@, sub@),
{
    let dotted = concat(field, ".");
    proof {
        reveal_strlit(".");
    }
    concat(dotted.as_str(), sub)
}

/// Parses the definition `definition` of `field`; `allow_subfields` is
/// false for a sub-field, which may not declare sub-fields itself.
pub fn parse_field_definition(field: &str, definition: &JsonValue, allow_subfields: bool) -> (r: Result<FieldMapping, MappingError>)
    ensures
        match field_spec(field@, *definition, allow_subfields) {
            Ok(m) => (r matches Ok(x) && x@ == m),
            Err(e) => (r matches Err(x) && x@ == e),
        },
    decreases (if allow_subfields { 1int } else { 0int }), 3int,
{
    match definition {
        JsonValue::Object(obj) => parse_field_object(field, obj, allow_subfields),
        _ => Err(MappingError::FieldDefinitionNotObject { field: owned(field) }),
    }
}

fn parse_field_object(field: &str, obj: &Vec<(String, JsonValue)>, allow_subfields: bool) -> (r: Result<FieldMapping, MappingError>)
    ensures
        match field_object_spec(field@, obj@, allow_subfields) {
            Ok(m) => (r matches Ok(x) && x@ == m),
            Err(e) => (r matches Err(x) && x@ == e),
        },
    decreases (if allow_subfields { 1int } else { 0int }), 2int,
{
    let tname = read_type_name(obj);
    let t = match FieldType::from_name(tname) {
        Some(t) => t,
        None => return Err(MappingError::UnsupportedFieldType { field: owned(field), field_type: owned(tname) }),
    };
    let (analyzer, custom_analyzer) = match read_analyzer(field, obj) {
        Ok(p) => p,
        Err(e) => return Err(e),
    };
    let norms = match read_norms(field, obj) {
        Ok(n) => n,
        Err(e) => return Err(e),
    };
    if t != FieldType::Text && (analyzer.is_some() || custom_analyzer.is_some()) {
        return Err(MappingError::AnalyzerNotSupported { field: owned(field), field_type: owned(t.as_str()) });
    }
    let normalizer = match read_normalizer(field, obj) {
        Ok(n) => n,
        Err(e) => return Err(e),
    };
    let index_prefixes = match read_index_prefixes(field, obj) {
        Ok(p) => p,
        Err(e) => return Err(e),
    };
    if index_prefixes.is_some() && t != FieldType::Text {
        return Err(MappingError::IndexPrefixesNotSupported { field: owned(field), field_type: owned(t.as_str()) });
    }
    let date_format = match read_format(field, obj, t) {
        Ok(f) => f,
        Err(e) => return Err(e),
    };
    let subs = match parse_subfields(field, obj, allow_subfields) {
        Ok(s) => s,
        Err(e) => return Err(e),
    };
    let m = FieldMapping {
        field_type: t,
        analyzer,
        custom_analyzer,
        norms,
        normalizer,
        index_prefixes,
        date_format,
        fields: SubfieldMap { entries: subs },
    };
    Ok(m)
}

fn parse_subfields(field: &str, obj: &Vec<(String, JsonValue)>, allow_subfields: bool) -> (r: Result<Vec<(String, FieldMapping)>, MappingError>)
    ensures
        match subfields_spec(field@, obj@, allow_subfields) {
            Ok(m) => (r matches Ok(x) && entries_view(x@) == m),
            Err(e) => (r matches Err(x) && x@ == e),
        },
    decreases (if allow_subfields { 1int } else { 0int }), 1int,
{
    let mut subs: Vec<(String, FieldMapping)> = Vec::new();
    let fv = match json_get(obj, "fields") {
        None => {
            assert(entries_view(subs@) =~= Seq::<(Seq<char>, FieldMappingView)>::empty());
            return Ok(subs);
        },
        Some(fv) => fv,
    };
    if !allow_subfields {
        return Err(MappingError::NestedSubfieldsNotSupported { field: owned(field) });
    }
    let entries = match fv {
        JsonValue::Object(entries) => entries,
        _ => return Err(MappingError::SubfieldsNotObject { field: owned(field) }),
    };
    assert(subfields_spec(field@, obj@, allow_subfields) == subfield_entries_spec(field@, entries@, entries@.len()));
    assert(entries_view(subs@) =~= Seq::<(Seq<char>, FieldMappingView)>::empty());
    let mut i: usize = 0;
    while i < entries.len()
        invariant
            allow_subfields,
            subfields_spec(field@, obj@, allow_subfields) == subfield_entries_spec(field@, entries@, entries@.len()),
            i <= entries@.len(),
            subfield_entries_spec(field@, entries@, i as nat) == Ok::<Seq<(Seq<char>, FieldMappingView)>, MappingErrorView>(entries_view(subs@)),
        decreases entries.len() - i,
    {
        let name = entries[i].0.as_str();
        if blank(name) {
            proof {
                lemma_entries_err(field@, entries@, (i + 1) as nat, entries@.len());
            }
            return Err(MappingError::EmptySubfieldName { field: owned(field) });
        }
        let q = qualified_name(field, name);
        match parse_field_definition(q.as_str(), &entries[i].1, false) {
            Err(e) => {
                proof {
                    lemma_entries_err(field@, entries@, (i + 1) as nat, entries@.len());
                }
                return Err(e);
            },
            Ok(m) => {
                let ghost before = subs@;
                subs.push((owned(name), m));
                proof {
                    lemma_entries_view_push(before, subs@.last());
                    assert(subs@ =~= before.push(subs@.last()));
                }
            },
        }
        i += 1;
    }
    Ok(subs)
}

} // verus!

verus! {

// ----- analysis settings -----

/// An `edge_ngram` tokenizer of `settings.analysis.tokenizer`.
#[derive(Debug, Clone, PartialEq, Eq)]
pub struct EdgeNgramTokenizerDefinition {
    pub min_gram: usize,
    pub max_gram: usize,
    pub token_chars: Vec<String>,
}

/// An analyzer of `settings.analysis.analyzer`: a tokenizer and a filter
/// chain.
#[derive(Debug, Clone, PartialEq, Eq)]
pub struct AnalyzerDefinition {
    pub tokenizer: String,
    pub filter: Vec<String>,
}

/// A normalizer of `settings.analysis.normalizer`.
#[derive(Debug, Clone, PartialEq, Eq)]
pub struct NormalizerDefinition {
    pub kind: String,
    pub filter: Vec<String>,
}

pub struct EdgeNgramView {
    pub min_gram: usize,
    pub max_gram: usize,
    pub token_chars: Seq<Seq<char>>,
}

pub struct AnalyzerDefinitionView {
    pub tokenizer: Seq<char>,
    pub filter: Seq<Seq<char>>,
}

pub struct NormalizerDefinitionView {
    pub kind: Seq<char>,
    pub filter: Seq<Seq<char>>,
}

pub open spec fn strings_view(v: Seq<String>) -> Seq<Seq<char>> {
    v.map_values(|s: String| s@)
}

impl View for EdgeNgramTokenizerDefinition {
    type V = EdgeNgramView;

    open spec fn view(&self) -> EdgeNgramView {
        EdgeNgramView { min_gram: self.min_gram, max_gram: self.max_gram, token_chars: strings_view(self.token_chars@) }
    }
}

impl View for AnalyzerDefinition {
    type V = AnalyzerDefinitionView;

    open spec fn view(&self) -> AnalyzerDefinitionView {
        AnalyzerDefinitionView { tokenizer: self.tokenizer@, filter: strings_view(self.filter@) }
    }
}

impl View for NormalizerDefinition {
    type V = NormalizerDefinitionView;

    open spec fn view(&self) -> NormalizerDefinitionView {
        NormalizerDefinitionView { kind: self.kind@, filter: strings_view(self.filter@) }
    }
}

/// The `settings.analysis` block of an index, each section by name.
#[derive(Debug, Clone, PartialEq, Eq)]
pub struct AnalysisSettings {
    pub tokenizers: StringMap<EdgeNgramTokenizerDefinition>,
    pub analyzers: StringMap<AnalyzerDefinition>,
    pub normalizers: StringMap<NormalizerDefinition>,
}

pub struct AnalysisSettingsView {
    pub tokenizers: Map<Seq<char>, EdgeNgramView>,
    pub analyzers: Map<Seq<char>, AnalyzerDefinitionView>,
    pub normalizers: Map<Seq<char>, NormalizerDefinitionView>,
}

impl AnalysisSettings {
    /// Each section is a well-formed map.
    pub open spec fn wf(&self) -> bool {
        &&& self.tokenizers.wf()
        &&& self.analyzers.wf()
        &&& self.normalizers.wf()
    }

    /// The empty block.
    pub fn new() -> (r: AnalysisSettings)
        ensures
            r.wf(),
            r@ == empty_analysis(),
    {
        let r = AnalysisSettings { tokenizers: StringMap::new(), analyzers: StringMap::new(), normalizers: StringMap::new() };
        proof {
            assert(r@.tokenizers =~= Map::empty());
            assert(r@.analyzers =~= Map::empty());
            assert(r@.normalizers =~= Map::empty());
        }
        r
    }
}

impl View for AnalysisSettings {
    type V = AnalysisSettingsView;

    open spec fn view(&self) -> AnalysisSettingsView {
        AnalysisSettingsView {
            tokenizers: self.tokenizers.map().map_values(|d: EdgeNgramTokenizerDefinition| d@),
            analyzers: self.analyzers.map().map_values(|d: AnalyzerDefinition| d@),
            normalizers: self.normalizers.map().map_values(|d: NormalizerDefinition| d@),
        }
    }
}

pub open spec fn empty_analysis() -> AnalysisSettingsView {
    AnalysisSettingsView { tokenizers: Map::empty(), analyzers: Map::empty(), normalizers: Map::empty() }
}

impl Default for AnalysisSettings {
    fn default() -> (r: AnalysisSettings)
        ensures
            r.wf(),
            r@ == empty_analysis(),
    {
        AnalysisSettings::new()
    }
}

// ----- the mapping of an index -----

/// The fields of an index by name, with its analysis settings.
#[derive(Debug, PartialEq, Eq)]
pub struct IndexMapping {
    fields: StringMap<FieldMapping>,
    analysis: AnalysisSettings,
}

impl IndexMapping {
    #[verifier::type_invariant]
    spec fn inv(&self) -> bool {
        &&& self.fields.wf()
        &&& self.analysis.wf()
    }

    /// Each declared field's options, by name.
    pub closed spec fn mapping_views(&self) -> Map<Seq<char>, FieldMappingView> {
        self.fields.map().map_values(|m: FieldMapping| m@)
    }

    /// Each declared field's mapping, by name.
    pub closed spec fn mapping_of(&self) -> Map<Seq<char>, FieldMapping> {
        self.fields.map()
    }

    /// [`Self::mapping_views`] is [`Self::mapping_of`] taken by views.
    pub proof fn lemma_mapping_views(&self)
        ensures
            self.mapping_views() == self.mapping_of().map_values(|m: FieldMapping| m@),
    {
    }

    /// The declared fields with their mappings, in name order.
    pub closed spec fn field_entries(&self) -> Seq<(String, FieldMapping)> {
        self.fields.entry_seq()
    }

    /// The analysis settings.
    pub closed spec fn analysis_view(&self) -> AnalysisSettingsView {
        self.analysis@
    }

    /// A mapping with no field and empty analysis settings.
    pub fn new() -> (r: IndexMapping)
        ensures
            r.mapping_views() == Map::<Seq<char>, FieldMappingView>::empty(),
            r.analysis_view() == empty_analysis(),
    {
        let r = IndexMapping { fields: StringMap::new(), analysis: AnalysisSettings::new() };
        assert(r.mapping_views() =~= Map::<Seq<char>, FieldMappingView>::empty());
        r
    }

    /// Declares `field` with `mapping`, replacing any earlier declaration.
    pub fn set_field_mapping(&mut self, field: &str, mapping: FieldMapping)
        ensures
            final(self).mapping_views() == old(self).mapping_views().insert(field@, mapping@),
            final(self).analysis_view() == old(self).analysis_view(),
    {
        proof {
            use_type_invariant(&*self);
        }
        let ghost mv = mapping@;
        let ghost before = self.fields.map();
        let mut fields = StringMap::new();
        std::mem::swap(&mut fields, &mut self.fields);
        fields.insert(field, mapping);
        self.fields = fields;
        proof {
            assert(self.mapping_views() =~= old(self).mapping_views().insert(field@, mv));
        }
    }

    /// The analysis settings.
    pub fn analysis(&self) -> (r: &AnalysisSettings)
        ensures
            r@ == self.analysis_view(),
            r.wf(),
    {
        proof {
            use_type_invariant(self);
        }
        &self.analysis
    }

    /// Replaces the analysis settings.
    pub fn set_analysis(&mut self, analysis: AnalysisSettings)
        requires
            analysis.wf(),
        ensures
            final(self).analysis_view() == analysis@,
            final(self).mapping_views() == old(self).mapping_views(),
    {
        proof {
            use_type_invariant(&*self);
        }
        self.analysis = analysis;
    }

    /// Whether `field` is declared.
    pub fn has_field(&self, field: &str) -> (r: bool)
        ensures
            r == self.mapping_views().contains_key(field@),
    {
        proof {
            use_type_invariant(self);
        }
        self.fields.contains(field)
    }

    /// The mapping of `field`.
    pub fn field(&self, field: &str) -> (r: Option<&FieldMapping>)
        ensures
            match r {
                Some(m) => self.mapping_views().contains_key(field@) && m@ == self.mapping_views()[field@],
                None => !self.mapping_views().contains_key(field@),
            },
    {
        proof {
            use_type_invariant(self);
        }
        self.fields.get(field)
    }

    /// The mapping a path names: a declared field, else, for `parent.sub`
    /// split at the last dot, the sub-field `sub` of `parent`.
    pub fn resolve_field(&self, path: &str) -> (r: Option<&FieldMapping>)
        ensures
            match resolved_path(self.mapping_of(), path@) {
                Some(m) => r == Some(&m),
                None => r is None,
            },
    {
        proof {
            use_type_invariant(self);
        }
        if let Some(m) = self.fields.get(path) {
            return Some(m);
        }
        match split_last_dot(path) {
            None => None,
            Some((parent, sub)) => match self.fields.get(parent.as_str()) {
                None => None,
                Some(pm) => pm.fields.get(sub.as_str()),
            },
        }
    }

    /// The normalizer of the sub-field a path `parent.sub` names, split at
    /// the last dot.
    pub fn subfield_normalizer(&self, path: &str) -> (r: Option<AnalyzerName>)
        ensures
            r == match subfield_at(self.mapping_of(), path@) {
                Some(m) => m.normalizer,
                None => None,
            },
    {
        proof {
            use_type_invariant(self);
        }
        match split_last_dot(path) {
            None => None,
            Some((parent, sub)) => match self.fields.get(parent.as_str()) {
                None => None,
                Some(pm) => match pm.fields.get(sub.as_str()) {
                    None => None,
                    Some(m) => m.normalizer,
                },
            },
        }
    }

    /// The analyzer of `field`: its mapping's, else `simple` (that of text).
    pub fn analyzer(&self, field: &str) -> (r: AnalyzerName)
        ensures
            r == if self.mapping_views().contains_key(field@) {
                view_analyzer(self.mapping_views()[field@])
            } else {
                AnalyzerName::Simple
            },
    {
        match self.field(field) {
            Some(m) => m.analyzer(),
            None => AnalyzerName::default_for(FieldType::Text),
        }
    }

    /// Whether `field` keeps norms: its mapping's option, else as text does.
    pub fn norms_enabled(&self, field: &str) -> (r: bool)
        ensures
            r == if self.mapping_views().contains_key(field@) {
                view_norms_enabled(self.mapping_views()[field@])
            } else {
                true
            },
    {
        match self.field(field) {
            Some(m) => m.norms_enabled(),
            None => true,
        }
    }

    /// The declared fields with their mappings, in strictly increasing name
    /// order.
    pub fn fields(&self) -> (r: &[(String, FieldMapping)])
        ensures
            r@ == self.field_entries(),
            sorted_names(r@.map_values(|e: (String, FieldMapping)| e.0@)),
            forall|i: int| #![trigger r@[i]]
                0 <= i < r@.len() ==> self.mapping_views().contains_key(r@[i].0@) && self.mapping_views()[r@[i].0@]
                    == r@[i].1@,
            forall|k: Seq<char>| #[trigger] self.mapping_views().contains_key(k) ==> exists|i: int|
                0 <= i < r@.len() && #[trigger] r@[i].0@ == k,
    {
        proof {
            use_type_invariant(self);
            self.fields.lemma_entries();
            assert forall|k: Seq<char>| #[trigger] self.mapping_views().contains_key(k) implies exists|i: int|
                0 <= i < self.field_entries().len() && #[trigger] self.field_entries()[i].0@ == k by {
                assert(self.fields.names().to_set().contains(k));
                let j = choose|j: int| 0 <= j < self.fields.names().len() && self.fields.names()[j] == k;
                assert(self.field_entries()[j].0@ == k);
            }
        }
        self.fields.entries()
    }
}

impl Default for IndexMapping {
    fn default() -> (r: IndexMapping)
        ensures
            r.mapping_views() == Map::<Seq<char>, FieldMappingView>::empty(),
            r.analysis_view() == empty_analysis(),
    {
        IndexMapping::new()
    }
}

/// The position of the last `.` of `s`, among its first `n` characters.
pub open spec fn last_dot_in(s: Seq<char>, n: nat) -> Option<int>
    decreases n,
{
    if n == 0 {
        None
    } else if s[n - 1] == '.' {
        Some(n - 1)
    } else {
        last_dot_in(s, (n - 1) as nat)
    }
}

/// `s` split at its last `.`: what precedes it and what follows it.
pub open spec fn dot_split(s: Seq<char>) -> Option<(Seq<char>, Seq<char>)> {
    match last_dot_in(s, s.len()) {
        Some(i) => Some((s.subrange(0, i), s.subrange(i + 1, s.len() as int))),
        None => None,
    }
}

/// The sub-field a path `parent.sub` names, split at the last dot.
pub open spec fn subfield_at(fields: Map<Seq<char>, FieldMapping>, path: Seq<char>) -> Option<FieldMapping> {
    match dot_split(path) {
        Some((parent, sub)) => if fields.contains_key(parent) {
            field_of_mapping(fields[parent].fields.entries@, sub)
        } else {
            None
        },
        None => None,
    }
}

proof fn lemma_last_dot_in(s: Seq<char>, n: nat)
    requires
        n <= s.len(),
    ensures
        last_dot_in(s, n) is None <==> forall|j: int| 0 <= j < n ==> s[j] != '.',
        last_dot_in(s, n) matches Some(i) ==> 0 <= i < n && s[i] == '.' && forall|j: int| i < j < n ==> s[j] != '.',
    decreases n,
{
    if n > 0 {
        lemma_last_dot_in(s, (n - 1) as nat);
    }
}

/// Splitting a path at its last dot gives what precedes the dot and what
/// follows it, the latter free of dots; a path without a dot does not
/// split.
pub proof fn law_dot_split_at_last_dot(s: Seq<char>)
    ensures
        dot_split(s) is None <==> !s.contains('.'),
        dot_split(s) matches Some((a, b)) ==> s == a + seq!['.'] + b && !b.contains('.'),
{
    lemma_last_dot_in(s, s.len());
    match last_dot_in(s, s.len()) {
        Some(i) => {
            let a = s.subrange(0, i);
            let b = s.subrange(i + 1, s.len() as int);
            assert(s =~= a + seq!['.'] + b);
            assert(s.contains('.')) by {
                assert(s[i] == '.');
            }
            if b.contains('.') {
                let j = choose|j: int| 0 <= j < b.len() && b[j] == '.';
                assert(s[i + 1 + j] == '.');
            }
        },
        None => {
            if s.contains('.') {
                let j = choose|j: int| 0 <= j < s.len() && s[j] == '.';
                assert(s[j] == '.');
            }
        },
    }
}

/// The mapping a path names: a declared field, else the sub-field it names.
pub open spec fn resolved_path(fields: Map<Seq<char>, FieldMapping>, path: Seq<char>) -> Option<FieldMapping> {
    if fields.contains_key(path) {
        Some(fields[path])
    } else {
        subfield_at(fields, path)
    }
}

/// `path` split at its last `.`.
fn split_last_dot(path: &str) -> (r: Option<(String, String)>)
    ensures
        match dot_split(path@) {
            Some((a, b)) => (r matches Some(x) && x.0@ == a && x.1@ == b),
            None => r is None,
        },
{
    let chars = chars_of(path);
    let mut n: usize = chars.len();
    while n > 0
        invariant
            n <= chars@.len(),
            chars@ == path@,
            last_dot_in(path@, path@.len()) == last_dot_in(path@, n as nat),
        decreases n,
    {
        if chars[n - 1] == '.' {
            let parent = substring(&chars, 0, n - 1);
            let sub = substring(&chars, n, chars.len());
            return Some((parent, sub));
        }
        n -= 1;
    }
    None
}

/// The analyzer a field with options `m` indexes with.
pub open spec fn view_analyzer(m: FieldMappingView) -> AnalyzerName {
    match m.analyzer {
        Some(a) => a,
        None => default_analyzer(m.field_type),
    }
}

/// Whether a field with options `m` keeps norms.
pub open spec fn view_norms_enabled(m: FieldMappingView) -> bool {
    match m.norms {
        Some(n) => n,
        None => default_norms(m.field_type),
    }
}

} // verus!

verus! {

// ----- rendering mappings as JSON -----

/// The JSON form of a field's options: its keys in `String` order, the
/// date format resolved, sub-fields under `fields`.
pub open spec fn mapping_json(m: FieldMappingView) -> JsonView
    decreases m, 2int,
{
    JsonView::Object(
        analyzer_json(m) + fields_json(m) + format_json(m) + prefixes_json(m) + normalizer_json(m) + norms_json(m) + seq![
            ("type"@, JsonView::String(field_type_name(m.field_type))),
        ],
    )
}

/// The JSON form of sub-fields, in order.
pub open spec fn subfields_json(s: Seq<(Seq<char>, FieldMappingView)>) -> Seq<(Seq<char>, JsonView)>
    decreases s, 0int,
{
    if s.len() == 0 {
        Seq::empty()
    } else {
        subfields_json(s.subrange(0, s.len() - 1)).push((s[s.len() - 1].0, mapping_json(s[s.len() - 1].1)))
    }
}

pub open spec fn analyzer_json(m: FieldMappingView) -> Seq<(Seq<char>, JsonView)> {
    match m.analyzer {
        Some(a) => seq![("analyzer"@, JsonView::String(analyzer_name(a)))],
        None => match m.custom_analyzer {
            Some(c) => seq![("analyzer"@, JsonView::String(c))],
            None => Seq::empty(),
        },
    }
}

pub open spec fn format_json(m: FieldMappingView) -> Seq<(Seq<char>, JsonView)> {
    if m.field_type == FieldType::Date {
        seq![
            ("format"@, JsonView::String(
                match m.date_format {
                    Some(d) => d,
                    None => "yyyyMMdd"@,
                },
            )),
        ]
    } else {
        Seq::empty()
    }
}

pub open spec fn prefixes_json(m: FieldMappingView) -> Seq<(Seq<char>, JsonView)> {
    match m.index_prefixes {
        Some(p) => seq![
            ("index_prefixes"@, JsonView::Object(
                seq![
                    ("max_chars"@, JsonView::Number(JsonNumber::PosInt(p.max_chars as u64))),
                    ("min_chars"@, JsonView::Number(JsonNumber::PosInt(p.min_chars as u64))),
                ],
            )),
        ],
        None => Seq::empty(),
    }
}

pub open spec fn normalizer_json(m: FieldMappingView) -> Seq<(Seq<char>, JsonView)> {
    match m.normalizer {
        Some(n) => seq![("normalizer"@, JsonView::String(analyzer_name(n)))],
        None => Seq::empty(),
    }
}

pub open spec fn norms_json(m: FieldMappingView) -> Seq<(Seq<char>, JsonView)> {
    match m.norms {
        Some(n) => seq![("norms"@, JsonView::Bool(n))],
        None => Seq::empty(),
    }
}

/// The JSON form of a mapping's fields: `{"properties": {name: field}}`.
pub open spec fn index_json(entries: Seq<(String, FieldMapping)>) -> JsonView {
    JsonView::Object(
        seq![
            ("properties"@, JsonView::Object(
                entries.map_values(|e: (String, FieldMapping)| (e.0@, mapping_json(e.1@))),
            )),
        ],
    )
}

fn push_entry(obj: &mut Vec<(String, JsonValue)>, key: &str, value: JsonValue)
    ensures
        object_view(final(obj)@) == object_view(old(obj)@).push((key@, json_view(value))),
{
    let ghost before = obj@;
    let k = owned(key);
    let ghost e = (k, value);
    obj.push((k, value));
    proof {
        lemma_object_view_push(before, e);
        assert(obj@ =~= before.push(e));
    }
}

fn string_value(s: &str) -> (r: JsonValue)
    ensures
        r@ == JsonView::String(s@),
{
    JsonValue::String(owned(s))
}

fn push_analyzer(obj: &mut Vec<(String, JsonValue)>, m: &FieldMapping)
    ensures
        object_view(final(obj)@) == object_view(old(obj)@) + analyzer_json(m@),
{
    let ghost before = object_view(obj@);
    match m.analyzer {
        Some(a) => push_entry(obj, "analyzer", string_value(a.as_str())),
        None => match &m.custom_analyzer {
            Some(c) => push_entry(obj, "analyzer", string_value(c.as_str())),
            None => {},
        },
    }
    assert(object_view(obj@) =~= before + analyzer_json(m@));
}

fn push_format(obj: &mut Vec<(String, JsonValue)>, m: &FieldMapping)
    ensures
        object_view(final(obj)@) == object_view(old(obj)@) + format_json(m@),
{
    let ghost before = object_view(obj@);
    if m.field_type == FieldType::Date {
        match &m.date_format {
            Some(d) => push_entry(obj, "format", string_value(d.as_str())),
            None => push_entry(obj, "format", string_value(DEFAULT_DATE_FORMAT)),
        }
    }
    assert(object_view(obj@) =~= before + format_json(m@));
}

fn push_prefixes(obj: &mut Vec<(String, JsonValue)>, m: &FieldMapping)
    ensures
        object_view(final(obj)@) == object_view(old(obj)@) + prefixes_json(m@),
{
    let ghost before = object_view(obj@);
    if let Some(p) = m.index_prefixes {
        let mut inner: Vec<(String, JsonValue)> = Vec::new();
        assert(object_view(inner@) =~= Seq::<(Seq<char>, JsonView)>::empty());
        push_entry(&mut inner, "max_chars", JsonValue::Number(JsonNumber::PosInt(p.max_chars as u64)));
        push_entry(&mut inner, "min_chars", JsonValue::Number(JsonNumber::PosInt(p.min_chars as u64)));
        assert(object_view(inner@) =~= seq![
            ("max_chars"@, JsonView::Number(JsonNumber::PosInt(p.max_chars as u64))),
            ("min_chars"@, JsonView::Number(JsonNumber::PosInt(p.min_chars as u64))),
        ]);
        push_entry(obj, "index_prefixes", JsonValue::Object(inner));
    }
    assert(object_view(obj@) =~= before + prefixes_json(m@));
}

fn push_normalizer_and_norms(obj: &mut Vec<(String, JsonValue)>, m: &FieldMapping)
    ensures
        object_view(final(obj)@) == object_view(old(obj)@) + normalizer_json(m@) + norms_json(m@),
{
    let ghost before = object_view(obj@);
    if let Some(n) = m.normalizer {
        push_entry(obj, "normalizer", string_value(n.as_str()));
    }
    assert(object_view(obj@) =~= before + normalizer_json(m@));
    let ghost mid = object_view(obj@);
    if let Some(n) = m.norms {
        push_entry(obj, "norms", JsonValue::Bool(n));
    }
    assert(object_view(obj@) =~= mid + norms_json(m@));
}

/// The JSON form of the sub-field part of `m`: nothing, or a `fields`
/// object.
pub open spec fn fields_json(m: FieldMappingView) -> Seq<(Seq<char>, JsonView)>
    decreases m, 1int,
{
    if m.fields.len() == 0 {
        Seq::empty()
    } else {
        seq![("fields"@, JsonView::Object(subfields_json(m.fields)))]
    }
}

impl FieldMapping {
    /// The JSON form of these options.
    pub fn as_value(&self) -> (r: JsonValue)
        ensures
            r@ == mapping_json(self@),
        decreases self,
    {
        let ghost m = self@;
        let mut obj: Vec<(String, JsonValue)> = Vec::new();
        assert(object_view(obj@) =~= Seq::<(Seq<char>, JsonView)>::empty());
        push_analyzer(&mut obj, self);
        assert(object_view(obj@) =~= analyzer_json(m));
        let ghost after_analyzer = object_view(obj@);
        if self.fields.entries.len() > 0 {
            let entries = &self.fields.entries;
            let mut sub: Vec<(String, JsonValue)> = Vec::new();
            let mut i: usize = 0;
            assert(entries@.subrange(0, 0) =~= Seq::<(String, FieldMapping)>::empty());
            assert(object_view(sub@) =~= subfields_json(entries_view(entries@.subrange(0, 0))));
            while i < entries.len()
                invariant
                    i <= entries@.len(),
                    entries == &self.fields.entries,
                    object_view(sub@) == subfields_json(entries_view(entries@.subrange(0, i as int))),
                decreases entries.len() - i,
            {
                let v = entries[i].1.as_value();
                push_entry(&mut sub, entries[i].0.as_str(), v);
                proof {
                    let s1 = entries@.subrange(0, i + 1);
                    assert(s1.subrange(0, s1.len() - 1) =~= entries@.subrange(0, i as int));
                    let ev = entries_view(s1);
                    assert(ev.subrange(0, ev.len() - 1) =~= entries_view(entries@.subrange(0, i as int)));
                }
                i += 1;
            }
            assert(entries@.subrange(0, i as int) =~= entries@);
            push_entry(&mut obj, "fields", JsonValue::Object(sub));
        }
        assert(object_view(obj@) =~= analyzer_json(m) + fields_json(m));
        push_format(&mut obj, self);
        push_prefixes(&mut obj, self);
        push_normalizer_and_norms(&mut obj, self);
        push_entry(&mut obj, "type", string_value(self.field_type.as_str()));
        assert(object_view(obj@) =~= analyzer_json(m) + fields_json(m) + format_json(m) + prefixes_json(m)
            + normalizer_json(m) + norms_json(m) + seq![("type"@, JsonView::String(field_type_name(m.field_type)))]);
        JsonValue::Object(obj)
    }
}

/// The mappings of the first `n` named fields of `s` by name, a later
/// field replacing an earlier one of the same name.
pub open spec fn views_by_name(s: Seq<(String, FieldMapping)>, n: nat) -> Map<Seq<char>, FieldMappingView>
    decreases n,
{
    if n == 0 {
        Map::empty()
    } else {
        views_by_name(s, (n - 1) as nat).insert(s[n - 1].0@, s[n - 1].1@)
    }
}

/// The JSON form of named field mappings, as a `properties` block holds
/// them.
pub open spec fn properties_json(s: Seq<(String, FieldMapping)>) -> JsonView {
    JsonView::Object(s.map_values(|e: (String, FieldMapping)| (e.0@, mapping_json(e.1@))))
}

/// The map that folding the named fields of a well-formed map in order
/// builds is the map.
proof fn lemma_views_by_name(fields: StringMap<FieldMapping>)
    requires
        fields.wf(),
    ensures
        views_by_name(fields.entry_seq(), fields.entry_seq().len()) == fields.map().map_values(|m: FieldMapping| m@),
{
    fields.lemma_entries();
    let s = fields.entry_seq();
    let names = fields.names();
    assert forall|i: int, j: int| 0 <= i < j < s.len() implies s[i].0@ != s[j].0@ by {
        assert(s[i].0@ == names[i] && s[j].0@ == names[j]);
        assert(crate::text::lex_lt(names[i], names[j]));
        if names[i] == names[j] {
            crate::text::lemma_lex_irreflexive(names[i]);
        }
    }
    lemma_views_prefix(s, s.len());
    let target = fields.map().map_values(|m: FieldMapping| m@);
    let built = views_by_name(s, s.len());
    assert(built =~= target) by {
        assert forall|k: Seq<char>| #[trigger] built.contains_key(k) <==> target.contains_key(k) by {
            if target.contains_key(k) {
                assert(names.to_set().contains(k));
                let j = choose|j: int| 0 <= j < names.len() && names[j] == k;
                assert(s[j].0@ == k);
            }
        }
        assert forall|k: Seq<char>| #[trigger] built.contains_key(k) implies built[k] == target[k] by {
            let j = choose|j: int| 0 <= j < s.len() && s[j].0@ == k;
            assert(names[j] == k);
        }
    }
}

proof fn lemma_views_prefix(s: Seq<(String, FieldMapping)>, n: nat)
    requires
        n <= s.len(),
        forall|i: int, j: int| 0 <= i < j < s.len() ==> s[i].0@ != s[j].0@,
    ensures
        forall|k: Seq<char>| #[trigger] views_by_name(s, n).contains_key(k) <==> exists|i: int| 0 <= i < n && s[i].0@ == k,
        forall|i: int| 0 <= i < n ==> #[trigger] views_by_name(s, n)[s[i].0@] == s[i].1@,
    decreases n,
{
    if n > 0 {
        lemma_views_prefix(s, (n - 1) as nat);
        let prev = views_by_name(s, (n - 1) as nat);
        assert forall|k: Seq<char>| #[trigger] views_by_name(s, n).contains_key(k) <==> exists|i: int| 0 <= i < n && s[i].0@ == k by {
            if views_by_name(s, n).contains_key(k) && k != s[n - 1].0@ {
                assert(prev.contains_key(k));
            }
            if k == s[n - 1].0@ {
                assert(exists|i: int| 0 <= i < n && s[i].0@ == k) by {
                    assert(s[n - 1].0@ == k);
                }
            }
        }
        assert forall|i: int| 0 <= i < n implies #[trigger] views_by_name(s, n)[s[i].0@] == s[i].1@ by {
            if i < n - 1 {
                assert(s[i].0@ != s[n - 1].0@);
            }
        }
    }
}

impl IndexMapping {
    /// The JSON form of the declared fields: `{"properties": {..}}`, fields
    /// in name order.
    pub fn as_value(&self) -> (r: JsonValue)
        ensures
            r@ == index_json(self.field_entries()),
            r matches JsonValue::Object(top) && top@.len() == 1 && top@[0].0@ == "properties"@ && ((forall|i: int|
                0 <= i < self.field_entries().len() ==> #[trigger] renderable_field(self.field_entries()[i]))
                ==> properties_spec(top@[0].1)
                == Ok::<Map<Seq<char>, FieldMappingView>, MappingErrorView>(self.mapping_views())),
    {
        proof {
            use_type_invariant(self);
            lemma_views_by_name(self.fields);
        }
        let entries = self.fields();
        let mut props: Vec<(String, JsonValue)> = Vec::new();
        let mut i: usize = 0;
        assert(object_view(props@) =~= Seq::<(Seq<char>, JsonView)>::empty());
        while i < entries.len()
            invariant
                i <= entries@.len(),
                object_view(props@) == entries@.subrange(0, i as int).map_values(
                    |e: (String, FieldMapping)| (e.0@, mapping_json(e.1@)),
                ),
            decreases entries.len() - i,
        {
            let v = entries[i].1.as_value();
            push_entry(&mut props, entries[i].0.as_str(), v);
            i += 1;
            assert(object_view(props@) =~= entries@.subrange(0, i as int).map_values(
                |e: (String, FieldMapping)| (e.0@, mapping_json(e.1@)),
            ));
        }
        assert(entries@.subrange(0, i as int) =~= entries@);
        let mut top: Vec<(String, JsonValue)> = Vec::new();
        assert(object_view(top@) =~= Seq::<(Seq<char>, JsonView)>::empty());
        push_entry(&mut top, "properties", JsonValue::Object(props));
        assert(object_view(top@) =~= seq![
            ("properties"@, JsonView::Object(
                entries@.map_values(|e: (String, FieldMapping)| (e.0@, mapping_json(e.1@))),
            )),
        ]);
        proof {
            lemma_object_view_index(top@);
            assert(top@.len() == 1);
            assert(object_view(top@)[0] == (top@[0].0@, json_view(top@[0].1)));
            if forall|i: int|
                0 <= i < self.field_entries().len() ==> #[trigger] renderable_field(self.field_entries()[i]) {
                law_properties_round_trip(self.field_entries(), top@[0].1);
            }
        }
        JsonValue::Object(top)
    }
}

} // verus!

verus! {

// ----- inferring mappings from documents -----

/// Whether `s` is a non-empty run of ASCII digits.
pub open spec fn numeric_string(s: Seq<char>) -> bool {
    s.len() > 0 && forall|i: int| 0 <= i < s.len() ==> '0' <= #[trigger] s[i] && s[i] <= '9'
}

/// The type a field gets from a value: digit strings are keywords, other
/// strings text; integers are integers and other numbers doubles; an array
/// takes the type of its first element whose type is known.
pub open spec fn inferred_type(v: JsonValue) -> FieldType
    decreases v, 1int,
{
    match v {
        JsonValue::String(s) => if numeric_string(s@) {
            FieldType::Keyword
        } else {
            FieldType::Text
        },
        JsonValue::Number(n) => match n {
            JsonNumber::Float => FieldType::Double,
            _ => FieldType::Integer,
        },
        JsonValue::Bool(_) => FieldType::Boolean,
        JsonValue::Array(a) => first_known_type(a@),
        JsonValue::Object(_) => FieldType::Object,
        JsonValue::Null => FieldType::Unknown,
    }
}

/// The inferred type of the first element of `a` whose type is known,
/// `array` when there is none.
pub open spec fn first_known_type(a: Seq<JsonValue>) -> FieldType
    decreases a, 0int,
{
    if a.len() == 0 {
        FieldType::Array
    } else if inferred_type(a[0]) != FieldType::Unknown {
        inferred_type(a[0])
    } else {
        first_known_type(a.drop_first())
    }
}

fn is_numeric_string(text: &str) -> (r: bool)
    ensures
        r == numeric_string(text@),
{
    let chars = chars_of(text);
    if chars.len() == 0 {
        return false;
    }
    let mut i: usize = 0;
    while i < chars.len()
        invariant
            chars@ == text@,
            i <= chars@.len(),
            forall|k: int| 0 <= k < i ==> '0' <= #[trigger] chars@[k] && chars@[k] <= '9',
        decreases chars.len() - i,
    {
        let c = chars[i];
        if !('0' <= c && c <= '9') {
            return false;
        }
        i += 1;
    }
    true
}

/// The type a field gets from `value`.
pub fn infer_field_type(value: &JsonValue) -> (r: FieldType)
    ensures
        r == inferred_type(*value),
    decreases value,
{
    match value {
        JsonValue::String(text) => if is_numeric_string(text.as_str()) {
            FieldType::Keyword
        } else {
            FieldType::Text
        },
        JsonValue::Number(n) => match n {
            JsonNumber::Float => FieldType::Double,
            _ => FieldType::Integer,
        },
        JsonValue::Bool(_) => FieldType::Boolean,
        JsonValue::Array(values) => {
            let mut i: usize = 0;
            assert(values@.subrange(0, values@.len() as int) =~= values@);
            while i < values.len()
                invariant
                    i <= values@.len(),
                    *value == JsonValue::Array(*values),
                    first_known_type(values@) == first_known_type(values@.subrange(i as int, values@.len() as int)),
                decreases values.len() - i,
            {
                let ghost rest = values@.subrange(i as int, values@.len() as int);
                assert(rest.drop_first() =~= values@.subrange(i + 1, values@.len() as int));
                assert(rest[0] == values@[i as int]);
                let t = infer_field_type(&values[i]);
                if t != FieldType::Unknown {
                    return t;
                }
                i += 1;
            }
            FieldType::Array
        },
        JsonValue::Object(_) => FieldType::Object,
        JsonValue::Null => FieldType::Unknown,
    }
}

/// `base` with a default mapping for each of the first `n` entries of a
/// document, of the entry's inferred type; with `keep`, a field already
/// declared keeps its mapping.
pub open spec fn with_document_fields(
    base: Map<Seq<char>, FieldMappingView>,
    obj: Seq<(String, JsonValue)>,
    n: nat,
    keep: bool,
) -> Map<Seq<char>, FieldMappingView>
    decreases n,
{
    if n == 0 {
        base
    } else {
        let m = with_document_fields(base, obj, (n - 1) as nat, keep);
        let name = obj[n - 1].0@;
        if keep && m.contains_key(name) {
            m
        } else {
            m.insert(name, plain_mapping(inferred_type(obj[n - 1].1), None, None))
        }
    }
}

impl IndexMapping {
    /// A mapping with one field per top-level entry of `document`, typed
    /// by its value; empty when `document` is no object.
    pub fn infer_from_document(document: &JsonValue) -> (r: IndexMapping)
        ensures
            r.mapping_views() == match *document {
                JsonValue::Object(obj) => with_document_fields(Map::empty(), obj@, obj@.len(), false),
                _ => Map::<Seq<char>, FieldMappingView>::empty(),
            },
            r.analysis_view() == empty_analysis(),
    {
        let mut mapping = IndexMapping::new();
        mapping.add_document_fields(document, false);
        mapping
    }

    /// Declares, with a default mapping of the inferred type, each
    /// top-level field of `document` not declared yet.
    pub fn ensure_fields(&mut self, document: &JsonValue)
        ensures
            final(self).mapping_views() == match *document {
                JsonValue::Object(obj) => with_document_fields(old(self).mapping_views(), obj@, obj@.len(), true),
                _ => old(self).mapping_views(),
            },
            final(self).analysis_view() == old(self).analysis_view(),
    {
        self.add_document_fields(document, true);
    }

    fn add_document_fields(&mut self, document: &JsonValue, keep: bool)
        ensures
            final(self).mapping_views() == match *document {
                JsonValue::Object(obj) => with_document_fields(old(self).mapping_views(), obj@, obj@.len(), keep),
                _ => old(self).mapping_views(),
            },
            final(self).analysis_view() == old(self).analysis_view(),
    {
        let obj = match document {
            JsonValue::Object(obj) => obj,
            _ => return,
        };
        let ghost base = self.mapping_views();
        let mut i: usize = 0;
        while i < obj.len()
            invariant
                i <= obj@.len(),
                *document == JsonValue::Object(*obj),
                self.mapping_views() == with_document_fields(base, obj@, i as nat, keep),
                self.analysis_view() == old(self).analysis_view(),
                base == old(self).mapping_views(),
            decreases obj.len() - i,
        {
            let name = obj[i].0.as_str();
            if !(keep && self.has_field(name)) {
                let t = infer_field_type(&obj[i].1);
                self.set_field_mapping(name, FieldMapping::new(t, None));
            }
            i += 1;
        }
    }
}

// ----- parsing the properties of an index -----

/// What parsing a `properties` block answers: the mapping of each field,
/// or the first refusal.
pub open spec fn properties_spec(v: JsonValue) -> Result<Map<Seq<char>, FieldMappingView>, MappingErrorView> {
    match v {
        JsonValue::Object(obj) => property_entries_spec(obj@, obj@.len()),
        _ => Err(MappingErrorView::PropertiesNotObject),
    }
}

/// The first `n` field definitions of `obj` parsed in order.
pub open spec fn property_entries_spec(obj: Seq<(String, JsonValue)>, n: nat) -> Result<Map<Seq<char>, FieldMappingView>, MappingErrorView>
    decreases n,
{
    if n == 0 {
        Ok(Map::empty())
    } else {
        match property_entries_spec(obj, (n - 1) as nat) {
            Err(e) => Err(e),
            Ok(m) => {
                let name = obj[n - 1].0@;
                if is_blank(name) {
                    Err(MappingErrorView::EmptyFieldName)
                } else {
                    match field_spec(name, obj[n - 1].1, true) {
                        Err(e) => Err(e),
                        Ok(f) => Ok(m.insert(name, f)),
                    }
                }
            },
        }
    }
}

proof fn lemma_properties_err(obj: Seq<(String, JsonValue)>, k: nat, n: nat)
    requires
        k <= n,
        property_entries_spec(obj, k) is Err,
    ensures
        property_entries_spec(obj, n) == property_entries_spec(obj, k),
    decreases n,
{
    if n > k {
        lemma_properties_err(obj, k, (n - 1) as nat);
    }
}

impl IndexMapping {
    /// Parses the `properties` block of a mapping: an object of field
    /// definitions, each under a non-blank name.
    pub fn from_properties_value(value: &JsonValue) -> (r: Result<IndexMapping, MappingError>)
        ensures
            match properties_spec(*value) {
                Ok(m) => (r matches Ok(x) && x.mapping_views() == m && x.analysis_view() == empty_analysis()),
                Err(e) => (r matches Err(x) && x@ == e),
            },
    {
        let obj = match value {
            JsonValue::Object(obj) => obj,
            _ => return Err(MappingError::PropertiesNotObject),
        };
        let mut mapping = IndexMapping::new();
        let mut i: usize = 0;
        assert(mapping.mapping_views() =~= Map::<Seq<char>, FieldMappingView>::empty());
        while i < obj.len()
            invariant
                i <= obj@.len(),
                properties_spec(*value) == property_entries_spec(obj@, obj@.len()),
                property_entries_spec(obj@, i as nat) == Ok::<Map<Seq<char>, FieldMappingView>, MappingErrorView>(
                    mapping.mapping_views(),
                ),
                mapping.analysis_view() == empty_analysis(),
            decreases obj.len() - i,
        {
            let name = obj[i].0.as_str();
            if blank(name) {
                proof {
                    lemma_properties_err(obj@, (i + 1) as nat, obj@.len());
                }
                return Err(MappingError::EmptyFieldName);
            }
            match parse_field_definition(name, &obj[i].1, true) {
                Err(e) => {
                    proof {
                        lemma_properties_err(obj@, (i + 1) as nat, obj@.len());
                    }
                    return Err(e);
                },
                Ok(parsed) => {
                    mapping.set_field_mapping(name, parsed);
                },
            }
            i += 1;
        }
        Ok(mapping)
    }
}

} // verus!

verus! {

// ----- parsing analysis settings -----

/// The strings among `a`, in order.
pub open spec fn str_items(a: Seq<JsonValue>) -> Seq<Seq<char>>
    decreases a.len(),
{
    if a.len() == 0 {
        Seq::empty()
    } else {
        let rest = str_items(a.drop_last());
        match str_of(a.last()) {
            Some(s) => rest.push(s),
            None => rest,
        }
    }
}

/// The string under `key`, else `default`.
pub open spec fn str_or(obj: Seq<(String, JsonValue)>, key: Seq<char>, default: Seq<char>) -> Seq<char> {
    match field_of(obj, key) {
        Some(v) => match str_of(v) {
            Some(s) => s,
            None => default,
        },
        None => default,
    }
}

/// The unsigned integer under `key`.
pub open spec fn u64_at(obj: Seq<(String, JsonValue)>, key: Seq<char>) -> Option<u64> {
    match field_of(obj, key) {
        Some(v) => u64_of(v),
        None => None,
    }
}

/// The filter chain of entry `name` of `section`: the strings of its
/// `filter` array, none when absent.
pub open spec fn filter_spec(obj: Seq<(String, JsonValue)>, name: Seq<char>, section: Seq<char>) -> Result<Seq<Seq<char>>, MappingErrorView> {
    match field_of(obj, "filter"@) {
        Some(JsonValue::Array(a)) => Ok(str_items(a@)),
        Some(_) => Err(MappingErrorView::AnalysisFilterNotArray { section, name }),
        None => Ok(Seq::empty()),
    }
}

/// The strings of the `token_chars` array, none when absent.
pub open spec fn token_chars_spec(obj: Seq<(String, JsonValue)>) -> Seq<Seq<char>> {
    match field_of(obj, "token_chars"@) {
        Some(JsonValue::Array(a)) => str_items(a@),
        _ => Seq::empty(),
    }
}

/// The first `n` tokenizers of `entries`: `edge_ngram` ones are kept,
/// others skipped.
pub open spec fn tokenizers_spec(entries: Seq<(String, JsonValue)>, n: nat) -> Result<Map<Seq<char>, EdgeNgramView>, MappingErrorView>
    decreases n,
{
    if n == 0 {
        Ok(Map::empty())
    } else {
        match tokenizers_spec(entries, (n - 1) as nat) {
            Err(e) => Err(e),
            Ok(m) => {
                let name = entries[n - 1].0@;
                match entries[n - 1].1 {
                    JsonValue::Object(d) => if str_or(d@, "type"@, ""@) != "edge_ngram"@ {
                        Ok(m)
                    } else {
                        match u64_at(d@, "min_gram"@) {
                            None => Err(MappingErrorView::EdgeNgramMissingBound { name, bound: "min_gram"@ }),
                            Some(min_gram) => match u64_at(d@, "max_gram"@) {
                                None => Err(MappingErrorView::EdgeNgramMissingBound { name, bound: "max_gram"@ }),
                                Some(max_gram) => Ok(
                                    m.insert(
                                        name,
                                        EdgeNgramView {
                                            min_gram: min_gram as usize,
                                            max_gram: max_gram as usize,
                                            token_chars: token_chars_spec(d@),
                                        },
                                    ),
                                ),
                            },
                        }
                    },
                    _ => Err(MappingErrorView::AnalysisEntryNotObject { section: "tokenizer"@, name }),
                }
            },
        }
    }
}

/// The first `n` analyzers of `entries`.
pub open spec fn analyzers_spec(entries: Seq<(String, JsonValue)>, n: nat) -> Result<Map<Seq<char>, AnalyzerDefinitionView>, MappingErrorView>
    decreases n,
{
    if n == 0 {
        Ok(Map::empty())
    } else {
        match analyzers_spec(entries, (n - 1) as nat) {
            Err(e) => Err(e),
            Ok(m) => {
                let name = entries[n - 1].0@;
                match entries[n - 1].1 {
                    JsonValue::Object(d) => match filter_spec(d@, name, "analyzer"@) {
                        Err(e) => Err(e),
                        Ok(filter) => Ok(
                            m.insert(name, AnalyzerDefinitionView { tokenizer: str_or(d@, "tokenizer"@, "standard"@), filter }),
                        ),
                    },
                    _ => Err(MappingErrorView::AnalysisEntryNotObject { section: "analyzer"@, name }),
                }
            },
        }
    }
}

/// The first `n` normalizers of `entries`.
pub open spec fn normalizers_spec(entries: Seq<(String, JsonValue)>, n: nat) -> Result<Map<Seq<char>, NormalizerDefinitionView>, MappingErrorView>
    decreases n,
{
    if n == 0 {
        Ok(Map::empty())
    } else {
        match normalizers_spec(entries, (n - 1) as nat) {
            Err(e) => Err(e),
            Ok(m) => {
                let name = entries[n - 1].0@;
                match entries[n - 1].1 {
                    JsonValue::Object(d) => match filter_spec(d@, name, "normalizer"@) {
                        Err(e) => Err(e),
                        Ok(filter) => Ok(m.insert(name, NormalizerDefinitionView { kind: str_or(d@, "type"@, "custom"@), filter })),
                    },
                    _ => Err(MappingErrorView::AnalysisEntryNotObject { section: "normalizer"@, name }),
                }
            },
        }
    }
}

/// What parsing the `settings` of an index answers: its `analysis` block,
/// empty when absent.
pub open spec fn settings_spec(v: JsonValue) -> Result<AnalysisSettingsView, MappingErrorView> {
    match v {
        JsonValue::Object(settings) => match field_of(settings@, "analysis"@) {
            None => Ok(empty_analysis()),
            Some(JsonValue::Object(analysis)) => match section_spec(analysis@, "tokenizer"@) {
                Err(e) => Err(e),
                Ok(t) => match tokenizers_spec(t, t.len()) {
                    Err(e) => Err(e),
                    Ok(tokenizers) => match section_spec(analysis@, "analyzer"@) {
                        Err(e) => Err(e),
                        Ok(a) => match analyzers_spec(a, a.len()) {
                            Err(e) => Err(e),
                            Ok(analyzers) => match section_spec(analysis@, "normalizer"@) {
                                Err(e) => Err(e),
                                Ok(n) => match normalizers_spec(n, n.len()) {
                                    Err(e) => Err(e),
                                    Ok(normalizers) => Ok(AnalysisSettingsView { tokenizers, analyzers, normalizers }),
                                },
                            },
                        },
                    },
                },
            },
            Some(_) => Err(MappingErrorView::AnalysisNotObject),
        },
        _ => Err(MappingErrorView::SettingsNotObject),
    }
}

/// The entries of section `section` of `analysis`: none when absent, and
/// a refusal when it is no object.
pub open spec fn section_spec(analysis: Seq<(String, JsonValue)>, section: Seq<char>) -> Result<Seq<(String, JsonValue)>, MappingErrorView> {
    match field_of(analysis, section) {
        None => Ok(Seq::empty()),
        Some(JsonValue::Object(entries)) => Ok(entries@),
        Some(_) => Err(MappingErrorView::AnalysisSectionNotObject { section }),
    }
}

fn read_strings(a: &Vec<JsonValue>) -> (r: Vec<String>)
    ensures
        strings_view(r@) == str_items(a@),
{
    let mut out: Vec<String> = Vec::new();
    let mut i: usize = 0;
    assert(strings_view(out@) =~= str_items(a@.subrange(0, 0)));
    while i < a.len()
        invariant
            i <= a@.len(),
            strings_view(out@) == str_items(a@.subrange(0, i as int)),
        decreases a.len() - i,
    {
        let ghost sub = a@.subrange(0, i + 1);
        assert(sub.drop_last() =~= a@.subrange(0, i as int));
        assert(sub.last() == a@[i as int]);
        let ghost before = out@;
        match &a[i] {
            JsonValue::String(s) => {
                out.push(owned(s.as_str()));
                assert(strings_view(out@) =~= strings_view(before).push(s@));
            },
            _ => {},
        }
        i += 1;
    }
    assert(a@.subrange(0, i as int) =~= a@);
    out
}

fn read_str_or<'a>(obj: &'a Vec<(String, JsonValue)>, key: &str, default: &'a str) -> (r: &'a str)
    ensures
        r@ == str_or(obj@, key@, default@),
{
    match json_get(obj, key) {
        Some(v) => match json_str(v) {
            Some(s) => s,
            None => default,
        },
        None => default,
    }
}

fn read_u64(obj: &Vec<(String, JsonValue)>, key: &str) -> (r: Option<u64>)
    ensures
        r == u64_at(obj@, key@),
{
    match json_get(obj, key) {
        Some(JsonValue::Number(JsonNumber::PosInt(n))) => Some(*n),
        _ => None,
    }
}

fn read_filter_chain(definition: &Vec<(String, JsonValue)>, name: &str, section: &str) -> (r: Result<Vec<String>, MappingError>)
    ensures
        match filter_spec(definition@, name@, section@) {
            Ok(f) => (r matches Ok(x) && strings_view(x@) == f),
            Err(e) => (r matches Err(x) && x@ == e),
        },
{
    match json_get(definition, "filter") {
        Some(JsonValue::Array(values)) => Ok(read_strings(values)),
        Some(_) => Err(MappingError::AnalysisFilterNotArray { section: owned(section), name: owned(name) }),
        None => {
            let v: Vec<String> = Vec::new();
            assert(strings_view(v@) =~= Seq::<Seq<char>>::empty());
            Ok(v)
        },
    }
}

fn read_token_chars(definition: &Vec<(String, JsonValue)>) -> (r: Vec<String>)
    ensures
        strings_view(r@) == token_chars_spec(definition@),
{
    match json_get(definition, "token_chars") {
        Some(JsonValue::Array(values)) => read_strings(values),
        _ => {
            let v: Vec<String> = Vec::new();
            assert(strings_view(v@) =~= Seq::<Seq<char>>::empty());
            v
        },
    }
}

fn read_section<'a>(analysis: &'a Vec<(String, JsonValue)>, section: &str) -> (r: Result<Option<&'a Vec<(String, JsonValue)>>, MappingError>)
    ensures
        match section_spec(analysis@, section@) {
            Ok(e) => (r matches Ok(x) && match x {
                Some(v) => v@ == e,
                None => e.len() == 0,
            }),
            Err(err) => (r matches Err(x) && x@ == err),
        },
{
    match json_get(analysis, section) {
        None => Ok(None),
        Some(JsonValue::Object(entries)) => Ok(Some(entries)),
        Some(_) => Err(MappingError::AnalysisSectionNotObject { section: owned(section) }),
    }
}

} // verus!

verus! {

proof fn lemma_tokenizers_err(entries: Seq<(String, JsonValue)>, k: nat, n: nat)
    requires
        k <= n,
        tokenizers_spec(entries, k) is Err,
    ensures
        tokenizers_spec(entries, n) == tokenizers_spec(entries, k),
    decreases n,
{
    if n > k {
        lemma_tokenizers_err(entries, k, (n - 1) as nat);
    }
}

proof fn lemma_analyzers_err(entries: Seq<(String, JsonValue)>, k: nat, n: nat)
    requires
        k <= n,
        analyzers_spec(entries, k) is Err,
    ensures
        analyzers_spec(entries, n) == analyzers_spec(entries, k),
    decreases n,
{
    if n > k {
        lemma_analyzers_err(entries, k, (n - 1) as nat);
    }
}

proof fn lemma_normalizers_err(entries: Seq<(String, JsonValue)>, k: nat, n: nat)
    requires
        k <= n,
        normalizers_spec(entries, k) is Err,
    ensures
        normalizers_spec(entries, n) == normalizers_spec(entries, k),
    decreases n,
{
    if n > k {
        lemma_normalizers_err(entries, k, (n - 1) as nat);
    }
}

fn parse_tokenizers(entries: &Vec<(String, JsonValue)>) -> (r: Result<StringMap<EdgeNgramTokenizerDefinition>, MappingError>)
    ensures
        match tokenizers_spec(entries@, entries@.len()) {
            Ok(m) => (r matches Ok(x) && x.wf() && x.map().map_values(|d: EdgeNgramTokenizerDefinition| d@) == m),
            Err(e) => (r matches Err(x) && x@ == e),
        },
{
    let mut out: StringMap<EdgeNgramTokenizerDefinition> = StringMap::new();
    let mut i: usize = 0;
    assert(out.map().map_values(|d: EdgeNgramTokenizerDefinition| d@) =~= Map::<Seq<char>, EdgeNgramView>::empty());
    while i < entries.len()
        invariant
            i <= entries@.len(),
            out.wf(),
            tokenizers_spec(entries@, i as nat) == Ok::<Map<Seq<char>, EdgeNgramView>, MappingErrorView>(
                out.map().map_values(|d: EdgeNgramTokenizerDefinition| d@),
            ),
        decreases entries.len() - i,
    {
        let name = entries[i].0.as_str();
        let d = match &entries[i].1 {
            JsonValue::Object(d) => d,
            _ => {
                proof {
                    lemma_tokenizers_err(entries@, (i + 1) as nat, entries@.len());
                }
                return Err(MappingError::AnalysisEntryNotObject { section: owned("tokenizer"), name: owned(name) });
            },
        };
        if str_eq(read_str_or(d, "type", ""), "edge_ngram") {
            let min_gram = match read_u64(d, "min_gram") {
                Some(n) => n,
                None => {
                    proof {
                        lemma_tokenizers_err(entries@, (i + 1) as nat, entries@.len());
                    }
                    return Err(MappingError::EdgeNgramMissingBound { name: owned(name), bound: owned("min_gram") });
                },
            };
            let max_gram = match read_u64(d, "max_gram") {
                Some(n) => n,
                None => {
                    proof {
                        lemma_tokenizers_err(entries@, (i + 1) as nat, entries@.len());
                    }
                    return Err(MappingError::EdgeNgramMissingBound { name: owned(name), bound: owned("max_gram") });
                },
            };
            let token_chars = read_token_chars(d);
            let def = EdgeNgramTokenizerDefinition { min_gram: min_gram as usize, max_gram: max_gram as usize, token_chars };
            let ghost before = out.map();
            let ghost dv = def@;
            out.insert(name, def);
            assert(out.map().map_values(|d: EdgeNgramTokenizerDefinition| d@) =~= before.map_values(
                |d: EdgeNgramTokenizerDefinition| d@,
            ).insert(name@, dv));
        }
        i += 1;
    }
    Ok(out)
}

fn parse_analyzers(entries: &Vec<(String, JsonValue)>) -> (r: Result<StringMap<AnalyzerDefinition>, MappingError>)
    ensures
        match analyzers_spec(entries@, entries@.len()) {
            Ok(m) => (r matches Ok(x) && x.wf() && x.map().map_values(|d: AnalyzerDefinition| d@) == m),
            Err(e) => (r matches Err(x) && x@ == e),
        },
{
    let mut out: StringMap<AnalyzerDefinition> = StringMap::new();
    let mut i: usize = 0;
    assert(out.map().map_values(|d: AnalyzerDefinition| d@) =~= Map::<Seq<char>, AnalyzerDefinitionView>::empty());
    while i < entries.len()
        invariant
            i <= entries@.len(),
            out.wf(),
            analyzers_spec(entries@, i as nat) == Ok::<Map<Seq<char>, AnalyzerDefinitionView>, MappingErrorView>(
                out.map().map_values(|d: AnalyzerDefinition| d@),
            ),
        decreases entries.len() - i,
    {
        let name = entries[i].0.as_str();
        let d = match &entries[i].1 {
            JsonValue::Object(d) => d,
            _ => {
                proof {
                    lemma_analyzers_err(entries@, (i + 1) as nat, entries@.len());
                }
                return Err(MappingError::AnalysisEntryNotObject { section: owned("analyzer"), name: owned(name) });
            },
        };
        let tokenizer = owned(read_str_or(d, "tokenizer", "standard"));
        let filter = match read_filter_chain(d, name, "analyzer") {
            Ok(f) => f,
            Err(e) => {
                proof {
                    lemma_analyzers_err(entries@, (i + 1) as nat, entries@.len());
                }
                return Err(e);
            },
        };
        let def = AnalyzerDefinition { tokenizer, filter };
        let ghost before = out.map();
        let ghost dv = def@;
        out.insert(name, def);
        assert(out.map().map_values(|d: AnalyzerDefinition| d@) =~= before.map_values(|d: AnalyzerDefinition| d@).insert(
            name@,
            dv,
        ));
        i += 1;
    }
    Ok(out)
}

fn parse_normalizers(entries: &Vec<(String, JsonValue)>) -> (r: Result<StringMap<NormalizerDefinition>, MappingError>)
    ensures
        match normalizers_spec(entries@, entries@.len()) {
            Ok(m) => (r matches Ok(x) && x.wf() && x.map().map_values(|d: NormalizerDefinition| d@) == m),
            Err(e) => (r matches Err(x) && x@ == e),
        },
{
    let mut out: StringMap<NormalizerDefinition> = StringMap::new();
    let mut i: usize = 0;
    assert(out.map().map_values(|d: NormalizerDefinition| d@) =~= Map::<Seq<char>, NormalizerDefinitionView>::empty());
    while i < entries.len()
        invariant
            i <= entries@.len(),
            out.wf(),
            normalizers_spec(entries@, i as nat) == Ok::<Map<Seq<char>, NormalizerDefinitionView>, MappingErrorView>(
                out.map().map_values(|d: NormalizerDefinition| d@),
            ),
        decreases entries.len() - i,
    {
        let name = entries[i].0.as_str();
        let d = match &entries[i].1 {
            JsonValue::Object(d) => d,
            _ => {
                proof {
                    lemma_normalizers_err(entries@, (i + 1) as nat, entries@.len());
                }
                return Err(MappingError::AnalysisEntryNotObject { section: owned("normalizer"), name: owned(name) });
            },
        };
        let kind = owned(read_str_or(d, "type", "custom"));
        let filter = match read_filter_chain(d, name, "normalizer") {
            Ok(f) => f,
            Err(e) => {
                proof {
                    lemma_normalizers_err(entries@, (i + 1) as nat, entries@.len());
                }
                return Err(e);
            },
        };
        let def = NormalizerDefinition { kind, filter };
        let ghost before = out.map();
        let ghost dv = def@;
        out.insert(name, def);
        assert(out.map().map_values(|d: NormalizerDefinition| d@) =~= before.map_values(|d: NormalizerDefinition| d@).insert(
            name@,
            dv,
        ));
        i += 1;
    }
    Ok(out)
}

impl IndexMapping {
    /// Parses the `settings` of an index into its analysis settings:
    /// `edge_ngram` tokenizers, analyzers and normalizers by name.
    pub fn from_index_settings_value(value: &JsonValue) -> (r: Result<AnalysisSettings, MappingError>)
        ensures
            match settings_spec(*value) {
                Ok(a) => (r matches Ok(x) && x.wf() && x@ == a),
                Err(e) => (r matches Err(x) && x@ == e),
            },
    {
        let settings = match value {
            JsonValue::Object(s) => s,
            _ => return Err(MappingError::SettingsNotObject),
        };
        let analysis = match json_get(settings, "analysis") {
            None => return Ok(AnalysisSettings::new()),
            Some(JsonValue::Object(a)) => a,
            Some(_) => return Err(MappingError::AnalysisNotObject),
        };
        let empty: Vec<(String, JsonValue)> = Vec::new();
        let tokenizers = match read_section(analysis, "tokenizer") {
            Err(e) => return Err(e),
            Ok(Some(entries)) => parse_tokenizers(entries),
            Ok(None) => parse_tokenizers(&empty),
        };
        let tokenizers = match tokenizers {
            Ok(t) => t,
            Err(e) => return Err(e),
        };
        let analyzers = match read_section(analysis, "analyzer") {
            Err(e) => return Err(e),
            Ok(Some(entries)) => parse_analyzers(entries),
            Ok(None) => parse_analyzers(&empty),
        };
        let analyzers = match analyzers {
            Ok(a) => a,
            Err(e) => return Err(e),
        };
        let normalizers = match read_section(analysis, "normalizer") {
            Err(e) => return Err(e),
            Ok(Some(entries)) => parse_normalizers(entries),
            Ok(None) => parse_normalizers(&empty),
        };
        let normalizers = match normalizers {
            Ok(n) => n,
            Err(e) => return Err(e),
        };
        Ok(AnalysisSettings { tokenizers, analyzers, normalizers })
    }
}

} // verus!
