//! What rendering a field mapping as JSON and parsing it back gives: the
//! same mapping, for every mapping the parser could have produced.

use vstd::prelude::*;

use crate::mapping::{
    analyzer_json, analyzer_name, analyzer_of_name, bool_of, field_object_spec, field_of, field_spec, field_type_name,
    fields_json, first_unknown_prefix_key, format_json, json_view, lower_ascii_letters, mapping_json, normalizer_json,
    norms_json, object_view, prefix_bound, prefixes_json, qualified, str_of, subfield_entries_spec, subfields_json,
    analyzer_spec, format_spec, index_prefixes_spec, norms_spec, normalizer_spec, prefix_object_spec, prefixes_spec,
    subfields_spec, type_given, properties_spec, property_entries_spec, FieldMapping, views_by_name, properties_json,
    type_of_name, u64_of, AnalyzerName, FieldMappingView, FieldPrefixes, FieldType, JsonNumber, JsonValue, JsonView,
};
use crate::mapping::{first_known_type, inferred_type, numeric_string, plain_mapping, with_document_fields};
use crate::text::is_blank;

verus! {

/// The value of the first entry of `s` named `k`.
pub open spec fn view_field_of(s: Seq<(Seq<char>, JsonView)>, k: Seq<char>) -> Option<JsonView>
    decreases s.len(),
{
    if s.len() == 0 {
        None
    } else if s[0].0 == k {
        Some(s[0].1)
    } else {
        view_field_of(s.drop_first(), k)
    }
}

pub(crate) proof fn lemma_object_view_index(o: Seq<(String, JsonValue)>)
    ensures
        object_view(o).len() == o.len(),
        forall|i: int| 0 <= i < o.len() ==> #[trigger] object_view(o)[i] == (o[i].0@, json_view(o[i].1)),
    decreases o.len(),
{
    if o.len() > 0 {
        let p = o.subrange(0, o.len() - 1);
        lemma_object_view_index(p);
        assert forall|i: int| 0 <= i < o.len() implies #[trigger] object_view(o)[i] == (o[i].0@, json_view(o[i].1)) by {
            if i < o.len() - 1 {
                assert(object_view(o)[i] == object_view(p)[i]);
                assert(p[i] == o[i]);
            }
        }
    }
}

proof fn lemma_field_of_view(o: Seq<(String, JsonValue)>, k: Seq<char>)
    ensures
        match field_of(o, k) {
            Some(x) => view_field_of(object_view(o), k) == Some(json_view(x)),
            None => view_field_of(object_view(o), k) is None,
        },
    decreases o.len(),
{
    lemma_object_view_index(o);
    if o.len() > 0 {
        let t = o.drop_first();
        lemma_object_view_index(t);
        assert(object_view(o).drop_first() =~= object_view(t)) by {
            assert forall|i: int| 0 <= i < object_view(t).len() implies object_view(o).drop_first()[i] == object_view(t)[i] by {
                assert(object_view(o)[i + 1] == (o[i + 1].0@, json_view(o[i + 1].1)));
                assert(t[i] == o[i + 1]);
            }
        }
        assert(object_view(o)[0] == (o[0].0@, json_view(o[0].1)));
        lemma_field_of_view(t, k);
    }
}

proof fn lemma_view_field_concat(a: Seq<(Seq<char>, JsonView)>, b: Seq<(Seq<char>, JsonView)>, k: Seq<char>)
    ensures
        view_field_of(a + b, k) == match view_field_of(a, k) {
            Some(x) => Some(x),
            None => view_field_of(b, k),
        },
    decreases a.len(),
{
    if a.len() > 0 {
        assert((a + b).drop_first() =~= a.drop_first() + b);
        assert((a + b)[0] == a[0]);
        lemma_view_field_concat(a.drop_first(), b, k);
    } else {
        assert(a + b =~= b);
    }
}

/// A part of a rendered object: no entry, or one entry named `key`.
pub open spec fn part_of(s: Seq<(Seq<char>, JsonView)>, key: Seq<char>) -> bool {
    s.len() == 0 || (s.len() == 1 && s[0].0 == key)
}

proof fn lemma_part_lookup(s: Seq<(Seq<char>, JsonView)>, key: Seq<char>, k: Seq<char>)
    requires
        part_of(s, key),
    ensures
        view_field_of(s, k) == if s.len() == 1 && key == k {
            Some(s[0].1)
        } else {
            None::<JsonView>
        },
{
    if s.len() == 1 {
        assert(s.drop_first().len() == 0);
        assert(view_field_of(s.drop_first(), k) is None);
    }
}

proof fn lemma_kinds(x: JsonValue)
    ensures
        json_view(x) matches JsonView::String(s) ==> str_of(x) == Some(s),
        !(json_view(x) is String) ==> str_of(x) is None,
        json_view(x) matches JsonView::Bool(b) ==> bool_of(x) == Some(b),
        !(json_view(x) is Bool) ==> bool_of(x) is None,
        json_view(x) matches JsonView::Number(JsonNumber::PosInt(n)) ==> u64_of(x) == Some(n),
        json_view(x) matches JsonView::Object(e) ==> (x matches JsonValue::Object(o) && object_view(o@) == e),
{
}

/// Whether a leaf field mapping (no sub-fields) is one that parsing its
/// own JSON form gives back.
pub open spec fn renderable_leaf(m: FieldMappingView) -> bool {
    &&& m.field_type != FieldType::Unknown
    &&& (m.field_type != FieldType::Text ==> m.analyzer is None && m.custom_analyzer is None && m.index_prefixes is None)
    &&& (m.analyzer is Some ==> m.custom_analyzer is None)
    &&& (m.custom_analyzer matches Some(c) ==> analyzer_of_name(c) is None)
    &&& (m.index_prefixes matches Some(p) ==> 2 <= p.min_chars && p.min_chars < p.max_chars && p.max_chars <= 20)
    &&& (m.field_type == FieldType::Date <==> m.date_format is Some)
}

/// Whether a named sub-field is one that parsing gives back: a non-blank
/// name and a leaf mapping without sub-fields of its own.
#[verifier::opaque]
pub open spec fn renderable_sub(e: (Seq<char>, FieldMappingView)) -> bool {
    !is_blank(e.0) && renderable_leaf(e.1) && e.1.fields.len() == 0
}

/// Whether a named field is one that parsing gives back: a non-blank name
/// and a mapping that may have sub-fields.
#[verifier::opaque]
pub open spec fn renderable_field(e: (String, FieldMapping)) -> bool {
    !is_blank(e.0@) && renderable(e.1@, true)
}

/// Whether a field mapping is one that parsing its own JSON form gives
/// back: each option where the parser accepts it, a date field with its
/// format, a custom analyzer that names no builtin, and sub-fields, when
/// allowed, under non-blank names and without sub-fields of their own.
pub open spec fn renderable(m: FieldMappingView, allow_subfields: bool) -> bool {
    &&& renderable_leaf(m)
    &&& (!allow_subfields ==> m.fields.len() == 0)
    &&& forall|i: int| 0 <= i < m.fields.len() ==> #[trigger] renderable_sub(m.fields[i])
}

proof fn lemma_type_names(t: FieldType)
    requires
        t != FieldType::Unknown,
    ensures
        type_of_name(field_type_name(t)) == Some(t),
{
    reveal_strlit("text");
    reveal_strlit("keyword");
    reveal_strlit("integer");
    reveal_strlit("int");
    reveal_strlit("long");
    reveal_strlit("short");
    reveal_strlit("byte");
    reveal_strlit("float");
    reveal_strlit("double");
    reveal_strlit("boolean");
    reveal_strlit("bool");
    reveal_strlit("date");
    reveal_strlit("geo_point");
    reveal_strlit("object");
    reveal_strlit("array");
    assert("text"@.len() == 4 && "text"@[0] == 't' && "text"@[1] == 'e');
    assert("keyword"@.len() == 7 && "keyword"@[0] == 'k' && "keyword"@[1] == 'e');
    assert("integer"@.len() == 7 && "integer"@[0] == 'i' && "integer"@[1] == 'n');
    assert("int"@.len() == 3 && "int"@[0] == 'i' && "int"@[1] == 'n');
    assert("long"@.len() == 4 && "long"@[0] == 'l' && "long"@[1] == 'o');
    assert("short"@.len() == 5 && "short"@[0] == 's' && "short"@[1] == 'h');
    assert("byte"@.len() == 4 && "byte"@[0] == 'b' && "byte"@[1] == 'y');
    assert("float"@.len() == 5 && "float"@[0] == 'f' && "float"@[1] == 'l');
    assert("double"@.len() == 6 && "double"@[0] == 'd' && "double"@[1] == 'o');
    assert("boolean"@.len() == 7 && "boolean"@[0] == 'b' && "boolean"@[1] == 'o');
    assert("bool"@.len() == 4 && "bool"@[0] == 'b' && "bool"@[1] == 'o');
    assert("date"@.len() == 4 && "date"@[0] == 'd' && "date"@[1] == 'a');
    assert("geo_point"@.len() == 9 && "geo_point"@[0] == 'g' && "geo_point"@[1] == 'e');
    assert("object"@.len() == 6 && "object"@[0] == 'o' && "object"@[1] == 'b');
    assert("array"@.len() == 5 && "array"@[0] == 'a' && "array"@[1] == 'r');
}

/// A value's inferred field type is the mapping type that names its JSON
/// kind: a boolean is `boolean`, a number written with a fraction or an
/// exponent `double`, any other number `integer`, a string of ASCII digits
/// `keyword`, any other string `text`, an object `object`; `null` is of no
/// type a mapping can name.
pub proof fn law_inferred_type_names_json_kind(v: JsonValue)
    ensures
        v is Bool ==> type_of_name("boolean"@) == Some(inferred_type(v)),
        v matches JsonValue::Number(n) && n is Float ==> type_of_name("double"@) == Some(inferred_type(v)),
        v matches JsonValue::Number(n) && !(n is Float) ==> type_of_name("integer"@) == Some(inferred_type(v)),
        v matches JsonValue::String(s) && numeric_string(s@) ==> type_of_name("keyword"@) == Some(inferred_type(v)),
        v matches JsonValue::String(s) && !numeric_string(s@) ==> type_of_name("text"@) == Some(inferred_type(v)),
        v is Object ==> type_of_name("object"@) == Some(inferred_type(v)),
        v is Null ==> type_of_name(field_type_name(inferred_type(v))) is None,
{
    match v {
        JsonValue::Bool(_) => lemma_type_names(FieldType::Boolean),
        JsonValue::Number(n) => {
            lemma_type_names(FieldType::Double);
            lemma_type_names(FieldType::Integer);
        },
        JsonValue::String(_) => {
            lemma_type_names(FieldType::Keyword);
            lemma_type_names(FieldType::Text);
        },
        JsonValue::Object(_) => lemma_type_names(FieldType::Object),
        JsonValue::Null => {
            reveal_strlit("unknown");
            reveal_strlit("text");
            reveal_strlit("keyword");
            reveal_strlit("integer");
            reveal_strlit("int");
            reveal_strlit("long");
            reveal_strlit("short");
            reveal_strlit("byte");
            reveal_strlit("float");
            reveal_strlit("double");
            reveal_strlit("boolean");
            reveal_strlit("bool");
            reveal_strlit("date");
            reveal_strlit("geo_point");
            reveal_strlit("object");
            reveal_strlit("array");
            let u = "unknown"@;
            assert(u.len() == 7 && u[0] == 'u');
            assert("keyword"@[0] == 'k' && "integer"@[0] == 'i' && "boolean"@[0] == 'b');
        },
        JsonValue::Array(_) => {},
    }
}

/// An array takes the inferred type of its first element whose type is
/// known, and is typed `array` when no element's type is known.
pub proof fn law_array_takes_first_known_type(v: JsonValue)
    requires
        v is Array,
    ensures
        (forall|i: int| 0 <= i < v->Array_0@.len() ==> inferred_type(#[trigger] v->Array_0@[i]) == FieldType::Unknown)
            ==> inferred_type(v) == FieldType::Array,
        forall|i: int|
            0 <= i < v->Array_0@.len() && inferred_type(#[trigger] v->Array_0@[i]) != FieldType::Unknown && (forall|j: int|
                0 <= j < i ==> inferred_type(#[trigger] v->Array_0@[j]) == FieldType::Unknown) ==> inferred_type(v)
                == inferred_type(v->Array_0@[i]),
{
    lemma_first_known_type(v->Array_0@);
}

proof fn lemma_first_known_type(a: Seq<JsonValue>)
    ensures
        (forall|i: int| 0 <= i < a.len() ==> inferred_type(#[trigger] a[i]) == FieldType::Unknown) ==> first_known_type(a)
            == FieldType::Array,
        forall|i: int|
            0 <= i < a.len() && inferred_type(#[trigger] a[i]) != FieldType::Unknown && (forall|j: int|
                0 <= j < i ==> inferred_type(#[trigger] a[j]) == FieldType::Unknown) ==> first_known_type(a) == inferred_type(
                a[i],
            ),
    decreases a.len(),
{
    if a.len() > 0 {
        let r = a.drop_first();
        lemma_first_known_type(r);
        if forall|i: int| 0 <= i < a.len() ==> inferred_type(#[trigger] a[i]) == FieldType::Unknown {
            assert(inferred_type(a[0]) == FieldType::Unknown);
            assert forall|i: int| 0 <= i < r.len() implies inferred_type(#[trigger] r[i]) == FieldType::Unknown by {
                assert(r[i] == a[i + 1]);
                assert(inferred_type(a[i + 1]) == FieldType::Unknown);
            }
        }
        assert forall|i: int|
            0 <= i < a.len() && inferred_type(#[trigger] a[i]) != FieldType::Unknown && (forall|j: int|
                0 <= j < i ==> inferred_type(#[trigger] a[j]) == FieldType::Unknown) implies first_known_type(a)
                == inferred_type(a[i]) by {
            if i > 0 {
                assert(inferred_type(a[0]) == FieldType::Unknown);
                assert(r[i - 1] == a[i]);
                assert forall|j: int| 0 <= j < i - 1 implies inferred_type(#[trigger] r[j]) == FieldType::Unknown by {
                    assert(r[j] == a[j + 1]);
                    assert(inferred_type(a[j + 1]) == FieldType::Unknown);
                }
                assert(inferred_type(r[i - 1]) != FieldType::Unknown);
            }
        }
    }
}

proof fn lemma_document_fields_kept(base: Map<Seq<char>, FieldMappingView>, obj: Seq<(String, JsonValue)>, n: nat)
    requires
        n <= obj.len(),
    ensures
        forall|k: Seq<char>|
            #[trigger] base.contains_key(k) ==> with_document_fields(base, obj, n, true).contains_key(k)
                && with_document_fields(base, obj, n, true)[k] == base[k],
        forall|k: Seq<char>|
            #[trigger] with_document_fields(base, obj, n, true).contains_key(k) <==> (base.contains_key(k) || exists|i: int|
                0 <= i < n && (#[trigger] obj[i]).0@ == k),
        forall|i: int|
            0 <= i < n && !base.contains_key((#[trigger] obj[i]).0@) && (forall|j: int| 0 <= j < i ==> (#[trigger] obj[j]).0@ != obj[i].0@)
                ==> with_document_fields(base, obj, n, true)[obj[i].0@] == plain_mapping(inferred_type(obj[i].1), None, None),
    decreases n,
{
    if n > 0 {
        let p = (n - 1) as nat;
        lemma_document_fields_kept(base, obj, p);
        let m = with_document_fields(base, obj, p, true);
        let name = obj[n - 1].0@;
        assert forall|k: Seq<char>|
            #[trigger] with_document_fields(base, obj, n, true).contains_key(k) <==> (base.contains_key(k) || exists|i: int|
                0 <= i < n && (#[trigger] obj[i]).0@ == k) by {
            if exists|i: int| 0 <= i < n && (#[trigger] obj[i]).0@ == k {
                let i = choose|i: int| 0 <= i < n && (#[trigger] obj[i]).0@ == k;
                if i < n - 1 {
                    assert(m.contains_key(k));
                }
            }
            if m.contains_key(k) && !base.contains_key(k) {
                let i = choose|i: int| 0 <= i < p && (#[trigger] obj[i]).0@ == k;
                assert(0 <= i < n && obj[i].0@ == k);
            }
        }
        assert forall|i: int|
            0 <= i < n && !base.contains_key((#[trigger] obj[i]).0@) && (forall|j: int| 0 <= j < i ==> (#[trigger] obj[j]).0@ != obj[i].0@)
                implies with_document_fields(base, obj, n, true)[obj[i].0@] == plain_mapping(inferred_type(obj[i].1), None, None) by {
            if i < n - 1 {
                if obj[i].0@ == name {
                    assert(m.contains_key(name));
                }
            } else {
                if m.contains_key(name) {
                    let j = choose|j: int| 0 <= j < p && (#[trigger] obj[j]).0@ == name;
                    assert(obj[j].0@ != obj[i].0@);
                }
            }
        }
    }
}

/// Declaring a document's fields keeps every field already declared as it
/// was, declares each top-level key of the document, and nothing else, and
/// gives a key not declared before the default mapping of the inferred
/// type of its first value in the document.
pub proof fn law_ensure_fields_keeps_declared(base: Map<Seq<char>, FieldMappingView>, obj: Seq<(String, JsonValue)>)
    ensures
        forall|k: Seq<char>|
            #[trigger] base.contains_key(k) ==> with_document_fields(base, obj, obj.len(), true).contains_key(k)
                && with_document_fields(base, obj, obj.len(), true)[k] == base[k],
        forall|k: Seq<char>|
            #[trigger] with_document_fields(base, obj, obj.len(), true).contains_key(k) <==> (base.contains_key(k)
                || exists|i: int| 0 <= i < obj.len() && (#[trigger] obj[i]).0@ == k),
        forall|i: int|
            0 <= i < obj.len() && !base.contains_key((#[trigger] obj[i]).0@) && (forall|j: int|
                0 <= j < i ==> (#[trigger] obj[j]).0@ != obj[i].0@) ==> with_document_fields(base, obj, obj.len(), true)[obj[i].0@]
                == plain_mapping(inferred_type(obj[i].1), None, None),
{
    lemma_document_fields_kept(base, obj, obj.len());
}

proof fn lemma_analyzer_names(a: AnalyzerName)
    ensures
        analyzer_of_name(analyzer_name(a)) == Some(a),
{
    reveal_strlit("standard");
    reveal_strlit("simple");
    reveal_strlit("stop");
    reveal_strlit("keyword");
    reveal_strlit("whitespace");
    reveal_strlit("norm");
    assert("standard"@.len() == 8 && "standard"@[0] == 's' && "standard"@[1] == 't');
    assert("simple"@.len() == 6 && "simple"@[0] == 's' && "simple"@[1] == 'i');
    assert("stop"@.len() == 4 && "stop"@[0] == 's' && "stop"@[1] == 't');
    assert("keyword"@.len() == 7 && "keyword"@[0] == 'k' && "keyword"@[1] == 'e');
    assert("whitespace"@.len() == 10 && "whitespace"@[0] == 'w' && "whitespace"@[1] == 'h');
    assert("norm"@.len() == 4 && "norm"@[0] == 'n' && "norm"@[1] == 'o');
    let n = analyzer_name(a);
    assert(lower_ascii_letters(n)) by {
        assert forall|i: int| 0 <= i < n.len() implies 'a' <= #[trigger] n[i] && n[i] <= 'z' by {
            assert("standard"@ =~= seq!['s', 't', 'a', 'n', 'd', 'a', 'r', 'd']);
            assert("simple"@ =~= seq!['s', 'i', 'm', 'p', 'l', 'e']);
            assert("stop"@ =~= seq!['s', 't', 'o', 'p']);
            assert("keyword"@ =~= seq!['k', 'e', 'y', 'w', 'o', 'r', 'd']);
            assert("whitespace"@ =~= seq!['w', 'h', 'i', 't', 'e', 's', 'p', 'a', 'c', 'e']);
            assert("norm"@ =~= seq!['n', 'o', 'r', 'm']);
        }
    }
    crate::mapping::lemma_lower_letters_ascii(n);
}

/// The entries of the JSON form of `m`, in key order.
pub open spec fn rendered_entries(m: FieldMappingView) -> Seq<(Seq<char>, JsonView)> {
    analyzer_json(m) + fields_json(m) + format_json(m) + prefixes_json(m) + normalizer_json(m) + norms_json(m) + seq![
        ("type"@, JsonView::String(field_type_name(m.field_type))),
    ]
}

/// The value the part `p` of a rendered object holds, if it holds one.
pub open spec fn part_value(p: Seq<(Seq<char>, JsonView)>) -> Option<JsonView> {
    if p.len() == 1 {
        Some(p[0].1)
    } else {
        None
    }
}

proof fn lemma_key_facts()
    ensures
        "analyzer"@.len() == 8 && "analyzer"@[0] == 'a' && "analyzer"@[1] == 'n',
        "fields"@.len() == 6 && "fields"@[0] == 'f' && "fields"@[1] == 'i',
        "format"@.len() == 6 && "format"@[0] == 'f' && "format"@[1] == 'o',
        "index_prefixes"@.len() == 14 && "index_prefixes"@[0] == 'i' && "index_prefixes"@[1] == 'n',
        "normalizer"@.len() == 10 && "normalizer"@[0] == 'n' && "normalizer"@[1] == 'o',
        "norms"@.len() == 5 && "norms"@[0] == 'n' && "norms"@[1] == 'o',
        "type"@.len() == 4 && "type"@[0] == 't' && "type"@[1] == 'y',
        "max_chars"@.len() == 9 && "max_chars"@[0] == 'm' && "max_chars"@[1] == 'a',
        "min_chars"@.len() == 9 && "min_chars"@[0] == 'm' && "min_chars"@[1] == 'i',
{
    reveal_strlit("analyzer");
    reveal_strlit("fields");
    reveal_strlit("format");
    reveal_strlit("index_prefixes");
    reveal_strlit("normalizer");
    reveal_strlit("norms");
    reveal_strlit("type");
    reveal_strlit("max_chars");
    reveal_strlit("min_chars");
}

proof fn lemma_rendered_lookup(m: FieldMappingView)
    ensures
        mapping_json(m) == JsonView::Object(rendered_entries(m)),
        view_field_of(rendered_entries(m), "analyzer"@) == part_value(analyzer_json(m)),
        view_field_of(rendered_entries(m), "fields"@) == part_value(fields_json(m)),
        view_field_of(rendered_entries(m), "format"@) == part_value(format_json(m)),
        view_field_of(rendered_entries(m), "index_prefixes"@) == part_value(prefixes_json(m)),
        view_field_of(rendered_entries(m), "normalizer"@) == part_value(normalizer_json(m)),
        view_field_of(rendered_entries(m), "norms"@) == part_value(norms_json(m)),
        view_field_of(rendered_entries(m), "type"@) == Some(JsonView::String(field_type_name(m.field_type))),
{
    lemma_key_facts();
    let a = analyzer_json(m);
    let f = fields_json(m);
    let d = format_json(m);
    let p = prefixes_json(m);
    let z = normalizer_json(m);
    let n = norms_json(m);
    let t = seq![("type"@, JsonView::String(field_type_name(m.field_type)))];
    assert(part_of(a, "analyzer"@));
    assert(part_of(f, "fields"@));
    assert(part_of(d, "format"@));
    assert(part_of(p, "index_prefixes"@));
    assert(part_of(z, "normalizer"@));
    assert(part_of(n, "norms"@));
    assert(part_of(t, "type"@));
    let ks = seq!["analyzer"@, "fields"@, "format"@, "index_prefixes"@, "normalizer"@, "norms"@, "type"@];
    assert forall|i: int| 0 <= i < 7 implies {
        let k = #[trigger] ks[i];
        view_field_of(a + f + d + p + z + n + t, k) == if k == "analyzer"@ {
            part_value(a)
        } else if k == "fields"@ {
            part_value(f)
        } else if k == "format"@ {
            part_value(d)
        } else if k == "index_prefixes"@ {
            part_value(p)
        } else if k == "normalizer"@ {
            part_value(z)
        } else if k == "norms"@ {
            part_value(n)
        } else {
            part_value(t)
        }
    } by {
        let k = ks[i];
        lemma_view_field_concat(a + f + d + p + z + n, t, k);
        lemma_view_field_concat(a + f + d + p + z, n, k);
        lemma_view_field_concat(a + f + d + p, z, k);
        lemma_view_field_concat(a + f + d, p, k);
        lemma_view_field_concat(a + f, d, k);
        lemma_view_field_concat(a, f, k);
        lemma_part_lookup(a, "analyzer"@, k);
        lemma_part_lookup(f, "fields"@, k);
        lemma_part_lookup(d, "format"@, k);
        lemma_part_lookup(p, "index_prefixes"@, k);
        lemma_part_lookup(z, "normalizer"@, k);
        lemma_part_lookup(n, "norms"@, k);
        lemma_part_lookup(t, "type"@, k);
    }
    assert(ks[0] == "analyzer"@);
    assert(ks[1] == "fields"@);
    assert(ks[2] == "format"@);
    assert(ks[3] == "index_prefixes"@);
    assert(ks[4] == "normalizer"@);
    assert(ks[5] == "norms"@);
    assert(ks[6] == "type"@);
}

proof fn lemma_subfields_json_index(s: Seq<(Seq<char>, FieldMappingView)>)
    ensures
        subfields_json(s).len() == s.len(),
        forall|i: int| 0 <= i < s.len() ==> #[trigger] subfields_json(s)[i] == (s[i].0, mapping_json(s[i].1)),
    decreases s.len(),
{
    if s.len() > 0 {
        let p = s.subrange(0, s.len() - 1);
        lemma_subfields_json_index(p);
        assert forall|i: int| 0 <= i < s.len() implies #[trigger] subfields_json(s)[i] == (s[i].0, mapping_json(s[i].1)) by {
            if i < s.len() - 1 {
                assert(subfields_json(s)[i] == subfields_json(p)[i]);
                assert(p[i] == s[i]);
            }
        }
    }
}

proof fn lemma_lookup(o: Seq<(String, JsonValue)>, k: Seq<char>)
    ensures
        match view_field_of(object_view(o), k) {
            None => field_of(o, k) is None,
            Some(jv) => (field_of(o, k) matches Some(x) && json_view(x) == jv),
        },
{
    lemma_field_of_view(o, k);
}

proof fn lemma_type_part(o: Seq<(String, JsonValue)>, m: FieldMappingView)
    requires
        object_view(o) == rendered_entries(m),
        m.field_type != FieldType::Unknown,
    ensures
        type_of_name(type_given(o)) == Some(m.field_type),
{
    lemma_rendered_lookup(m);
    lemma_lookup(o, "type"@);
    let x = field_of(o, "type"@)->Some_0;
    lemma_kinds(x);
    lemma_type_names(m.field_type);
}

proof fn lemma_analyzer_part(name: Seq<char>, o: Seq<(String, JsonValue)>, m: FieldMappingView)
    requires
        object_view(o) == rendered_entries(m),
        renderable_leaf(m),
    ensures
        analyzer_spec(name, o) == Ok::<(Option<AnalyzerName>, Option<Seq<char>>), crate::mapping::MappingErrorView>(
            (m.analyzer, m.custom_analyzer),
        ),
{
    lemma_rendered_lookup(m);
    lemma_lookup(o, "analyzer"@);
    if analyzer_json(m).len() == 1 {
        let x = field_of(o, "analyzer"@)->Some_0;
        lemma_kinds(x);
        if let Some(a) = m.analyzer {
            lemma_analyzer_names(a);
        }
    }
}

proof fn lemma_norms_part(name: Seq<char>, o: Seq<(String, JsonValue)>, m: FieldMappingView)
    requires
        object_view(o) == rendered_entries(m),
    ensures
        norms_spec(name, o) == Ok::<Option<bool>, crate::mapping::MappingErrorView>(m.norms),
{
    lemma_rendered_lookup(m);
    lemma_lookup(o, "norms"@);
    if norms_json(m).len() == 1 {
        let x = field_of(o, "norms"@)->Some_0;
        lemma_kinds(x);
    }
}

proof fn lemma_normalizer_part(name: Seq<char>, o: Seq<(String, JsonValue)>, m: FieldMappingView)
    requires
        object_view(o) == rendered_entries(m),
    ensures
        normalizer_spec(name, o) == Ok::<Option<AnalyzerName>, crate::mapping::MappingErrorView>(m.normalizer),
{
    lemma_rendered_lookup(m);
    lemma_lookup(o, "normalizer"@);
    if let Some(a) = m.normalizer {
        let x = field_of(o, "normalizer"@)->Some_0;
        lemma_kinds(x);
        lemma_analyzer_names(a);
    }
}

proof fn lemma_format_part(name: Seq<char>, o: Seq<(String, JsonValue)>, m: FieldMappingView)
    requires
        object_view(o) == rendered_entries(m),
        renderable_leaf(m),
    ensures
        format_spec(name, o, m.field_type) == Ok::<Option<Seq<char>>, crate::mapping::MappingErrorView>(m.date_format),
{
    lemma_rendered_lookup(m);
    lemma_lookup(o, "format"@);
    if m.field_type == FieldType::Date {
        let x = field_of(o, "format"@)->Some_0;
        lemma_kinds(x);
    }
}

proof fn lemma_prefixes_part(name: Seq<char>, o: Seq<(String, JsonValue)>, m: FieldMappingView)
    requires
        object_view(o) == rendered_entries(m),
        renderable_leaf(m),
    ensures
        index_prefixes_spec(name, o) == Ok::<Option<FieldPrefixes>, crate::mapping::MappingErrorView>(m.index_prefixes),
{
    lemma_rendered_lookup(m);
    lemma_lookup(o, "index_prefixes"@);
    if let Some(p) = m.index_prefixes {
        lemma_key_facts();
        let x = field_of(o, "index_prefixes"@)->Some_0;
        lemma_kinds(x);
        let po = x->Object_0@;
        let pv = seq![
            ("max_chars"@, JsonView::Number(JsonNumber::PosInt(p.max_chars as u64))),
            ("min_chars"@, JsonView::Number(JsonNumber::PosInt(p.min_chars as u64))),
        ];
        assert(object_view(po) == pv);
        lemma_object_view_index(po);
        assert(po.len() == 2);
        assert(po[0].0@ == "max_chars"@) by {
            assert(object_view(po)[0] == pv[0]);
        }
        assert(po[1].0@ == "min_chars"@) by {
            assert(object_view(po)[1] == pv[1]);
        }
        assert(po.drop_first().drop_first().len() == 0);
        assert(po.drop_first()[0] == po[1]);
        assert(first_unknown_prefix_key(po.drop_first().drop_first()) is None);
        assert(po.drop_first()[0].0@ == "min_chars"@);
        assert(first_unknown_prefix_key(po.drop_first()) is None);
        assert(first_unknown_prefix_key(po) is None);
        lemma_view_field_concat(seq![pv[0]], seq![pv[1]], "min_chars"@);
        lemma_view_field_concat(seq![pv[0]], seq![pv[1]], "max_chars"@);
        assert(pv =~= seq![pv[0]] + seq![pv[1]]);
        lemma_part_lookup(seq![pv[0]], "max_chars"@, "min_chars"@);
        lemma_part_lookup(seq![pv[1]], "min_chars"@, "min_chars"@);
        lemma_part_lookup(seq![pv[0]], "max_chars"@, "max_chars"@);
        lemma_part_lookup(seq![pv[1]], "min_chars"@, "max_chars"@);
        lemma_lookup(po, "min_chars"@);
        lemma_lookup(po, "max_chars"@);
        let xmin = field_of(po, "min_chars"@)->Some_0;
        let xmax = field_of(po, "max_chars"@)->Some_0;
        lemma_kinds(xmin);
        lemma_kinds(xmax);
        assert(prefix_bound(name, po, "min_chars"@, 2) == Ok::<usize, crate::mapping::MappingErrorView>(p.min_chars));
        assert(prefix_bound(name, po, "max_chars"@, 5) == Ok::<usize, crate::mapping::MappingErrorView>(p.max_chars));
        assert(prefix_object_spec(name, po) == Ok::<FieldPrefixes, crate::mapping::MappingErrorView>(p));
        assert(prefixes_spec(name, x) == Ok::<FieldPrefixes, crate::mapping::MappingErrorView>(p));
    }
}

#[verifier::spinoff_prover]
proof fn lemma_subfield_entries(
    name: Seq<char>,
    e: Seq<(String, JsonValue)>,
    subs: Seq<(Seq<char>, FieldMappingView)>,
    n: nat,
)
    requires
        object_view(e) == subfields_json(subs),
        n <= subs.len(),
        forall|i: int| 0 <= i < subs.len() ==> #[trigger] renderable_sub(subs[i]),
    ensures
        subfield_entries_spec(name, e, n) == Ok::<Seq<(Seq<char>, FieldMappingView)>, crate::mapping::MappingErrorView>(
            subs.subrange(0, n as int),
        ),
    decreases 1int, 0int, n,
{
    if n > 0 {
        lemma_subfield_entries(name, e, subs, (n - 1) as nat);
        lemma_object_view_index(e);
        lemma_subfields_json_index(subs);
        let i = n - 1;
        assert(object_view(e)[i] == subfields_json(subs)[i]);
        assert(e[i].0@ == subs[i].0);
        assert(json_view(e[i].1) == mapping_json(subs[i].1));
        let sub = subs[i].1;
        assert(renderable_sub(subs[i]));
        reveal(renderable_sub);
        assert(!is_blank(subs[i].0));
        assert(renderable(sub, false));
        law_field_mapping_round_trip(qualified(name, subs[i].0), e[i].1, sub, false);
        assert(subs.subrange(0, n as int) =~= subs.subrange(0, i).push((subs[i].0, sub)));
    } else {
        assert(subs.subrange(0, 0) =~= Seq::<(Seq<char>, FieldMappingView)>::empty());
    }
}

#[verifier::spinoff_prover]
proof fn lemma_subfields_part(name: Seq<char>, o: Seq<(String, JsonValue)>, m: FieldMappingView, allow_subfields: bool)
    requires
        object_view(o) == rendered_entries(m),
        renderable(m, allow_subfields),
    ensures
        subfields_spec(name, o, allow_subfields) == Ok::<Seq<(Seq<char>, FieldMappingView)>, crate::mapping::MappingErrorView>(
            m.fields,
        ),
    decreases (if allow_subfields { 1int } else { 0int }), 1int, 0int,
{
    lemma_rendered_lookup(m);
    lemma_lookup(o, "fields"@);
    if m.fields.len() == 0 {
        assert(m.fields =~= Seq::<(Seq<char>, FieldMappingView)>::empty());
    } else {
        let x = field_of(o, "fields"@)->Some_0;
        lemma_kinds(x);
        let e = x->Object_0@;
        lemma_subfields_json_index(m.fields);
        lemma_object_view_index(e);
        lemma_subfield_entries(name, e, m.fields, m.fields.len());
        assert(m.fields.subrange(0, m.fields.len() as int) =~= m.fields);
    }
}

/// Parsing the JSON form of a field mapping gives the mapping back, for
/// every mapping the parser could have produced: options only where they
/// are accepted, a date field with its format, a custom analyzer that names
/// no builtin, and sub-fields (when allowed) under non-blank names with no
/// sub-fields of their own.
#[verifier::spinoff_prover]
pub proof fn law_field_mapping_round_trip(name: Seq<char>, def: JsonValue, m: FieldMappingView, allow_subfields: bool)
    requires
        renderable(m, allow_subfields),
        json_view(def) == mapping_json(m),
    ensures
        field_spec(name, def, allow_subfields) == Ok::<FieldMappingView, crate::mapping::MappingErrorView>(m),
    decreases (if allow_subfields { 1int } else { 0int }), 2int, 0int,
{
    lemma_rendered_lookup(m);
    lemma_kinds(def);
    let o = def->Object_0@;
    lemma_type_part(o, m);
    lemma_analyzer_part(name, o, m);
    lemma_norms_part(name, o, m);
    lemma_normalizer_part(name, o, m);
    lemma_prefixes_part(name, o, m);
    lemma_format_part(name, o, m);
    lemma_subfields_part(name, o, m, allow_subfields);
    assert(field_object_spec(name, o, allow_subfields) == Ok::<FieldMappingView, crate::mapping::MappingErrorView>(m));
}

#[verifier::spinoff_prover]
proof fn lemma_property_entries(obj: Seq<(String, JsonValue)>, s: Seq<(String, FieldMapping)>, n: nat)
    requires
        object_view(obj) == s.map_values(|e: (String, FieldMapping)| (e.0@, mapping_json(e.1@))),
        n <= s.len(),
        forall|i: int| 0 <= i < s.len() ==> #[trigger] renderable_field(s[i]),
    ensures
        property_entries_spec(obj, n) == Ok::<Map<Seq<char>, FieldMappingView>, crate::mapping::MappingErrorView>(
            views_by_name(s, n),
        ),
    decreases n,
{
    if n > 0 {
        lemma_property_entries(obj, s, (n - 1) as nat);
        lemma_object_view_index(obj);
        let i = n - 1;
        assert(object_view(obj)[i] == (s[i].0@, mapping_json(s[i].1@)));
        assert(obj[i].0@ == s[i].0@);
        assert(renderable_field(s[i]));
        reveal(renderable_field);
        assert(!is_blank(s[i].0@));
        law_field_mapping_round_trip(obj[i].0@, obj[i].1, s[i].1@, true);
    }
}

/// Parsing the `properties` block a mapping renders gives back each field's
/// mapping under its name, when every field is one the parser could have
/// produced under a non-blank name.
#[verifier::spinoff_prover]
pub proof fn law_properties_round_trip(s: Seq<(String, FieldMapping)>, properties: JsonValue)
    requires
        forall|i: int| 0 <= i < s.len() ==> #[trigger] renderable_field(s[i]),
        json_view(properties) == properties_json(s),
    ensures
        properties_spec(properties) == Ok::<Map<Seq<char>, FieldMappingView>, crate::mapping::MappingErrorView>(
            views_by_name(s, s.len()),
        ),
{
    lemma_kinds(properties);
    let obj = properties->Object_0@;
    lemma_object_view_index(obj);
    assert(obj.len() == s.len());
    lemma_property_entries(obj, s, s.len());
}

} // verus!
