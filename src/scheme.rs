//! Schemas: the allowed shape of a configuration document, compiled from a
//! schema description, and the default document each schema gives.
use vstd::prelude::*;
use vstd::string::*;
use crate::text::{
    int_text, lemma_parse_int_text, lemma_trim_int_text, parse_i64, parse_i64_spec, trim, trim_text,
};
use crate::value::{JsonValue, Tree, lemma_view_entries, lemma_view_items, view_entries, view_items};

verus! {

broadcast use vstd::std_specs::vec::group_vec_axioms;

/// The allowed shape of one node of a configuration document.
#[derive(Debug, PartialEq, Eq)]
pub enum Scheme {
    /// An integer, with its default.
    Int(i64),
    /// A string, with its default.
    Str(String),
    /// A record whose field names are fixed, each with its own schema.
    Object(Vec<(String, Scheme)>),
    /// A list whose elements follow the first schema; the value is the
    /// list's own default.
    List(Box<Scheme>, JsonValue),
}

/// Why a schema description does not compile.
#[derive(Debug, PartialEq, Eq)]
pub enum CompileError {
    /// A description that names no known type, or a value of a kind that
    /// describes nothing.
    UnsupportedType(JsonValue),
    /// A list description without its element description.
    MissingListElementType(JsonValue),
}

/// The model of a [`CompileError`].
pub enum CompileFault {
    Unsupported(Tree),
    MissingElement(Tree),
}

impl CompileError {
    pub open spec fn fault(&self) -> CompileFault {
        match self {
            CompileError::UnsupportedType(v) => CompileFault::Unsupported(v@),
            CompileError::MissingListElementType(v) => CompileFault::MissingElement(v@),
        }
    }
}

/// Whether the text starts with the three characters `a`, `b`, `c`.
pub open spec fn has_prefix3(t: Seq<char>, a: char, b: char, c: char) -> bool {
    t.len() >= 3 && t[0] == a && t[1] == b && t[2] == c
}

/// The text after a three-character type name, without surrounding white space.
pub open spec fn declared_default(t: Seq<char>) -> Seq<char> {
    trim(t.subrange(3, t.len() as int))
}

/// The default that an integer declaration gives: its trailing number, or
/// zero when that does not parse.
pub open spec fn int_declared_default(t: Seq<char>) -> int {
    match parse_i64_spec(declared_default(t)) {
        Some(v) => v,
        None => 0,
    }
}

/// Whether a string describes a type.
pub open spec fn is_type_name(t: Seq<char>) -> bool {
    has_prefix3(t, 'S', 't', 'r') || has_prefix3(t, 'I', 'n', 't')
}

/// The first fault in a schema description, in document order.
pub open spec fn compile_fault(raw: Tree) -> Option<CompileFault>
    decreases raw,
{
    match raw {
        Tree::Str(t) => if is_type_name(t) {
            None
        } else {
            Some(CompileFault::Unsupported(raw))
        },
        Tree::Array(items) => if items.len() == 0 {
            Some(CompileFault::MissingElement(raw))
        } else {
            compile_fault(items[0])
        },
        Tree::Object(entries) => entries_fault(entries),
        _ => Some(CompileFault::Unsupported(raw)),
    }
}

/// The first fault among the descriptions of record fields.
pub open spec fn entries_fault(entries: Seq<(Seq<char>, Tree)>) -> Option<CompileFault>
    decreases entries,
{
    if entries.len() == 0 {
        None
    } else {
        match compile_fault(entries[0].1) {
            Some(f) => Some(f),
            None => entries_fault(entries.subrange(1, entries.len() as int)),
        }
    }
}

/// Whether `s` is what the description `raw` compiles to.
pub open spec fn compiles_to(raw: Tree, s: Scheme) -> bool
    decreases raw,
{
    match raw {
        Tree::Str(t) => if has_prefix3(t, 'S', 't', 'r') {
            s is Str && s->Str_0@ == declared_default(t)
        } else {
            has_prefix3(t, 'I', 'n', 't') && s is Int && s->Int_0 == int_declared_default(t)
        },
        Tree::Array(items) => items.len() > 0 && s is List && compiles_to(items[0], *s->List_0)
            && s->List_1@ == (if items.len() > 1 {
            items[1]
        } else {
            Tree::Array(Seq::empty())
        }),
        Tree::Object(entries) => s is Object && s->Object_0@.len() == entries.len() && forall|
            i: int,
        |
            0 <= i < entries.len() ==> (#[trigger] s->Object_0@[i]).0@ == entries[i].0
                && compiles_to(entries[i].1, s->Object_0@[i].1),
        _ => false,
    }
}

/// The default document of a schema.
pub open spec fn default_of(s: Scheme) -> Tree
    decreases s,
{
    match s {
        Scheme::Int(d) => Tree::Int(d as int),
        Scheme::Str(d) => Tree::Str(d@),
        Scheme::Object(fields) => Tree::Object(default_fields(fields@)),
        Scheme::List(_, d) => d@,
    }
}

/// The default entries of a record with the given fields.
pub open spec fn default_fields(fields: Seq<(String, Scheme)>) -> Seq<(Seq<char>, Tree)>
    decreases fields,
{
    if fields.len() == 0 {
        Seq::empty()
    } else {
        let last = fields[fields.len() - 1];
        default_fields(fields.subrange(0, fields.len() - 1)).push((last.0@, default_of(last.1)))
    }
}

/// The default entries of a record are taken field by field.
pub proof fn lemma_default_fields(fields: Seq<(String, Scheme)>)
    ensures
        default_fields(fields).len() == fields.len(),
        forall|i: int|
            0 <= i < fields.len() ==> #[trigger] default_fields(fields)[i] == (
            fields[i].0@,
            default_of(fields[i].1),
        ),
    decreases fields.len(),
{
    if fields.len() > 0 {
        let front = fields.subrange(0, fields.len() - 1);
        let last = fields[fields.len() - 1];
        lemma_default_fields(front);
        assert(default_fields(fields) == default_fields(front).push(
            (last.0@, default_of(last.1)),
        ));
    } else {
        assert(default_fields(fields) == Seq::<(Seq<char>, Tree)>::empty());
    }
}

/// The default document of `scheme`: integers and strings take their
/// default, a record takes the default of each field, and a list takes the
/// list's own default.
pub fn scheme_to_default_value(scheme: &Scheme) -> (r: JsonValue)
    ensures
        r@ == default_of(*scheme),
    decreases scheme,
{
    match scheme {
        Scheme::Int(d) => JsonValue::Int(*d),
        Scheme::Str(d) => JsonValue::Str(d.clone()),
        Scheme::Object(fields) => {
            let mut out: Vec<(String, JsonValue)> = Vec::new();
            let mut i: usize = 0;
            while i < fields.len()
                invariant
                    i <= fields.len(),
                    *scheme == Scheme::Object(*fields),
                    out@.len() == i,
                    forall|j: int|
                        0 <= j < i ==> (#[trigger] out@[j]).0@ == fields@[j].0@ && out@[j].1@
                            == default_of(fields@[j].1),
                decreases fields.len() - i,
            {
                let field = &fields[i];
                proof {
                    assert(decreases_to!(*scheme => (*scheme)->Object_0));
                    assert(decreases_to!((*scheme)->Object_0 => (*scheme)->Object_0@));
                    assert(decreases_to!((*scheme)->Object_0@ => fields@[i as int]));
                }
                out.push((field.0.clone(), scheme_to_default_value(&field.1)));
                i = i + 1;
            }
            proof {
                lemma_view_entries(out@);
                lemma_default_fields(fields@);
                assert(view_entries(out@) =~= default_fields(fields@));
            }
            JsonValue::Object(out)
        },
        Scheme::List(_, d) => d.deep_copy(),
    }
}

/// Whether `t` starts with the three characters `a`, `b`, `c`.
fn starts_with3(t: &str, a: char, b: char, c: char) -> (r: bool)
    ensures
        r == has_prefix3(t@, a, b, c),
{
    t.unicode_len() >= 3 && t.get_char(0) == a && t.get_char(1) == b && t.get_char(2) == c
}

fn compile(value: &JsonValue) -> (r: Result<Scheme, CompileError>)
    ensures
        match r {
            Ok(s) => compile_fault(value@) is None && compiles_to(value@, s),
            Err(e) => compile_fault(value@) == Some(e.fault()),
        },
    decreases value,
{
    match value {
        JsonValue::Str(t) => {
            let ts = t.as_str();
            if starts_with3(ts, 'S', 't', 'r') {
                let n = ts.unicode_len();
                let rest = ts.substring_char(3, n);
                Ok(Scheme::Str(trim_text(rest)))
            } else if starts_with3(ts, 'I', 'n', 't') {
                let n = ts.unicode_len();
                let rest = ts.substring_char(3, n);
                let d = trim_text(rest);
                let v = match parse_i64(d.as_str()) {
                    Some(v) => v,
                    None => 0,
                };
                Ok(Scheme::Int(v))
            } else {
                Err(CompileError::UnsupportedType(value.deep_copy()))
            }
        },
        JsonValue::Array(items) => {
            proof {
                lemma_view_items(items@);
            }
            if items.len() == 0 {
                return Err(CompileError::MissingListElementType(value.deep_copy()));
            }
            proof {
                assert(decreases_to!(*value => (*value)->Array_0));
                assert(decreases_to!((*value)->Array_0 => (*value)->Array_0@));
                assert(decreases_to!((*value)->Array_0@ => items@[0]));
            }
            let element = compile(&items[0])?;
            let default = if items.len() > 1 {
                items[1].deep_copy()
            } else {
                let empty: Vec<JsonValue> = Vec::new();
                proof {
                    lemma_view_items(empty@);
                    assert(view_items(empty@) =~= Seq::<Tree>::empty());
                }
                JsonValue::Array(empty)
            };
            Ok(Scheme::List(Box::new(element), default))
        },
        JsonValue::Object(entries) => {
            proof {
                lemma_view_entries(entries@);
            }
            let ghost raw_entries = view_entries(entries@);
            let mut fields: Vec<(String, Scheme)> = Vec::new();
            let mut i: usize = 0;
            assert(raw_entries.subrange(0, raw_entries.len() as int) =~= raw_entries);
            while i < entries.len()
                invariant
                    i <= entries.len(),
                    *value == JsonValue::Object(*entries),
                    raw_entries == view_entries(entries@),
                    raw_entries.len() == entries@.len(),
                    forall|j: int|
                        0 <= j < entries@.len() ==> #[trigger] raw_entries[j] == (
                        entries@[j].0@,
                        entries@[j].1@,
                    ),
                    entries_fault(raw_entries) == entries_fault(
                        raw_entries.subrange(i as int, raw_entries.len() as int),
                    ),
                    fields@.len() == i,
                    forall|j: int|
                        0 <= j < i ==> (#[trigger] fields@[j]).0@ == raw_entries[j].0
                            && compiles_to(raw_entries[j].1, fields@[j].1),
                decreases entries.len() - i,
            {
                let entry = &entries[i];
                proof {
                    assert(decreases_to!(*value => (*value)->Object_0));
                    assert(decreases_to!((*value)->Object_0 => (*value)->Object_0@));
                    assert(decreases_to!((*value)->Object_0@ => entries@[i as int]));
                    let rest = raw_entries.subrange(i as int, raw_entries.len() as int);
                    assert(rest[0] == raw_entries[i as int]);
                    assert(rest.subrange(1, rest.len() as int) =~= raw_entries.subrange(
                        i + 1,
                        raw_entries.len() as int,
                    ));
                }
                let s = compile(&entry.1)?;
                fields.push((entry.0.clone(), s));
                i = i + 1;
            }
            proof {
                assert(raw_entries.subrange(i as int, raw_entries.len() as int) =~= Seq::<
                    (Seq<char>, Tree),
                >::empty());
            }
            Ok(Scheme::Object(fields))
        },
        _ => Err(CompileError::UnsupportedType(value.deep_copy())),
    }
}

/// Compiles a schema description: a string `Int ...` or `Str ...` names a
/// scalar with its default, an array gives a list's element description and
/// optionally its default, and an object gives a record's fields.
pub fn value_to_scheme(value: JsonValue) -> (r: Result<Scheme, CompileError>)
    ensures
        match r {
            Ok(s) => compile_fault(value@) is None && compiles_to(value@, s),
            Err(e) => compile_fault(value@) == Some(e.fault()),
        },
{
    compile(&value)
}


/// The canonical description of an integer with default `d`, `Int <d>`,
/// compiles without fault to an integer schema whose default is `d`.
pub proof fn lemma_int_declaration_round_trip(d: i64, s: Scheme)
    requires
        compiles_to(Tree::Str(seq!['I', 'n', 't', ' '] + int_text(d as int)), s),
    ensures
        compile_fault(Tree::Str(seq!['I', 'n', 't', ' '] + int_text(d as int))) is None,
        s == Scheme::Int(d),
{
    let t = seq!['I', 'n', 't', ' '] + int_text(d as int);
    assert(t.subrange(3, t.len() as int) =~= seq![' '] + int_text(d as int));
    lemma_trim_int_text(d);
    lemma_parse_int_text(d);
}

/// The canonical description of a string with default `d`, `Str <d>`,
/// compiles without fault to a string schema whose default is `d`, for every
/// `d` without surrounding white space.
pub proof fn lemma_str_declaration_round_trip(d: Seq<char>, s: Scheme)
    requires
        trim(d) == d,
        compiles_to(Tree::Str(seq!['S', 't', 'r', ' '] + d), s),
    ensures
        compile_fault(Tree::Str(seq!['S', 't', 'r', ' '] + d)) is None,
        s is Str && s->Str_0@ == d,
{
    let t = seq!['S', 't', 'r', ' '] + d;
    let rest = seq![' '] + d;
    assert(t.subrange(3, t.len() as int) =~= rest);
    assert(rest.drop_first() =~= d);
    assert(crate::text::trim_start(rest) == crate::text::trim_start(d));
}

} // verus!
