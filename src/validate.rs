//! Checking that a configuration document has the shape its schema asks for.
use vstd::prelude::*;
use vstd::string::*;
use crate::scheme::{Scheme, default_fields, default_of, lemma_default_fields, scheme_to_default_value};
use crate::text::{int_text, push_nat_text};
use crate::value::{JsonValue, Tree, lemma_view_entries, lemma_view_items, view_entries};

verus! {

broadcast use vstd::std_specs::vec::group_vec_axioms;

/// What is wrong at the place a validation error names.
pub enum Mismatch {
    NotNumber,
    NotString,
    NotObject,
    MissingChild(Seq<char>),
    NotArray,
}

/// The kind of a [`ValidationError`].
#[derive(Debug, PartialEq, Eq)]
pub enum ErrorKind {
    NotNumber,
    NotString,
    NotObject,
    MissingChild(String),
    NotArray,
}

impl ErrorKind {
    pub open spec fn model(&self) -> Mismatch {
        match self {
            ErrorKind::NotNumber => Mismatch::NotNumber,
            ErrorKind::NotString => Mismatch::NotString,
            ErrorKind::NotObject => Mismatch::NotObject,
            ErrorKind::MissingChild(k) => Mismatch::MissingChild(k@),
            ErrorKind::NotArray => Mismatch::NotArray,
        }
    }
}

/// The first place where a document does not have its schema's shape.
#[derive(Debug, PartialEq, Eq)]
pub struct ValidationError {
    /// The keys from the document root to the place.
    pub path: Vec<String>,
    pub kind: ErrorKind,
}

/// The texts of a sequence of strings.
pub open spec fn texts(v: Seq<String>) -> Seq<Seq<char>> {
    v.map_values(|s: String| s@)
}

/// The value of the first entry with the given key.
pub open spec fn lookup(entries: Seq<(Seq<char>, Tree)>, key: Seq<char>) -> Option<Tree>
    decreases entries.len(),
{
    if entries.len() == 0 {
        None
    } else if entries[0].0 == key {
        Some(entries[0].1)
    } else {
        lookup(entries.drop_first(), key)
    }
}

/// Puts `key` in front of the path of an error found below it.
pub open spec fn under(key: Seq<char>, e: Option<(Seq<Seq<char>>, Mismatch)>) -> Option<
    (Seq<Seq<char>>, Mismatch),
> {
    match e {
        Some((p, m)) => Some((seq![key] + p, m)),
        None => None,
    }
}

/// The first mismatch between `v` and `s`, with its path relative to `v`;
/// fields are checked in the schema's order and list elements in order.
pub open spec fn first_error(v: Tree, s: Scheme) -> Option<(Seq<Seq<char>>, Mismatch)>
    decreases s, 0int,
{
    match s {
        Scheme::Int(_) => if v is Int || v is Number {
            None
        } else {
            Some((Seq::empty(), Mismatch::NotNumber))
        },
        Scheme::Str(_) => if v is Str {
            None
        } else {
            Some((Seq::empty(), Mismatch::NotString))
        },
        Scheme::Object(fields) => if v is Object {
            fields_error(v->Object_0, fields@)
        } else {
            Some((Seq::empty(), Mismatch::NotObject))
        },
        Scheme::List(e, _) => if v is Array {
            items_error(v->Array_0, *e, 0)
        } else {
            Some((Seq::empty(), Mismatch::NotArray))
        },
    }
}

/// The first mismatch among the fields of a record.
pub open spec fn fields_error(entries: Seq<(Seq<char>, Tree)>, fields: Seq<(String, Scheme)>) -> Option<
    (Seq<Seq<char>>, Mismatch),
>
    decreases fields, 0int,
{
    if fields.len() == 0 {
        None
    } else {
        let key = fields[0].0@;
        match lookup(entries, key) {
            None => Some((Seq::empty(), Mismatch::MissingChild(key))),
            Some(child) => match under(key, first_error(child, fields[0].1)) {
                Some(e) => Some(e),
                None => fields_error(entries, fields.subrange(1, fields.len() as int)),
            },
        }
    }
}

/// The first mismatch among the list elements from index `start` on.
pub open spec fn items_error(items: Seq<Tree>, e: Scheme, start: int) -> Option<
    (Seq<Seq<char>>, Mismatch),
>
    decreases e, items.len() - start + 1,
{
    if start < 0 || start >= items.len() {
        None
    } else {
        match under(int_text(start), first_error(items[start], e)) {
            Some(err) => Some(err),
            None => items_error(items, e, start + 1),
        }
    }
}

/// Whether `v` has the shape that `s` describes.
pub open spec fn conforms(v: Tree, s: Scheme) -> bool {
    first_error(v, s) is None
}

/// The path of an error as text: each key in brackets.
pub open spec fn path_text(p: Seq<Seq<char>>) -> Seq<char>
    decreases p.len(),
{
    if p.len() == 0 {
        Seq::empty()
    } else {
        path_text(p.drop_last()) + seq!['['] + p.last() + seq![']']
    }
}

/// A path as shown to the operator: `[]` for the root, else each key in
/// brackets.
pub open spec fn bracketed(p: Seq<Seq<char>>) -> Seq<char> {
    if p.len() == 0 {
        seq!['[', ']']
    } else {
        path_text(p)
    }
}

/// The message of a validation error.
pub open spec fn error_text(p: Seq<Seq<char>>, m: Mismatch) -> Seq<char> {
    let place = seq!['V', 'a', 'l', 'u', 'e', ' '] + bracketed(p);
    place + match m {
        Mismatch::NotNumber => " has to be a number"@,
        Mismatch::NotString => " has to be a string"@,
        Mismatch::NotObject => " has to be an object"@,
        Mismatch::MissingChild(k) => " doesn't have child "@ + k,
        Mismatch::NotArray => " has to be an array"@,
    }
}


/// Whether `e` reports `found`, the first mismatch below the node at `path`.
pub open spec fn reports(
    e: ValidationError,
    path: Seq<Seq<char>>,
    found: Option<(Seq<Seq<char>>, Mismatch)>,
) -> bool {
    match found {
        Some((p, m)) => texts(e.path@) == path + p && e.kind.model() == m,
        None => false,
    }
}

/// The path `path` followed by `key`.
fn child_path(path: &Vec<String>, key: String) -> (r: Vec<String>)
    ensures
        texts(r@) == texts(path@).push(key@),
{
    let mut out = copy_path(path);
    out.push(key);
    assert(texts(out@) =~= texts(path@).push(key@));
    out
}

/// The index of the first entry with key `key`.
pub fn find_entry(entries: &Vec<(String, JsonValue)>, key: &String) -> (r: Option<usize>)
    ensures
        match r {
            Some(i) => i < entries@.len() && entries@[i as int].0@ == key@ && lookup(
                view_entries(entries@),
                key@,
            ) == Some(entries@[i as int].1@) && forall|j: int|
                0 <= j < i ==> (#[trigger] entries@[j]).0@ != key@,
            None => lookup(view_entries(entries@), key@) is None,
        },
{
    proof {
        lemma_view_entries(entries@);
    }
    let ghost all = view_entries(entries@);
    let mut i: usize = 0;
    assert(all.subrange(0, all.len() as int) =~= all);
    while i < entries.len()
        invariant
            i <= entries.len(),
            all == view_entries(entries@),
            all.len() == entries@.len(),
            forall|j: int|
                0 <= j < entries@.len() ==> #[trigger] all[j] == (entries@[j].0@, entries@[j].1@),
            lookup(all, key@) == lookup(all.subrange(i as int, all.len() as int), key@),
            forall|j: int| 0 <= j < i ==> (#[trigger] entries@[j]).0@ != key@,
        decreases entries.len() - i,
    {
        let ghost rest = all.subrange(i as int, all.len() as int);
        assert(rest[0] == all[i as int]);
        if entries[i].0 == *key {
            return Some(i);
        }
        assert(rest.drop_first() =~= all.subrange(i + 1, all.len() as int));
        i = i + 1;
    }
    None
}

/// Checks that `value`, found at `path`, has the shape of `scheme`, and
/// reports the first place where it does not.
pub fn validate(value: &JsonValue, scheme: &Scheme, path: &Vec<String>) -> (r: Result<
    (),
    ValidationError,
>)
    ensures
        match r {
            Ok(()) => conforms(value@, *scheme),
            Err(e) => reports(e, texts(path@), first_error(value@, *scheme)),
        },
    decreases scheme,
{
    match scheme {
        Scheme::Int(_) => match value {
            JsonValue::Int(_) | JsonValue::Number(_) => Ok(()),
            _ => {
                let e = ValidationError { path: copy_path(path), kind: ErrorKind::NotNumber };
                assert(texts(path@) + Seq::<Seq<char>>::empty() =~= texts(path@));
                Err(e)
            },
        },
        Scheme::Str(_) => match value {
            JsonValue::Str(_) => Ok(()),
            _ => {
                let e = ValidationError { path: copy_path(path), kind: ErrorKind::NotString };
                assert(texts(path@) + Seq::<Seq<char>>::empty() =~= texts(path@));
                Err(e)
            },
        },
        Scheme::Object(fields) => match value {
            JsonValue::Object(entries) => {
                let ghost ev = view_entries(entries@);
                assert(fields@.subrange(0, fields@.len() as int) =~= fields@);
                let mut i: usize = 0;
                while i < fields.len()
                    invariant
                        i <= fields.len(),
                        *scheme == Scheme::Object(*fields),
                        *value == JsonValue::Object(*entries),
                        ev == view_entries(entries@),
                        fields_error(ev, fields@) == fields_error(
                            ev,
                            fields@.subrange(i as int, fields@.len() as int),
                        ),
                    decreases fields.len() - i,
                {
                    let field = &fields[i];
                    let ghost rest = fields@.subrange(i as int, fields@.len() as int);
                    assert(rest[0] == fields@[i as int]);
                    assert(rest.subrange(1, rest.len() as int) =~= fields@.subrange(
                        i + 1,
                        fields@.len() as int,
                    ));
                    match find_entry(entries, &field.0) {
                        None => {
                            let e = ValidationError {
                                path: copy_path(path),
                                kind: ErrorKind::MissingChild(field.0.clone()),
                            };
                            assert(texts(path@) + Seq::<Seq<char>>::empty() =~= texts(path@));
                            return Err(e);
                        },
                        Some(j) => {
                            proof {
                                assert(decreases_to!(*scheme => (*scheme)->Object_0));
                                assert(decreases_to!((*scheme)->Object_0 => (*scheme)->Object_0@));
                                assert(decreases_to!((*scheme)->Object_0@ => fields@[i as int]));
                            }
                            let sub = child_path(path, field.0.clone());
                            match validate(&entries[j].1, &field.1, &sub) {
                                Ok(()) => {},
                                Err(e) => {
                                    assert(texts(e.path@) =~= texts(path@) + (seq![field.0@]
                                        + (first_error(entries@[j as int].1@, field.1)->Some_0).0));
                                    return Err(e);
                                },
                            }
                        },
                    }
                    i = i + 1;
                }
                assert(fields@.subrange(i as int, fields@.len() as int).len() == 0);
                Ok(())
            },
            _ => {
                let e = ValidationError { path: copy_path(path), kind: ErrorKind::NotObject };
                assert(texts(path@) + Seq::<Seq<char>>::empty() =~= texts(path@));
                Err(e)
            },
        },
        Scheme::List(element, _) => match value {
            JsonValue::Array(items) => {
                proof {
                    lemma_view_items(items@);
                }
                let ghost iv = value@->Array_0;
                let mut i: usize = 0;
                while i < items.len()
                    invariant
                        i <= items.len(),
                        *scheme == Scheme::List(*element, scheme->List_1),
                        *value == JsonValue::Array(*items),
                        iv == value@->Array_0,
                        iv.len() == items@.len(),
                        forall|j: int| 0 <= j < items@.len() ==> #[trigger] iv[j] == items@[j]@,
                        items_error(iv, **element, 0) == items_error(iv, **element, i as int),
                    decreases items.len() - i,
                {
                    let mut key = String::new();
                    push_nat_text(i as u64, &mut key);
                    let sub = child_path(path, key);
                    proof {
                        assert(decreases_to!(*scheme => (*scheme)->List_0));
                    }
                    match validate(&items[i], element, &sub) {
                        Ok(()) => {},
                        Err(e) => {
                            assert(texts(e.path@) =~= texts(path@) + (seq![int_text(i as int)]
                                + (first_error(items@[i as int]@, **element)->Some_0).0));
                            return Err(e);
                        },
                    }
                    i = i + 1;
                }
                Ok(())
            },
            _ => {
                let e = ValidationError { path: copy_path(path), kind: ErrorKind::NotArray };
                assert(texts(path@) + Seq::<Seq<char>>::empty() =~= texts(path@));
                Err(e)
            },
        },
    }
}

/// A copy of a path.
fn copy_path(path: &Vec<String>) -> (r: Vec<String>)
    ensures
        texts(r@) == texts(path@),
{
    let mut out: Vec<String> = Vec::new();
    let mut i: usize = 0;
    while i < path.len()
        invariant
            i <= path.len(),
            out@.len() == i,
            forall|j: int| 0 <= j < i ==> #[trigger] out@[j]@ == path@[j]@,
        decreases path.len() - i,
    {
        out.push(path[i].clone());
        i = i + 1;
    }
    assert(texts(out@) =~= texts(path@));
    out
}


impl ValidationError {
    /// The error as text, e.g. `Value [drives][0][unit_number] has to be a number`.
    pub fn message(&self) -> (r: String)
        ensures
            r@ == error_text(texts(self.path@), self.kind.model()),
    {
        let ghost p = texts(self.path@);
        let mut out = String::new();
        proof {
            reveal_strlit("Value ");
            reveal_strlit("[]");
            reveal_strlit("[");
            reveal_strlit("]");
        }
        out.append("Value ");
        if self.path.len() == 0 {
            out.append("[]");
        } else {
            let mut i: usize = 0;
            while i < self.path.len()
                invariant
                    i <= self.path@.len(),
                    p == texts(self.path@),
                    out@ == "Value "@ + path_text(p.subrange(0, i as int)),
                    self.path@.len() > 0,
                decreases self.path.len() - i,
            {
                let ghost before = out@;
                assert(p[i as int] == self.path@[i as int]@);
                proof {
                    reveal_strlit("[");
                    reveal_strlit("]");
                }
                assert("["@ =~= seq!['[']);
                assert("]"@ =~= seq![']']);
                out.append("[");
                out.append(self.path[i].as_str());
                out.append("]");
                assert(p.subrange(0, i + 1).drop_last() =~= p.subrange(0, i as int));
                assert(out@ =~= before + seq!['['] + p[i as int] + seq![']']);
                i = i + 1;
            }
            assert(p.subrange(0, i as int) =~= p);
        }
        let ghost place = out@;
        match &self.kind {
            ErrorKind::NotNumber => {
                proof {
                    reveal_strlit(" has to be a number");
                }
                out.append(" has to be a number");
            },
            ErrorKind::NotString => {
                proof {
                    reveal_strlit(" has to be a string");
                }
                out.append(" has to be a string");
            },
            ErrorKind::NotObject => {
                proof {
                    reveal_strlit(" has to be an object");
                }
                out.append(" has to be an object");
            },
            ErrorKind::MissingChild(k) => {
                proof {
                    reveal_strlit(" doesn't have child ");
                }
                out.append(" doesn't have child ");
                out.append(k.as_str());
                assert(out@ =~= place + (" doesn't have child "@ + k@));
            },
            ErrorKind::NotArray => {
                proof {
                    reveal_strlit(" has to be an array");
                }
                out.append(" has to be an array");
            },
        }
        assert(out@ =~= error_text(p, self.kind.model()));
        out
    }
}

/// The text reported for a loaded document that does not fit the schema.
pub open spec fn invalid_config_text(p: Seq<Seq<char>>, m: Mismatch) -> Seq<char> {
    "Invalid config file: "@ + error_text(p, m)
        + "\nIf you delete the config file, a new correct one will be created"@
}

/// The document a session starts from: what was loaded, or the schema's
/// default where nothing was stored.
pub open spec fn loaded_doc(s: Scheme, loaded: Tree) -> Tree {
    if loaded is Null {
        default_of(s)
    } else {
        loaded
    }
}

/// The configuration document that a session starts from, given what was
/// loaded: a `Null` (nothing stored) is replaced by the schema's default;
/// the result is checked against the schema.
pub fn load_config(scheme: &Scheme, loaded: JsonValue) -> (r: Result<JsonValue, String>)
    ensures
        ({
            let doc = loaded_doc(*scheme, loaded@);
            match r {
                Ok(v) => v@ == doc && conforms(doc, *scheme),
                Err(msg) => match first_error(doc, *scheme) {
                    Some((p, m)) => msg@ == invalid_config_text(p, m),
                    None => false,
                },
            }
        }),
{
    let value = match loaded {
        JsonValue::Null => scheme_to_default_value(scheme),
        other => other,
    };
    let root: Vec<String> = Vec::new();
    assert(texts(root@) =~= Seq::<Seq<char>>::empty());
    match validate(&value, scheme, &root) {
        Ok(()) => Ok(value),
        Err(e) => {
            let mut msg = String::new();
            proof {
                reveal_strlit("Invalid config file: ");
                reveal_strlit("\nIf you delete the config file, a new correct one will be created");
            }
            msg.append("Invalid config file: ");
            let text = e.message();
            msg.append(text.as_str());
            msg.append("\nIf you delete the config file, a new correct one will be created");
            proof {
                let found = first_error(value@, *scheme)->Some_0;
                assert(texts(e.path@) =~= found.0);
            }
            Err(msg)
        },
    }
}


/// Whether the fields of a record have pairwise different names.
pub open spec fn distinct_keys(fields: Seq<(String, Scheme)>) -> bool {
    forall|i: int, j: int|
        0 <= i < j < fields.len() ==> (#[trigger] fields[i]).0@ != (#[trigger] fields[j]).0@
}

/// A well-formed schema: record fields have distinct names, and each list's
/// own default has the shape of the list.
pub open spec fn scheme_wf(s: Scheme) -> bool
    decreases s,
{
    match s {
        Scheme::Object(fields) => distinct_keys(fields@) && forall|i: int|
            0 <= i < fields@.len() ==> scheme_wf(#[trigger] fields@[i].1),
        Scheme::List(e, d) => scheme_wf(*e) && conforms(d@, s),
        _ => true,
    }
}

/// Lookup finds the first entry with the key.
pub proof fn lemma_lookup_first(entries: Seq<(Seq<char>, Tree)>, key: Seq<char>, i: int)
    requires
        0 <= i < entries.len(),
        entries[i].0 == key,
        forall|j: int| 0 <= j < i ==> (#[trigger] entries[j]).0 != key,
    ensures
        lookup(entries, key) == Some(entries[i].1),
    decreases i,
{
    if i > 0 {
        let rest = entries.drop_first();
        assert(entries[0].0 != key);
        assert forall|j: int| 0 <= j < i - 1 implies (#[trigger] rest[j]).0 != key by {
            assert(rest[j] == entries[j + 1]);
        }
        lemma_lookup_first(rest, key, i - 1);
    }
}

/// The default document of a well-formed schema passes validation.
pub proof fn lemma_default_conforms(s: Scheme)
    requires
        scheme_wf(s),
    ensures
        conforms(default_of(s), s),
    decreases s, 1int, 0int,
{
    match s {
        Scheme::Object(fields) => {
            lemma_default_fields_conform(s, 0);
            assert(fields@.subrange(0, fields@.len() as int) =~= fields@);
        },
        _ => {},
    }
}

proof fn lemma_default_fields_conform(s: Scheme, k: int)
    requires
        scheme_wf(s),
        s is Object,
        0 <= k <= s->Object_0@.len(),
    ensures
        fields_error(
            default_fields(s->Object_0@),
            s->Object_0@.subrange(k, s->Object_0@.len() as int),
        ) is None,
    decreases s, 0int, s->Object_0@.len() - k,
{
    let fields = s->Object_0@;
    let n = fields.len() as int;
    let d = default_fields(fields);
    lemma_default_fields(fields);
    if k < n {
        let rest = fields.subrange(k, n);
        let key = fields[k].0@;
        assert(rest[0] == fields[k]);
        assert forall|j: int| 0 <= j < k implies (#[trigger] d[j]).0 != key by {
            assert(fields[j].0@ != fields[k].0@);
        }
        lemma_lookup_first(d, key, k);
        assert(decreases_to!(s => s->Object_0));
        assert(decreases_to!(s->Object_0 => s->Object_0@));
        assert(decreases_to!(s->Object_0@ => fields[k]));
        lemma_default_conforms(fields[k].1);
        lemma_default_fields_conform(s, k + 1);
        assert(rest.subrange(1, rest.len() as int) =~= fields.subrange(k + 1, n));
    }
}


/// Loading is idempotent: a document that loading accepted, stored again
/// without edits and loaded once more, is taken as it is and is accepted
/// again.
pub proof fn lemma_load_idempotent(s: Scheme, loaded: Tree)
    requires
        conforms(loaded_doc(s, loaded), s),
    ensures
        loaded_doc(s, loaded_doc(s, loaded)) == loaded_doc(s, loaded),
        conforms(loaded_doc(s, loaded_doc(s, loaded)), s),
{
    let doc = loaded_doc(s, loaded);
    match s {
        Scheme::Object(_) => assert(doc is Object),
        Scheme::List(_, _) => assert(doc is Array),
        Scheme::Int(_) => assert(doc is Int || doc is Number),
        Scheme::Str(_) => assert(doc is Str),
    }
}

} // verus!
