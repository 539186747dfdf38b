//! The cursor of an editing session: a path from the document root, walked
//! in step through the schema and the document.
use vstd::prelude::*;
use vstd::string::*;
use crate::scheme::{Scheme, default_of, scheme_to_default_value};
use crate::text::{
    int_text, int_to_text, nat_text, parse_i64, parse_i64_spec, push_nat_text, trim, trim_text,
};
use crate::validate::{
    ValidationError, bracketed, conforms, find_entry, first_error, lemma_default_conforms, lookup,
    path_text, reports, scheme_wf, texts, validate,
};
use crate::value::{JsonValue, Tree, lemma_view_entries, lemma_view_items, view_entries};

verus! {

broadcast use vstd::std_specs::vec::group_vec_axioms;

/// The schema of the first field named `key`.
pub open spec fn field_of(fields: Seq<(String, Scheme)>, key: Seq<char>) -> Option<Scheme>
    decreases fields.len(),
{
    if fields.len() == 0 {
        None
    } else if fields[0].0@ == key {
        Some(fields[0].1)
    } else {
        field_of(fields.drop_first(), key)
    }
}

/// The schema one step below `s` along `key`: a record's field, or a
/// list's element schema.
pub open spec fn scheme_step(s: Scheme, key: Seq<char>) -> Option<Scheme> {
    match s {
        Scheme::Object(fields) => field_of(fields@, key),
        Scheme::List(e, _) => Some(*e),
        _ => None,
    }
}

/// The schema reached from `s` along the keys `p`.
pub open spec fn scheme_at(s: Scheme, p: Seq<Seq<char>>) -> Option<Scheme>
    decreases p.len(),
{
    if p.len() == 0 {
        Some(s)
    } else {
        match scheme_step(s, p[0]) {
            Some(c) => scheme_at(c, p.drop_first()),
            None => None,
        }
    }
}

/// The value one step below `v` along `key`: an object's entry, or the
/// array element whose index `key` writes.
pub open spec fn value_step(v: Tree, key: Seq<char>) -> Option<Tree> {
    match v {
        Tree::Object(entries) => lookup(entries, key),
        Tree::Array(items) => match parse_i64_spec(key) {
            Some(i) => if 0 <= i < items.len() {
                Some(items[i])
            } else {
                None
            },
            None => None,
        },
        _ => None,
    }
}

/// The value reached from `v` along the keys `p`.
pub open spec fn value_at(v: Tree, p: Seq<Seq<char>>) -> Option<Tree>
    decreases p.len(),
{
    if p.len() == 0 {
        Some(v)
    } else {
        match value_step(v, p[0]) {
            Some(c) => value_at(c, p.drop_first()),
            None => None,
        }
    }
}

/// Walking one more key is one more step from where the walk ended.
pub proof fn lemma_scheme_at_push(s: Scheme, p: Seq<Seq<char>>, k: Seq<char>)
    ensures
        scheme_at(s, p.push(k)) == match scheme_at(s, p) {
            Some(c) => scheme_step(c, k),
            None => None,
        },
    decreases p.len(),
{
    if p.len() == 0 {
        assert(p.push(k).drop_first() =~= Seq::<Seq<char>>::empty());
        assert(p.push(k)[0] == k);
        match scheme_step(s, k) {
            Some(c) => assert(scheme_at(c, Seq::empty()) == Some(c)),
            None => {},
        }
    } else {
        assert(p.push(k).drop_first() =~= p.drop_first().push(k));
        assert(p.push(k)[0] == p[0]);
        match scheme_step(s, p[0]) {
            Some(c) => lemma_scheme_at_push(c, p.drop_first(), k),
            None => {},
        }
    }
}

/// Walking one more key is one more step from where the walk ended.
pub proof fn lemma_value_at_push(v: Tree, p: Seq<Seq<char>>, k: Seq<char>)
    ensures
        value_at(v, p.push(k)) == match value_at(v, p) {
            Some(c) => value_step(c, k),
            None => None,
        },
    decreases p.len(),
{
    if p.len() == 0 {
        assert(p.push(k).drop_first() =~= Seq::<Seq<char>>::empty());
        assert(p.push(k)[0] == k);
        match value_step(v, k) {
            Some(c) => assert(value_at(c, Seq::empty()) == Some(c)),
            None => {},
        }
    } else {
        assert(p.push(k).drop_first() =~= p.drop_first().push(k));
        assert(p.push(k)[0] == p[0]);
        match value_step(v, p[0]) {
            Some(c) => lemma_value_at_push(c, p.drop_first(), k),
            None => {},
        }
    }
}

/// A path that reaches a schema node passes through schema nodes.
pub proof fn lemma_scheme_at_prefix(s: Scheme, p: Seq<Seq<char>>, i: int)
    requires
        0 <= i <= p.len(),
        scheme_at(s, p) is Some,
    ensures
        scheme_at(s, p.subrange(0, i)) is Some,
    decreases p.len() - i,
{
    if i < p.len() {
        lemma_scheme_at_prefix(s, p, i + 1);
        assert(p.subrange(0, i + 1) =~= p.subrange(0, i).push(p[i]));
        lemma_scheme_at_push(s, p.subrange(0, i), p[i]);
    } else {
        assert(p.subrange(0, i) =~= p);
    }
}

/// The index of the first field named `key`.
pub fn find_field(fields: &Vec<(String, Scheme)>, key: &String) -> (r: Option<usize>)
    ensures
        match r {
            Some(i) => i < fields@.len() && fields@[i as int].0@ == key@ && field_of(fields@, key@)
                == Some(fields@[i as int].1),
            None => field_of(fields@, key@) is None,
        },
{
    let mut i: usize = 0;
    assert(fields@.subrange(0, fields@.len() as int) =~= fields@);
    while i < fields.len()
        invariant
            i <= fields.len(),
            field_of(fields@, key@) == field_of(
                fields@.subrange(i as int, fields@.len() as int),
                key@,
            ),
        decreases fields.len() - i,
    {
        let ghost rest = fields@.subrange(i as int, fields@.len() as int);
        assert(rest[0] == fields@[i as int]);
        if fields[i].0 == *key {
            return Some(i);
        }
        assert(rest.drop_first() =~= fields@.subrange(i + 1, fields@.len() as int));
        i = i + 1;
    }
    None
}


/// The position of the first entry with the given key.
pub open spec fn key_pos(entries: Seq<(Seq<char>, Tree)>, key: Seq<char>) -> Option<int>
    decreases entries.len(),
{
    if entries.len() == 0 {
        None
    } else if entries[0].0 == key {
        Some(0)
    } else {
        match key_pos(entries.drop_first(), key) {
            Some(i) => Some(i + 1),
            None => None,
        }
    }
}

/// The position found is that of the first entry with the key.
pub proof fn lemma_key_pos_first(entries: Seq<(Seq<char>, Tree)>, key: Seq<char>, i: int)
    requires
        0 <= i < entries.len(),
        entries[i].0 == key,
        forall|j: int| 0 <= j < i ==> (#[trigger] entries[j]).0 != key,
    ensures
        key_pos(entries, key) == Some(i),
    decreases i,
{
    if i > 0 {
        let rest = entries.drop_first();
        assert(entries[0].0 != key);
        assert forall|j: int| 0 <= j < i - 1 implies (#[trigger] rest[j]).0 != key by {
            assert(rest[j] == entries[j + 1]);
        }
        lemma_key_pos_first(rest, key, i - 1);
    }
}

/// No position is found where no entry has the key.
pub proof fn lemma_key_pos_none(entries: Seq<(Seq<char>, Tree)>, key: Seq<char>)
    requires
        lookup(entries, key) is None,
    ensures
        key_pos(entries, key) is None,
    decreases entries.len(),
{
    if entries.len() > 0 {
        lemma_key_pos_none(entries.drop_first(), key);
    }
}

/// `v` with the node at the keys `p` replaced by `new`; unchanged where `p`
/// does not lead to a node.
pub open spec fn replaced(v: Tree, p: Seq<Seq<char>>, new: Tree) -> Tree
    decreases p.len(),
{
    if p.len() == 0 {
        new
    } else {
        match v {
            Tree::Object(entries) => match key_pos(entries, p[0]) {
                Some(j) => Tree::Object(
                    entries.update(j, (entries[j].0, replaced(entries[j].1, p.drop_first(), new))),
                ),
                None => v,
            },
            Tree::Array(items) => match parse_i64_spec(p[0]) {
                Some(i) => if 0 <= i < items.len() {
                    Tree::Array(items.update(i, replaced(items[i], p.drop_first(), new)))
                } else {
                    v
                },
                None => v,
            },
            _ => v,
        }
    }
}

/// The keys of a cursor path.
pub open spec fn keys(path: Seq<(String, usize)>) -> Seq<Seq<char>> {
    path.map_values(|e: (String, usize)| e.0@)
}

/// `v` with the node at `path[depth..]` replaced by `new`.
fn replace_at(v: JsonValue, path: &Vec<(String, usize)>, depth: usize, new: JsonValue) -> (r:
    JsonValue)
    requires
        depth <= path@.len(),
    ensures
        r@ == replaced(v@, keys(path@).subrange(depth as int, path@.len() as int), new@),
    decreases path@.len() - depth,
{
    let ghost p = keys(path@).subrange(depth as int, path@.len() as int);
    if depth == path.len() {
        return new;
    }
    let key = &path[depth].0;
    assert(p[0] == key@);
    assert(p.drop_first() =~= keys(path@).subrange(depth + 1, path@.len() as int));
    match v {
        JsonValue::Object(mut entries) => {
            proof {
                lemma_view_entries(entries@);
            }
            let ghost old_entries = entries@;
            match find_entry(&entries, key) {
                Some(j) => {
                    proof {
                        lemma_key_pos_first(view_entries(entries@), key@, j as int);
                    }
                    let (k, child) = entries.remove(j);
                    let updated = replace_at(child, path, depth + 1, new);
                    entries.insert(j, (k, updated));
                    proof {
                        lemma_view_entries(entries@);
                        assert(view_entries(entries@) =~= view_entries(old_entries).update(
                            j as int,
                            (old_entries[j as int].0@, updated@),
                        ));
                    }
                    JsonValue::Object(entries)
                },
                None => {
                    proof {
                        lemma_key_pos_none(view_entries(entries@), key@);
                    }
                    JsonValue::Object(entries)
                },
            }
        },
        JsonValue::Array(mut items) => {
            proof {
                lemma_view_items(items@);
            }
            let ghost old_items = items@;
            match parse_i64(key.as_str()) {
                Some(i) => {
                    if 0 <= i && (i as u64) < (items.len() as u64) {
                        let idx = i as usize;
                        let child = items.remove(idx);
                        let updated = replace_at(child, path, depth + 1, new);
                        items.insert(idx, updated);
                        proof {
                            lemma_view_items(items@);
                            assert(crate::value::view_items(items@) =~= crate::value::view_items(
                                old_items,
                            ).update(idx as int, updated@));
                        }
                        JsonValue::Array(items)
                    } else {
                        JsonValue::Array(items)
                    }
                },
                None => JsonValue::Array(items),
            }
        },
        other => other,
    }
}


/// Whether `a` ends the text `b`.
pub open spec fn is_suffix(a: Seq<char>, b: Seq<char>) -> bool {
    a.len() <= b.len() && b.subrange(b.len() - a.len(), b.len() as int) == a
}

/// Whether `suffix` ends `s`.
pub fn ends_with(s: &str, suffix: &str) -> (r: bool)
    ensures
        r == is_suffix(suffix@, s@),
{
    let n = s.unicode_len();
    let m = suffix.unicode_len();
    if m > n {
        return false;
    }
    let mut i: usize = 0;
    while i < m
        invariant
            n == s@.len(),
            m == suffix@.len(),
            m <= n,
            i <= m,
            forall|j: int| 0 <= j < i ==> s@[n - m + j] == #[trigger] suffix@[j],
        decreases m - i,
    {
        if s.get_char(n - m + i) != suffix.get_char(i) {
            assert(s@.subrange(n - m, n as int)[i as int] != suffix@[i as int]);
            return false;
        }
        i = i + 1;
    }
    assert(s@.subrange(n - m, n as int) =~= suffix@);
    true
}

/// Actions offered at the places whose path ends with a scope key.
#[derive(Debug, PartialEq, Eq)]
pub struct PluginRegistry {
    /// Each entry's scope key and menu label, in order of registration.
    pub entries: Vec<(String, String)>,
}

impl PluginRegistry {
    pub fn new() -> (r: PluginRegistry)
        ensures
            r.entries@.len() == 0,
    {
        PluginRegistry { entries: Vec::new() }
    }

    /// Registers an action offered under `label` wherever the path ends with `scope`.
    pub fn register(&mut self, scope: String, label: String)
        ensures
            final(self).entries@ == old(self).entries@.push((scope, label)),
    {
        self.entries.push((scope, label));
    }

    /// The first registered action whose scope key ends `path`.
    pub fn find(&self, path: &str) -> (r: Option<usize>)
        ensures
            match r {
                Some(i) => i < self.entries@.len() && is_suffix(self.entries@[i as int].0@, path@)
                    && forall|j: int|
                    0 <= j < i ==> !is_suffix((#[trigger] self.entries@[j]).0@, path@),
                None => forall|j: int|
                    0 <= j < self.entries@.len() ==> !is_suffix(
                        (#[trigger] self.entries@[j]).0@,
                        path@,
                    ),
            },
    {
        let mut i: usize = 0;
        while i < self.entries.len()
            invariant
                i <= self.entries@.len(),
                forall|j: int| 0 <= j < i ==> !is_suffix((#[trigger] self.entries@[j]).0@, path@),
            decreases self.entries.len() - i,
        {
            if ends_with(path, self.entries[i].0.as_str()) {
                return Some(i);
            }
            i = i + 1;
        }
        None
    }
}

/// A menu ready to be shown: its rows, and the registered action offered in
/// its last row, if any.
#[derive(Debug, PartialEq, Eq)]
pub struct Menu {
    pub rows: Vec<String>,
    pub plugin: Option<usize>,
}

/// What a chosen menu row asks for.
#[derive(Debug, PartialEq, Eq)]
pub enum Selection {
    /// Leave the session.
    Exit,
    /// Go back to the parent node.
    Back,
    /// Run the registered action with this index on the current node.
    Plugin(usize),
    /// The content row with this index.
    Item(usize),
}

/// The number of control rows put before the content rows: `exit`, and
/// `back` below the root.
pub open spec fn control_rows(depth: nat) -> nat {
    if depth == 0 {
        1
    } else {
        2
    }
}

/// What row `index` of a menu of `n` rows means, `plugin` telling whether
/// the last row offers an action.
pub open spec fn selection_of(depth: nat, n: nat, plugin: Option<usize>, index: nat) -> Selection {
    if index == 0 {
        if depth == 0 {
            Selection::Exit
        } else {
            Selection::Back
        }
    } else if depth > 0 && index == 1 {
        Selection::Exit
    } else if plugin is Some && index == n - 1 {
        Selection::Plugin(plugin->Some_0)
    } else {
        Selection::Item((index - control_rows(depth)) as usize)
    }
}

/// Largest number of characters shown for one list element in a menu.
pub const MAX_LABEL_CHARS: usize = 100;

/// An editing session: the schema, the document, the cursor and the
/// session's flags.
pub struct Configuration {
    pub scheme: Scheme,
    pub config: JsonValue,
    /// The cursor: each key with the menu row that opened it.
    pub path: Vec<(String, usize)>,
    /// The menu row to highlight when the next menu is shown.
    pub last_selected_index: usize,
    pub exit: bool,
    pub delete_mode: bool,
    pub plugins: PluginRegistry,
}

impl Configuration {
    /// The cursor reaches a schema node.
    pub open spec fn wf(&self) -> bool {
        scheme_at(self.scheme, keys(self.path@)) is Some
    }

    /// The schema node at the cursor.
    pub open spec fn focus_scheme(&self) -> Scheme {
        scheme_at(self.scheme, keys(self.path@))->Some_0
    }

    /// A session at the root of `config`.
    pub fn new(scheme: Scheme, config: JsonValue, plugins: PluginRegistry) -> (r: Configuration)
        ensures
            r.wf(),
            r.scheme == scheme,
            r.config == config,
            r.plugins == plugins,
            r.path@.len() == 0,
            r.last_selected_index == 0,
            !r.exit,
            !r.delete_mode,
    {
        let r = Configuration {
            scheme,
            config,
            path: Vec::new(),
            last_selected_index: 0,
            exit: false,
            delete_mode: false,
            plugins,
        };
        assert(keys(r.path@) =~= Seq::<Seq<char>>::empty());
        r
    }

    /// The cursor as text, e.g. `[drives][0]`.
    pub fn path_string(&self) -> (r: String)
        ensures
            r@ == bracketed(keys(self.path@)),
    {
        let ghost p = keys(self.path@);
        let mut out = String::new();
        if self.path.len() == 0 {
            proof {
                reveal_strlit("[]");
            }
            out.append("[]");
            return out;
        }
        let mut i: usize = 0;
        assert(p.subrange(0, 0) =~= Seq::<Seq<char>>::empty());
        while i < self.path.len()
            invariant
                i <= self.path@.len(),
                p == keys(self.path@),
                out@ == path_text(p.subrange(0, i as int)),
            decreases self.path.len() - i,
        {
            let ghost before = out@;
            proof {
                reveal_strlit("[");
                reveal_strlit("]");
            }
            assert(p[i as int] == self.path@[i as int].0@);
            out.append("[");
            out.append(self.path[i].0.as_str());
            out.append("]");
            assert(p.subrange(0, i + 1).drop_last() =~= p.subrange(0, i as int));
            assert(out@ =~= before + seq!['['] + p[i as int] + seq![']']);
            i = i + 1;
        }
        assert(p.subrange(0, i as int) =~= p);
        out
    }

    /// The schema node at the cursor.
    pub fn current_scheme(&self) -> (r: &Scheme)
        requires
            self.wf(),
        ensures
            *r == self.focus_scheme(),
    {
        let ghost p = keys(self.path@);
        let mut current: &Scheme = &self.scheme;
        let mut i: usize = 0;
        assert(p.subrange(0, 0) =~= Seq::<Seq<char>>::empty());
        while i < self.path.len()
            invariant
                i <= self.path@.len(),
                p == keys(self.path@),
                scheme_at(self.scheme, p) is Some,
                scheme_at(self.scheme, p.subrange(0, i as int)) == Some(*current),
            decreases self.path.len() - i,
        {
            let key = &self.path[i].0;
            proof {
                assert(p[i as int] == key@);
                assert(p.subrange(0, i + 1) =~= p.subrange(0, i as int).push(key@));
                lemma_scheme_at_push(self.scheme, p.subrange(0, i as int), key@);
                lemma_scheme_at_prefix(self.scheme, p, i + 1);
            }
            match current {
                Scheme::Object(fields) => {
                    let j = find_field(fields, key);
                    current = &fields[j.unwrap()].1;
                },
                Scheme::List(e, _) => {
                    current = &**e;
                },
                _ => {
                    assert(false);
                },
            }
            i = i + 1;
        }
        assert(p.subrange(0, i as int) =~= p);
        current
    }

    /// The document node at the cursor, if the cursor reaches one.
    pub fn current_value(&self) -> (r: Option<&JsonValue>)
        ensures
            match r {
                Some(v) => value_at(self.config@, keys(self.path@)) == Some(v@),
                None => value_at(self.config@, keys(self.path@)) is None,
            },
    {
        let ghost p = keys(self.path@);
        let mut current: &JsonValue = &self.config;
        let mut i: usize = 0;
        assert(p.subrange(0, 0) =~= Seq::<Seq<char>>::empty());
        while i < self.path.len()
            invariant
                i <= self.path@.len(),
                p == keys(self.path@),
                value_at(self.config@, p.subrange(0, i as int)) == Some(current@),
            decreases self.path.len() - i,
        {
            let key = &self.path[i].0;
            proof {
                assert(p[i as int] == key@);
                assert(p.subrange(0, i + 1) =~= p.subrange(0, i as int).push(key@));
                lemma_value_at_push(self.config@, p.subrange(0, i as int), key@);
            }
            match current {
                JsonValue::Object(entries) => {
                    proof {
                        lemma_view_entries(entries@);
                    }
                    match find_entry(entries, key) {
                        Some(j) => {
                            current = &entries[j].1;
                        },
                        None => {
                            proof {
                                lemma_value_none_after(self.config@, p, i as int);
                            }
                            return None;
                        },
                    }
                },
                JsonValue::Array(items) => {
                    proof {
                        lemma_view_items(items@);
                    }
                    match parse_i64(key.as_str()) {
                        Some(k) => {
                            if 0 <= k && (k as u64) < (items.len() as u64) {
                                current = &items[k as usize];
                            } else {
                                proof {
                                    lemma_value_none_after(self.config@, p, i as int);
                                }
                                return None;
                            }
                        },
                        None => {
                            proof {
                                lemma_value_none_after(self.config@, p, i as int);
                            }
                            return None;
                        },
                    }
                },
                _ => {
                    proof {
                        lemma_value_none_after(self.config@, p, i as int);
                    }
                    return None;
                },
            }
            i = i + 1;
        }
        assert(p.subrange(0, i as int) =~= p);
        Some(current)
    }
}

impl Configuration {
    /// `new` is `old` after going back one step: the cursor loses its last
    /// key, and the row that opened it, plus two, is highlighted next; at
    /// the root the cursor stays and the first row is highlighted.
    pub open spec fn popped(old: Configuration, new: Configuration) -> bool {
        &&& new.path@ == (if old.path@.len() > 0 {
            old.path@.drop_last()
        } else {
            old.path@
        })
        &&& new.last_selected_index == (if old.path@.len() > 0 {
            if old.path@.last().1 < usize::MAX - 2 {
                (old.path@.last().1 + 2) as usize
            } else {
                usize::MAX
            }
        } else {
            0
        })
        &&& !new.delete_mode
        &&& new.scheme == old.scheme
        &&& new.plugins == old.plugins
    }

    /// Goes back to the parent node.
    pub fn path_pop(&mut self)
        requires
            old(self).wf(),
        ensures
            final(self).wf(),
            Self::popped(*old(self), *final(self)),
            final(self).config == old(self).config,
            final(self).exit == old(self).exit,
    {
        self.delete_mode = false;
        let ghost p = keys(self.path@);
        match self.path.pop() {
            Some(e) => {
                self.last_selected_index = if e.1 < usize::MAX - 2 {
                    e.1 + 2
                } else {
                    usize::MAX
                };
                proof {
                    lemma_scheme_at_prefix(self.scheme, p, p.len() - 1);
                    assert(keys(self.path@) =~= p.subrange(0, p.len() - 1));
                }
            },
            None => {
                self.last_selected_index = 0;
            },
        }
    }

    /// Descends to the child `key`, opened from menu row `index`.
    pub fn path_push(&mut self, key: String, index: usize)
        requires
            old(self).wf(),
            scheme_step(old(self).focus_scheme(), key@) is Some,
        ensures
            final(self).wf(),
            final(self).path@ == old(self).path@.push((key, index)),
            final(self).last_selected_index == 0,
            !final(self).delete_mode,
            final(self).scheme == old(self).scheme,
            final(self).config == old(self).config,
            final(self).plugins == old(self).plugins,
            final(self).exit == old(self).exit,
    {
        let ghost p = keys(self.path@);
        let ghost k = key@;
        self.delete_mode = false;
        self.last_selected_index = 0;
        self.path.push((key, index));
        proof {
            assert(keys(self.path@) =~= p.push(k));
            lemma_scheme_at_push(self.scheme, p, k);
        }
    }

    /// Puts the control rows around the content rows `items`: `exit` in
    /// front, and `back` before it below the root; at the root the row to
    /// highlight moves up by one, as there is no `back` row. Outside
    /// delete mode the first action whose scope key ends the path is offered
    /// in a last row.
    pub fn show_items(&mut self, items: Vec<String>) -> (r: Menu)
        requires
            old(self).wf(),
        ensures
            final(self).wf(),
            texts(r.rows@) == control_texts(old(self).path@.len()) + texts(items@) + match r.plugin {
                Some(i) => seq![old(self).plugins.entries@[i as int].1@],
                None => Seq::empty(),
            },
            old(self).delete_mode ==> r.plugin is None,
            !old(self).delete_mode ==> first_match(
                old(self).plugins.entries@,
                bracketed(keys(old(self).path@)),
                r.plugin,
            ),
            final(self).last_selected_index == (if old(self).path@.len() == 0
                && old(self).last_selected_index > 0 {
                (old(self).last_selected_index - 1) as usize
            } else {
                old(self).last_selected_index
            }),
            final(self).scheme == old(self).scheme,
            final(self).config == old(self).config,
            final(self).path == old(self).path,
            final(self).plugins == old(self).plugins,
            final(self).exit == old(self).exit,
            final(self).delete_mode == old(self).delete_mode,
    {
        let mut rows: Vec<String> = Vec::new();
        proof {
            reveal_strlit("[ <- back ]");
            reveal_strlit("[ exit ]");
        }
        if self.path.len() > 0 {
            rows.push(String::from_str("[ <- back ]"));
        } else if self.last_selected_index > 0 {
            self.last_selected_index = self.last_selected_index - 1;
        }
        rows.push(String::from_str("[ exit ]"));
        assert(texts(rows@) =~= control_texts(self.path@.len()));
        let ghost front = texts(rows@);
        let base = rows.len();
        let mut i: usize = 0;
        while i < items.len()
            invariant
                i <= items@.len(),
                base == front.len(),
                rows@.len() == base + i,
                forall|j: int| 0 <= j < base ==> #[trigger] rows@[j]@ == front[j],
                forall|j: int| 0 <= j < i ==> #[trigger] rows@[base + j]@ == items@[j]@,
            decreases items.len() - i,
        {
            rows.push(items[i].clone());
            i = i + 1;
        }
        let ghost all = items@;
        assert forall|j: int| 0 <= j < rows@.len() implies #[trigger] texts(rows@)[j] == (front
            + texts(all))[j] by {
            if j >= base {
                assert(rows@[base + (j - base)]@ == all[j - base]@);
            }
        }
        assert(texts(rows@) =~= front + texts(all));
        let mut plugin: Option<usize> = None;
        if !self.delete_mode {
            let path = self.path_string();
            plugin = self.plugins.find(path.as_str());
            match plugin {
                Some(j) => {
                    rows.push(self.plugins.entries[j].1.clone());
                },
                None => {},
            }
        }
        assert(texts(rows@) =~= control_texts(self.path@.len()) + texts(all) + match plugin {
            Some(j) => seq![self.plugins.entries@[j as int].1@],
            None => Seq::empty(),
        });
        Menu { rows, plugin }
    }

    /// Acts on the choice of row `index` of `menu`: `exit` ends the session,
    /// `back` goes to the parent node; an action row or a content row is
    /// handed back to the caller.
    pub fn select_row(&mut self, menu: &Menu, index: usize) -> (r: Selection)
        requires
            old(self).wf(),
            index < menu.rows@.len(),
        ensures
            final(self).wf(),
            r == selection_of(old(self).path@.len(), menu.rows@.len(), menu.plugin, index as nat),
            r is Exit ==> final(self).exit && final(self).path == old(self).path
                && final(self).delete_mode == old(self).delete_mode
                && final(self).last_selected_index == old(self).last_selected_index,
            r is Back ==> Self::popped(*old(self), *final(self)) && final(self).exit
                == old(self).exit,
            !(r is Exit) && !(r is Back) ==> *final(self) == *old(self),
            final(self).config == old(self).config,
            final(self).scheme == old(self).scheme,
            final(self).plugins == old(self).plugins,
    {
        let n = menu.rows.len();
        if index == 0 {
            if self.path.len() == 0 {
                self.exit = true;
                Selection::Exit
            } else {
                self.path_pop();
                Selection::Back
            }
        } else if self.path.len() > 0 && index == 1 {
            self.exit = true;
            Selection::Exit
        } else if menu.plugin.is_some() && index == n - 1 {
            Selection::Plugin(menu.plugin.unwrap())
        } else if self.path.len() == 0 {
            Selection::Item(index - 1)
        } else {
            Selection::Item(index - 2)
        }
    }

    fn replace_current(&mut self, new: JsonValue)
        ensures
            final(self).config@ == replaced(old(self).config@, keys(old(self).path@), new@),
            final(self).scheme == old(self).scheme,
            final(self).path == old(self).path,
            final(self).plugins == old(self).plugins,
            final(self).exit == old(self).exit,
            final(self).delete_mode == old(self).delete_mode,
            final(self).last_selected_index == old(self).last_selected_index,
    {
        let mut doc = JsonValue::Null;
        std::mem::swap(&mut self.config, &mut doc);
        assert(keys(self.path@).subrange(0, self.path@.len() as int) =~= keys(self.path@));
        self.config = replace_at(doc, &self.path, 0, new);
    }

    /// Stores `n` at the cursor and goes back to the parent node.
    pub fn set_int(&mut self, n: i64)
        requires
            old(self).wf(),
        ensures
            final(self).wf(),
            final(self).config@ == replaced(old(self).config@, keys(old(self).path@), Tree::Int(n as int)),
            Self::popped(*old(self), *final(self)),
            final(self).exit == old(self).exit,
    {
        self.replace_current(JsonValue::Int(n));
        self.path_pop();
    }

    /// Stores `s`, without surrounding white space, at the cursor and goes
    /// back to the parent node.
    pub fn set_str(&mut self, s: &str)
        requires
            old(self).wf(),
        ensures
            final(self).wf(),
            final(self).config@ == replaced(old(self).config@, keys(old(self).path@), Tree::Str(trim(s@))),
            Self::popped(*old(self), *final(self)),
            final(self).exit == old(self).exit,
    {
        self.replace_current(JsonValue::Str(trim_text(s)));
        self.path_pop();
    }
}

/// The menu row of a record field whose value is `v`: scalars are shown
/// after the name, a list by its size, anything else by the name alone.
pub open spec fn field_label(key: Seq<char>, v: Tree) -> Seq<char> {
    match v {
        Tree::Int(i) => key + ": "@ + int_text(i),
        Tree::Number(t) => key + ": "@ + t,
        Tree::Str(t) => key + ": \""@ + t + "\""@,
        Tree::Array(items) => key + " (Size: "@ + nat_text(items.len()) + ")"@,
        _ => key,
    }
}

/// The menu row of a record field whose value is `v`.
pub fn field_row(key: &String, v: &JsonValue) -> (r: String)
    ensures
        r@ == field_label(key@, v@),
{
    let mut out = key.clone();
    proof {
        reveal_strlit(": ");
        reveal_strlit(": \"");
        reveal_strlit("\"");
        reveal_strlit(" (Size: ");
        reveal_strlit(")");
    }
    match v {
        JsonValue::Int(i) => {
            out.append(": ");
            let t = int_to_text(*i);
            out.append(t.as_str());
        },
        JsonValue::Number(t) => {
            out.append(": ");
            out.append(t.as_str());
        },
        JsonValue::Str(t) => {
            out.append(": \"");
            out.append(t.as_str());
            out.append("\"");
        },
        JsonValue::Array(items) => {
            proof {
                lemma_view_items(items@);
            }
            out.append(" (Size: ");
            let mut size = String::new();
            push_nat_text(items.len() as u64, &mut size);
            out.append(size.as_str());
            out.append(")");
        },
        _ => {},
    }
    out
}

/// The text of an element row of a list menu: marked as a target in delete
/// mode, and cut after `MAX_LABEL_CHARS` characters with `...` appended.
pub open spec fn element_label(t: Seq<char>, deleting: bool) -> Seq<char> {
    let s = if deleting {
        "-> "@ + t
    } else {
        t
    };
    if s.len() > MAX_LABEL_CHARS {
        s.subrange(0, MAX_LABEL_CHARS as int) + "..."@
    } else {
        s
    }
}

/// The rows of a list menu, from each element's text: outside delete mode
/// `delete` (for a non-empty list) and `add` follow the elements.
pub open spec fn list_labels(rendered: Seq<Seq<char>>, deleting: bool) -> Seq<Seq<char>> {
    rendered.map_values(|t: Seq<char>| element_label(t, deleting)) + if deleting {
        Seq::empty()
    } else if rendered.len() > 0 {
        seq!["[ - delete item ]"@, "[ + add item ]"@]
    } else {
        seq!["[ + add item ]"@]
    }
}

impl Configuration {
    /// The rows of the record menu at the cursor, one per schema field, or
    /// `None` where the document node is not an object with every field.
    pub fn object_rows(&self) -> (r: Option<Vec<String>>)
        requires
            self.wf(),
            self.focus_scheme() is Object,
        ensures
            ({
                let fields = self.focus_scheme()->Object_0@;
                let node = value_at(self.config@, keys(self.path@));
                match r {
                    Some(rows) => node is Some && node->Some_0 is Object && rows@.len()
                        == fields.len() && forall|i: int|
                        0 <= i < fields.len() ==> lookup(node->Some_0->Object_0, fields[i].0@)
                            is Some && #[trigger] rows@[i]@ == field_label(
                            fields[i].0@,
                            lookup(node->Some_0->Object_0, fields[i].0@)->Some_0,
                        ),
                    None => !(node is Some && node->Some_0 is Object && forall|i: int|
                        0 <= i < fields.len() ==> lookup(
                            node->Some_0->Object_0,
                            (#[trigger] fields[i]).0@,
                        ) is Some),
                }
            }),
    {
        let scheme = self.current_scheme();
        let fields = match scheme {
            Scheme::Object(fields) => fields,
            _ => {
                return None;
            },
        };
        let node = match self.current_value() {
            Some(v) => v,
            None => {
                return None;
            },
        };
        let entries = match node {
            JsonValue::Object(entries) => entries,
            _ => {
                return None;
            },
        };
        proof {
            lemma_view_entries(entries@);
        }
        let mut rows: Vec<String> = Vec::new();
        let mut i: usize = 0;
        while i < fields.len()
            invariant
                i <= fields@.len(),
                node@ == Tree::Object(view_entries(entries@)),
                *scheme == Scheme::Object(*fields),
                *scheme == self.focus_scheme(),
                value_at(self.config@, keys(self.path@)) == Some(node@),
                rows@.len() == i,
                forall|j: int|
                    0 <= j < i ==> lookup(view_entries(entries@), (#[trigger] fields@[j]).0@) is Some,
                forall|j: int|
                    0 <= j < i ==> #[trigger] rows@[j]@ == field_label(
                        fields@[j].0@,
                        lookup(view_entries(entries@), fields@[j].0@)->Some_0,
                    ),
            decreases fields.len() - i,
        {
            match find_entry(entries, &fields[i].0) {
                Some(j) => {
                    let row = field_row(&fields[i].0, &entries[j].1);
                    let ghost before = rows@;
                    rows.push(row);
                    assert(lookup(view_entries(entries@), fields@[i as int].0@) is Some);
                    assert forall|k: int| 0 <= k <= i implies lookup(
                        view_entries(entries@),
                        fields@[k].0@,
                    ) is Some && #[trigger] rows@[k]@ == field_label(
                        fields@[k].0@,
                        lookup(view_entries(entries@), fields@[k].0@)->Some_0,
                    ) by {
                        if k < i {
                            assert(rows@[k] == before[k]);
                            assert(before[k]@ == field_label(
                                fields@[k].0@,
                                lookup(view_entries(entries@), fields@[k].0@)->Some_0,
                            ));
                        }
                    }
                },
                None => {
                    return None;
                },
            }
            i = i + 1;
        }
        Some(rows)
    }

    /// Opens the field shown in content row `index` of the record menu.
    pub fn open_field(&mut self, index: usize)
        requires
            old(self).wf(),
            old(self).focus_scheme() is Object,
            index < old(self).focus_scheme()->Object_0@.len(),
        ensures
            final(self).wf(),
            final(self).path@ == old(self).path@.push(
                (old(self).focus_scheme()->Object_0@[index as int].0, index),
            ),
            final(self).last_selected_index == 0,
            !final(self).delete_mode,
            final(self).config == old(self).config,
            final(self).exit == old(self).exit,
    {
        let key = match self.current_scheme() {
            Scheme::Object(fields) => {
                let k = fields[index].0.clone();
                proof {
                    lemma_field_of_found(fields@, index as int);
                }
                k
            },
            _ => {
                return;
            },
        };
        self.path_push(key, index);
    }

    /// The rows of the list menu at the cursor, given each element's text.
    pub fn list_rows(&self, rendered: &Vec<String>) -> (r: Vec<String>)
        ensures
            texts(r@) == list_labels(texts(rendered@), self.delete_mode),
    {
        let mut rows: Vec<String> = Vec::new();
        let mut i: usize = 0;
        proof {
            reveal_strlit("-> ");
            reveal_strlit("...");
        }
        while i < rendered.len()
            invariant
                i <= rendered@.len(),
                rows@.len() == i,
                forall|j: int|
                    0 <= j < i ==> #[trigger] rows@[j]@ == element_label(
                        rendered@[j]@,
                        self.delete_mode,
                    ),
            decreases rendered.len() - i,
        {
            proof {
                reveal_strlit("-> ");
                reveal_strlit("...");
            }
            let mut s = String::new();
            if self.delete_mode {
                s.append("-> ");
            }
            s.append(rendered[i].as_str());
            if s.unicode_len() > MAX_LABEL_CHARS {
                let mut cut = String::from_str(s.as_str().substring_char(0, MAX_LABEL_CHARS));
                cut.append("...");
                s = cut;
            }
            rows.push(s);
            i = i + 1;
        }
        let ghost elements = texts(rows@);
        proof {
            reveal_strlit("[ - delete item ]");
            reveal_strlit("[ + add item ]");
        }
        if !self.delete_mode {
            if rendered.len() > 0 {
                rows.push(String::from_str("[ - delete item ]"));
            }
            rows.push(String::from_str("[ + add item ]"));
        }
        assert(elements =~= texts(rendered@).map_values(
            |t: Seq<char>| element_label(t, self.delete_mode),
        ));
        assert(texts(rows@) =~= list_labels(texts(rendered@), self.delete_mode));
        rows
    }
}

/// Whether `index` names a row of a list menu over `n` elements, after the
/// control rows: an element, or outside delete mode `delete` (for a
/// non-empty list) and `add`.
pub open spec fn list_row_valid(n: nat, deleting: bool, index: nat) -> bool {
    if deleting {
        index < n
    } else {
        index <= n && (index < n || n > 0) || index == n + (if n > 0 {
            1nat
        } else {
            0nat
        })
    }
}

impl Configuration {
    /// The keys of the cursor.
    pub fn path_keys(&self) -> (r: Vec<String>)
        ensures
            texts(r@) == keys(self.path@),
    {
        let mut out: Vec<String> = Vec::new();
        let mut i: usize = 0;
        while i < self.path.len()
            invariant
                i <= self.path@.len(),
                out@.len() == i,
                forall|j: int| 0 <= j < i ==> #[trigger] out@[j]@ == self.path@[j].0@,
            decreases self.path.len() - i,
        {
            out.push(self.path[i].0.clone());
            i = i + 1;
        }
        assert(texts(out@) =~= keys(self.path@));
        out
    }

    /// Acts on content row `index` of the list menu at the cursor. In delete
    /// mode the element in that row is removed and delete mode ends.
    /// Otherwise an element row opens that element, the `delete` row enters
    /// delete mode, and the `add` row appends the element schema's default
    /// and opens it. Returns false, changing nothing, where the document node
    /// is not an array or `index` names no row.
    pub fn list_select(&mut self, index: usize) -> (r: bool)
        requires
            old(self).wf(),
            old(self).focus_scheme() is List,
        ensures
            final(self).wf(),
            ({
                let node = value_at(old(self).config@, keys(old(self).path@));
                let items = node->Some_0->Array_0;
                let n = items.len();
                let element = *old(self).focus_scheme()->List_0;
                &&& r == (node is Some && node->Some_0 is Array && list_row_valid(
                    n,
                    old(self).delete_mode,
                    index as nat,
                ))
                &&& !r ==> *final(self) == *old(self)
                &&& r && old(self).delete_mode ==> {
                    &&& final(self).config@ == replaced(
                        old(self).config@,
                        keys(old(self).path@),
                        Tree::Array(items.remove(index as int)),
                    )
                    &&& !final(self).delete_mode
                    &&& final(self).path == old(self).path
                    &&& final(self).last_selected_index == old(self).last_selected_index
                }
                &&& r && !old(self).delete_mode && n > 0 && index == n ==> {
                    &&& final(self).delete_mode
                    &&& final(self).last_selected_index == 0
                    &&& final(self).config == old(self).config
                    &&& final(self).path == old(self).path
                }
                &&& r && !old(self).delete_mode && index as nat == n + (if n > 0 {
                    1nat
                } else {
                    0nat
                }) ==> {
                    &&& final(self).config@ == replaced(
                        old(self).config@,
                        keys(old(self).path@),
                        Tree::Array(items.push(default_of(element))),
                    )
                    &&& final(self).path@.drop_last() == old(self).path@
                    &&& final(self).path@.last().0@ == nat_text(n)
                    &&& final(self).path@.last().1 == n
                    &&& !final(self).delete_mode
                    &&& final(self).last_selected_index == 0
                }
                &&& r && !old(self).delete_mode && index < n ==> {
                    &&& final(self).config == old(self).config
                    &&& final(self).path@.drop_last() == old(self).path@
                    &&& final(self).path@.last().0@ == nat_text(index as nat)
                    &&& final(self).path@.last().1 == index
                    &&& !final(self).delete_mode
                    &&& final(self).last_selected_index == 0
                }
            }),
            final(self).scheme == old(self).scheme,
            final(self).plugins == old(self).plugins,
            final(self).exit == old(self).exit,
    {
        let element_default = match self.current_scheme() {
            Scheme::List(e, _) => scheme_to_default_value(e),
            _ => {
                return false;
            },
        };
        let list = match self.current_value() {
            Some(JsonValue::Array(items)) => {
                proof {
                    lemma_view_items(items@);
                }
                let mut copy: Vec<JsonValue> = Vec::new();
                let mut i: usize = 0;
                while i < items.len()
                    invariant
                        i <= items@.len(),
                        copy@.len() == i,
                        forall|j: int| 0 <= j < i ==> #[trigger] copy@[j]@ == items@[j]@,
                    decreases items.len() - i,
                {
                    copy.push(items[i].deep_copy());
                    i = i + 1;
                }
                proof {
                    lemma_view_items(copy@);
                    assert(crate::value::view_items(copy@) =~= crate::value::view_items(items@));
                }
                copy
            },
            _ => {
                return false;
            },
        };
        proof {
            lemma_view_items(list@);
        }
        let ghost items = crate::value::view_items(list@);
        assert(value_at(self.config@, keys(self.path@)) == Some(Tree::Array(items)));
        let n = list.len();
        if self.delete_mode {
            if index >= n {
                return false;
            }
            let mut list = list;
            list.remove(index);
            proof {
                lemma_view_items(list@);
                assert(crate::value::view_items(list@) =~= items.remove(index as int));
            }
            self.replace_current(JsonValue::Array(list));
            self.delete_mode = false;
            true
        } else if n > 0 && index == n {
            self.last_selected_index = 0;
            self.delete_mode = true;
            true
        } else if (n > 0 && index > n && index - 1 == n) || (n == 0 && index == 0) {
            let mut list = list;
            list.push(element_default);
            proof {
                lemma_view_items(list@);
                assert(crate::value::view_items(list@) =~= items.push(default_of(*self.focus_scheme()->List_0)));
            }
            self.replace_current(JsonValue::Array(list));
            let mut key = String::new();
            push_nat_text(n as u64, &mut key);
            self.path_push(key, n);
            true
        } else if index < n {
            let mut key = String::new();
            push_nat_text(index as u64, &mut key);
            self.path_push(key, index);
            true
        } else {
            false
        }
    }

    /// Stores at the cursor what a registered action made of the node there,
    /// where it has the shape of the node's schema; else reports the first
    /// mismatch and changes nothing.
    pub fn apply_plugin(&mut self, new: JsonValue) -> (r: Result<(), ValidationError>)
        requires
            old(self).wf(),
        ensures
            final(self).wf(),
            match r {
                Ok(()) => conforms(new@, old(self).focus_scheme()) && final(self).config@ == replaced(
                    old(self).config@,
                    keys(old(self).path@),
                    new@,
                ) && final(self).path == old(self).path && final(self).delete_mode
                    == old(self).delete_mode && final(self).last_selected_index
                    == old(self).last_selected_index,
                Err(e) => reports(e, keys(old(self).path@), first_error(new@, old(self).focus_scheme()))
                    && *final(self) == *old(self),
            },
            final(self).scheme == old(self).scheme,
            final(self).plugins == old(self).plugins,
            final(self).exit == old(self).exit,
    {
        let path = self.path_keys();
        let result = validate(&new, self.current_scheme(), &path);
        match result {
            Ok(()) => {
                self.replace_current(new);
                Ok(())
            },
            Err(e) => Err(e),
        }
    }
}

/// The control rows in front of a menu at the given depth.
pub open spec fn control_texts(depth: nat) -> Seq<Seq<char>> {
    if depth == 0 {
        seq!["[ exit ]"@]
    } else {
        seq!["[ <- back ]"@, "[ exit ]"@]
    }
}

/// Whether `r` is the first entry whose scope key ends `path`.
pub open spec fn first_match(entries: Seq<(String, String)>, path: Seq<char>, r: Option<usize>) -> bool {
    match r {
        Some(i) => i < entries.len() && is_suffix(entries[i as int].0@, path) && forall|j: int|
            0 <= j < i ==> !is_suffix((#[trigger] entries[j]).0@, path),
        None => forall|j: int| 0 <= j < entries.len() ==> !is_suffix((#[trigger] entries[j]).0@, path),
    }
}

/// The field found by position is the one lookup finds, the first of its name.
pub proof fn lemma_field_of_found(fields: Seq<(String, Scheme)>, i: int)
    requires
        0 <= i < fields.len(),
    ensures
        field_of(fields, fields[i].0@) is Some,
    decreases i,
{
    if i > 0 && fields[0].0@ != fields[i].0@ {
        assert(fields.drop_first()[i - 1] == fields[i]);
        lemma_field_of_found(fields.drop_first(), i - 1);
    }
}

/// The cursor never loses its schema node: a push along a key that the
/// node at the cursor has reaches a node, and so does a pop.
pub proof fn lemma_navigation_resolves(s: Scheme, p: Seq<Seq<char>>, k: Seq<char>)
    requires
        scheme_at(s, p) is Some,
    ensures
        scheme_step(scheme_at(s, p)->Some_0, k) is Some ==> scheme_at(s, p.push(k)) is Some,
        p.len() > 0 ==> scheme_at(s, p.drop_last()) is Some,
{
    lemma_scheme_at_push(s, p, k);
    if p.len() > 0 {
        lemma_scheme_at_prefix(s, p, p.len() - 1);
        assert(p.subrange(0, p.len() - 1) =~= p.drop_last());
    }
}

/// Adding to a list gives one element more, the new last element having
/// the shape of the element schema; deleting element `i` gives one element
/// fewer and keeps the others in order.
pub proof fn lemma_list_add_delete(items: Seq<Tree>, e: Scheme, i: int)
    requires
        scheme_wf(e),
        0 <= i < items.len(),
    ensures
        items.push(default_of(e)).len() == items.len() + 1,
        conforms(items.push(default_of(e)).last(), e),
        items.remove(i).len() == items.len() - 1,
        forall|j: int| 0 <= j < i ==> #[trigger] items.remove(i)[j] == items[j],
        forall|j: int| i <= j < items.len() - 1 ==> #[trigger] items.remove(i)[j] == items[j + 1],
{
    lemma_default_conforms(e);
}

/// A walk that stops at some key goes no further.
pub proof fn lemma_value_none_after(v: Tree, p: Seq<Seq<char>>, i: int)
    requires
        0 <= i < p.len(),
        value_at(v, p.subrange(0, i + 1)) is None,
    ensures
        value_at(v, p) is None,
    decreases p.len() - i,
{
    if i + 1 < p.len() {
        assert(p.subrange(0, i + 2) =~= p.subrange(0, i + 1).push(p[i + 1]));
        lemma_value_at_push(v, p.subrange(0, i + 1), p[i + 1]);
        lemma_value_none_after(v, p, i + 1);
    } else {
        assert(p.subrange(0, i + 1) =~= p);
    }
}

} // verus!
