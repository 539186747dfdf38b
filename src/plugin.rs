//! The bulk import of drive records into a list of drives.
use vstd::prelude::*;
use vstd::string::*;
use crate::value::{JsonValue, Tree, lemma_view_entries, lemma_view_items, view_items};

verus! {

broadcast use vstd::std_specs::vec::group_vec_axioms;

/// Minutes between triggers of an imported drive.
pub const TRIGGER_INTERVAL_MIN: i64 = 180;

/// The record of one imported drive.
pub open spec fn drive_tree(unit_name: Seq<char>, unit_number: Seq<char>, module_name: Seq<char>) -> Tree {
    Tree::Object(
        seq![
            ("unit_name"@, Tree::Str(unit_name)),
            ("unit_number"@, Tree::Str(unit_number)),
            ("module_name"@, Tree::Str(module_name)),
            ("trigger_interval_min"@, Tree::Int(TRIGGER_INTERVAL_MIN as int)),
            ("trigger_type_scheme"@, Tree::Array(seq![Tree::Int(1), Tree::Int(2), Tree::Int(3)])),
        ],
    )
}

/// The record of one imported drive.
pub fn drive_record(unit_name: String, unit_number: String, module_name: String) -> (r: JsonValue)
    ensures
        r@ == drive_tree(unit_name@, unit_number@, module_name@),
{
    proof {
        reveal_strlit("unit_name");
        reveal_strlit("unit_number");
        reveal_strlit("module_name");
        reveal_strlit("trigger_interval_min");
        reveal_strlit("trigger_type_scheme");
    }
    let ghost (a, b, c) = (unit_name@, unit_number@, module_name@);
    let kinds: Vec<JsonValue> = vec![JsonValue::Int(1), JsonValue::Int(2), JsonValue::Int(3)];
    proof {
        lemma_view_items(kinds@);
        assert(view_items(kinds@) =~= seq![Tree::Int(1), Tree::Int(2), Tree::Int(3)]);
    }
    let entries: Vec<(String, JsonValue)> = vec![
        (String::from_str("unit_name"), JsonValue::Str(unit_name)),
        (String::from_str("unit_number"), JsonValue::Str(unit_number)),
        (String::from_str("module_name"), JsonValue::Str(module_name)),
        (String::from_str("trigger_interval_min"), JsonValue::Int(TRIGGER_INTERVAL_MIN)),
        (String::from_str("trigger_type_scheme"), JsonValue::Array(kinds)),
    ];
    proof {
        lemma_view_entries(entries@);
        assert(crate::value::view_entries(entries@) =~= drive_tree(a, b, c)->Object_0);
    }
    JsonValue::Object(entries)
}

/// Whether every cell of a sheet row is present.
pub open spec fn row_complete(row: (Option<String>, Option<String>, Option<String>)) -> bool {
    row.0 is Some && row.1 is Some && row.2 is Some
}

/// The number of rows before the first row with a missing cell.
pub open spec fn complete_prefix(rows: Seq<(Option<String>, Option<String>, Option<String>)>) -> nat
    decreases rows.len(),
{
    if rows.len() > 0 && row_complete(rows[0]) {
        1 + complete_prefix(rows.drop_first())
    } else {
        0
    }
}

proof fn lemma_complete_prefix(rows: Seq<(Option<String>, Option<String>, Option<String>)>, i: int)
    requires
        0 <= i <= rows.len(),
        forall|j: int| 0 <= j < i ==> row_complete(#[trigger] rows[j]),
        i == rows.len() || !row_complete(rows[i]),
    ensures
        complete_prefix(rows) == i,
    decreases i,
{
    if i > 0 {
        let rest = rows.drop_first();
        assert forall|j: int| 0 <= j < i - 1 implies row_complete(#[trigger] rest[j]) by {
            assert(rest[j] == rows[j + 1]);
        }
        lemma_complete_prefix(rest, i - 1);
    }
}

/// The drive records of the sheet rows (unit name, unit number, module
/// name), read from the top until the first row with a missing cell.
pub fn drive_records(sheet: Vec<(Option<String>, Option<String>, Option<String>)>) -> (r: Vec<
    JsonValue,
>)
    ensures
        r@.len() == complete_prefix(sheet@),
        forall|i: int|
            0 <= i < r@.len() ==> #[trigger] r@[i]@ == drive_tree(
                sheet@[i].0->Some_0@,
                sheet@[i].1->Some_0@,
                sheet@[i].2->Some_0@,
            ),
{
    let ghost all = sheet@;
    let mut rows = sheet;
    let total = rows.len();
    let mut out: Vec<JsonValue> = Vec::new();
    let mut i: usize = 0;
    while rows.len() > 0
        invariant
            all == sheet@,
            all.len() == total,
            all.len() == i + rows@.len(),
            rows@ == all.subrange(i as int, all.len() as int),
            out@.len() == i,
            forall|j: int| 0 <= j < i ==> row_complete(#[trigger] all[j]),
            forall|j: int|
                0 <= j < i ==> #[trigger] out@[j]@ == drive_tree(
                    all[j].0->Some_0@,
                    all[j].1->Some_0@,
                    all[j].2->Some_0@,
                ),
        decreases rows.len(),
    {
        let row = rows.remove(0);
        assert(row == all[i as int]);
        match row {
            (Some(a), Some(b), Some(c)) => {
                out.push(drive_record(a, b, c));
            },
            _ => {
                proof {
                    assert(!row_complete(all[i as int]));
                    lemma_complete_prefix(all, i as int);
                }
                return out;
            },
        }
        i = i + 1;
        assert(rows@ =~= all.subrange(i as int, all.len() as int));
    }
    proof {
        lemma_complete_prefix(all, i as int);
    }
    out
}

/// Appends `records` to the array `list`; returns false, changing nothing,
/// where `list` is not an array.
pub fn extend_list(list: &mut JsonValue, records: Vec<JsonValue>) -> (r: bool)
    ensures
        r == old(list)@ is Array,
        r ==> final(list)@ == Tree::Array(old(list)@->Array_0 + view_items(records@)),
        r ==> final(list)@->Array_0.len() == old(list)@->Array_0.len() + records@.len(),
        !r ==> *final(list) == *old(list),
{
    match list {
        JsonValue::Array(items) => {
            proof {
                lemma_view_items(items@);
                lemma_view_items(records@);
            }
            let ghost before = items@;
            let ghost added = records@;
            let mut records = records;
            items.append(&mut records);
            proof {
                lemma_view_items(items@);
                lemma_view_items(added);
                assert(view_items(items@) =~= view_items(before) + view_items(added));
            }
            true
        },
        _ => false,
    }
}

} // verus!
