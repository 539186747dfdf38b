use schema_config::navigator::{Configuration, PluginRegistry, Selection};
use schema_config::plugin::{drive_record, drive_records, extend_list};
use schema_config::scheme::{scheme_to_default_value, value_to_scheme, CompileError, Scheme};
use schema_config::text::{int_to_text, parse_i64, trim_text};
use schema_config::validate::{load_config, validate, ErrorKind, ValidationError};
use schema_config::value::JsonValue;

fn s(t: &str) -> JsonValue {
    JsonValue::Str(t.to_string())
}

fn obj(entries: Vec<(&str, JsonValue)>) -> JsonValue {
    JsonValue::Object(entries.into_iter().map(|(k, v)| (k.to_string(), v)).collect())
}

fn arr(items: Vec<JsonValue>) -> JsonValue {
    JsonValue::Array(items)
}

fn compile(v: JsonValue) -> Scheme {
    value_to_scheme(v).expect("schema compiles")
}

fn texts(rows: &[String]) -> Vec<&str> {
    rows.iter().map(|r| r.as_str()).collect()
}

fn drives_scheme() -> Scheme {
    compile(obj(vec![(
        "drives",
        arr(vec![obj(vec![
            ("unit_name", s("Str")),
            ("unit_number", s("Str")),
            ("module_name", s("Str")),
            ("trigger_interval_min", s("Int 0")),
            ("trigger_type_scheme", arr(vec![s("Int")])),
        ])]),
    )]))
}

#[test]
fn scenario_default_count() {
    let scheme = compile(obj(vec![("count", s("Int 0"))]));
    let loaded = load_config(&scheme, JsonValue::Null).unwrap();
    assert_eq!(loaded, obj(vec![("count", JsonValue::Int(0))]));
    let root: Vec<String> = vec![];
    assert!(validate(&loaded, &scheme, &root).is_ok());
}

#[test]
fn scenario_empty_list_shows_only_add() {
    let scheme = compile(obj(vec![("tags", arr(vec![s("Str"), arr(vec![])]))]));
    let config = load_config(&scheme, obj(vec![("tags", arr(vec![]))])).unwrap();
    let mut session = Configuration::new(scheme, config, PluginRegistry::new());
    session.open_field(0);
    assert_eq!(session.path_string(), "[tags]");
    let rows = session.list_rows(&vec![]);
    assert_eq!(texts(&rows), vec!["[ + add item ]"]);
    let menu = session.show_items(rows);
    assert_eq!(texts(&menu.rows), vec!["[ <- back ]", "[ exit ]", "[ + add item ]"]);
}

#[test]
fn scenario_delete_single_element() {
    let scheme = compile(obj(vec![("tags", arr(vec![s("Str")]))]));
    let config = load_config(&scheme, obj(vec![("tags", arr(vec![s("x")]))])).unwrap();
    let mut session = Configuration::new(scheme, config, PluginRegistry::new());
    session.open_field(0);
    let rows = session.list_rows(&vec!["\"x\"".to_string()]);
    assert_eq!(texts(&rows), vec!["\"x\"", "[ - delete item ]", "[ + add item ]"]);
    let menu = session.show_items(rows);
    assert_eq!(session.select_row(&menu, 3), Selection::Item(1));
    assert!(session.list_select(1));
    assert!(session.delete_mode);
    let rows = session.list_rows(&vec!["\"x\"".to_string()]);
    assert_eq!(texts(&rows), vec!["-> \"x\""]);
    let menu = session.show_items(rows);
    assert_eq!(menu.plugin, None);
    assert_eq!(session.select_row(&menu, 2), Selection::Item(0));
    assert!(session.list_select(0));
    assert!(!session.delete_mode);
    assert_eq!(session.config, obj(vec![("tags", arr(vec![]))]));
}

#[test]
fn scenario_missing_required_field() {
    let scheme = compile(obj(vec![("a", obj(vec![("b", s("Int 0"))]))]));
    let err = load_config(&scheme, obj(vec![("a", obj(vec![]))])).unwrap_err();
    assert_eq!(
        err,
        "Invalid config file: Value [a] doesn't have child b\n\
         If you delete the config file, a new correct one will be created"
    );
}

#[test]
fn scenario_plugin_appends_records() {
    let scheme = drives_scheme();
    let config = load_config(&scheme, JsonValue::Null).unwrap();
    let mut plugins = PluginRegistry::new();
    plugins.register("[drives]".to_string(), "[ load drives from Excel ]".to_string());
    let mut session = Configuration::new(scheme, config, plugins);
    session.open_field(0);
    let rows = session.list_rows(&vec![]);
    let menu = session.show_items(rows);
    assert_eq!(menu.plugin, Some(0));
    assert_eq!(menu.rows.last().unwrap(), "[ load drives from Excel ]");
    let last = menu.rows.len() - 1;
    assert_eq!(session.select_row(&menu, last), Selection::Plugin(0));
    let sheet = vec![
        (Some("M1".to_string()), Some("1".to_string()), Some("mod-a".to_string())),
        (Some("M2".to_string()), Some("2".to_string()), Some("mod-b".to_string())),
        (Some("M3".to_string()), None, Some("mod-c".to_string())),
        (Some("M4".to_string()), Some("4".to_string()), Some("mod-d".to_string())),
    ];
    let records = drive_records(sheet);
    assert_eq!(records.len(), 2);
    let mut node = session.current_value().unwrap().deep_copy();
    assert!(extend_list(&mut node, records));
    assert!(session.apply_plugin(node).is_ok());
    assert!(!session.delete_mode);
    match session.current_value().unwrap() {
        JsonValue::Array(items) => {
            assert_eq!(items.len(), 2);
            assert_eq!(
                items[0],
                drive_record("M1".to_string(), "1".to_string(), "mod-a".to_string())
            );
        }
        _ => panic!("drives is not a list"),
    }
}

#[test]
fn drive_record_fields() {
    let r = drive_record("U".to_string(), "7".to_string(), "m".to_string());
    assert_eq!(
        r,
        obj(vec![
            ("unit_name", s("U")),
            ("unit_number", s("7")),
            ("module_name", s("m")),
            ("trigger_interval_min", JsonValue::Int(180)),
            (
                "trigger_type_scheme",
                arr(vec![JsonValue::Int(1), JsonValue::Int(2), JsonValue::Int(3)])
            ),
        ])
    );
}

#[test]
fn extend_list_rejects_non_array() {
    let mut v = s("x");
    assert!(!extend_list(&mut v, vec![JsonValue::Int(1)]));
    assert_eq!(v, s("x"));
}

#[test]
fn compile_scalars() {
    assert_eq!(compile(s("Int -42")), Scheme::Int(-42));
    assert_eq!(compile(s("Int   7  ")), Scheme::Int(7));
    assert_eq!(compile(s("Int")), Scheme::Int(0));
    assert_eq!(compile(s("Int abc")), Scheme::Int(0));
    assert_eq!(compile(s("Int 99999999999999999999")), Scheme::Int(0));
    assert_eq!(compile(s("Int +5")), Scheme::Int(5));
    assert_eq!(compile(s("Str  hello ")), Scheme::Str("hello".to_string()));
    assert_eq!(compile(s("Str")), Scheme::Str(String::new()));
}

#[test]
fn compile_round_trip_canonical_forms() {
    for d in [0i64, 1, -1, 180, i64::MAX, i64::MIN] {
        let text = format!("Int {}", d);
        assert_eq!(compile(s(&text)), Scheme::Int(d));
    }
    assert_eq!(compile(s("Str a b")), Scheme::Str("a b".to_string()));
}

#[test]
fn compile_errors() {
    assert_eq!(value_to_scheme(s("Bool")), Err(CompileError::UnsupportedType(s("Bool"))));
    assert_eq!(value_to_scheme(s("In")), Err(CompileError::UnsupportedType(s("In"))));
    assert_eq!(value_to_scheme(JsonValue::Null), Err(CompileError::UnsupportedType(JsonValue::Null)));
    assert_eq!(
        value_to_scheme(JsonValue::Int(3)),
        Err(CompileError::UnsupportedType(JsonValue::Int(3)))
    );
    assert_eq!(
        value_to_scheme(obj(vec![("a", s("Int")), ("b", arr(vec![]))])),
        Err(CompileError::MissingListElementType(arr(vec![])))
    );
}

#[test]
fn compile_list_default() {
    let scheme = compile(arr(vec![s("Str"), arr(vec![s("seed")])]));
    assert_eq!(
        scheme,
        Scheme::List(Box::new(Scheme::Str(String::new())), arr(vec![s("seed")]))
    );
    assert_eq!(scheme_to_default_value(&scheme), arr(vec![s("seed")]));
    let plain = compile(arr(vec![s("Int 3")]));
    assert_eq!(scheme_to_default_value(&plain), arr(vec![]));
}

#[test]
fn default_of_record() {
    let scheme = compile(obj(vec![
        ("n", s("Int 5")),
        ("name", s("Str bob")),
        ("list", arr(vec![s("Int")])),
    ]));
    let d = scheme_to_default_value(&scheme);
    assert_eq!(
        d,
        obj(vec![("n", JsonValue::Int(5)), ("name", s("bob")), ("list", arr(vec![]))])
    );
    let root: Vec<String> = vec![];
    assert!(validate(&d, &scheme, &root).is_ok());
}

#[test]
fn validation_errors_and_messages() {
    let scheme = drives_scheme();
    let bad = obj(vec![(
        "drives",
        arr(vec![obj(vec![
            ("unit_name", s("a")),
            ("unit_number", JsonValue::Int(1)),
            ("module_name", s("m")),
            ("trigger_interval_min", JsonValue::Int(1)),
            ("trigger_type_scheme", arr(vec![])),
        ])]),
    )]);
    let root: Vec<String> = vec![];
    let err = validate(&bad, &scheme, &root).unwrap_err();
    assert_eq!(
        err,
        ValidationError {
            path: vec!["drives".to_string(), "0".to_string(), "unit_number".to_string()],
            kind: ErrorKind::NotString,
        }
    );
    assert_eq!(err.message(), "Value [drives][0][unit_number] has to be a string");

    let int_scheme = compile(s("Int"));
    let e = validate(&s("x"), &int_scheme, &root).unwrap_err();
    assert_eq!(e.message(), "Value [] has to be a number");
    assert!(validate(&JsonValue::Number("1.5".to_string()), &int_scheme, &root).is_ok());

    let e = validate(&arr(vec![]), &scheme, &root).unwrap_err();
    assert_eq!(e.kind, ErrorKind::NotObject);
    assert_eq!(e.message(), "Value [] has to be an object");

    let e = validate(&obj(vec![("drives", s("x"))]), &scheme, &root).unwrap_err();
    assert_eq!(e.message(), "Value [drives] has to be an array");

    let e = validate(&obj(vec![("other", arr(vec![]))]), &scheme, &root).unwrap_err();
    assert_eq!(e.kind, ErrorKind::MissingChild("drives".to_string()));
}

#[test]
fn extra_keys_are_tolerated() {
    let scheme = compile(obj(vec![("a", s("Int"))]));
    let v = obj(vec![("a", JsonValue::Int(1)), ("extra", s("x"))]);
    let root: Vec<String> = vec![];
    assert!(validate(&v, &scheme, &root).is_ok());
}

#[test]
fn reload_without_edits_is_accepted() {
    let scheme = compile(obj(vec![("count", s("Int 3")), ("tags", arr(vec![s("Str")]))]));
    let first = load_config(&scheme, JsonValue::Null).unwrap();
    let second = load_config(&scheme, first.deep_copy()).unwrap();
    assert_eq!(first, second);
}

#[test]
fn record_rows_and_navigation() {
    let scheme = compile(obj(vec![
        ("count", s("Int")),
        ("name", s("Str")),
        ("sub", obj(vec![("x", s("Int"))])),
        ("tags", arr(vec![s("Str")])),
    ]));
    let config = obj(vec![
        ("count", JsonValue::Int(5)),
        ("name", s("bob")),
        ("sub", obj(vec![("x", JsonValue::Int(1))])),
        ("tags", arr(vec![s("a"), s("b")])),
    ]);
    let mut session = Configuration::new(scheme, config, PluginRegistry::new());
    assert_eq!(session.path_string(), "[]");
    let rows = session.object_rows().unwrap();
    assert_eq!(texts(&rows), vec!["count: 5", "name: \"bob\"", "sub", "tags (Size: 2)"]);
    let menu = session.show_items(rows);
    assert_eq!(menu.rows[0], "[ exit ]");
    assert_eq!(session.select_row(&menu, 3), Selection::Item(2));
    session.open_field(2);
    assert_eq!(session.path_string(), "[sub]");
    let rows = session.object_rows().unwrap();
    let menu = session.show_items(rows);
    assert_eq!(session.select_row(&menu, 0), Selection::Back);
    assert_eq!(session.path_string(), "[]");
    assert_eq!(session.last_selected_index, 4);
    let rows = session.object_rows().unwrap();
    let _ = session.show_items(rows);
    assert_eq!(session.last_selected_index, 3);
}

#[test]
fn exit_rows() {
    let scheme = compile(obj(vec![("sub", obj(vec![("x", s("Int"))]))]));
    let config = scheme_to_default_value(&scheme);
    let mut session = Configuration::new(scheme, config, PluginRegistry::new());
    let menu = session.show_items(vec!["sub".to_string()]);
    assert_eq!(session.select_row(&menu, 0), Selection::Exit);
    assert!(session.exit);
    let mut session2 = Configuration::new(
        compile(obj(vec![("sub", obj(vec![("x", s("Int"))]))])),
        obj(vec![("sub", obj(vec![("x", JsonValue::Int(0))]))]),
        PluginRegistry::new(),
    );
    session2.open_field(0);
    let menu = session2.show_items(vec!["x: 0".to_string()]);
    assert_eq!(session2.select_row(&menu, 1), Selection::Exit);
    assert!(session2.exit);
    assert_eq!(session2.path_string(), "[sub]");
}

#[test]
fn edit_scalars() {
    let scheme = compile(obj(vec![("n", s("Int")), ("name", s("Str"))]));
    let config = scheme_to_default_value(&scheme);
    let mut session = Configuration::new(scheme, config, PluginRegistry::new());
    session.open_field(0);
    session.set_int(-12);
    assert_eq!(session.path_string(), "[]");
    assert_eq!(session.last_selected_index, 2);
    session.open_field(1);
    session.set_str("  hi there ");
    assert_eq!(session.last_selected_index, 3);
    assert_eq!(
        session.config,
        obj(vec![("n", JsonValue::Int(-12)), ("name", s("hi there"))])
    );
}

#[test]
fn add_item_opens_new_element() {
    let scheme = compile(obj(vec![("tags", arr(vec![s("Str dflt")]))]));
    let config = obj(vec![("tags", arr(vec![s("a")]))]);
    let mut session = Configuration::new(scheme, config, PluginRegistry::new());
    session.open_field(0);
    assert!(session.list_select(2));
    assert_eq!(session.path_string(), "[tags][1]");
    assert_eq!(session.current_value(), Some(&s("dflt")));
    assert_eq!(session.config, obj(vec![("tags", arr(vec![s("a"), s("dflt")]))]));
}

#[test]
fn list_select_out_of_range() {
    let scheme = compile(obj(vec![("tags", arr(vec![s("Str")]))]));
    let config = obj(vec![("tags", arr(vec![s("a")]))]);
    let mut session = Configuration::new(scheme, config, PluginRegistry::new());
    session.open_field(0);
    assert!(!session.list_select(3));
    assert_eq!(session.path_string(), "[tags]");
    assert!(session.list_select(0));
    assert_eq!(session.path_string(), "[tags][0]");
}

#[test]
fn long_rows_are_cut() {
    let scheme = compile(obj(vec![("tags", arr(vec![s("Str")]))]));
    let long = "x".repeat(120);
    let config = obj(vec![("tags", arr(vec![s(&long)]))]);
    let mut session = Configuration::new(scheme, config, PluginRegistry::new());
    session.open_field(0);
    let rows = session.list_rows(&vec![long.clone()]);
    assert_eq!(rows[0], format!("{}...", "x".repeat(100)));
    let exact = "y".repeat(100);
    let rows = session.list_rows(&vec![exact.clone()]);
    assert_eq!(rows[0], exact);
}

#[test]
fn plugin_result_must_fit_schema() {
    let scheme = drives_scheme();
    let config = scheme_to_default_value(&scheme);
    let mut session = Configuration::new(scheme, config, PluginRegistry::new());
    session.open_field(0);
    let err = session.apply_plugin(arr(vec![JsonValue::Int(1)])).unwrap_err();
    assert_eq!(err.kind, ErrorKind::NotObject);
    assert_eq!(err.message(), "Value [drives][0] has to be an object");
    assert_eq!(session.config, obj(vec![("drives", arr(vec![]))]));
}

#[test]
fn registry_takes_first_suffix_match() {
    let mut plugins = PluginRegistry::new();
    plugins.register("[other]".to_string(), "o".to_string());
    plugins.register("[drives]".to_string(), "d".to_string());
    plugins.register("]".to_string(), "any".to_string());
    assert_eq!(plugins.find("[site][drives]"), Some(1));
    assert_eq!(plugins.find("[x]"), Some(2));
    assert_eq!(plugins.find(""), None);
}

#[test]
fn decimal_text() {
    assert_eq!(int_to_text(0), "0");
    assert_eq!(int_to_text(-305), "-305");
    assert_eq!(int_to_text(i64::MIN), "-9223372036854775808");
    assert_eq!(parse_i64("-9223372036854775808"), Some(i64::MIN));
    assert_eq!(parse_i64("9223372036854775808"), None);
    assert_eq!(parse_i64("-"), None);
    assert_eq!(parse_i64("12a"), None);
    assert_eq!(trim_text("\u{3000} a b\t\n"), "a b");
}

#[test]
fn list_default_of_another_shape_does_not_validate() {
    let scheme = compile(arr(vec![s("Int"), s("x")]));
    let d = scheme_to_default_value(&scheme);
    assert_eq!(d, s("x"));
    let root: Vec<String> = vec![];
    let e = validate(&d, &scheme, &root).unwrap_err();
    assert_eq!(e.kind, ErrorKind::NotArray);
}

#[test]
fn current_scheme_follows_cursor() {
    let scheme = compile(obj(vec![("tags", arr(vec![s("Str z")]))]));
    let config = obj(vec![("tags", arr(vec![s("a")]))]);
    let mut session = Configuration::new(scheme, config, PluginRegistry::new());
    assert!(matches!(session.current_scheme(), Scheme::Object(_)));
    session.open_field(0);
    assert!(matches!(session.current_scheme(), Scheme::List(_, _)));
    assert!(session.list_select(0));
    assert_eq!(session.current_scheme(), &Scheme::Str("z".to_string()));
    assert_eq!(session.current_value(), Some(&s("a")));
}
