use appsettings_env::flatten::{appsettings_json_to_env_recursive, flatten};
use appsettings_env::value::ConfigValue;

fn text(s: &str) -> ConfigValue {
    ConfigValue::String(s.to_string())
}

fn number(s: &str) -> ConfigValue {
    ConfigValue::Number(s.to_string())
}

fn object(members: Vec<(&str, ConfigValue)>) -> ConfigValue {
    ConfigValue::Object(members.into_iter().map(|(k, v)| (k.to_string(), v)).collect())
}

fn array(items: Vec<ConfigValue>) -> ConfigValue {
    ConfigValue::Array(items)
}

fn pairs(lines: &[(&str, &str)]) -> Vec<(String, String)> {
    lines.iter().map(|(n, v)| (n.to_string(), v.to_string())).collect()
}

fn leaves(tree: &ConfigValue) -> usize {
    match tree {
        ConfigValue::Object(members) => members.iter().map(|(_, v)| leaves(v)).sum(),
        ConfigValue::Array(items) => items.iter().map(leaves).sum(),
        _ => 1,
    }
}

fn sample() -> ConfigValue {
    object(vec![
        (
            "Logging",
            object(vec![
                ("LogLevel", object(vec![("Default", text("Information")), ("System", text("Warning"))])),
                ("Sinks", array(vec![text("console"), object(vec![("File", text("app.log"))])])),
            ]),
        ),
        ("AllowedHosts", text("*")),
        ("Retries", number("3")),
        ("Nothing", array(vec![])),
        ("Nobody", object(vec![])),
        ("Enabled", ConfigValue::Boolean(false)),
        ("Parent", ConfigValue::Null),
    ])
}

#[test]
fn nested_object_members_are_joined_with_double_underscore() {
    let tree = object(vec![("A", object(vec![("B", text("x")), ("C", number("1"))]))]);
    assert_eq!(flatten(&tree), pairs(&[("A__B", "x"), ("A__C", "1")]));
}

#[test]
fn array_elements_are_named_by_their_index() {
    let tree = object(vec![("List", array(vec![text("a"), text("b")]))]);
    assert_eq!(flatten(&tree), pairs(&[("LIST__0", "a"), ("LIST__1", "b")]));
}

#[test]
fn booleans_and_null_are_written_as_words() {
    let tree = object(vec![("Flag", ConfigValue::Boolean(true)), ("Missing", ConfigValue::Null)]);
    assert_eq!(flatten(&tree), pairs(&[("FLAG", "true"), ("MISSING", "null")]));
    let tree = object(vec![("Flag", ConfigValue::Boolean(false))]);
    assert_eq!(flatten(&tree), pairs(&[("FLAG", "false")]));
}

#[test]
fn a_root_that_is_a_leaf_has_no_line() {
    assert_eq!(flatten(&text("just a string")), pairs(&[]));
    assert_eq!(flatten(&number("7")), pairs(&[]));
    assert_eq!(flatten(&ConfigValue::Boolean(true)), pairs(&[]));
    assert_eq!(flatten(&ConfigValue::Null), pairs(&[]));
}

#[test]
fn an_empty_member_has_no_line() {
    let tree = object(vec![("Empty", object(vec![]))]);
    assert_eq!(flatten(&tree), pairs(&[]));
    let tree = object(vec![("Empty", array(vec![]))]);
    assert_eq!(flatten(&tree), pairs(&[]));
}

#[test]
fn empty_roots_have_no_line() {
    assert_eq!(flatten(&object(vec![])), pairs(&[]));
    assert_eq!(flatten(&array(vec![])), pairs(&[]));
}

#[test]
fn empty_containers_inside_a_tree_add_nothing() {
    let with = object(vec![
        ("A", text("1")),
        ("Gap", object(vec![])),
        ("B", array(vec![text("x"), array(vec![]), object(vec![("C", array(vec![]))])])),
        ("Hole", array(vec![])),
    ]);
    assert_eq!(flatten(&with), pairs(&[("A", "1"), ("B__0", "x")]));
    let without = object(vec![("A", text("1")), ("B", array(vec![text("x")]))]);
    assert_eq!(flatten(&with), flatten(&without));
}

#[test]
fn a_string_is_written_bare() {
    let tree = object(vec![("Quote", text("say \"hi\"")), ("Path", text("C:\\temp"))]);
    assert_eq!(flatten(&tree), pairs(&[("QUOTE", "say \"hi\""), ("PATH", "C:\\temp")]));
}

#[test]
fn a_value_is_not_escaped() {
    let tree = object(vec![("Conn", text("a=b;c=d")), ("Multi", text("one\ntwo")), ("Blank", text(""))]);
    assert_eq!(
        flatten(&tree),
        pairs(&[("CONN", "a=b;c=d"), ("MULTI", "one\ntwo"), ("BLANK", "")])
    );
}

#[test]
fn a_number_keeps_its_text() {
    let tree = object(vec![("N", number("1")), ("F", number("2.5")), ("M", number("-17"))]);
    assert_eq!(flatten(&tree), pairs(&[("N", "1"), ("F", "2.5"), ("M", "-17")]));
}

#[test]
fn members_keep_their_declaration_order() {
    let tree = object(vec![("zeta", text("1")), ("alpha", text("2")), ("Mid", text("3"))]);
    assert_eq!(flatten(&tree), pairs(&[("ZETA", "1"), ("ALPHA", "2"), ("MID", "3")]));
}

#[test]
fn lines_stand_in_depth_first_pre_order() {
    assert_eq!(
        flatten(&sample()),
        pairs(&[
            ("LOGGING__LOGLEVEL__DEFAULT", "Information"),
            ("LOGGING__LOGLEVEL__SYSTEM", "Warning"),
            ("LOGGING__SINKS__0", "console"),
            ("LOGGING__SINKS__1__FILE", "app.log"),
            ("ALLOWEDHOSTS", "*"),
            ("RETRIES", "3"),
            ("ENABLED", "false"),
            ("PARENT", "null"),
        ])
    );
}

#[test]
fn there_is_one_line_for_each_leaf_below_the_root() {
    let tree = sample();
    assert_eq!(leaves(&tree), 8);
    assert_eq!(flatten(&tree).len(), 8);
    let nested = array(vec![array(vec![text("a"), text("b")]), array(vec![]), text("c")]);
    assert_eq!(flatten(&nested).len(), leaves(&nested));
    assert_eq!(flatten(&nested).len(), 3);
}

#[test]
fn siblings_do_not_see_each_others_keys() {
    let tree = object(vec![
        ("A", object(vec![("X", text("1"))])),
        ("B", object(vec![("Y", text("2"))])),
        ("C", text("3")),
    ]);
    assert_eq!(flatten(&tree), pairs(&[("A__X", "1"), ("B__Y", "2"), ("C", "3")]));
}

#[test]
fn elements_of_one_array_get_distinct_names() {
    let tree = object(vec![("L", array(vec![text("a"), text("a"), text("a")]))]);
    let lines = flatten(&tree);
    assert_eq!(lines, pairs(&[("L__0", "a"), ("L__1", "a"), ("L__2", "a")]));
    assert_ne!(lines[0].0, lines[1].0);
    assert_ne!(lines[0].0, lines[2].0);
    assert_ne!(lines[1].0, lines[2].0);
}

#[test]
fn indices_are_written_in_decimal() {
    let items: Vec<ConfigValue> = (0..12).map(|i| number(&i.to_string())).collect();
    let lines = flatten(&object(vec![("n", array(items))]));
    assert_eq!(lines.len(), 12);
    assert_eq!(lines[0], ("N__0".to_string(), "0".to_string()));
    assert_eq!(lines[9], ("N__9".to_string(), "9".to_string()));
    assert_eq!(lines[10], ("N__10".to_string(), "10".to_string()));
    assert_eq!(lines[11], ("N__11".to_string(), "11".to_string()));
}

#[test]
fn a_root_array_names_its_elements_by_index_alone() {
    let tree = array(vec![text("a"), object(vec![("k", text("b"))])]);
    assert_eq!(flatten(&tree), pairs(&[("0", "a"), ("1__K", "b")]));
}

#[test]
fn arrays_in_arrays_repeat_the_index_segment() {
    let tree = object(vec![("m", array(vec![array(vec![text("a"), text("b")]), array(vec![text("c")])]))]);
    assert_eq!(flatten(&tree), pairs(&[("M__0__0", "a"), ("M__0__1", "b"), ("M__1__0", "c")]));
}

#[test]
fn an_empty_key_is_an_empty_segment() {
    let tree = object(vec![("", text("x"))]);
    assert_eq!(flatten(&tree), pairs(&[("", "x")]));
    let tree = object(vec![("a", object(vec![("", text("x"))]))]);
    assert_eq!(flatten(&tree), pairs(&[("A__", "x")]));
    let tree = object(vec![("", object(vec![("b", text("x"))]))]);
    assert_eq!(flatten(&tree), pairs(&[("__B", "x")]));
}

#[test]
fn only_ascii_letters_are_upper_cased() {
    let tree = object(vec![("caf\u{e9}-1", text("x")), ("a.b:c", text("y"))]);
    assert_eq!(flatten(&tree), pairs(&[("CAF\u{e9}-1", "x"), ("A.B:C", "y")]));
}

#[test]
fn names_of_plain_keys_are_well_formed() {
    let lines = flatten(&sample());
    for (name, _) in &lines {
        assert!(!name.is_empty());
        assert!(name.chars().all(|c| c.is_ascii_uppercase() || c.is_ascii_digit() || c == '_'));
        assert!(!name.starts_with("__"));
        assert!(!name.ends_with("__"));
    }
}

#[test]
fn the_traversal_appends_to_what_is_there() {
    let mut lines = pairs(&[("KEPT", "1")]);
    let tree = object(vec![("b", text("2"))]);
    appsettings_json_to_env_recursive(&tree, &["a"], &mut lines);
    assert_eq!(lines, pairs(&[("KEPT", "1"), ("A__B", "2")]));
    appsettings_json_to_env_recursive(&text("3"), &["x", "y"], &mut lines);
    assert_eq!(lines, pairs(&[("KEPT", "1"), ("A__B", "2"), ("X__Y", "3")]));
    appsettings_json_to_env_recursive(&text("4"), &[], &mut lines);
    assert_eq!(lines.len(), 3);
}
