use gluon_frontend::names::{
    chars_of, contains_operator_char, ends_with_char, file_name, import_name, last_component,
    module_name, split_components, str_eq, string_of, without_last_char,
};

fn components(name: &str) -> Vec<String> {
    split_components(&chars_of(name), 0)
}

#[test]
fn file_name_replaces_dots() {
    assert_eq!(file_name("std.types"), "std/types.glu");
    assert_eq!(file_name("main"), "main.glu");
    assert_eq!(file_name(""), ".glu");
}

#[test]
fn import_name_adds_prefix_once() {
    assert_eq!(import_name("std.map"), "@std.map");
    assert_eq!(import_name("@std.map"), "@std.map");
    assert_eq!(import_name(""), "@");
}

#[test]
fn module_name_drops_last_component() {
    assert_eq!(module_name("a.b.c"), "a.b");
    assert_eq!(module_name("a"), "");
    assert_eq!(module_name(""), "");
    assert_eq!(module_name("a..b"), "a");
    assert_eq!(module_name("a.b."), "a.b");
}

#[test]
fn last_component_is_what_follows_the_last_dot() {
    assert_eq!(last_component("std.types.Bool"), "Bool");
    assert_eq!(last_component("Bool"), "Bool");
    assert_eq!(last_component("a."), "");
}

#[test]
fn components_are_split_at_dots() {
    assert_eq!(components("a.b.c"), vec!["a", "b", "c"]);
    assert_eq!(components("abc"), vec!["abc"]);
    assert!(components("").is_empty());
    assert_eq!(components("a."), vec!["a"]);
    assert_eq!(components(".a"), vec!["", "a"]);
    assert_eq!(components("a..b"), vec!["a", "", "b"]);
    assert_eq!(split_components(&chars_of("x.y.z"), 2), vec!["y", "z"]);
}

#[test]
fn marker_is_found_and_stripped() {
    assert!(ends_with_char("import!", '!'));
    assert!(!ends_with_char("import", '!'));
    assert!(!ends_with_char("", '!'));
    assert_eq!(without_last_char("import!"), "import");
}

#[test]
fn strings_are_compared_by_characters() {
    assert!(str_eq("derive", "derive"));
    assert!(!str_eq("derive", "derived"));
    assert!(!str_eq("derive", "deriva"));
    assert!(str_eq("", ""));
    assert_eq!(string_of(&chars_of("héllo"), 1, 3), "él");
}

#[test]
fn operator_characters_are_recognised() {
    assert!(contains_operator_char(&chars_of("+")));
    assert!(contains_operator_char(&chars_of("a<b")));
    assert!(contains_operator_char(&chars_of("x:")));
    assert!(!contains_operator_char(&chars_of("field_1")));
    assert!(!contains_operator_char(&chars_of("(")));
}
