use gluon_frontend::error::{Error, ErrorKind, MetadataMissing, UndefinedBinding, UndefinedField};
use gluon_frontend::resolve::{find_type_info, get_binding, get_global, get_metadata, walk_fields};
use gluon_frontend::table::Table;
use gluon_frontend::types::{
    clone_type, same_type, Field, Global, Metadata, MetadataField, Type, Value,
};

fn builtin(name: &str) -> Type {
    Type::Builtin(name.to_string())
}

fn field(name: &str, typ: Type) -> Field {
    Field { name: name.to_string(), typ }
}

fn record(fields: Vec<Field>) -> Type {
    Type::Record { types: vec![], fields }
}

fn alias(name: &str, typ: Type) -> Type {
    Type::Alias { name: name.to_string(), typ: Box::new(typ) }
}

fn no_metadata() -> Metadata {
    Metadata { comment: None, module: vec![] }
}

fn commented(comment: &str, module: Vec<MetadataField>) -> Metadata {
    Metadata { comment: Some(comment.to_string()), module }
}

fn inner_type() -> Type {
    record(vec![field("x", builtin("Int")), field("+", builtin("Function"))])
}

fn outer_type() -> Type {
    Type::Record {
        types: vec![field("Point", alias("Point", inner_type()))],
        fields: vec![
            field("name", builtin("String")),
            field("point", alias("Point", alias("P", inner_type()))),
        ],
    }
}

fn outer_value() -> Value {
    Value::Data(vec![
        Value::String("origin".to_string()),
        Value::Data(vec![Value::Int(7), Value::Int(99)]),
    ])
}

fn globals() -> Table<Global> {
    let mut table = Table::new();
    table.insert(
        "std.geometry".to_string(),
        Global {
            id: "std.geometry".to_string(),
            typ: outer_type(),
            metadata: commented(
                "geometry",
                vec![MetadataField {
                    name: "point".to_string(),
                    metadata: commented(
                        "a point",
                        vec![MetadataField { name: "x".to_string(), metadata: commented("abscissa", vec![]) }],
                    ),
                }],
            ),
            value: outer_value(),
        },
    );
    table.insert(
        "std".to_string(),
        Global { id: "std".to_string(), typ: builtin("Unit"), metadata: no_metadata(), value: Value::Int(0) },
    );
    table.insert(
        "broken".to_string(),
        Global {
            id: "broken".to_string(),
            typ: record(vec![field("a", builtin("Int"))]),
            metadata: no_metadata(),
            value: Value::Int(3),
        },
    );
    table
}

fn failure(result: Result<(&Value, &Type), Error>) -> Error {
    result.unwrap_err()
}

#[test]
fn the_longest_prefix_that_names_a_global_is_taken() {
    let globals = globals();
    let (rest, global) = get_global(&globals, "std.geometry.point.x").unwrap();
    assert_eq!(global.id, "std.geometry");
    assert_eq!(rest, "point.x");
    let (rest, global) = get_global(&globals, "std.other.x").unwrap();
    assert_eq!(global.id, "std");
    assert_eq!(rest, "other.x");
    let (rest, global) = get_global(&globals, "@std.geometry").unwrap();
    assert_eq!(global.id, "std.geometry");
    assert_eq!(rest, "");
    assert!(get_global(&globals, "other.geometry").is_none());
    assert!(get_global(&globals, "").is_none());
}

#[test]
fn a_name_without_fields_is_the_global_itself() {
    let globals = globals();
    let (value, typ) = get_binding(&globals, "std.geometry").unwrap();
    assert_eq!(*value, outer_value());
    assert_eq!(*typ, outer_type());
}

#[test]
fn fields_are_walked_through_aliases() {
    let globals = globals();
    let (value, typ) = get_binding(&globals, "std.geometry.point.x").unwrap();
    assert_eq!(*value, Value::Int(7));
    assert_eq!(*typ, builtin("Int"));
    let (value, typ) = get_binding(&globals, "std.geometry.name").unwrap();
    assert_eq!(*value, Value::String("origin".to_string()));
    assert_eq!(*typ, builtin("String"));
    let (value, _) = get_binding(&globals, "std.geometry.point").unwrap();
    assert_eq!(*value, Value::Data(vec![Value::Int(7), Value::Int(99)]));
}

#[test]
fn the_first_missing_field_is_named() {
    let globals = globals();
    assert_eq!(
        failure(get_binding(&globals, "std.geometry.point.y")),
        Error::new(UndefinedField("y".to_string()))
    );
    assert_eq!(
        failure(get_binding(&globals, "std.geometry.pint.x.z")),
        Error::new(UndefinedField("pint".to_string()))
    );
    assert_eq!(
        failure(get_binding(&globals, "std.geometry.name.len")),
        Error::new(UndefinedField("len".to_string()))
    );
    assert_eq!(failure(get_binding(&globals, "std.x")), Error::new(UndefinedField("x".to_string())));
}

#[test]
fn a_name_without_a_global_is_unbound() {
    let globals = globals();
    assert_eq!(
        failure(get_binding(&globals, "other.point")),
        Error::new(UndefinedBinding("other.point".to_string()))
    );
}

#[test]
fn operators_must_stand_in_parentheses() {
    let globals = globals();
    let (value, typ) = get_binding(&globals, "std.geometry.point.(+)").unwrap();
    assert_eq!(*value, Value::Int(99));
    assert_eq!(*typ, builtin("Function"));
    let error = failure(get_binding(&globals, "std.geometry.point.+"));
    assert_eq!(error.kind, ErrorKind::Message);
    assert_eq!(
        error.description(),
        "Operators cannot be used as fields directly. To access an operator field, enclose the operator with parentheses before passing it in. (test.(+) instead of test.+)"
    );
}

#[test]
fn a_value_that_is_no_record_is_reported() {
    let globals = globals();
    assert_eq!(failure(get_binding(&globals, "broken.a")), Error::message("Unexpected value"));
}

#[test]
fn walk_fields_follows_a_path() {
    let typ = outer_type();
    let value = outer_value();
    let path = vec!["point".to_string(), "x".to_string()];
    let (v, t) = walk_fields(&value, &typ, &path).unwrap();
    assert_eq!((v, t), (&Value::Int(7), &builtin("Int")));
    let (v, t) = walk_fields(&value, &typ, &vec![]).unwrap();
    assert_eq!((v, t), (&value, &typ));
}

#[test]
fn metadata_is_walked_by_name() {
    let globals = globals();
    assert_eq!(get_metadata(&globals, "std.geometry").unwrap().comment.as_deref(), Some("geometry"));
    assert_eq!(
        get_metadata(&globals, "std.geometry.point.x").unwrap().comment.as_deref(),
        Some("abscissa")
    );
    assert_eq!(
        get_metadata(&globals, "std.geometry.point.y").unwrap_err(),
        Error::new(MetadataMissing("std.geometry.point.y".to_string()))
    );
    assert_eq!(
        get_metadata(&globals, "nowhere").unwrap_err(),
        Error::new(MetadataMissing("nowhere".to_string()))
    );
}

#[test]
fn type_names_are_looked_up_in_the_types_of_a_record() {
    let globals = globals();
    let mut type_infos = Table::new();
    type_infos.insert("Int".to_string(), builtin("Int"));
    assert_eq!(
        *find_type_info(&globals, &type_infos, "std.geometry.Point").unwrap(),
        alias("Point", inner_type())
    );
    assert_eq!(*find_type_info(&globals, &type_infos, "Int").unwrap(), builtin("Int"));
    assert_eq!(
        find_type_info(&globals, &type_infos, "Float").unwrap_err(),
        Error::new(UndefinedBinding("Float".to_string()))
    );
    assert_eq!(
        find_type_info(&globals, &type_infos, "std.geometry.Line").unwrap_err(),
        Error::new(UndefinedField("Line".to_string()))
    );
    assert_eq!(
        find_type_info(&globals, &type_infos, "other.Point").unwrap_err(),
        Error::new(UndefinedBinding("other".to_string()))
    );
}

#[test]
fn types_are_compared_by_shape_and_names() {
    assert!(same_type(&outer_type(), &outer_type()));
    assert_eq!(clone_type(&outer_type()), outer_type());
    assert!(!same_type(&outer_type(), &inner_type()));
    assert!(!same_type(&builtin("Int"), &builtin("Float")));
    assert!(!same_type(&alias("A", builtin("Int")), &alias("B", builtin("Int"))));
    assert!(!same_type(&alias("A", builtin("Int")), &alias("A", builtin("Float"))));
    assert!(!same_type(&alias("A", builtin("Int")), &builtin("Int")));
    assert!(!same_type(
        &record(vec![field("a", builtin("Int"))]),
        &record(vec![field("a", builtin("Int")), field("b", builtin("Int"))])
    ));
    assert!(!same_type(
        &record(vec![field("a", builtin("Int"))]),
        &record(vec![field("b", builtin("Int"))])
    ));
    assert!(same_type(&record(vec![]), &record(vec![])));
}
