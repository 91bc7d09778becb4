use gluon_frontend::ast::{Expr, Literal, Span, SpannedExpr};
use gluon_frontend::error::{CyclicImportError, Error, ErrorKind, LoadError, UndefinedField};
use gluon_frontend::macros::SpannedError;
use gluon_frontend::query::{
    CompileStep, CompileValue, CompilerDatabase, GlobalsStep, ImportStep, TextStep, TypecheckStep,
    TypecheckValue,
};
use gluon_frontend::types::{Field, Global, Metadata, Type, Value};
use std::collections::HashMap;
use std::sync::Arc;

/// The collaborators of the database, with a counter on each of them. A text
/// is a list of lines; the line `import m` imports the module `m`, the line
/// `fail` does not typecheck.
struct World {
    texts: HashMap<String, String>,
    loads: Vec<String>,
    typechecks: usize,
    compiles: usize,
}

impl World {
    fn new(texts: &[(&str, &str)]) -> World {
        World {
            texts: texts.iter().map(|(m, t)| (m.to_string(), t.to_string())).collect(),
            loads: vec![],
            typechecks: 0,
            compiles: 0,
        }
    }
}

fn literal(text: &str) -> SpannedExpr {
    SpannedExpr {
        span: Span { start: 0, end: text.len() as u32 },
        value: Expr::Literal(Literal::String(text.to_string())),
    }
}

fn text_of(db: &mut CompilerDatabase, world: &mut World, module: &str) -> Result<Arc<String>, Error> {
    match db.module_text(module) {
        TextStep::Ready(result) => result,
        TextStep::Load { file } => {
            world.loads.push(file.clone());
            let source = world.texts.get(module).cloned().ok_or(format!("{} not found", file));
            db.module_text_loaded(module, source)
        }
    }
}

fn typechecked(
    db: &mut CompilerDatabase,
    world: &mut World,
    module: &str,
) -> Result<Arc<TypecheckValue>, Error> {
    loop {
        match db.typechecked_module(module, None) {
            TypecheckStep::Ready(result) => return result,
            TypecheckStep::NeedText => {
                let _ = text_of(db, world, module);
            }
            TypecheckStep::Typecheck { text } => {
                world.typechecks += 1;
                let mut checked = Ok(TypecheckValue {
                    expr: literal(&text),
                    typ: Type::Builtin("Unit".to_string()),
                });
                for line in text.lines() {
                    if let Some(imported) = line.strip_prefix("import ") {
                        if let Err(e) = import(db, world, imported) {
                            checked = Err(e);
                            break;
                        }
                    } else if line == "fail" {
                        checked = Err(Error::of_kind(ErrorKind::Type, module.to_string()));
                        break;
                    }
                }
                return db.typechecked_module_done(module, None, checked);
            }
        }
    }
}

fn compiled(db: &mut CompilerDatabase, world: &mut World, module: &str) -> Result<Arc<CompileValue>, Error> {
    loop {
        match db.compiled_module(module) {
            CompileStep::Ready(result) => return result,
            CompileStep::NeedText => {
                let _ = text_of(db, world, module);
            }
            CompileStep::NeedTypecheck => {
                let _ = typechecked(db, world, module);
            }
            CompileStep::Compile { text, value } => {
                world.compiles += 1;
                let result = Ok(CompileValue {
                    expr: literal(&text),
                    typ: Type::Builtin(format!("{:?}", value.typ)),
                    code: text.as_bytes().to_vec(),
                });
                return db.compiled_module_done(module, result);
            }
        }
    }
}

fn import(db: &mut CompilerDatabase, world: &mut World, module: &str) -> Result<Expr, Error> {
    match db.import(module) {
        ImportStep::Ready(result) => result,
        ImportStep::Load { name } => {
            let loaded = compiled(db, world, name.trim_start_matches('@')).map(|_| ());
            db.import_loaded(module, loaded)
        }
    }
}

#[test]
fn module_state_defaults_to_zero() {
    let mut db = CompilerDatabase::new_base();
    assert_eq!(db.module_state("never.loaded"), 0);
    db.set_module_state("m".to_string(), 3);
    assert_eq!(db.module_state("m"), 3);
    assert_eq!(db.module_state("n"), 0);
}

#[test]
fn the_text_is_loaded_from_the_file_of_the_module() {
    let mut db = CompilerDatabase::new_base();
    let mut world = World::new(&[("std.types", "type Bool")]);
    assert_eq!(*text_of(&mut db, &mut world, "std.types").unwrap(), "type Bool");
    assert_eq!(world.loads, vec!["std/types.glu"]);
    assert_eq!(db.get_filemap("std.types").unwrap().src, "type Bool");
}

#[test]
fn a_text_that_cannot_be_loaded_is_a_load_error() {
    let mut db = CompilerDatabase::new_base();
    let mut world = World::new(&[]);
    assert_eq!(
        text_of(&mut db, &mut world, "missing").unwrap_err(),
        Error::new(LoadError("missing.glu not found".to_string()))
    );
    // the dependent queries fail with the same error, without typechecking
    assert_eq!(
        compiled(&mut db, &mut world, "missing").unwrap_err(),
        Error::new(LoadError("missing.glu not found".to_string()))
    );
    assert_eq!(world.typechecks, 0);
    assert_eq!(world.compiles, 0);
}

#[test]
fn asking_again_without_a_change_asks_nothing_of_the_collaborators() {
    let mut db = CompilerDatabase::new_base();
    let mut world = World::new(&[("m", "let x = 1")]);
    let first = compiled(&mut db, &mut world, "m").unwrap();
    assert_eq!((world.loads.len(), world.typechecks, world.compiles), (1, 1, 1));
    let second = compiled(&mut db, &mut world, "m").unwrap();
    assert_eq!(first, second);
    assert!(Arc::ptr_eq(&first, &second));
    assert_eq!((world.loads.len(), world.typechecks, world.compiles), (1, 1, 1));
    assert!(matches!(db.module_text("m"), TextStep::Ready(Ok(_))));
    assert!(matches!(db.typechecked_module("m", None), TypecheckStep::Ready(Ok(_))));
}

#[test]
fn a_new_revision_is_computed_anew_and_others_are_left_alone() {
    let mut db = CompilerDatabase::new_base();
    let mut world = World::new(&[("m", "old"), ("n", "other")]);
    compiled(&mut db, &mut world, "m").unwrap();
    compiled(&mut db, &mut world, "n").unwrap();
    assert_eq!((world.loads.len(), world.typechecks, world.compiles), (2, 2, 2));

    world.texts.insert("m".to_string(), "new".to_string());
    db.set_module_state("m".to_string(), 1);

    assert_eq!(*text_of(&mut db, &mut world, "m").unwrap(), "new");
    assert_eq!(typechecked(&mut db, &mut world, "m").unwrap().expr, literal("new"));
    assert_eq!(compiled(&mut db, &mut world, "m").unwrap().code, b"new".to_vec());
    assert_eq!((world.loads.len(), world.typechecks, world.compiles), (3, 3, 3));

    assert_eq!(compiled(&mut db, &mut world, "n").unwrap().code, b"other".to_vec());
    assert_eq!(*text_of(&mut db, &mut world, "n").unwrap(), "other");
    assert_eq!((world.loads.len(), world.typechecks, world.compiles), (3, 3, 3));
}

#[test]
fn a_failing_module_does_not_fail_the_others() {
    let mut db = CompilerDatabase::new_base();
    let mut world = World::new(&[("bad", "fail"), ("good", "let x = 1")]);
    assert_eq!(
        compiled(&mut db, &mut world, "bad").unwrap_err(),
        Error::of_kind(ErrorKind::Type, "bad".to_string())
    );
    assert_eq!(world.compiles, 0);
    assert!(compiled(&mut db, &mut world, "good").is_ok());
    // the failure is a result like any other
    assert!(matches!(db.compiled_module("bad"), CompileStep::Ready(Err(_))));
}

#[test]
fn import_names_the_module_in_its_loadable_form() {
    let mut db = CompilerDatabase::new_base();
    let mut world = World::new(&[("std.map", "let empty = 0")]);
    assert_eq!(import(&mut db, &mut world, "std.map"), Ok(Expr::Ident("@std.map".to_string())));
    assert_eq!(import(&mut db, &mut world, "@std.map"), Ok(Expr::Ident("@std.map".to_string())));
}

#[test]
fn a_cyclic_import_is_an_error_for_both_modules() {
    let mut db = CompilerDatabase::new_base();
    let mut world = World::new(&[("a", "import b"), ("b", "import a")]);
    let cyclic = Error::new(CyclicImportError("@a".to_string()));
    assert_eq!(import(&mut db, &mut world, "a"), Err(cyclic.clone()));
    assert_eq!(cyclic.kind, ErrorKind::CyclicImport);
    // the other way round the cycle is found at `b`
    let mut db = CompilerDatabase::new_base();
    assert_eq!(
        import(&mut db, &mut world, "b"),
        Err(Error::new(CyclicImportError("@b".to_string())))
    );
    // and a module that imports itself is a cycle of one
    let mut db = CompilerDatabase::new_base();
    let mut world = World::new(&[("me", "import me")]);
    assert_eq!(
        import(&mut db, &mut world, "me"),
        Err(Error::new(CyclicImportError("@me".to_string())))
    );
    // a diamond is no cycle
    let mut db = CompilerDatabase::new_base();
    let mut world =
        World::new(&[("top", "import l\nimport r"), ("l", "import base"), ("r", "import base"), ("base", "")]);
    assert_eq!(import(&mut db, &mut world, "top"), Ok(Expr::Ident("@top".to_string())));
}

#[test]
fn an_import_in_progress_is_refused_at_once() {
    let mut db = CompilerDatabase::new_base();
    assert!(matches!(db.import("a"), ImportStep::Load { .. }));
    assert!(matches!(db.import("b"), ImportStep::Load { .. }));
    match db.import("@a") {
        ImportStep::Ready(Err(e)) => assert_eq!(e, Error::new(CyclicImportError("@a".to_string()))),
        _ => panic!("the cycle was not found"),
    }
    assert_eq!(db.import_loaded("b", Ok(())), Ok(Expr::Ident("@b".to_string())));
    assert_eq!(db.import_loaded("a", Ok(())), Ok(Expr::Ident("@a".to_string())));
    // the import is over: asking again is no cycle, and the result is kept
    match db.import("a") {
        ImportStep::Ready(result) => assert_eq!(result, Ok(Expr::Ident("@a".to_string()))),
        _ => panic!("the import was not kept"),
    }
}

#[test]
fn an_import_is_kept_until_what_it_has_read_changes() {
    let mut db = CompilerDatabase::new_base();
    let mut world = World::new(&[("app", "import lib"), ("lib", "v1"), ("other", "")]);
    assert!(import(&mut db, &mut world, "app").is_ok());
    let loads = world.loads.len();
    let compiles = world.compiles;
    assert!(import(&mut db, &mut world, "app").is_ok());
    assert!(import(&mut db, &mut world, "@lib").is_ok());
    assert_eq!((world.loads.len(), world.compiles), (loads, compiles));
    // a module that was not read does not matter
    assert!(db.set_module_state("other".to_string(), 1));
    assert!(import(&mut db, &mut world, "app").is_ok());
    assert_eq!((world.loads.len(), world.compiles), (loads, compiles));
    // the imported module does
    world.texts.insert("lib".to_string(), "fail".to_string());
    assert!(db.set_module_state("lib".to_string(), 1));
    assert_eq!(
        import(&mut db, &mut world, "app"),
        Err(Error::of_kind(ErrorKind::Type, "lib".to_string()))
    );
    assert!(world.loads.len() > loads);
    // the failure is kept as well
    let loads = world.loads.len();
    assert!(import(&mut db, &mut world, "app").is_err());
    assert_eq!(world.loads.len(), loads);
}

#[test]
fn an_import_sweeps_the_caches() {
    let mut db = CompilerDatabase::new_base();
    let mut world = World::new(&[("m", "let x = 1"), ("n", "let y = 2")]);
    compiled(&mut db, &mut world, "m").unwrap();
    import(&mut db, &mut world, "n").unwrap();
    assert!(matches!(db.compiled_module("m"), CompileStep::NeedText));
    assert_eq!(compiled(&mut db, &mut world, "m").unwrap().code, b"let x = 1".to_vec());
}

#[test]
fn the_importer_depends_on_what_it_imports() {
    let mut db = CompilerDatabase::new_base();
    let mut world = World::new(&[("app", "import lib"), ("lib", "v1")]);
    typechecked(&mut db, &mut world, "app").unwrap();
    let checks = world.typechecks;
    assert!(matches!(db.typechecked_module("app", None), TypecheckStep::Ready(Ok(_))));
    db.set_module_state("lib".to_string(), 1);
    assert!(!matches!(db.typechecked_module("app", None), TypecheckStep::Ready(_)));
    let _ = db.typechecked_module_done("app", None, Err(Error::message("abandoned")));
    typechecked(&mut db, &mut world, "app").unwrap();
    assert!(world.typechecks > checks);
}

fn record(fields: Vec<(&str, Type)>) -> Type {
    Type::Record {
        types: vec![],
        fields: fields.into_iter().map(|(n, t)| Field { name: n.to_string(), typ: t }).collect(),
    }
}

fn execute(module: &str) -> Global {
    let struct_type = record(vec![
        ("string", Type::Builtin("String".to_string())),
        ("number", Type::Builtin("Int".to_string())),
    ]);
    let (typ, value) = match module {
        "types" => (
            Type::Record {
                types: vec![Field {
                    name: "Struct".to_string(),
                    typ: Type::Alias { name: "Struct".to_string(), typ: Box::new(struct_type) },
                }],
                fields: vec![],
            },
            Value::Data(vec![]),
        ),
        _ => (
            record(vec![(
                "new_struct_result",
                Type::Alias { name: "Struct".to_string(), typ: Box::new(struct_type) },
            )]),
            Value::Data(vec![Value::Data(vec![Value::String("hello".to_string()), Value::Int(1)])]),
        ),
    };
    Global {
        id: module.to_string(),
        typ,
        metadata: Metadata { comment: None, module: vec![] },
        value,
    }
}

fn build_globals(db: &mut CompilerDatabase, world: &mut World) {
    match db.globals() {
        GlobalsStep::Ready => {}
        GlobalsStep::Execute { modules } => {
            let mut values = vec![];
            for module in &modules {
                compiled(db, world, module).unwrap();
                values.push(execute(module));
            }
            assert!(db.globals_executed(values));
        }
    }
}

#[test]
fn the_globals_expose_the_fields_of_the_values() {
    let mut db = CompilerDatabase::new_base();
    let mut world = World::new(&[
        ("types", "type Struct = { string: String, number: Int }"),
        ("functions", "let new_struct_result = new_struct ()"),
    ]);
    assert!(db.set_module_state("types".to_string(), 0));
    assert!(db.set_module_state("functions".to_string(), 0));
    build_globals(&mut db, &mut world);

    assert_eq!(db.global("functions").unwrap().id, "functions");
    assert!(db.global("test").is_none());
    let (value, typ) = db.get_binding("functions.new_struct_result.string").unwrap();
    assert_eq!((value, typ), (&Value::String("hello".to_string()), &Type::Builtin("String".to_string())));
    let (value, typ) = db.get_binding("functions.new_struct_result.number").unwrap();
    assert_eq!((value, typ), (&Value::Int(1), &Type::Builtin("Int".to_string())));
    assert_eq!(
        db.get_binding("functions.new_struct_result.field").unwrap_err(),
        Error::new(UndefinedField("field".to_string()))
    );
    assert!(db.find_type_info("types.Struct").is_ok());
    assert_eq!(db.find_var("@functions").unwrap().0, "functions");
    assert!(db.find_type("types").is_some());
    assert!(db.find_metadata("functions").is_some());
    assert!(db.find_kind("types.Struct").is_none());
    assert!(db.get_bool().is_err());
    assert!(db.get_metadata("functions").is_ok());
    assert!(db.get_metadata("functions.nothing").is_err());
}

#[test]
fn the_globals_are_rebuilt_when_the_set_of_modules_changes() {
    let mut db = CompilerDatabase::new_base();
    let mut world = World::new(&[("types", ""), ("functions", ""), ("more", "")]);
    assert!(db.set_module_state("types".to_string(), 0));
    build_globals(&mut db, &mut world);
    assert!(matches!(db.globals(), GlobalsStep::Ready));
    assert!(db.global("functions").is_none());
    // a text that is loaded does not make its module an input of the queries
    text_of(&mut db, &mut world, "more").unwrap();
    assert!(matches!(db.globals(), GlobalsStep::Ready));

    assert!(db.set_module_state("functions".to_string(), 0));
    match db.globals() {
        GlobalsStep::Execute { modules } => {
            assert_eq!(modules, vec!["types", "functions"]);
            // one global too few is refused
            assert!(!db.globals_executed(vec![execute("types")]));
        }
        GlobalsStep::Ready => panic!("the globals are stale"),
    }
    assert!(db.global("functions").is_none());
    build_globals(&mut db, &mut world);
    assert!(db.global("functions").is_some());
    assert!(matches!(db.globals(), GlobalsStep::Ready));
}

#[test]
fn reported_errors_are_kept_in_order() {
    let mut db = CompilerDatabase::new_base();
    db.report_errors(vec![Error::message("one"), Error::message("two")]);
    db.report_errors(vec![Error::message("three")]);
    assert_eq!(
        *db.diagnostics(),
        vec![Error::message("one"), Error::message("two"), Error::message("three")]
    );
    db.add_type_info("Bool".to_string(), Type::Builtin("Bool".to_string()));
    assert_eq!(*db.find_type_info("Bool").unwrap(), Type::Builtin("Bool".to_string()));
}

fn check_against(db: &mut CompilerDatabase, expected: &Type) -> bool {
    match db.typechecked_module("m", Some(expected)) {
        TypecheckStep::Typecheck { text } => {
            assert_eq!(*text, "let x = 1");
            let value = TypecheckValue { expr: literal("x"), typ: Type::Builtin("Int".to_string()) };
            assert!(db.typechecked_module_done("m", Some(expected), Ok(value)).is_ok());
            true
        }
        TypecheckStep::Ready(result) => {
            assert_eq!(result.unwrap().expr, literal("x"));
            false
        }
        TypecheckStep::NeedText => panic!("the text is there"),
    }
}

#[test]
fn a_result_for_an_expected_type_is_kept_for_that_type() {
    let mut db = CompilerDatabase::new_base();
    let mut world = World::new(&[("m", "let x = 1")]);
    let int = Type::Builtin("Int".to_string());
    let pair = record(vec![("a", Type::Builtin("Int".to_string())), ("b", int_alias())]);
    text_of(&mut db, &mut world, "m").unwrap();
    assert!(check_against(&mut db, &int));
    assert!(!check_against(&mut db, &Type::Builtin("Int".to_string())));
    // another expected type is another query; its result takes the place
    assert!(check_against(&mut db, &pair));
    assert!(!check_against(&mut db, &record(vec![("a", Type::Builtin("Int".to_string())), ("b", int_alias())])));
    assert!(check_against(&mut db, &record(vec![("a", Type::Builtin("Int".to_string())), ("c", int_alias())])));
    assert!(check_against(&mut db, &int));
    // nothing was stored for the query without an expected type
    assert!(matches!(db.typechecked_module("m", None), TypecheckStep::Typecheck { .. }));
    let _ = db.typechecked_module_done("m", None, Err(Error::message("abandoned")));
    // a new revision makes the kept result invalid
    assert!(!check_against(&mut db, &int));
    db.set_module_state("m".to_string(), 1);
    assert!(matches!(db.typechecked_module("m", Some(&int)), TypecheckStep::NeedText));
}

fn int_alias() -> Type {
    Type::Alias { name: "I".to_string(), typ: Box::new(Type::Builtin("Int".to_string())) }
}

#[test]
fn errors_of_the_expansion_fail_the_typecheck() {
    let mut db = CompilerDatabase::new_base();
    assert_eq!(db.report_expansion(Ok(())), Ok(()));
    assert_eq!(db.report_expansion(Err(vec![])), Ok(()));
    let at = Span { start: 1, end: 2 };
    let errors = vec![
        SpannedError { span: at, value: Error::message("first") },
        SpannedError { span: at, value: Error::message("second") },
    ];
    assert_eq!(db.report_expansion(Err(errors)), Err(Error::message("first")));
    assert_eq!(*db.diagnostics(), vec![Error::message("first"), Error::message("second")]);
}

#[test]
fn revisions_do_not_go_back() {
    let mut db = CompilerDatabase::new_base();
    assert!(db.set_module_state("m".to_string(), 2));
    assert!(!db.set_module_state("m".to_string(), 1));
    assert_eq!(db.module_state("m"), 2);
    assert!(db.set_module_state("m".to_string(), 2));
    assert!(db.set_module_state("m".to_string(), 5));
    assert_eq!(db.module_state("m"), 5);
    assert!(db.set_module_state("n".to_string(), 0));
    db.new_module("m".to_string(), "text");
    assert_eq!(db.module_state("m"), 5);
}

#[test]
fn registering_a_text_raises_the_revision_of_the_state() {
    let mut db = CompilerDatabase::new_base();
    assert_eq!(db.state_revision("m"), 0);
    db.new_module("m".to_string(), "a");
    assert_eq!(db.state_revision("m"), 0);
    assert_eq!(db.get_filemap("m").unwrap().src, "a");
    db.new_module("m".to_string(), "b");
    assert_eq!(db.state_revision("m"), 1);
    assert_eq!(db.get_filemap("m").unwrap().src, "b");
    db.new_module("n".to_string(), "c");
    assert_eq!(db.state_revision("n"), 0);
    assert_eq!(db.state_revision("m"), 1);
    // the same text again is registered again, without another file
    db.new_module("m".to_string(), "b");
    assert_eq!(db.state_revision("m"), 2);
    assert_eq!(db.code_map().iter().count(), 3);
    // the queries read their own revisions
    assert_eq!(db.module_state("m"), 0);
}

#[test]
fn loading_a_text_registers_it() {
    let mut db = CompilerDatabase::new_base();
    let mut world = World::new(&[("m", "old")]);
    assert_eq!(*text_of(&mut db, &mut world, "m").unwrap(), "old");
    assert_eq!(db.state_revision("m"), 0);
    assert_eq!(db.get_filemap("m").unwrap().src, "old");
    world.texts.insert("m".to_string(), "new".to_string());
    assert!(db.set_module_state("m".to_string(), 1));
    assert_eq!(*text_of(&mut db, &mut world, "m").unwrap(), "new");
    assert_eq!(db.state_revision("m"), 1);
    assert_eq!(db.get_filemap("m").unwrap().src, "new");
    assert_eq!(db.state_revision("other"), 0);
    // a text that cannot be loaded registers nothing
    assert!(text_of(&mut db, &mut world, "missing").is_err());
    assert_eq!(db.state_revision("missing"), 0);
    assert!(db.get_filemap("missing").is_none());
}

#[test]
fn no_more_imports_are_nested_than_there_are_modules() {
    let mut db = CompilerDatabase::new_base();
    let modules = ["a", "b", "c"];
    for module in modules {
        assert!(matches!(db.import(module), ImportStep::Load { .. }));
    }
    // with every module in progress, whatever is imported next is a cycle
    for module in modules {
        match db.import(module) {
            ImportStep::Ready(Err(e)) => {
                assert_eq!(e, Error::new(CyclicImportError(format!("@{}", module))))
            }
            _ => panic!("the cycle was not found"),
        }
    }
    for module in ["c", "b", "a"] {
        assert_eq!(db.import_loaded(module, Ok(())), Ok(Expr::Ident(format!("@{}", module))));
    }
    for module in modules {
        assert!(matches!(db.import(module), ImportStep::Ready(Ok(_))));
    }
}

#[test]
fn a_new_revision_outdates_the_typechecked_and_the_compiled_module() {
    let mut db = CompilerDatabase::new_base();
    let mut world = World::new(&[("m", "one"), ("n", "other")]);
    assert!(compiled(&mut db, &mut world, "m").is_ok());
    assert!(compiled(&mut db, &mut world, "n").is_ok());
    assert!(matches!(db.typechecked_module("m", None), TypecheckStep::Ready(Ok(_))));
    assert!(matches!(db.compiled_module("m"), CompileStep::Ready(Ok(_))));

    world.texts.insert("m".to_string(), "two".to_string());
    assert!(db.set_module_state("m".to_string(), 1));
    // nothing about `m` is answered from what was stored
    assert!(matches!(db.typechecked_module("m", None), TypecheckStep::NeedText));
    assert!(matches!(db.compiled_module("m"), CompileStep::NeedText));
    // and the other module is answered as before
    assert!(matches!(db.typechecked_module("n", None), TypecheckStep::Ready(Ok(_))));
    assert!(matches!(db.compiled_module("n"), CompileStep::Ready(Ok(_))));
    assert!(matches!(db.module_text("m"), TextStep::Load { .. }));
    assert_eq!(*db.module_text_loaded("m", Ok("two".to_string())).unwrap(), "two");
    match db.typechecked_module("m", None) {
        TypecheckStep::Typecheck { text } => assert_eq!(*text, "two"),
        _ => panic!("the module was not typechecked anew"),
    }
}
