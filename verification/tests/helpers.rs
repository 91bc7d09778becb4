use futures::sync::oneshot::Canceled;
use gluon_frontend::ast::{
    clone_attribute, clone_bindings, clone_expr, clone_exprs, clone_literal, clone_type_binding,
    clone_type_bindings, Attribute, Expr, Literal, Span, SpannedExpr, TypeBinding, ValueBinding,
};
use gluon_frontend::cache::{clone_result, Cache, Reads};
use gluon_frontend::error::{Error, ErrorKind};
use gluon_frontend::macros::{
    apply_outcome, implicit_args_given, is_derive, is_macro_site, macro_call,
    splice_generated, Capability, DeriveGenerator, Macro, MacroEnv, MacroExpander, MacroVisitor,
    SharedMacro, SpannedError,
};
use gluon_frontend::names::{chars_of, leading_at, module_len, operator_char};
use gluon_frontend::pending::{abandoned, abandoned_for, expanded, failed, given, MacroFuture};
use gluon_frontend::query::{
    definition_name, enter, hit, is_in_progress, leave, note, CompilerDatabase, Frame, QueryKind,
    TextStep,
};
use gluon_frontend::resolve::find_metadata_of;
use gluon_frontend::table::Table;
use gluon_frontend::types::{
    clone_fields, find_field, find_metadata, resolved, same_fields, Field, Global, Metadata,
    MetadataField, Type, Value,
};
use std::sync::Arc;

fn at(start: u32) -> Span {
    Span { start, end: start + 1 }
}

fn ident(name: &str) -> SpannedExpr {
    SpannedExpr { span: at(0), value: Expr::Ident(name.to_string()) }
}

fn call(name: &str, implicit_args: Vec<SpannedExpr>, args: Vec<SpannedExpr>) -> SpannedExpr {
    SpannedExpr {
        span: at(10),
        value: Expr::App { func: Box::new(ident(name)), implicit_args, args },
    }
}

struct Echo;

impl Macro for Echo {
    fn get_capability(&self, _: &str) -> Option<Capability> {
        None
    }

    fn expand(&self, mut args: Vec<SpannedExpr>) -> MacroFuture {
        MacroFuture::ready(Ok(args.remove(0)))
    }
}

struct Nothing;

impl DeriveGenerator for Nothing {
    fn generate(&mut self, _: &Attribute, _: &TypeBinding) -> Result<Vec<ValueBinding>, Error> {
        Ok(vec![])
    }
}

fn registry() -> MacroEnv {
    let mut env = MacroEnv::new();
    env.insert("echo".to_string(), SharedMacro(Arc::new(Echo)));
    env
}

#[test]
fn the_callee_names_the_macro() {
    assert_eq!(macro_call(&call("echo!", vec![], vec![])), Some("echo".to_string()));
    assert_eq!(macro_call(&call("!", vec![], vec![])), Some("".to_string()));
    assert_eq!(macro_call(&call("echo", vec![], vec![])), None);
    assert_eq!(macro_call(&ident("echo!")), None);
    let nested = SpannedExpr {
        span: at(0),
        value: Expr::App {
            func: Box::new(call("echo!", vec![], vec![])),
            implicit_args: vec![],
            args: vec![],
        },
    };
    assert_eq!(macro_call(&nested), None);
}

#[test]
fn a_site_is_a_registered_macro_without_implicit_arguments() {
    let env = registry();
    assert!(is_macro_site(&call("echo!", vec![], vec![ident("x")]), &env));
    assert!(!is_macro_site(&call("echo!", vec![ident("i")], vec![ident("x")]), &env));
    assert!(!is_macro_site(&call("other!", vec![], vec![]), &env));
    assert!(!is_macro_site(&call("echo", vec![], vec![]), &env));
    assert!(implicit_args_given(&call("f", vec![ident("i")], vec![])));
    assert!(!implicit_args_given(&call("f", vec![], vec![ident("x")])));
    assert!(!implicit_args_given(&ident("f")));
}

#[test]
fn an_outcome_takes_the_place_of_its_site() {
    let site = call("echo!", vec![], vec![ident("x")]);
    let mut errors = vec![];
    let mut expr = clone_expr(&site);
    apply_outcome(&mut expr, Ok(SpannedExpr { span: at(77), value: Expr::Error }), &mut errors);
    assert_eq!(
        expr,
        SpannedExpr {
            span: at(10),
            value: Expr::MacroExpansion {
                original: Box::new(clone_expr(&site)),
                replacement: Box::new(SpannedExpr { span: at(10), value: Expr::Error }),
            },
        }
    );
    assert!(errors.is_empty());
    let mut expr = clone_expr(&site);
    apply_outcome(&mut expr, Err(Error::message("no")), &mut errors);
    assert_eq!(expr, SpannedExpr { span: at(10), value: Expr::Error });
    assert_eq!(errors, vec![SpannedError { span: at(10), value: Error::message("no") }]);
}

fn attribute(name: &str) -> Attribute {
    Attribute { name: name.to_string(), arguments: None }
}

#[test]
fn an_attribute_named_derive_asks_for_generated_code() {
    assert!(is_derive(&attribute("derive")));
    assert!(!is_derive(&attribute("doc")));
    assert!(!is_derive(&attribute("")));
}

fn binding(name: &str, expr: SpannedExpr) -> ValueBinding {
    ValueBinding { name: name.to_string(), span: at(5), expr }
}

#[test]
fn generated_bindings_stand_before_the_old_body() {
    let mut body = ident("body");
    splice_generated(&mut body, vec![binding("g", ident("v"))]);
    assert_eq!(
        body,
        SpannedExpr {
            span: Span { start: 0, end: 0 },
            value: Expr::LetBindings(vec![binding("g", ident("v"))], Box::new(ident("body"))),
        }
    );
}

#[test]
fn lists_are_visited_in_order() {
    let env = registry();
    let mut expander = MacroExpander::new(&env);
    let mut visitor = MacroVisitor { exprs: vec![] };
    let mut list = vec![
        call("echo!", vec![], vec![ident("a")]),
        call("echo!", vec![ident("i")], vec![ident("b")]),
        ident("c"),
    ];
    visitor.visit_all(&mut expander, &mut Nothing, &mut list, usize::MAX);
    assert_eq!(visitor.exprs.len(), 1);
    assert_eq!(expander.errors.len(), 1);
    assert_eq!(expander.errors[0].span, at(10));
    let mut bindings = vec![
        binding("x", call("echo!", vec![], vec![ident("a")])),
        binding("y", call("echo!", vec![], vec![ident("b")])),
    ];
    visitor.visit_bindings(&mut expander, &mut Nothing, &mut bindings, 0);
    assert_eq!(visitor.exprs.len(), 3);
    assert_eq!(bindings[0].name, "x");
}

#[test]
fn copies_are_equal_to_what_they_copy() {
    let literal = Literal::String("text".to_string());
    assert_eq!(clone_literal(&literal), literal);
    assert_eq!(clone_literal(&Literal::Int(-3)), Literal::Int(-3));
    let with_arguments = Attribute { name: "derive".to_string(), arguments: Some("Eq".to_string()) };
    assert_eq!(clone_attribute(&with_arguments), with_arguments);
    assert_eq!(clone_attribute(&attribute("doc")), attribute("doc"));
    let bind =
        TypeBinding { name: "T".to_string(), span: at(3), attributes: vec![attribute("a")] };
    assert_eq!(clone_type_binding(&bind), bind);
    assert_eq!(clone_type_bindings(&vec![clone_type_binding(&bind)]), vec![clone_type_binding(&bind)]);
    let tree = SpannedExpr {
        span: at(1),
        value: Expr::TypeBindings(
            vec![bind],
            Box::new(SpannedExpr {
                span: at(2),
                value: Expr::LetBindings(
                    vec![binding("x", SpannedExpr { span: at(4), value: Expr::Literal(literal) })],
                    Box::new(SpannedExpr {
                        span: at(6),
                        value: Expr::Block(vec![call("f", vec![ident("i")], vec![ident("x")])]),
                    }),
                ),
            }),
        ),
    };
    assert_eq!(clone_expr(&tree), tree);
    assert_eq!(clone_exprs(&vec![ident("a"), ident("b")]), vec![ident("a"), ident("b")]);
    assert_eq!(clone_bindings(&vec![binding("x", ident("a"))]), vec![binding("x", ident("a"))]);
    let fields = vec![Field { name: "a".to_string(), typ: Type::Builtin("Int".to_string()) }];
    assert_eq!(clone_fields(&fields), fields);
    assert!(same_fields(&fields, &clone_fields(&fields)));
    assert!(!same_fields(&fields, &vec![]));
    let result: Result<Arc<u8>, Error> = Ok(Arc::new(7));
    assert_eq!(clone_result(&result), result);
    let failure: Result<Arc<u8>, Error> = Err(Error::message("no"));
    assert_eq!(clone_result(&failure), failure);
}

#[test]
fn names_are_measured_in_characters() {
    assert_eq!(leading_at(&chars_of("@@a@")), 2);
    assert_eq!(leading_at(&chars_of("a")), 0);
    assert_eq!(leading_at(&chars_of("")), 0);
    let name = chars_of("std.types.Bool");
    assert_eq!(module_len(&name, name.len()), 9);
    assert_eq!(module_len(&name, 9), 3);
    assert_eq!(module_len(&name, 3), 0);
    assert_eq!(module_len(&name, 0), 0);
    assert_eq!(module_len(&chars_of("é..x"), 4), 1);
    assert!("!#$%&*+-./<=>?@\\^|~:".chars().all(operator_char));
    assert!(!"abcXYZ019_()[]{}'\", ".chars().any(operator_char));
    assert_eq!(definition_name("@std.map"), "std.map");
    assert_eq!(definition_name("std.map"), "std.map");
}

#[test]
fn results_of_expansions_are_wrapped_as_they_are() {
    assert_eq!(given(Ok(ident("x"))), Ok(ident("x")));
    assert_eq!(expanded(ident("x")), Ok(ident("x")));
    assert_eq!(failed(Error::message("no")), Ok(Err(Error::message("no"))));
    assert_eq!(abandoned_for(Canceled), abandoned());
    assert_eq!(abandoned().kind, ErrorKind::MacroExpansion);
}

#[test]
fn frames_note_what_is_read_while_they_are_on_top() {
    let mut states = Table::new();
    states.insert("m".to_string(), 4);
    let mut frames: Vec<Frame> = vec![];
    let mut reads = Reads::new();
    reads.read_module(&states, "m");
    note(&mut frames, &reads);
    assert!(frames.is_empty());
    enter(&mut frames, QueryKind::Import, "@a", Reads::new());
    enter(&mut frames, QueryKind::ModuleText, "a", Reads::new());
    assert!(is_in_progress(&frames, QueryKind::Import, "@a"));
    assert!(!is_in_progress(&frames, QueryKind::Import, "a"));
    assert!(!is_in_progress(&frames, QueryKind::CompiledModule, "@a"));
    note(&mut frames, &reads);
    assert_eq!(frames[1].reads.stamps.len(), 1);
    assert_eq!(frames[0].reads.stamps.len(), 0);
    assert!(leave(&mut frames, QueryKind::Import, "@a").is_none());
    assert!(leave(&mut frames, QueryKind::ModuleText, "b").is_none());
    assert_eq!(frames.len(), 2);
    let left = leave(&mut frames, QueryKind::ModuleText, "a").unwrap();
    assert_eq!(left.stamps[0].module, "m");
    assert_eq!(left.stamps[0].revision, 4);
    assert_eq!(frames.len(), 1);

    let mut cache: Cache<String> = Cache::new();
    assert!(hit(&cache, &mut frames, &states, "m").is_none());
    cache.store("m".to_string(), Ok(Arc::new("text".to_string())), left);
    assert_eq!(hit(&cache, &mut frames, &states, "m"), Some(Ok(Arc::new("text".to_string()))));
    assert_eq!(frames[0].reads.stamps.len(), 1);
}

#[test]
fn garbage_collection_discards_every_result() {
    let mut db = CompilerDatabase::new_base();
    assert!(matches!(db.module_text("m"), TextStep::Load { .. }));
    assert!(db.module_text_loaded("m", Ok("text".to_string())).is_ok());
    assert!(matches!(db.module_text("m"), TextStep::Ready(Ok(_))));
    db.collect_garbage();
    assert!(matches!(db.module_text("m"), TextStep::Load { .. }));
}

#[test]
fn fields_and_parts_are_found_by_name() {
    let fields = vec![
        Field { name: "a".to_string(), typ: Type::Builtin("Int".to_string()) },
        Field { name: "b".to_string(), typ: Type::Builtin("Int".to_string()) },
        Field { name: "a".to_string(), typ: Type::Builtin("Float".to_string()) },
    ];
    assert_eq!(find_field(&fields, "a"), Some(0));
    assert_eq!(find_field(&fields, "b"), Some(1));
    assert_eq!(find_field(&fields, "c"), None);
    let parts = vec![MetadataField {
        name: "p".to_string(),
        metadata: Metadata { comment: Some("part".to_string()), module: vec![] },
    }];
    assert_eq!(find_metadata(&parts, "p"), Some(0));
    assert_eq!(find_metadata(&parts, "q"), None);
    let int = Type::Builtin("Int".to_string());
    let twice = Type::Alias {
        name: "A".to_string(),
        typ: Box::new(Type::Alias { name: "B".to_string(), typ: Box::new(Type::Builtin("Int".to_string())) }),
    };
    assert_eq!(*resolved(&twice), int);
    assert_eq!(*resolved(&int), int);

    let mut globals = Table::new();
    globals.insert(
        "g".to_string(),
        Global {
            id: "g".to_string(),
            typ: Type::Builtin("Int".to_string()),
            metadata: Metadata { comment: None, module: parts },
            value: Value::Int(1),
        },
    );
    assert_eq!(find_metadata_of(&globals, "g.p").unwrap().comment.as_deref(), Some("part"));
    assert!(find_metadata_of(&globals, "g.q").is_none());
    assert!(find_metadata_of(&globals, "h").is_none());
}
