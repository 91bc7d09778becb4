use gluon_frontend::ast::{Attribute, Expr, Literal, Span, SpannedExpr, TypeBinding, ValueBinding};
use gluon_frontend::error::{Error, ErrorKind};
use gluon_frontend::macros::{
    apply_expansions, collect_generated, generate_for, generate_group, invocation_args, is_derive,
    offered, replace_expr, Capability, DeriveGenerator, Macro, MacroEnv, MacroExpander,
    MacroVisitor, SharedMacro, SpannedError,
};
use gluon_frontend::pending::{MacroFuture, MacroPromise};
use std::sync::{Arc, Mutex};

fn span(start: u32, end: u32) -> Span {
    Span { start, end }
}

fn ident(name: &str, at: u32) -> SpannedExpr {
    SpannedExpr { span: span(at, at + 1), value: Expr::Ident(name.to_string()) }
}

fn num(value: i64, at: u32) -> SpannedExpr {
    SpannedExpr { span: span(at, at + 1), value: Expr::Literal(Literal::Int(value)) }
}

fn call(name: &str, args: Vec<SpannedExpr>, at: u32) -> SpannedExpr {
    SpannedExpr {
        span: span(at, at + 10),
        value: Expr::App { func: Box::new(ident(name, at)), implicit_args: vec![], args },
    }
}

fn block(items: Vec<SpannedExpr>) -> SpannedExpr {
    SpannedExpr { span: span(0, 100), value: Expr::Block(items) }
}

struct NoDerive;

impl DeriveGenerator for NoDerive {
    fn generate(&mut self, _: &Attribute, _: &TypeBinding) -> Result<Vec<ValueBinding>, Error> {
        Ok(vec![])
    }
}

/// Replaces an invocation by its first argument, at once.
struct First;

impl Macro for First {
    fn get_capability(&self, _: &str) -> Option<Capability> {
        None
    }

    fn expand(&self, mut args: Vec<SpannedExpr>) -> MacroFuture {
        if args.is_empty() {
            MacroFuture::ready(Err(Error::message("no argument")))
        } else {
            MacroFuture::ready(Ok(args.remove(0)))
        }
    }
}

/// Hands out promises and keeps them, last first, when the third site is reached.
struct Late {
    waiting: Mutex<Vec<(MacroPromise, SpannedExpr)>>,
}

impl Macro for Late {
    fn get_capability(&self, id: &str) -> Option<Capability> {
        if id == "late" {
            Some(Capability { id: id.to_string(), data: vec![1, 2, 3] })
        } else {
            None
        }
    }

    fn expand(&self, mut args: Vec<SpannedExpr>) -> MacroFuture {
        let (promise, future) = MacroFuture::channel();
        let mut waiting = self.waiting.lock().unwrap();
        waiting.push((promise, args.remove(0)));
        if waiting.len() == 3 {
            while let Some((promise, value)) = waiting.pop() {
                assert!(promise.complete(Ok(value)));
            }
        }
        future
    }
}

fn registry() -> MacroEnv {
    let mut env = MacroEnv::new();
    env.insert("first".to_string(), SharedMacro(Arc::new(First)));
    env.insert("late".to_string(), SharedMacro(Arc::new(Late { waiting: Mutex::new(vec![]) })));
    env
}

fn expansion_of(site: SpannedExpr, replacement: SpannedExpr) -> SpannedExpr {
    let at = site.span;
    SpannedExpr {
        span: at,
        value: Expr::MacroExpansion {
            original: Box::new(site),
            replacement: Box::new(SpannedExpr { span: at, value: replacement.value }),
        },
    }
}

#[test]
fn replace_expr_keeps_the_original_and_the_span() {
    let mut expr = call("first!", vec![num(1, 5)], 0);
    replace_expr(&mut expr, num(7, 50));
    assert_eq!(
        expr,
        SpannedExpr {
            span: span(0, 10),
            value: Expr::MacroExpansion {
                original: Box::new(call("first!", vec![num(1, 5)], 0)),
                replacement: Box::new(num(7, 50)),
            },
        }
    );
}

#[test]
fn a_tree_without_sites_is_left_alone() {
    let env = registry();
    let mut expr = block(vec![call("f", vec![num(1, 5)], 0), call("unknown!", vec![], 20)]);
    let before = expr.clone();
    assert_eq!(env.run(&mut NoDerive, &mut expr), Ok(()));
    assert_eq!(expr, before);
}

#[test]
fn replacements_come_in_source_order_whatever_finishes_first() {
    for _ in 0..5 {
        let env = registry();
        let mut expr = block(vec![
            call("late!", vec![num(1, 5)], 0),
            call("late!", vec![num(2, 25)], 20),
            call("late!", vec![num(3, 45)], 40),
        ]);
        assert_eq!(env.run(&mut NoDerive, &mut expr), Ok(()));
        assert_eq!(
            expr,
            block(vec![
                expansion_of(call("late!", vec![num(1, 5)], 0), num(1, 5)),
                expansion_of(call("late!", vec![num(2, 25)], 20), num(2, 25)),
                expansion_of(call("late!", vec![num(3, 45)], 40), num(3, 45)),
            ])
        );
    }
}

#[test]
fn one_failing_site_leaves_the_others_expanded() {
    let env = registry();
    let mut expr = block(vec![
        call("first!", vec![num(1, 5)], 0),
        call("first!", vec![], 20),
        call("first!", vec![num(3, 45)], 40),
    ]);
    let result = env.run(&mut NoDerive, &mut expr);
    assert_eq!(
        result,
        Err(vec![SpannedError { span: span(20, 30), value: Error::message("no argument") }])
    );
    assert_eq!(
        expr,
        block(vec![
            expansion_of(call("first!", vec![num(1, 5)], 0), num(1, 5)),
            SpannedExpr { span: span(20, 30), value: Expr::Error },
            expansion_of(call("first!", vec![num(3, 45)], 40), num(3, 45)),
        ])
    );
    // another tree is expanded as if nothing had failed
    let mut other = block(vec![call("first!", vec![num(9, 5)], 0)]);
    assert_eq!(env.run(&mut NoDerive, &mut other), Ok(()));
    assert_eq!(other, block(vec![expansion_of(call("first!", vec![num(9, 5)], 0), num(9, 5))]));
}

#[test]
fn implicit_arguments_are_reported_and_not_expanded() {
    let env = registry();
    let mut expr = SpannedExpr {
        span: span(0, 10),
        value: Expr::App {
            func: Box::new(ident("first!", 0)),
            implicit_args: vec![num(0, 2)],
            args: vec![num(1, 5)],
        },
    };
    let before = expr.clone();
    let result = env.run(&mut NoDerive, &mut expr);
    assert_eq!(
        result,
        Err(vec![
            SpannedError {
                span: span(0, 10),
                value: Error::message("Implicit arguments are not allowed on macros"),
            },
        ])
    );
    assert_eq!(expr, before);
}

#[test]
fn apply_expansions_takes_results_in_order() {
    let env = registry();
    let mut expr = block(vec![
        call("first!", vec![num(1, 5)], 0),
        call("first!", vec![num(2, 25)], 20),
    ]);
    let mut errors = vec![];
    let failure = Error::of_kind(ErrorKind::MacroExpansion, "boom".to_string());
    apply_expansions(&mut expr, &env, vec![Ok(num(10, 70)), Err(failure.clone())], &mut errors);
    assert_eq!(
        expr,
        block(vec![
            expansion_of(call("first!", vec![num(1, 5)], 0), num(10, 70)),
            SpannedExpr { span: span(20, 30), value: Expr::Error },
        ])
    );
    assert_eq!(errors, vec![SpannedError { span: span(20, 30), value: failure }]);
}

#[test]
fn a_dropped_promise_fails_its_site_only() {
    struct Forgetful;
    impl Macro for Forgetful {
        fn get_capability(&self, _: &str) -> Option<Capability> {
            None
        }

        fn expand(&self, _: Vec<SpannedExpr>) -> MacroFuture {
            let (_promise, future) = MacroFuture::channel();
            future
        }
    }
    let mut env = registry();
    env.insert("forget".to_string(), SharedMacro(Arc::new(Forgetful)));
    let mut expr = block(vec![call("forget!", vec![], 0), call("first!", vec![num(2, 25)], 20)]);
    let errors = env.run(&mut NoDerive, &mut expr).unwrap_err();
    assert_eq!(errors.len(), 1);
    assert_eq!(errors[0].span, span(0, 10));
    assert_eq!(errors[0].value.kind, ErrorKind::MacroExpansion);
    assert_eq!(
        expr,
        block(vec![
            SpannedExpr { span: span(0, 10), value: Expr::Error },
            expansion_of(call("first!", vec![num(2, 25)], 20), num(2, 25)),
        ])
    );
}

#[test]
fn capabilities_of_the_macros_that_offer_them() {
    let env = registry();
    assert_eq!(
        env.get_capabilities("late"),
        vec![Capability { id: "late".to_string(), data: vec![1, 2, 3] }]
    );
    assert!(env.get_capabilities("other").is_empty());
    assert!(env.get("first").is_some());
    assert!(env.get("second").is_none());
}

#[test]
fn finish_returns_the_errors_if_any() {
    let env = registry();
    let expander = MacroExpander::new(&env);
    assert_eq!(expander.finish(), Ok(()));
    let mut expander = MacroExpander::new(&env);
    expander.errors.push(SpannedError { span: span(1, 2), value: Error::message("x") });
    assert_eq!(
        expander.finish(),
        Err(vec![SpannedError { span: span(1, 2), value: Error::message("x") }])
    );
}

struct Show;

impl DeriveGenerator for Show {
    fn generate(&mut self, derive: &Attribute, bind: &TypeBinding) -> Result<Vec<ValueBinding>, Error> {
        match derive.arguments.as_deref() {
            Some("Show") => Ok(vec![ValueBinding {
                name: format!("show_{}", bind.name),
                span: bind.span,
                expr: call("first!", vec![num(42, 0)], 60),
            }]),
            _ => Err(Error::of_kind(ErrorKind::DeriveGeneration, bind.name.clone())),
        }
    }
}

fn type_binding(name: &str, derive: Option<&str>, at: u32) -> TypeBinding {
    TypeBinding {
        name: name.to_string(),
        span: span(at, at + 3),
        attributes: match derive {
            Some(what) => vec![Attribute { name: "derive".to_string(), arguments: Some(what.to_string()) }],
            None => vec![],
        },
    }
}

#[test]
fn derive_puts_generated_bindings_before_the_body() {
    let env = registry();
    let mut expr = SpannedExpr {
        span: span(0, 90),
        value: Expr::TypeBindings(
            vec![
                type_binding("A", Some("Show"), 1),
                type_binding("B", Some("Eq"), 5),
                type_binding("C", None, 9),
            ],
            Box::new(ident("body", 80)),
        ),
    };
    let result = env.run(&mut Show, &mut expr);
    assert_eq!(
        result,
        Err(vec![
            SpannedError {
                span: span(5, 8),
                value: Error::of_kind(ErrorKind::DeriveGeneration, "B".to_string()),
            },
        ])
    );
    let generated = ValueBinding {
        name: "show_A".to_string(),
        span: span(1, 4),
        expr: expansion_of(call("first!", vec![num(42, 0)], 60), num(42, 0)),
    };
    assert_eq!(
        expr,
        SpannedExpr {
            span: span(0, 90),
            value: Expr::TypeBindings(
                vec![
                    type_binding("A", Some("Show"), 1),
                    type_binding("B", Some("Eq"), 5),
                    type_binding("C", None, 9),
                ],
                Box::new(SpannedExpr {
                    span: span(0, 0),
                    value: Expr::LetBindings(vec![generated], Box::new(ident("body", 80))),
                }),
            ),
        }
    );
}

#[test]
fn generated_bindings_are_gathered_and_failures_recorded() {
    let binding = |name: &str| ValueBinding {
        name: name.to_string(),
        span: span(0, 1),
        expr: ident(name, 0),
    };
    let failure = Error::of_kind(ErrorKind::DeriveGeneration, "B".to_string());
    let mut errors = vec![SpannedError { span: span(9, 9), value: Error::message("before") }];
    let generated = collect_generated(
        vec![
            (span(1, 2), Ok(vec![binding("a1"), binding("a2")])),
            (span(3, 4), Err(failure.clone())),
            (span(5, 6), Ok(vec![])),
            (span(7, 8), Ok(vec![binding("d")])),
        ],
        &mut errors,
    );
    assert_eq!(generated, vec![binding("a1"), binding("a2"), binding("d")]);
    assert_eq!(
        errors,
        vec![
            SpannedError { span: span(9, 9), value: Error::message("before") },
            SpannedError { span: span(3, 4), value: failure },
        ]
    );
}

#[test]
fn offers_without_a_capability_are_passed_over() {
    let capability = |id: &str| Capability { id: id.to_string(), data: vec![] };
    assert_eq!(
        offered(vec![None, Some(capability("a")), None, Some(capability("b"))]),
        vec![capability("a"), capability("b")]
    );
    assert!(offered(vec![None, None]).is_empty());
    assert!(offered(vec![]).is_empty());
}

#[test]
fn a_registered_macro_is_replaced_by_a_later_one_of_the_same_name() {
    let mut env = MacroEnv::new();
    env.insert("m".to_string(), SharedMacro(Arc::new(First)));
    env.insert("m".to_string(), SharedMacro(Arc::new(Late { waiting: Mutex::new(vec![]) })));
    assert_eq!(env.get_capabilities("late").len(), 1);
}

#[test]
fn an_existing_expansion_is_searched_in_its_replacement_only() {
    let env = registry();
    let inner = call("first!", vec![num(5, 0)], 30);
    let mut expr = expansion_of(call("first!", vec![num(1, 5)], 0), inner.clone());
    assert_eq!(env.run(&mut NoDerive, &mut expr), Ok(()));
    let replaced = expansion_of(
        SpannedExpr { span: span(0, 10), value: inner.value },
        num(5, 0),
    );
    assert_eq!(
        expr,
        SpannedExpr {
            span: span(0, 10),
            value: Expr::MacroExpansion {
                original: Box::new(call("first!", vec![num(1, 5)], 0)),
                replacement: Box::new(replaced),
            },
        }
    );
}

#[test]
fn sites_are_numbered_callee_first_then_arguments() {
    let env = registry();
    // the callee of the outer call is no identifier, so the outer call is no site
    let mut expr = SpannedExpr {
        span: span(0, 50),
        value: Expr::App {
            func: Box::new(call("first!", vec![num(1, 0)], 10)),
            implicit_args: vec![],
            args: vec![call("first!", vec![num(2, 0)], 20), call("first!", vec![num(3, 0)], 30)],
        },
    };
    let mut errors = vec![];
    apply_expansions(
        &mut expr,
        &env,
        vec![Ok(num(10, 0)), Ok(num(20, 0)), Ok(num(30, 0)), Ok(num(40, 0))],
        &mut errors,
    );
    assert!(errors.is_empty());
    assert_eq!(
        expr,
        SpannedExpr {
            span: span(0, 50),
            value: Expr::App {
                func: Box::new(expansion_of(call("first!", vec![num(1, 0)], 10), num(10, 0))),
                implicit_args: vec![],
                args: vec![
                    expansion_of(call("first!", vec![num(2, 0)], 20), num(20, 0)),
                    expansion_of(call("first!", vec![num(3, 0)], 30), num(30, 0)),
                ],
            },
        }
    );
}

#[test]
fn sites_without_a_result_stay_as_they_are() {
    let env = registry();
    let mut expr = block(vec![call("first!", vec![num(1, 5)], 0), call("first!", vec![num(2, 5)], 20)]);
    let mut errors = vec![];
    apply_expansions(&mut expr, &env, vec![Ok(num(10, 0))], &mut errors);
    assert_eq!(
        expr,
        block(vec![
            expansion_of(call("first!", vec![num(1, 5)], 0), num(10, 0)),
            call("first!", vec![num(2, 5)], 20),
        ])
    );
}

/// Keeps its promises in the order of `order`, once there is one for each
/// position of `order`.
struct Shuffled {
    order: Vec<usize>,
    waiting: Mutex<Vec<Option<(MacroPromise, SpannedExpr)>>>,
}

impl Macro for Shuffled {
    fn get_capability(&self, _: &str) -> Option<Capability> {
        None
    }

    fn expand(&self, mut args: Vec<SpannedExpr>) -> MacroFuture {
        let (promise, future) = MacroFuture::channel();
        let mut waiting = self.waiting.lock().unwrap();
        waiting.push(Some((promise, args.remove(0))));
        if waiting.len() == self.order.len() {
            for &position in &self.order {
                let (promise, value) = waiting[position].take().unwrap();
                let result = match value.value {
                    Expr::Literal(Literal::Int(n)) if n < 0 => Err(Error::message("negative")),
                    _ => Ok(value),
                };
                assert!(promise.complete(result));
            }
        }
        future
    }
}

fn shuffled(order: &[usize]) -> MacroEnv {
    let mut env = MacroEnv::new();
    let shared: Arc<dyn Macro> =
        Arc::new(Box::new(Shuffled { order: order.to_vec(), waiting: Mutex::new(vec![]) }));
    env.insert("s".to_string(), SharedMacro(shared));
    env
}

#[test]
fn any_order_of_completion_gives_the_same_tree() {
    let orders: [[usize; 5]; 4] = [[0, 1, 2, 3, 4], [4, 3, 2, 1, 0], [1, 3, 0, 4, 2], [2, 0, 4, 1, 3]];
    for order in orders.iter() {
        let env = shuffled(order);
        let sites: Vec<SpannedExpr> =
            (0..5).map(|i| call("s!", vec![num(i as i64 * 10, 1)], i * 20)).collect();
        let mut expr = block(vec![
            sites[0].clone(),
            block(vec![sites[1].clone(), sites[2].clone()]),
            SpannedExpr {
                span: span(0, 99),
                value: Expr::App {
                    func: Box::new(ident("f", 0)),
                    implicit_args: vec![],
                    args: vec![sites[3].clone(), sites[4].clone()],
                },
            },
        ]);
        assert_eq!(env.run(&mut NoDerive, &mut expr), Ok(()));
        let expanded: Vec<SpannedExpr> =
            (0..5).map(|i| expansion_of(sites[i].clone(), num(i as i64 * 10, 1))).collect();
        assert_eq!(
            expr,
            block(vec![
                expanded[0].clone(),
                block(vec![expanded[1].clone(), expanded[2].clone()]),
                SpannedExpr {
                    span: span(0, 99),
                    value: Expr::App {
                        func: Box::new(ident("f", 0)),
                        implicit_args: vec![],
                        args: vec![expanded[3].clone(), expanded[4].clone()],
                    },
                },
            ])
        );
    }
}

#[test]
fn failures_are_reported_in_the_order_of_their_sites() {
    let env = shuffled(&[2, 0, 1]);
    let mut expr = block(vec![
        call("s!", vec![num(-1, 1)], 0),
        call("s!", vec![num(5, 1)], 20),
        call("s!", vec![num(-3, 1)], 40),
    ]);
    assert_eq!(
        env.run(&mut NoDerive, &mut expr),
        Err(vec![
            SpannedError { span: span(0, 10), value: Error::message("negative") },
            SpannedError { span: span(40, 50), value: Error::message("negative") },
        ])
    );
    assert_eq!(
        expr,
        block(vec![
            SpannedExpr { span: span(0, 10), value: Expr::Error },
            expansion_of(call("s!", vec![num(5, 1)], 20), num(5, 1)),
            SpannedExpr { span: span(40, 50), value: Expr::Error },
        ])
    );
}

#[test]
fn the_expander_keeps_the_errors_it_had() {
    let env = registry();
    let mut expander = MacroExpander::new(&env);
    expander.errors.push(SpannedError { span: span(1, 1), value: Error::message("earlier") });
    let mut expr = block(vec![call("first!", vec![], 0), call("first!", vec![num(2, 1)], 20)]);
    expander.run(&mut NoDerive, &mut expr);
    assert_eq!(
        expander.finish(),
        Err(vec![
            SpannedError { span: span(1, 1), value: Error::message("earlier") },
            SpannedError { span: span(0, 10), value: Error::message("no argument") },
        ])
    );
}

#[test]
fn the_visitor_starts_one_expansion_for_each_site() {
    let env = registry();
    let mut expander = MacroExpander::new(&env);
    let mut visitor = MacroVisitor { exprs: vec![] };
    let mut expr = block(vec![
        call("first!", vec![call("first!", vec![], 3)], 0),
        call("other!", vec![call("first!", vec![], 23)], 20),
        ident("first!", 40),
    ]);
    let before = expr.clone();
    visitor.visit_expr(&mut expander, &mut NoDerive, &mut expr, usize::MAX);
    // the arguments of a site are not searched; those of another call are
    assert_eq!(visitor.exprs.len(), 2);
    assert_eq!(expr, before);
    assert!(expander.errors.is_empty());
}

/// Generates, for the type `A`, a binding that holds a group with the type
/// `Inner`, which is derived in turn; for any other type, a call of `first!`.
struct Nested {
    asked: Vec<String>,
}

impl DeriveGenerator for Nested {
    fn generate(&mut self, _: &Attribute, bind: &TypeBinding) -> Result<Vec<ValueBinding>, Error> {
        self.asked.push(bind.name.clone());
        let expr = if bind.name == "A" {
            SpannedExpr {
                span: span(70, 80),
                value: Expr::TypeBindings(
                    vec![type_binding("Inner", Some("Show"), 71)],
                    Box::new(call("first!", vec![num(1, 0)], 72)),
                ),
            }
        } else {
            call("first!", vec![num(2, 0)], 82)
        };
        Ok(vec![ValueBinding { name: bind.name.clone(), span: bind.span, expr }])
    }
}

fn group_of_a() -> SpannedExpr {
    SpannedExpr {
        span: span(0, 90),
        value: Expr::TypeBindings(
            vec![type_binding("A", Some("Show"), 1)],
            Box::new(ident("body", 80)),
        ),
    }
}

fn derived_group_of_a(inner_body: SpannedExpr) -> SpannedExpr {
    let generated = ValueBinding {
        name: "A".to_string(),
        span: span(1, 4),
        expr: SpannedExpr {
            span: span(70, 80),
            value: Expr::TypeBindings(
                vec![type_binding("Inner", Some("Show"), 71)],
                Box::new(inner_body),
            ),
        },
    };
    SpannedExpr {
        span: span(0, 90),
        value: Expr::TypeBindings(
            vec![type_binding("A", Some("Show"), 1)],
            Box::new(SpannedExpr {
                span: span(0, 0),
                value: Expr::LetBindings(vec![generated], Box::new(ident("body", 80))),
            }),
        ),
    }
}

#[test]
fn generated_code_is_traversed_like_any_other_code() {
    let env = registry();
    let mut expr = group_of_a();
    let mut generator = Nested { asked: vec![] };
    assert_eq!(env.run(&mut generator, &mut expr), Ok(()));
    assert_eq!(generator.asked, vec!["A", "Inner"]);
    let for_inner = ValueBinding {
        name: "Inner".to_string(),
        span: span(71, 74),
        expr: expansion_of(call("first!", vec![num(2, 0)], 82), num(2, 0)),
    };
    let inner_body = SpannedExpr {
        span: span(0, 0),
        value: Expr::LetBindings(
            vec![for_inner],
            Box::new(expansion_of(call("first!", vec![num(1, 0)], 72), num(1, 0))),
        ),
    };
    assert_eq!(expr, derived_group_of_a(inner_body));
}

#[test]
fn the_bound_says_how_deep_generated_code_is_derived() {
    let env = registry();
    let mut expander = MacroExpander::new(&env);
    let mut visitor = MacroVisitor { exprs: vec![] };
    let mut generator = Nested { asked: vec![] };
    let mut expr = group_of_a();
    visitor.visit_expr(&mut expander, &mut generator, &mut expr, 1);
    assert_eq!(generator.asked, vec!["A"]);
    assert_eq!(visitor.exprs.len(), 1);
    assert_eq!(expr, derived_group_of_a(call("first!", vec![num(1, 0)], 72)));

    let mut expr = group_of_a();
    visitor.visit_expr(&mut expander, &mut generator, &mut expr, 0);
    assert_eq!(generator.asked, vec!["A"]);
    assert_eq!(expr, group_of_a());
}

#[test]
fn every_derive_attribute_is_handed_to_the_generator() {
    struct ByArgument;
    impl DeriveGenerator for ByArgument {
        fn generate(&mut self, derive: &Attribute, bind: &TypeBinding) -> Result<Vec<ValueBinding>, Error> {
            match derive.arguments.as_deref() {
                Some("Bad") => Err(Error::of_kind(ErrorKind::DeriveGeneration, bind.name.clone())),
                Some(what) => Ok(vec![ValueBinding {
                    name: format!("{}_{}", what, bind.name),
                    span: bind.span,
                    expr: ident("impl", 0),
                }]),
                None => Ok(vec![]),
            }
        }
    }
    let derive = |what: &str| Attribute { name: "derive".to_string(), arguments: Some(what.to_string()) };
    let doc = Attribute { name: "doc".to_string(), arguments: None };
    let binds = vec![
        TypeBinding {
            name: "A".to_string(),
            span: span(1, 2),
            attributes: vec![derive("Show"), doc, derive("Bad"), derive("Eq")],
        },
        TypeBinding { name: "B".to_string(), span: span(3, 4), attributes: vec![] },
        TypeBinding { name: "C".to_string(), span: span(5, 6), attributes: vec![derive("Ord")] },
    ];
    let outcomes = generate_group(&mut ByArgument, &binds);
    let spans: Vec<Span> = outcomes.iter().map(|o| o.0).collect();
    assert_eq!(spans, vec![span(1, 2), span(1, 2), span(1, 2), span(5, 6)]);
    let mut for_a = vec![];
    generate_for(&mut ByArgument, &binds[0], &mut for_a);
    assert_eq!(for_a.len(), 3);
    assert!(is_derive(&derive("x")));
    assert!(!is_derive(&Attribute { name: "derived".to_string(), arguments: None }));

    let env = registry();
    let mut expr = SpannedExpr {
        span: span(0, 90),
        value: Expr::TypeBindings(binds, Box::new(ident("body", 80))),
    };
    let errors = env.run(&mut ByArgument, &mut expr).unwrap_err();
    assert_eq!(
        errors,
        vec![SpannedError {
            span: span(1, 2),
            value: Error::of_kind(ErrorKind::DeriveGeneration, "A".to_string()),
        }]
    );
    match expr.value {
        Expr::TypeBindings(_, body) => match body.value {
            Expr::LetBindings(generated, old_body) => {
                let names: Vec<&str> = generated.iter().map(|b| b.name.as_str()).collect();
                assert_eq!(names, vec!["Show_A", "Eq_A", "Ord_C"]);
                assert_eq!(*old_body, ident("body", 80));
            }
            _ => panic!("the generated bindings are missing"),
        },
        _ => panic!("the group is gone"),
    }
}

#[test]
fn an_expansion_is_started_with_a_copy_of_the_arguments() {
    let site = call("first!", vec![num(1, 5), ident("x", 7)], 0);
    assert_eq!(invocation_args(&site), vec![num(1, 5), ident("x", 7)]);
    assert!(invocation_args(&ident("x", 0)).is_empty());
}

#[test]
fn finished_and_running_expansions_keep_their_places() {
    let mut env = shuffled(&[1, 0]);
    env.insert("first".to_string(), SharedMacro(Arc::new(First)));
    let mut expr = block(vec![
        call("first!", vec![num(1, 1)], 0),
        call("s!", vec![num(2, 1)], 20),
        call("first!", vec![], 40),
        call("s!", vec![num(-4, 1)], 60),
        call("first!", vec![num(5, 1)], 80),
    ]);
    assert_eq!(
        env.run(&mut NoDerive, &mut expr),
        Err(vec![
            SpannedError { span: span(40, 50), value: Error::message("no argument") },
            SpannedError { span: span(60, 70), value: Error::message("negative") },
        ])
    );
    assert_eq!(
        expr,
        block(vec![
            expansion_of(call("first!", vec![num(1, 1)], 0), num(1, 1)),
            expansion_of(call("s!", vec![num(2, 1)], 20), num(2, 1)),
            SpannedExpr { span: span(40, 50), value: Expr::Error },
            SpannedExpr { span: span(60, 70), value: Expr::Error },
            expansion_of(call("first!", vec![num(5, 1)], 80), num(5, 1)),
        ])
    );
}

#[test]
fn capabilities_come_in_the_order_of_registration() {
    struct Offers(u8);
    impl Macro for Offers {
        fn get_capability(&self, id: &str) -> Option<Capability> {
            if id == "n" {
                Some(Capability { id: id.to_string(), data: vec![self.0] })
            } else {
                None
            }
        }

        fn expand(&self, _: Vec<SpannedExpr>) -> MacroFuture {
            MacroFuture::ready(Err(Error::message("never")))
        }
    }
    let mut env = MacroEnv::new();
    assert!(env.get_capabilities("n").is_empty());
    env.insert("b".to_string(), SharedMacro(Arc::new(Offers(2))));
    env.insert("x".to_string(), SharedMacro(Arc::new(First)));
    env.insert("a".to_string(), SharedMacro(Arc::new(Box::new(Offers(1)))));
    env.insert("b".to_string(), SharedMacro(Arc::new(Offers(3))));
    let data: Vec<Vec<u8>> = env.get_capabilities("n").into_iter().map(|c| c.data).collect();
    assert_eq!(data, vec![vec![3], vec![1]]);
}
