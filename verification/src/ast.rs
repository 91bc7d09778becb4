//! The syntax tree that macro expansion works on, and its mathematical view.
use vstd::prelude::*;

verus! {

/// A range of byte positions in the source text.
#[derive(Clone, Copy, Debug, PartialEq, Eq, Structural, Hash)]
pub struct Span {
    pub start: u32,
    pub end: u32,
}

/// A constant of the language.
#[derive(Debug, PartialEq, Eq, Hash)]
pub enum Literal {
    Int(i64),
    String(String),
}

/// An annotation on a type binding, such as `derive`.
#[derive(Debug, PartialEq, Eq, Hash)]
pub struct Attribute {
    pub name: String,
    pub arguments: Option<String>,
}

/// One type of a group of type bindings.
#[derive(Debug, PartialEq, Eq, Hash)]
pub struct TypeBinding {
    pub name: String,
    pub span: Span,
    pub attributes: Vec<Attribute>,
}

/// One value of a group of bindings.
#[derive(Debug, PartialEq, Eq, Hash)]
pub struct ValueBinding {
    pub name: String,
    pub span: Span,
    pub expr: SpannedExpr,
}

/// An expression with its place in the source.
#[derive(Debug, PartialEq, Eq, Hash)]
pub struct SpannedExpr {
    pub span: Span,
    pub value: Expr,
}

/// An expression of the language, as far as the expansion of macros tells
/// its forms apart.
#[derive(Debug, PartialEq, Eq, Hash)]
pub enum Expr {
    Ident(String),
    Literal(Literal),
    /// A call: the callee, the implicit arguments and the arguments.
    App { func: Box<SpannedExpr>, implicit_args: Vec<SpannedExpr>, args: Vec<SpannedExpr> },
    /// Expressions that are evaluated one after the other.
    Block(Vec<SpannedExpr>),
    /// A group of bindings and the expression they are visible in.
    LetBindings(Vec<ValueBinding>, Box<SpannedExpr>),
    /// A group of type bindings and the expression they are visible in.
    TypeBindings(Vec<TypeBinding>, Box<SpannedExpr>),
    /// What a macro invocation was replaced with, beside the invocation itself.
    MacroExpansion { original: Box<SpannedExpr>, replacement: Box<SpannedExpr> },
    /// The place of an expression that could not be had.
    Error,
}

/// The view of a [`Literal`].
pub enum LiteralView {
    Int(int),
    String(Seq<char>),
}

/// The view of an [`Attribute`].
pub struct AttributeView {
    pub name: Seq<char>,
    pub arguments: Option<Seq<char>>,
}

/// The view of a [`TypeBinding`].
pub struct TypeBindingView {
    pub name: Seq<char>,
    pub span: Span,
    pub attributes: Seq<AttributeView>,
}

/// The name of a value binding and where it stands.
pub struct BindingName {
    pub name: Seq<char>,
    pub span: Span,
}

/// The view of a [`SpannedExpr`].
pub struct Tree {
    pub span: Span,
    pub node: Node,
}

/// The view of an [`Expr`].
pub enum Node {
    Ident(Seq<char>),
    Literal(LiteralView),
    App { func: Box<Tree>, implicit_args: Seq<Tree>, args: Seq<Tree> },
    Block(Seq<Tree>),
    /// The names of the bindings, their expressions, and the body.
    LetBindings(Seq<BindingName>, Seq<Tree>, Box<Tree>),
    TypeBindings(Seq<TypeBindingView>, Box<Tree>),
    MacroExpansion { original: Box<Tree>, replacement: Box<Tree> },
    Error,
}

impl View for Literal {
    type V = LiteralView;

    open spec fn view(&self) -> LiteralView {
        match self {
            Literal::Int(i) => LiteralView::Int(*i as int),
            Literal::String(s) => LiteralView::String(s@),
        }
    }
}

impl View for Attribute {
    type V = AttributeView;

    open spec fn view(&self) -> AttributeView {
        AttributeView {
            name: self.name@,
            arguments: match self.arguments {
                Some(a) => Some(a@),
                None => None,
            },
        }
    }
}

impl View for TypeBinding {
    type V = TypeBindingView;

    open spec fn view(&self) -> TypeBindingView {
        TypeBindingView {
            name: self.name@,
            span: self.span,
            attributes: self.attributes@.map_values(|a: Attribute| a@),
        }
    }
}

/// The views of the type bindings of `ts`, in order.
pub open spec fn type_bindings_of(ts: Vec<TypeBinding>) -> Seq<TypeBindingView> {
    Seq::new(ts.len() as nat, |i: int| ts[i]@)
}

/// The view of an expression with its span.
pub open spec fn tree_of(e: SpannedExpr) -> Tree
    decreases e,
{
    Tree { span: e.span, node: node_of(e.value) }
}

/// The views of the expressions of `es`, in order.
pub open spec fn trees_of(es: Vec<SpannedExpr>) -> Seq<Tree>
    decreases es,
{
    Seq::new(
        es.len() as nat,
        |i: int|
            if 0 <= i < es.len() {
                tree_of(es[i])
            } else {
                arbitrary()
            },
    )
}

/// The names of the bindings of `bs`, in order.
pub open spec fn binding_names(bs: Vec<ValueBinding>) -> Seq<BindingName> {
    Seq::new(bs.len() as nat, |i: int| BindingName { name: bs[i].name@, span: bs[i].span })
}

/// The views of the expressions of the bindings of `bs`, in order.
pub open spec fn binding_trees(bs: Vec<ValueBinding>) -> Seq<Tree>
    decreases bs,
{
    Seq::new(
        bs.len() as nat,
        |i: int|
            if 0 <= i < bs.len() {
                tree_of(bs[i].expr)
            } else {
                arbitrary()
            },
    )
}

/// The view of an expression.
pub open spec fn node_of(e: Expr) -> Node
    decreases e,
{
    match e {
        Expr::Ident(s) => Node::Ident(s@),
        Expr::Literal(l) => Node::Literal(l@),
        Expr::App { func, implicit_args, args } => Node::App {
            func: Box::new(tree_of(*func)),
            implicit_args: trees_of(implicit_args),
            args: trees_of(args),
        },
        Expr::Block(es) => Node::Block(trees_of(es)),
        Expr::LetBindings(bs, body) => Node::LetBindings(
            binding_names(bs),
            binding_trees(bs),
            Box::new(tree_of(*body)),
        ),
        Expr::TypeBindings(ts, body) => Node::TypeBindings(
            type_bindings_of(ts),
            Box::new(tree_of(*body)),
        ),
        Expr::MacroExpansion { original, replacement } => Node::MacroExpansion {
            original: Box::new(tree_of(*original)),
            replacement: Box::new(tree_of(*replacement)),
        },
        Expr::Error => Node::Error,
    }
}

impl View for SpannedExpr {
    type V = Tree;

    open spec fn view(&self) -> Tree {
        tree_of(*self)
    }
}

impl View for Expr {
    type V = Node;

    open spec fn view(&self) -> Node {
        node_of(*self)
    }
}

/// How the view of an expression is made of the views of its parts.
pub proof fn lemma_view(e: SpannedExpr)
    ensures
        e@.span == e.span,
        e@.node == node_of(e.value),
        match e.value {
            Expr::Ident(s) => e@.node == Node::Ident(s@),
            Expr::Literal(l) => e@.node == Node::Literal(l@),
            Expr::App { func, implicit_args, args } => e@.node == (Node::App {
                func: Box::new(func@),
                implicit_args: trees_of(implicit_args),
                args: trees_of(args),
            }),
            Expr::Block(es) => e@.node == Node::Block(trees_of(es)),
            Expr::LetBindings(bs, body) => e@.node == Node::LetBindings(
                binding_names(bs),
                binding_trees(bs),
                Box::new(body@),
            ),
            Expr::TypeBindings(ts, body) => e@.node == Node::TypeBindings(
                type_bindings_of(ts),
                Box::new(body@),
            ),
            Expr::MacroExpansion { original, replacement } => e@.node == (Node::MacroExpansion {
                original: Box::new(original@),
                replacement: Box::new(replacement@),
            }),
            Expr::Error => e@.node == Node::Error,
        },
{
}

/// The view of a list of expressions holds the view of each of them.
pub proof fn lemma_trees_of(es: Vec<SpannedExpr>)
    ensures
        trees_of(es).len() == es.len(),
        forall|i: int| 0 <= i < es.len() ==> #[trigger] trees_of(es)[i] == es[i]@,
{
}

/// The views of the expressions of a list of bindings.
pub proof fn lemma_binding_trees(bs: Vec<ValueBinding>)
    ensures
        binding_trees(bs).len() == bs.len(),
        forall|i: int| 0 <= i < bs.len() ==> #[trigger] binding_trees(bs)[i] == bs[i].expr@,
{
}

/// A copy of a literal.
pub fn clone_literal(l: &Literal) -> (r: Literal)
    ensures
        r@ == l@,
{
    match l {
        Literal::Int(i) => Literal::Int(*i),
        Literal::String(s) => Literal::String(s.clone()),
    }
}

/// A copy of an attribute.
pub fn clone_attribute(a: &Attribute) -> (r: Attribute)
    ensures
        r@ == a@,
{
    let arguments = match &a.arguments {
        Some(x) => Some(x.clone()),
        None => None,
    };
    Attribute { name: a.name.clone(), arguments }
}

/// A copy of a type binding.
pub fn clone_type_binding(t: &TypeBinding) -> (r: TypeBinding)
    ensures
        r@ == t@,
{
    let mut attributes: Vec<Attribute> = Vec::new();
    let mut i: usize = 0;
    while i < t.attributes.len()
        invariant
            i <= t.attributes.len(),
            attributes.len() == i,
            forall|j: int| 0 <= j < i ==> (#[trigger] attributes@[j])@ == t.attributes@[j]@,
        decreases t.attributes.len() - i,
    {
        attributes.push(clone_attribute(&t.attributes[i]));
        i += 1;
    }
    let r = TypeBinding { name: t.name.clone(), span: t.span, attributes };
    assert(r@.attributes =~= t@.attributes);
    r
}

/// A copy of a group of type bindings.
pub fn clone_type_bindings(ts: &Vec<TypeBinding>) -> (r: Vec<TypeBinding>)
    ensures
        type_bindings_of(r) == type_bindings_of(*ts),
{
    let mut out: Vec<TypeBinding> = Vec::new();
    let mut i: usize = 0;
    while i < ts.len()
        invariant
            i <= ts.len(),
            out.len() == i,
            forall|j: int| 0 <= j < i ==> (#[trigger] out@[j])@ == ts@[j]@,
        decreases ts.len() - i,
    {
        out.push(clone_type_binding(&ts[i]));
        i += 1;
    }
    assert(type_bindings_of(out) =~= type_bindings_of(*ts));
    out
}

/// A copy of an expression and of everything below it.
pub fn clone_expr(e: &SpannedExpr) -> (r: SpannedExpr)
    ensures
        r@ == e@,
    decreases e,
{
    let value = match &e.value {
        Expr::Ident(s) => Expr::Ident(s.clone()),
        Expr::Literal(l) => Expr::Literal(clone_literal(l)),
        Expr::App { func, implicit_args, args } => Expr::App {
            func: Box::new(clone_expr(func)),
            implicit_args: clone_exprs(implicit_args),
            args: clone_exprs(args),
        },
        Expr::Block(es) => Expr::Block(clone_exprs(es)),
        Expr::LetBindings(bs, body) => Expr::LetBindings(
            clone_bindings(bs),
            Box::new(clone_expr(body)),
        ),
        Expr::TypeBindings(ts, body) => Expr::TypeBindings(
            clone_type_bindings(ts),
            Box::new(clone_expr(body)),
        ),
        Expr::MacroExpansion { original, replacement } => Expr::MacroExpansion {
            original: Box::new(clone_expr(original)),
            replacement: Box::new(clone_expr(replacement)),
        },
        Expr::Error => Expr::Error,
    };
    SpannedExpr { span: e.span, value }
}

/// A copy of a list of expressions.
pub fn clone_exprs(es: &Vec<SpannedExpr>) -> (r: Vec<SpannedExpr>)
    ensures
        trees_of(r) == trees_of(*es),
    decreases es,
{
    let mut out: Vec<SpannedExpr> = Vec::new();
    let mut i: usize = 0;
    while i < es.len()
        invariant
            i <= es.len(),
            out.len() == i,
            forall|j: int| 0 <= j < i ==> (#[trigger] out@[j])@ == es@[j]@,
        decreases es.len() - i,
    {
        out.push(clone_expr(&es[i]));
        i += 1;
    }
    assert(trees_of(out) =~= trees_of(*es));
    out
}

/// A copy of a list of bindings.
pub fn clone_bindings(bs: &Vec<ValueBinding>) -> (r: Vec<ValueBinding>)
    ensures
        binding_names(r) == binding_names(*bs),
        binding_trees(r) == binding_trees(*bs),
    decreases bs,
{
    let mut out: Vec<ValueBinding> = Vec::new();
    let mut i: usize = 0;
    while i < bs.len()
        invariant
            i <= bs.len(),
            out.len() == i,
            forall|j: int| 0 <= j < i ==> (#[trigger] out@[j]).name@ == bs@[j].name@,
            forall|j: int| 0 <= j < i ==> (#[trigger] out@[j]).span == bs@[j].span,
            forall|j: int| 0 <= j < i ==> (#[trigger] out@[j]).expr@ == bs@[j].expr@,
        decreases bs.len() - i,
    {
        let b = &bs[i];
        out.push(ValueBinding { name: b.name.clone(), span: b.span, expr: clone_expr(&b.expr) });
        i += 1;
    }
    assert(binding_names(out) =~= binding_names(*bs));
    assert(binding_trees(out) =~= binding_trees(*bs));
    out
}

impl Clone for SpannedExpr {
    fn clone(&self) -> (r: Self)
        ensures
            r@ == self@,
    {
        clone_expr(self)
    }
}

} // verus!
