//! The macro registry and the expansion of the macros of one syntax tree.
use crate::ast::{
    binding_names, binding_trees, clone_exprs, lemma_binding_trees, lemma_trees_of, lemma_view,
    trees_of, type_bindings_of, Attribute, AttributeView, BindingName, Expr, Node, Span,
    SpannedExpr, Tree, TypeBinding, TypeBindingView, ValueBinding,
};
use crate::error::{Error, ErrorKind, ErrorView};
use crate::expansion::{
    applied, applied_at, derive_attributes, derive_free, derive_free_all, derive_requests, derives,
    deriving_requests, failures, has_implicit_args, implicit_args_error, implicit_errors,
    implicit_errors_all, is_site, lemma_derive_free_all, lemma_deriving_requests_none,
    lemma_failures_concat, lemma_failures_one, lemma_sites_all_step, lemma_substituted_span,
    lemma_traversed_all_same, lemma_traversed_same, macro_name, site_count, site_count_all, sites,
    sites_all, substituted, substituted_all, traversed, traversed_all, Outcome, SpannedErrorView,
};
use crate::names::{ends_with_char, str_eq, without_last_char};
use crate::pending::{join_ordered, MacroFuture};
use crate::table::{last_first, Table};
use std::sync::Arc;
use vstd::prelude::*;

verus! {

/// An error with the span it is reported at.
#[derive(Debug, PartialEq, Eq, Hash)]
pub struct SpannedError {
    pub span: Span,
    pub value: Error,
}

impl View for SpannedError {
    type V = SpannedErrorView;

    open spec fn view(&self) -> SpannedErrorView {
        SpannedErrorView { span: self.span, error: self.value@ }
    }
}

/// The errors of one expansion, in the order in which they were recorded.
pub type Errors = Vec<SpannedError>;

/// The views of the errors of `es`, in order.
pub open spec fn errors_view(es: Seq<SpannedError>) -> Seq<SpannedErrorView> {
    es.map_values(|e: SpannedError| e@)
}

/// What the result of one expansion stands for.
pub open spec fn outcome_of(r: Result<SpannedExpr, Error>) -> Outcome {
    match r {
        Ok(e) => Outcome::Expanded(e@),
        Err(e) => Outcome::Failed(e@),
    }
}

/// What the results of the expansions stand for, in order.
pub open spec fn outcomes_of(rs: Seq<Result<SpannedExpr, Error>>) -> Seq<Outcome> {
    rs.map_values(|r: Result<SpannedExpr, Error>| outcome_of(r))
}

/// Puts `new` in the place of `expr` and keeps what was there beside it: the node
/// becomes a macro expansion of the old node, at the old span.
pub fn replace_expr(expr: &mut SpannedExpr, new: SpannedExpr)
    ensures
        final(expr)@ == (Tree {
            span: old(expr).span,
            node: Node::MacroExpansion {
                original: Box::new(old(expr)@),
                replacement: Box::new(new@),
            },
        }),
{
    let span = expr.span;
    let mut original = SpannedExpr { span, value: Expr::Error };
    std::mem::swap(expr, &mut original);
    *expr = SpannedExpr {
        span,
        value: Expr::MacroExpansion { original: Box::new(original), replacement: Box::new(new) },
    };
}

/// Puts the result of the expansion of the site `expr` in its place. A failure is
/// appended to `errors` with the span of the site.
pub fn apply_outcome(
    expr: &mut SpannedExpr,
    result: Result<SpannedExpr, Error>,
    errors: &mut Errors,
)
    ensures
        final(expr)@ == applied(old(expr)@, outcome_of(result)),
        errors_view(final(errors)@) == errors_view(old(errors)@) + (match result {
            Ok(_) => Seq::<SpannedErrorView>::empty(),
            Err(e) => seq![SpannedErrorView { span: old(expr).span, error: e@ }],
        }),
{
    let span = expr.span;
    match result {
        Ok(replacement) => {
            let mut replacement = replacement;
            replacement.span = span;
            replace_expr(expr, replacement);
            assert(errors_view(errors@) + Seq::empty() =~= errors_view(errors@));
        },
        Err(err) => {
            *expr = SpannedExpr { span, value: Expr::Error };
            errors.push(SpannedError { span, value: err });
            assert(errors_view(errors@) =~= errors_view(old(errors)@) + seq![
                SpannedErrorView { span, error: err@ },
            ]);
        },
    }
}

/// The name of the macro that `expr` invokes, without the marker.
pub fn macro_call(expr: &SpannedExpr) -> (r: Option<String>)
    ensures
        match r {
            Some(name) => macro_name(expr@) == Some(name@),
            None => macro_name(expr@) is None,
        },
{
    proof {
        lemma_view(*expr);
    }
    match &expr.value {
        Expr::App { func, .. } => match &func.value {
            Expr::Ident(id) => {
                proof {
                    lemma_view(**func);
                }
                if ends_with_char(id.as_str(), '!') {
                    Some(without_last_char(id.as_str()))
                } else {
                    None
                }
            },
            _ => {
                proof {
                    lemma_view(**func);
                }
                None
            },
        },
        _ => None,
    }
}

/// Whether `expr` is a call that has implicit arguments.
pub fn implicit_args_given(expr: &SpannedExpr) -> (r: bool)
    ensures
        r == has_implicit_args(expr@),
{
    match &expr.value {
        Expr::App { implicit_args, .. } => {
            proof {
                lemma_view(*expr);
            }
            implicit_args.len() > 0
        },
        _ => false,
    }
}

/// The arguments that the expansion of the invocation `expr` is started with: a
/// copy of the arguments of the call.
pub fn invocation_args(expr: &SpannedExpr) -> (args: Vec<SpannedExpr>)
    ensures
        match expr@.node {
            Node::App { args: given, .. } => trees_of(args) == given,
            _ => args@.len() == 0,
        },
{
    proof {
        lemma_view(*expr);
    }
    match &expr.value {
        Expr::App { args, .. } => clone_exprs(args),
        _ => Vec::new(),
    }
}

/// A side channel that a macro may offer to tools.
#[derive(Debug, PartialEq, Eq, Hash)]
pub struct Capability {
    pub id: String,
    pub data: Vec<u8>,
}

/// The capabilities among `offers`, in order.
pub open spec fn offered_of(offers: Seq<Option<Capability>>) -> Seq<Capability>
    decreases offers.len(),
{
    if offers.len() == 0 {
        Seq::empty()
    } else {
        match offers.last() {
            Some(capability) => offered_of(offers.drop_last()).push(capability),
            None => offered_of(offers.drop_last()),
        }
    }
}

/// There are no more capabilities than offers.
pub proof fn lemma_offered_len(offers: Seq<Option<Capability>>)
    ensures
        offered_of(offers).len() <= offers.len(),
    decreases offers.len(),
{
    if offers.len() > 0 {
        lemma_offered_len(offers.drop_last());
    }
}

/// The capabilities that were offered: what each macro answered, in order,
/// without the answers of the macros that offer nothing.
pub fn offered(offers: Vec<Option<Capability>>) -> (found: Vec<Capability>)
    ensures
        found@ == offered_of(offers@),
{
    let ghost all = offers@;
    let mut rest = last_first(offers);
    let mut found: Vec<Capability> = Vec::new();
    let n = rest.len();
    let mut i: usize = 0;
    proof {
        assert(all.take(0) =~= Seq::<Option<Capability>>::empty());
    }
    while i < n
        invariant
            n == all.len(),
            i <= n,
            rest.len() == n - i,
            forall|j: int| 0 <= j < rest.len() ==> rest@[j] == all[all.len() - 1 - j],
            found@ == offered_of(all.take(i as int)),
        decreases n - i,
    {
        proof {
            assert(all.take(i as int + 1).drop_last() =~= all.take(i as int));
            assert(all.take(i as int + 1).last() == all[i as int]);
        }
        match rest.pop() {
            Some(Some(capability)) => {
                found.push(capability);
            },
            _ => {},
        }
        i += 1;
    }
    proof {
        assert(all.take(n as int) =~= all);
    }
    found
}

/// A transform that runs at compile time, from the arguments of an invocation to
/// the expression that replaces it.
pub trait Macro {
    /// The capability named `id`, if this macro offers it.
    fn get_capability(&self, id: &str) -> Option<Capability>;

    /// Starts the expansion of one invocation.
    fn expand(&self, args: Vec<SpannedExpr>) -> MacroFuture;
}

/// A macro that the registry and its readers share.
pub struct SharedMacro(pub Arc<dyn Macro>);

/// Whether `future` is what the macro `m` returns when its expansion is
/// started with the arguments `args`.
pub open spec fn starts(m: SharedMacro, args: Vec<SpannedExpr>, future: MacroFuture) -> bool {
    <Arc<dyn Macro> as Macro>::expand.ensures((&m.0, args), future)
}

/// Whether `future` is what the macro `m` returns when its expansion is
/// started with a copy of the arguments `given`.
pub open spec fn started(m: SharedMacro, given: Seq<Tree>, future: MacroFuture) -> bool {
    exists|args: Vec<SpannedExpr>| trees_of(args) == given && #[trigger] starts(m, args, future)
}

/// Whether `offer` is what the macro `m` answers when it is asked for the
/// capability named `id`.
pub open spec fn answers(m: SharedMacro, id: &str, offer: Option<Capability>) -> bool {
    <Arc<dyn Macro> as Macro>::get_capability.ensures((&m.0, id), offer)
}

/// The macros that are registered, by name.
pub struct MacroEnv {
    macros: Table<SharedMacro>,
}

/// The state of the expansion of one tree.
pub struct MacroExpander<'a> {
    pub errors: Errors,
    pub macros: &'a MacroEnv,
}

impl MacroEnv {
    /// No name is registered twice.
    pub closed spec fn wf(&self) -> bool {
        self.macros.wf()
    }

    /// The names that are registered.
    pub closed spec fn names(&self) -> Set<Seq<char>> {
        Set::new(|n: Seq<char>| self.macros.contains(n))
    }

    /// Position of the macro that is registered under `name`, in the order of
    /// registration; meaningful for a name that is registered.
    pub closed spec fn position_of(&self, name: Seq<char>) -> int {
        self.macros.index_of(name)
    }

    /// The macros that are registered, in the order of their registration.
    pub closed spec fn in_order(&self) -> Seq<SharedMacro> {
        self.macros.values()
    }

    /// Creates a registry without macros.
    pub fn new() -> (env: MacroEnv)
        ensures
            env.wf(),
            env.names() == Set::<Seq<char>>::empty(),
            env.in_order() == Seq::<SharedMacro>::empty(),
            env.count() == 0,
    {
        let env = MacroEnv { macros: Table::new() };
        assert(env.names() =~= Set::<Seq<char>>::empty());
        env
    }

    /// The macro that is registered under `name`; meaningful for a name that
    /// is registered.
    pub closed spec fn macro_of(&self, name: Seq<char>) -> SharedMacro {
        self.macros.value_of(name)
    }

    /// Registers `mac` under `name`, in place of what was registered there.
    pub fn insert(&mut self, name: String, mac: SharedMacro)
        requires
            old(self).wf(),
        ensures
            final(self).wf(),
            final(self).names() == old(self).names().insert(name@),
            final(self).macro_of(name@) == mac,
            forall|other: Seq<char>|
                other != name@ && old(self).names().contains(other) ==> final(self).macro_of(other)
                    == old(self).macro_of(other),
            final(self).count() == if old(self).names().contains(name@) {
                old(self).count()
            } else {
                old(self).count() + 1
            },
            final(self).in_order() == if old(self).names().contains(name@) {
                old(self).in_order().update(old(self).position_of(name@), mac)
            } else {
                old(self).in_order().push(mac)
            },
    {
        self.macros.insert(name, mac);
        proof {
            assert(self.names() =~= old(self).names().insert(name@));
        }
    }

    /// The macro registered under `name`.
    pub fn get(&self, name: &str) -> (r: Option<&SharedMacro>)
        requires
            self.wf(),
        ensures
            match r {
                Some(found) => self.names().contains(name@) && *found == self.macro_of(name@),
                None => !self.names().contains(name@),
            },
    {
        self.macros.get(name)
    }

    /// Number of registered macros.
    pub closed spec fn count(&self) -> nat {
        self.macros.spec_len()
    }

    /// The capability named `id` of every registered macro that offers it, in
    /// the order of registration. A macro that does not offer it is passed over.
    /// Every registered macro is asked once, and the result holds the answers
    /// that are capabilities, in the order of the macros.
    pub fn get_capabilities(&self, id: &str) -> (found: Vec<Capability>)
        requires
            self.wf(),
        ensures
            found@.len() <= self.count(),
            self.in_order().len() == self.count(),
            exists|offers: Seq<Option<Capability>>|
                {
                    &&& offers.len() == self.count()
                    &&& forall|i: int|
                        0 <= i < offers.len() ==> answers(
                            self.in_order()[i],
                            id,
                            #[trigger] offers[i],
                        )
                    &&& found@ == #[trigger] offered_of(offers)
                },
    {
        let mut offers: Vec<Option<Capability>> = Vec::new();
        let n = self.macros.len();
        let mut i: usize = 0;
        while i < n
            invariant
                self.wf(),
                n == self.macros.spec_len(),
                n == self.in_order().len(),
                i <= n,
                offers@.len() == i,
                forall|j: int|
                    0 <= j < i ==> answers(self.in_order()[j], id, #[trigger] offers@[j]),
            decreases n - i,
        {
            let offer = self.macros.value_at(i).0.get_capability(id);
            offers.push(offer);
            i += 1;
        }
        proof {
            lemma_offered_len(offers@);
        }
        let ghost asked = offers@;
        let found = offered(offers);
        proof {
            assert(found@ == offered_of(asked));
        }
        found
    }

    /// Expands the macros of `expr` with the macros of this registry, and
    /// returns the errors of the expansion if there are any: the expansion
    /// starts without errors and ends as `ran` says.
    pub fn run<G: DeriveGenerator>(&self, generator: &mut G, expr: &mut SpannedExpr) -> (r: Result<
        (),
        Errors,
    >)
        requires
            self.wf(),
        ensures
            final(expr)@.span == old(expr)@.span,
            derive_free(old(expr)@) ==> exists|rs: Seq<Outcome>|
                {
                    &&& rs.len() == site_count(old(expr)@, self.names())
                    &&& final(expr)@ == #[trigger] substituted(old(expr)@, self.names(), rs, 0)
                    &&& match r {
                        Ok(_) => implicit_errors(old(expr)@, self.names()) + failures(
                            sites(old(expr)@, self.names()),
                            rs,
                            0,
                        ) == Seq::<SpannedErrorView>::empty(),
                        Err(errors) => errors@.len() > 0 && errors_view(errors@) == implicit_errors(
                            old(expr)@,
                            self.names(),
                        ) + failures(sites(old(expr)@, self.names()), rs, 0),
                    }
                },
            r matches Err(errors) ==> errors@.len() > 0,
            exists|left: Tree, rs: Seq<Outcome>, seen: Seq<SpannedErrorView>|
                #[trigger] ran::<G>(
                    old(expr)@,
                    final(expr)@,
                    Seq::<SpannedErrorView>::empty(),
                    returned(r),
                    *self,
                    left,
                    rs,
                    seen,
                ),
    {
        let mut expander = MacroExpander::new(self);
        assert(errors_view(expander.errors@) =~= Seq::<SpannedErrorView>::empty());
        expander.run(generator, expr);
        let ghost all = errors_view(expander.errors@);
        let r = expander.finish();
        proof {
            let (left, rs, seen) = choose|
                left: Tree,
                rs: Seq<Outcome>,
                seen: Seq<SpannedErrorView>,
            |
                #[trigger] ran::<G>(
                    old(expr)@,
                    expr@,
                    Seq::<SpannedErrorView>::empty(),
                    all,
                    *self,
                    left,
                    rs,
                    seen,
                );
            assert(returned(r) =~= all);
            assert(ran::<G>(
                old(expr)@,
                expr@,
                Seq::<SpannedErrorView>::empty(),
                returned(r),
                *self,
                left,
                rs,
                seen,
            ));
        }
        proof {
            if derive_free(old(expr)@) {
                let rs = choose|rs: Seq<Outcome>|
                    {
                        &&& rs.len() == site_count(old(expr)@, self.names())
                        &&& final(expr)@ == #[trigger] substituted(old(expr)@, self.names(), rs, 0)
                        &&& all == Seq::<SpannedErrorView>::empty() + implicit_errors(
                            old(expr)@,
                            self.names(),
                        ) + failures(sites(old(expr)@, self.names()), rs, 0)
                    };
                assert(Seq::<SpannedErrorView>::empty() + implicit_errors(old(expr)@, self.names())
                    == implicit_errors(old(expr)@, self.names()));
                assert(final(expr)@ == substituted(old(expr)@, self.names(), rs, 0));
            }
        }
        r
    }
}

impl<M: Macro + ?Sized> Macro for Box<M> {
    fn get_capability(&self, id: &str) -> (offer: Option<Capability>)
        ensures
            M::get_capability.ensures((&**self, id), offer),
    {
        (**self).get_capability(id)
    }

    fn expand(&self, args: Vec<SpannedExpr>) -> (future: MacroFuture)
        ensures
            M::expand.ensures((&**self, args), future),
    {
        (**self).expand(args)
    }
}

impl<M: Macro + ?Sized> Macro for Arc<M> {
    fn get_capability(&self, id: &str) -> (offer: Option<Capability>)
        ensures
            M::get_capability.ensures((&**self, id), offer),
    {
        (**self).get_capability(id)
    }

    fn expand(&self, args: Vec<SpannedExpr>) -> (future: MacroFuture)
        ensures
            M::expand.ensures((&**self, args), future),
    {
        (**self).expand(args)
    }
}

/// A prefix of a prefix is a prefix.
proof fn lemma_prefix_trans<A>(a: Seq<A>, b: Seq<A>, c: Seq<A>)
    requires
        a.is_prefix_of(b),
        b.is_prefix_of(c),
    ensures
        a.is_prefix_of(c),
{
    assert(a =~= c.subrange(0, a.len() as int)) by {
        assert(a =~= b.subrange(0, a.len() as int));
        assert(b =~= c.subrange(0, b.len() as int));
    }
}

/// Whether `p` holds, last first, the results of the sites from number `k` on,
/// where `rs` are the outcomes of all sites.
spec fn holds_from(p: Seq<Result<SpannedExpr, Error>>, rs: Seq<Outcome>, k: int) -> bool {
    &&& p.len() == (if k < rs.len() {
        rs.len() - k
    } else {
        0
    })
    &&& forall|i: int| 0 <= i < p.len() ==> outcome_of(#[trigger] p[i]) == rs[rs.len() - 1 - i]
}

/// Whether `expr` is an invocation site of a macro of `macros`.
pub fn is_macro_site(expr: &SpannedExpr, macros: &MacroEnv) -> (r: bool)
    requires
        macros.wf(),
    ensures
        r == is_site(expr@, macros.names()),
{
    match macro_call(expr) {
        Some(name) => !implicit_args_given(expr) && macros.get(name.as_str()).is_some(),
        None => false,
    }
}

/// Replaces the sites of `expr`, in traversal order, by the results that
/// `pending` holds last first.
#[verifier::rlimit(60)]
#[verifier::spinoff_prover]
fn substitute(
    expr: &mut SpannedExpr,
    macros: &MacroEnv,
    pending: &mut Vec<Result<SpannedExpr, Error>>,
    errors: &mut Errors,
    Ghost(rs): Ghost<Seq<Outcome>>,
    Ghost(k): Ghost<int>,
)
    requires
        macros.wf(),
        k >= 0,
        holds_from(old(pending)@, rs, k),
    ensures
        final(expr)@ == substituted(old(expr)@, macros.names(), rs, k),
        holds_from(final(pending)@, rs, k + site_count(old(expr)@, macros.names())),
        errors_view(final(errors)@) == errors_view(old(errors)@) + failures(
            sites(old(expr)@, macros.names()),
            rs,
            k,
        ),
    decreases *old(expr),
{
    let ghost reg = macros.names();
    let ghost t = expr@;
    let ghost e0 = errors_view(errors@);
    proof {
        lemma_view(*expr);
    }
    if is_macro_site(expr, macros) {
        proof {
            lemma_failures_one(t, rs, k);
        }
        match pending.pop() {
            Some(result) => {
                apply_outcome(expr, result, errors);
            },
            None => {
                assert(e0 + Seq::<SpannedErrorView>::empty() == e0);
            },
        }
        return ;
    }
    match &mut expr.value {
        Expr::App { func, implicit_args, args } => {
            let ghost n1 = site_count(func@, reg);
            let ghost n2 = site_count_all(trees_of(*implicit_args), reg);
            let ghost s1 = sites(func@, reg);
            let ghost s2 = sites_all(trees_of(*implicit_args), reg);
            let ghost s3 = sites_all(trees_of(*args), reg);
            substitute(func, macros, pending, errors, Ghost(rs), Ghost(k));
            substitute_all(implicit_args, macros, pending, errors, Ghost(rs), Ghost(k + n1));
            substitute_all(args, macros, pending, errors, Ghost(rs), Ghost(k + n1 + n2));
            proof {
                lemma_failures_concat(s1, s2, rs, k);
                lemma_failures_concat(s1 + s2, s3, rs, k);
                assert(e0 + failures(s1, rs, k) + failures(s2, rs, k + n1) + failures(
                    s3,
                    rs,
                    k + n1 + n2,
                ) == e0 + failures(s1 + s2 + s3, rs, k));
            }
        },
        Expr::Block(es) => {
            substitute_all(es, macros, pending, errors, Ghost(rs), Ghost(k));
        },
        Expr::LetBindings(bs, body) => {
            let ghost n1 = site_count_all(binding_trees(*bs), reg);
            let ghost s1 = sites_all(binding_trees(*bs), reg);
            let ghost s2 = sites(body@, reg);
            substitute_bindings(bs, macros, pending, errors, Ghost(rs), Ghost(k));
            substitute(body, macros, pending, errors, Ghost(rs), Ghost(k + n1));
            proof {
                lemma_failures_concat(s1, s2, rs, k);
                assert(e0 + failures(s1, rs, k) + failures(s2, rs, k + n1) == e0 + failures(
                    s1 + s2,
                    rs,
                    k,
                ));
            }
        },
        Expr::TypeBindings(_, body) => {
            substitute(body, macros, pending, errors, Ghost(rs), Ghost(k));
        },
        Expr::MacroExpansion { replacement, .. } => {
            substitute(replacement, macros, pending, errors, Ghost(rs), Ghost(k));
        },
        _ => {
            assert(e0 + Seq::<SpannedErrorView>::empty() == e0);
        },
    }
    proof {
        lemma_view(*expr);
    }
}

/// Replaces the sites of the expressions of `es`, one expression after the other.
#[verifier::spinoff_prover]
fn substitute_all(
    es: &mut Vec<SpannedExpr>,
    macros: &MacroEnv,
    pending: &mut Vec<Result<SpannedExpr, Error>>,
    errors: &mut Errors,
    Ghost(rs): Ghost<Seq<Outcome>>,
    Ghost(k): Ghost<int>,
)
    requires
        macros.wf(),
        k >= 0,
        holds_from(old(pending)@, rs, k),
    ensures
        trees_of(*final(es)) == substituted_all(trees_of(*old(es)), macros.names(), rs, k),
        holds_from(final(pending)@, rs, k + site_count_all(trees_of(*old(es)), macros.names())),
        errors_view(final(errors)@) == errors_view(old(errors)@) + failures(
            sites_all(trees_of(*old(es)), macros.names()),
            rs,
            k,
        ),
    decreases *old(es),
{
    let ghost reg = macros.names();
    let ghost ts = trees_of(*es);
    let ghost e0 = errors_view(errors@);
    let n = es.len();
    let mut i: usize = 0;
    proof {
        lemma_trees_of(*es);
        assert(e0 + Seq::<SpannedErrorView>::empty() == e0);
        assert(ts.take(0) == Seq::<Tree>::empty());
    }
    while i < n
        invariant
            macros.wf(),
            reg == macros.names(),
            k >= 0,
            i <= n,
            es.len() == n,
            ts.len() == n,
            ts == trees_of(*old(es)),
            forall|j: int| i <= j < n ==> es@[j] == old(es)@[j],
            forall|j: int|
                0 <= j < i ==> (#[trigger] es@[j])@ == substituted(
                    ts[j],
                    reg,
                    rs,
                    k + site_count_all(ts.take(j), reg),
                ),
            holds_from(pending@, rs, k + site_count_all(ts.take(i as int), reg)),
            errors_view(errors@) == e0 + failures(sites_all(ts.take(i as int), reg), rs, k),
        decreases n - i,
    {
        let ghost before = failures(sites_all(ts.take(i as int), reg), rs, k);
        proof {
            lemma_trees_of(*old(es));
            lemma_sites_all_step(ts, reg, i as int);
            lemma_failures_concat(
                sites_all(ts.take(i as int), reg),
                sites(ts[i as int], reg),
                rs,
                k,
            );
        }
        substitute(
            &mut es[i],
            macros,
            pending,
            errors,
            Ghost(rs),
            Ghost(k + site_count_all(ts.take(i as int), reg)),
        );
        proof {
            assert(e0 + before + failures(
                sites(ts[i as int], reg),
                rs,
                k + site_count_all(ts.take(i as int), reg),
            ) == e0 + (before + failures(
                sites(ts[i as int], reg),
                rs,
                k + site_count_all(ts.take(i as int), reg),
            )));
        }
        i += 1;
    }
    proof {
        lemma_trees_of(*es);
        assert(ts.take(n as int) == ts);
        assert(trees_of(*es) =~= substituted_all(ts, reg, rs, k));
    }
}

/// Replaces the sites of the expressions of the bindings `bs`, one binding after
/// the other.
#[verifier::spinoff_prover]
fn substitute_bindings(
    bs: &mut Vec<ValueBinding>,
    macros: &MacroEnv,
    pending: &mut Vec<Result<SpannedExpr, Error>>,
    errors: &mut Errors,
    Ghost(rs): Ghost<Seq<Outcome>>,
    Ghost(k): Ghost<int>,
)
    requires
        macros.wf(),
        k >= 0,
        holds_from(old(pending)@, rs, k),
    ensures
        binding_names(*final(bs)) == binding_names(*old(bs)),
        binding_trees(*final(bs)) == substituted_all(
            binding_trees(*old(bs)),
            macros.names(),
            rs,
            k,
        ),
        holds_from(
            final(pending)@,
            rs,
            k + site_count_all(binding_trees(*old(bs)), macros.names()),
        ),
        errors_view(final(errors)@) == errors_view(old(errors)@) + failures(
            sites_all(binding_trees(*old(bs)), macros.names()),
            rs,
            k,
        ),
    decreases *old(bs),
{
    let ghost reg = macros.names();
    let ghost ts = binding_trees(*bs);
    let ghost e0 = errors_view(errors@);
    let n = bs.len();
    let mut i: usize = 0;
    proof {
        lemma_binding_trees(*bs);
        assert(e0 + Seq::<SpannedErrorView>::empty() == e0);
        assert(ts.take(0) == Seq::<Tree>::empty());
    }
    while i < n
        invariant
            macros.wf(),
            reg == macros.names(),
            k >= 0,
            i <= n,
            bs.len() == n,
            ts.len() == n,
            ts == binding_trees(*old(bs)),
            forall|j: int| i <= j < n ==> bs@[j] == old(bs)@[j],
            forall|j: int| 0 <= j < n ==> (#[trigger] bs@[j]).name == old(bs)@[j].name,
            forall|j: int| 0 <= j < n ==> (#[trigger] bs@[j]).span == old(bs)@[j].span,
            forall|j: int|
                0 <= j < i ==> (#[trigger] bs@[j]).expr@ == substituted(
                    ts[j],
                    reg,
                    rs,
                    k + site_count_all(ts.take(j), reg),
                ),
            holds_from(pending@, rs, k + site_count_all(ts.take(i as int), reg)),
            errors_view(errors@) == e0 + failures(sites_all(ts.take(i as int), reg), rs, k),
        decreases n - i,
    {
        let ghost before = failures(sites_all(ts.take(i as int), reg), rs, k);
        proof {
            lemma_binding_trees(*old(bs));
            lemma_sites_all_step(ts, reg, i as int);
            lemma_failures_concat(
                sites_all(ts.take(i as int), reg),
                sites(ts[i as int], reg),
                rs,
                k,
            );
        }
        let binding = &mut bs[i];
        substitute(
            &mut binding.expr,
            macros,
            pending,
            errors,
            Ghost(rs),
            Ghost(k + site_count_all(ts.take(i as int), reg)),
        );
        proof {
            assert(e0 + before + failures(
                sites(ts[i as int], reg),
                rs,
                k + site_count_all(ts.take(i as int), reg),
            ) == e0 + (before + failures(
                sites(ts[i as int], reg),
                rs,
                k + site_count_all(ts.take(i as int), reg),
            )));
        }
        i += 1;
    }
    proof {
        lemma_binding_trees(*bs);
        assert(ts.take(n as int) == ts);
        assert(binding_trees(*bs) =~= substituted_all(ts, reg, rs, k));
        assert(binding_names(*bs) =~= binding_names(*old(bs)));
    }
}

/// Replaces each site of `expr` by what the result of its expansion makes of
/// it. The results are taken in the order of `results`, which is the order in
/// which the traversal meets the sites: the first site gets `results[0]`. A
/// site for which no result is left stays as it is. Every failure is appended
/// to `errors` with the span of its site, in site order.
pub fn apply_expansions(
    expr: &mut SpannedExpr,
    macros: &MacroEnv,
    results: Vec<Result<SpannedExpr, Error>>,
    errors: &mut Errors,
)
    requires
        macros.wf(),
    ensures
        final(expr)@ == substituted(old(expr)@, macros.names(), outcomes_of(results@), 0),
        final(expr)@.span == old(expr)@.span,
        errors_view(final(errors)@) == errors_view(old(errors)@) + failures(
            sites(old(expr)@, macros.names()),
            outcomes_of(results@),
            0,
        ),
{
    let ghost rs = outcomes_of(results@);
    let mut pending = last_first(results);
    substitute(expr, macros, &mut pending, errors, Ghost(rs), Ghost(0));
    proof {
        lemma_substituted_span(old(expr)@, macros.names(), rs, 0);
    }
}

/// The code generator behind `derive` attributes. What it returns is its own
/// to decide; the traversal promises which attributes and bindings it is asked
/// about, and what becomes of its answers.
pub trait DeriveGenerator {
    /// The bindings that the attribute `derive` of the type binding `bind` stands for.
    fn generate(&mut self, derive: &Attribute, bind: &TypeBinding) -> Result<
        Vec<ValueBinding>,
        Error,
    >;
}

/// The expansions that a traversal has started, in the order of their sites.
pub struct MacroVisitor {
    pub exprs: Vec<MacroFuture>,
}

/// Whether `attribute` asks for generated code: whether it is named `derive`.
pub fn is_derive(attribute: &Attribute) -> (r: bool)
    ensures
        r == (attribute@.name == "derive"@),
{
    str_eq(attribute.name.as_str(), "derive")
}

/// Whether `outcome` is what the generator `G` has returned when it was asked
/// about the attribute `attribute` of the type binding `bind`: a call of
/// `generate` with them has ended with it.
pub open spec fn asks<G: DeriveGenerator>(
    attribute: AttributeView,
    bind: TypeBindingView,
    outcome: Result<Vec<ValueBinding>, Error>,
) -> bool {
    exists|m: &mut G, a: Attribute, b: TypeBinding|
        a@ == attribute && b@ == bind && #[trigger] G::generate.ensures((m, &a, &b), outcome)
}

/// Whether `outcomes` are the answers of the generator `G` to `requests`: one
/// outcome for each request, in order, recorded at the span of the binding
/// that the request is about.
pub open spec fn answered<G: DeriveGenerator>(
    requests: Seq<(AttributeView, TypeBindingView)>,
    outcomes: Seq<(Span, Result<Vec<ValueBinding>, Error>)>,
) -> bool {
    &&& outcomes.len() == requests.len()
    &&& forall|i: int|
        0 <= i < outcomes.len() ==> {
            &&& (#[trigger] outcomes[i]).0 == requests[i].1.span
            &&& asks::<G>(requests[i].0, requests[i].1, outcomes[i].1)
        }
}

/// The answers to two lists of requests, one after the other, answer the two
/// lists joined.
pub proof fn lemma_answered_concat<G: DeriveGenerator>(
    first: Seq<(AttributeView, TypeBindingView)>,
    had: Seq<(Span, Result<Vec<ValueBinding>, Error>)>,
    second: Seq<(AttributeView, TypeBindingView)>,
    added: Seq<(Span, Result<Vec<ValueBinding>, Error>)>,
)
    requires
        answered::<G>(first, had),
        answered::<G>(second, added),
    ensures
        answered::<G>(first + second, had + added),
{
    let all = had + added;
    assert forall|i: int| 0 <= i < all.len() implies {
        &&& (#[trigger] all[i]).0 == (first + second)[i].1.span
        &&& asks::<G>((first + second)[i].0, (first + second)[i].1, all[i].1)
    } by {
        if i < had.len() {
            assert(all[i] == had[i]);
        } else {
            assert(all[i] == added[i - had.len()]);
        }
    }
}

/// Asks the generator about every `derive` attribute of `bind`, in the order
/// of the attributes, and appends each outcome to `outcomes` with the span of
/// `bind`.
pub fn generate_for<G: DeriveGenerator>(
    generator: &mut G,
    bind: &TypeBinding,
    outcomes: &mut Vec<(Span, Result<Vec<ValueBinding>, Error>)>,
)
    ensures
        old(outcomes)@.is_prefix_of(final(outcomes)@),
        answered::<G>(derive_requests(bind@), final(outcomes)@.skip(old(outcomes)@.len() as int)),
{
    let ghost before = outcomes@;
    let ghost attributes = bind@.attributes;
    let mut a: usize = 0;
    proof {
        assert(attributes.take(0).len() == 0);
    }
    while a < bind.attributes.len()
        invariant
            a <= bind.attributes.len(),
            attributes == bind@.attributes,
            attributes.len() == bind.attributes.len(),
            before.is_prefix_of(outcomes@),
            outcomes@.len() == before.len() + derive_attributes(attributes.take(a as int)).len(),
            forall|j: int|
                before.len() <= j < outcomes@.len() ==> {
                    &&& (#[trigger] outcomes@[j]).0 == bind.span
                    &&& asks::<G>(
                        derive_attributes(attributes.take(a as int))[j - before.len()],
                        bind@,
                        outcomes@[j].1,
                    )
                },
        decreases bind.attributes.len() - a,
    {
        proof {
            assert(attributes.take(a as int + 1).drop_last() == attributes.take(a as int));
            assert(attributes.take(a as int + 1).last() == bind.attributes@[a as int]@);
        }
        if is_derive(&bind.attributes[a]) {
            let ghost so_far = outcomes@;
            let outcome = generator.generate(&bind.attributes[a], bind);
            proof {
                assert(asks::<G>(bind.attributes@[a as int]@, bind@, outcome));
            }
            outcomes.push((bind.span, outcome));
            proof {
                assert(so_far.is_prefix_of(outcomes@));
                lemma_prefix_trans(before, so_far, outcomes@);
            }
        }
        a += 1;
    }
    proof {
        assert(attributes.take(attributes.len() as int) == attributes);
        let added = outcomes@.skip(before.len() as int);
        assert forall|i: int| 0 <= i < added.len() implies {
            &&& (#[trigger] added[i]).0 == derive_requests(bind@)[i].1.span
            &&& asks::<G>(derive_requests(bind@)[i].0, derive_requests(bind@)[i].1, added[i].1)
        } by {
            assert(added[i] == outcomes@[before.len() + i]);
        }
    }
}

/// Asks the generator about every `derive` attribute of every type binding of
/// `binds`, binding after binding, and returns the outcomes in that order, each
/// with the span of its binding.
pub fn generate_group<G: DeriveGenerator>(generator: &mut G, binds: &Vec<TypeBinding>) -> (outcomes:
    Vec<(Span, Result<Vec<ValueBinding>, Error>)>)
    ensures
        answered::<G>(deriving_requests(type_bindings_of(*binds)), outcomes@),
{
    let ghost ts = type_bindings_of(*binds);
    let mut outcomes: Vec<(Span, Result<Vec<ValueBinding>, Error>)> = Vec::new();
    let mut i: usize = 0;
    proof {
        assert(ts.take(0).len() == 0);
    }
    while i < binds.len()
        invariant
            i <= binds.len(),
            ts == type_bindings_of(*binds),
            ts.len() == binds.len(),
            answered::<G>(deriving_requests(ts.take(i as int)), outcomes@),
        decreases binds.len() - i,
    {
        proof {
            assert(ts.take(i as int + 1).drop_last() == ts.take(i as int));
            assert(ts.take(i as int + 1).last() == binds@[i as int]@);
        }
        let ghost had = outcomes@;
        generate_for(generator, &binds[i], &mut outcomes);
        proof {
            let added = outcomes@.skip(had.len() as int);
            assert(outcomes@ =~= had + added);
            lemma_answered_concat::<G>(
                deriving_requests(ts.take(i as int)),
                had,
                derive_requests(binds@[i as int]@),
                added,
            );
        }
        i += 1;
    }
    proof {
        assert(ts.take(ts.len() as int) == ts);
    }
    outcomes
}

/// The bindings that the generator has returned, one list after the other.
pub open spec fn generated_of(
    outcomes: Seq<(Span, Result<Vec<ValueBinding>, Error>)>,
) -> Seq<ValueBinding>
    decreases outcomes.len(),
{
    if outcomes.len() == 0 {
        Seq::empty()
    } else {
        match outcomes.last().1 {
            Ok(bindings) => generated_of(outcomes.drop_last()) + bindings@,
            Err(_) => generated_of(outcomes.drop_last()),
        }
    }
}

/// The errors that the generator has returned, each with the span of the type
/// binding that it was asked about.
pub open spec fn generation_errors(
    outcomes: Seq<(Span, Result<Vec<ValueBinding>, Error>)>,
) -> Seq<SpannedErrorView>
    decreases outcomes.len(),
{
    if outcomes.len() == 0 {
        Seq::empty()
    } else {
        match outcomes.last().1 {
            Ok(_) => generation_errors(outcomes.drop_last()),
            Err(e) => generation_errors(outcomes.drop_last()).push(
                SpannedErrorView { span: outcomes.last().0, error: e@ },
            ),
        }
    }
}

/// The names of the bindings of `bs`, in order.
pub open spec fn names_in(bs: Seq<ValueBinding>) -> Seq<BindingName> {
    Seq::new(bs.len(), |i: int| BindingName { name: bs[i].name@, span: bs[i].span })
}

/// The views of the expressions of the bindings of `bs`, in order.
pub open spec fn trees_in(bs: Seq<ValueBinding>) -> Seq<Tree> {
    Seq::new(bs.len(), |i: int| bs[i].expr@)
}

/// Whether `new` is what the traversal leaves of the body `old` of a group of
/// type bindings whose generations came to `outcomes`. Without generated
/// bindings it is what the traversal leaves of the old body. With generated
/// bindings it is a group of bindings: the generated bindings, in order and
/// under their names, each as the traversal leaves it with `derive` one
/// lower, over what the traversal leaves of the old body.
pub open spec fn group_body(
    old: Tree,
    new: Tree,
    reg: Set<Seq<char>>,
    derive: nat,
    outcomes: Seq<(Span, Result<Vec<ValueBinding>, Error>)>,
) -> bool {
    let generated = generated_of(outcomes);
    if generated.len() == 0 {
        traversed(old, new, reg, derive)
    } else {
        &&& new.span == Span { start: 0, end: 0 }
        &&& new.node matches Node::LetBindings(names, trees, inner)
        &&& names == names_in(generated)
        &&& traversed_all(trees_in(generated), trees, reg, (derive - 1) as nat)
        &&& traversed(old, *inner, reg, derive)
    }
}

/// Whether `new` is what the traversal leaves of the group of type bindings
/// `old` when the generations came to `outcomes`: there is one outcome for
/// every `derive` attribute of every binding, in order and at the span of its
/// binding; the type bindings are as they were; the body is as `group_body`
/// says; and the failures among the outcomes are the first errors that the
/// traversal of the group records.
pub open spec fn derived_group<G: DeriveGenerator>(
    old: Tree,
    new: Tree,
    old_errors: Seq<SpannedErrorView>,
    new_errors: Seq<SpannedErrorView>,
    reg: Set<Seq<char>>,
    derive: nat,
    outcomes: Seq<(Span, Result<Vec<ValueBinding>, Error>)>,
) -> bool {
    &&& old.node matches Node::TypeBindings(ts, body)
    &&& new.node matches Node::TypeBindings(same, left)
    &&& same == ts
    &&& answered::<G>(deriving_requests(ts), outcomes)
    &&& (old_errors + generation_errors(outcomes)).is_prefix_of(new_errors)
    &&& group_body(*body, *left, reg, derive, outcomes)
}

/// Gathers what the generator has returned for the type bindings of a group,
/// each outcome with the span of its binding: the bindings of all successful
/// generations, in order, are returned, and every failure is appended to
/// `errors`. A failure does not keep the other bindings from being generated.
#[verifier::spinoff_prover]
pub fn collect_generated(
    outcomes: Vec<(Span, Result<Vec<ValueBinding>, Error>)>,
    errors: &mut Errors,
) -> (generated: Vec<ValueBinding>)
    ensures
        generated@ == generated_of(outcomes@),
        errors_view(final(errors)@) == errors_view(old(errors)@) + generation_errors(outcomes@),
{
    let ghost all = outcomes@;
    let ghost e0 = errors_view(errors@);
    let mut rest = last_first(outcomes);
    let mut generated: Vec<ValueBinding> = Vec::new();
    let n = rest.len();
    let mut i: usize = 0;
    proof {
        assert(all.take(0) =~= Seq::<(Span, Result<Vec<ValueBinding>, Error>)>::empty());
        assert(e0 + Seq::<SpannedErrorView>::empty() =~= e0);
    }
    while i < n
        invariant
            n == all.len(),
            i <= n,
            rest.len() == n - i,
            forall|j: int| 0 <= j < rest.len() ==> rest@[j] == all[all.len() - 1 - j],
            generated@ == generated_of(all.take(i as int)),
            errors_view(errors@) == e0 + generation_errors(all.take(i as int)),
        decreases n - i,
    {
        proof {
            assert(all.take(i as int + 1).drop_last() =~= all.take(i as int));
            assert(all.take(i as int + 1).last() == all[i as int]);
        }
        match rest.pop() {
            Some((span, Ok(bindings))) => {
                let mut bindings = bindings;
                generated.append(&mut bindings);
            },
            Some((span, Err(error))) => {
                let ghost before = errors_view(errors@);
                errors.push(SpannedError { span, value: error });
                proof {
                    let here = SpannedErrorView { span, error: error@ };
                    assert(errors_view(errors@) =~= before.push(here));
                    assert(before.push(here) =~= e0 + generation_errors(all.take(i as int)).push(
                        here,
                    ));
                }
            },
            None => {},
        }
        i += 1;
    }
    proof {
        assert(all.take(n as int) =~= all);
    }
    generated
}

/// Puts the generated bindings in front of `body`: the body becomes a group of
/// recursive bindings whose body is the old one.
pub fn splice_generated(body: &mut SpannedExpr, generated: Vec<ValueBinding>)
    ensures
        final(body)@ == (Tree {
            span: Span { start: 0, end: 0 },
            node: Node::LetBindings(
                binding_names(generated),
                binding_trees(generated),
                Box::new(old(body)@),
            ),
        }),
{
    let span = Span { start: 0, end: 0 };
    let mut next = SpannedExpr { span, value: Expr::Error };
    std::mem::swap(body, &mut next);
    *body = SpannedExpr { span, value: Expr::LetBindings(generated, Box::new(next)) };
    proof {
        lemma_view(*body);
    }
}

/// Whether `futures` are the expansions of the sites `found`, in order: for
/// each site, the macro that is registered under its name was started with a
/// copy of the arguments of the site, and has returned the future.
pub open spec fn launched(env: MacroEnv, found: Seq<Tree>, futures: Seq<MacroFuture>) -> bool {
    &&& futures.len() == found.len()
    &&& forall|i: int|
        0 <= i < futures.len() ==> started(
            env.macro_of(macro_name(found[i])->Some_0),
            found[i].node->args,
            #[trigger] futures[i],
        )
}

/// What was started for one list of sites and then for another was started
/// for the two lists joined.
pub proof fn lemma_launched_after(
    env: MacroEnv,
    before: Seq<MacroFuture>,
    between: Seq<MacroFuture>,
    after: Seq<MacroFuture>,
    first: Seq<Tree>,
    second: Seq<Tree>,
)
    requires
        before.is_prefix_of(between),
        between.is_prefix_of(after),
        launched(env, first, between.skip(before.len() as int)),
        launched(env, second, after.skip(between.len() as int)),
    ensures
        launched(env, first + second, after.skip(before.len() as int)),
{
    let all = after.skip(before.len() as int);
    let found = first + second;
    assert forall|i: int| 0 <= i < all.len() implies started(
        env.macro_of(macro_name(found[i])->Some_0),
        found[i].node->args,
        #[trigger] all[i],
    ) by {
        if i < first.len() {
            assert(all[i] == between.skip(before.len() as int)[i]);
        } else {
            assert(all[i] == after.skip(between.len() as int)[i - first.len()]);
        }
    }
}

/// The errors that an expansion has returned: none when it succeeded.
pub open spec fn returned(r: Result<(), Errors>) -> Seq<SpannedErrorView> {
    match r {
        Ok(_) => Seq::empty(),
        Err(errors) => errors_view(errors@),
    }
}

/// Whether `rs` are the outcomes of waiting for `futures`: one for each
/// future, in order; for an expansion that was finished when its future was
/// made, the result that the future was made with.
pub open spec fn joined(futures: Seq<MacroFuture>, rs: Seq<Outcome>) -> bool {
    &&& rs.len() == futures.len()
    &&& forall|i: int|
        0 <= i < futures.len() ==> ((#[trigger] futures[i]).finished() matches Some(result)
            ==> rs[i] == outcome_of(result))
}

/// Whether an expansion with the macros of `env` that found the tree `old` and
/// the errors `old_errors` ends with the tree `new` and the errors
/// `new_errors`, where `left` is the tree that the traversal leaves, `seen` are
/// the errors after the traversal, and `rs` are the outcomes of the sites of
/// `left`, in order: what waiting for the expansions that were started for
/// these sites has come to.
pub open spec fn ran<G: DeriveGenerator>(
    old: Tree,
    new: Tree,
    old_errors: Seq<SpannedErrorView>,
    new_errors: Seq<SpannedErrorView>,
    env: MacroEnv,
    left: Tree,
    rs: Seq<Outcome>,
    seen: Seq<SpannedErrorView>,
) -> bool {
    let reg = env.names();
    &&& exists|futures: Seq<MacroFuture>|
        #[trigger] launched(env, sites(left, reg), futures) && joined(futures, rs)
    &&& traversed(old, left, reg, usize::MAX as nat)
    &&& old.node is TypeBindings ==> exists|outcomes: Seq<(Span, Result<Vec<ValueBinding>, Error>)>|
        #[trigger] derived_group::<G>(old, left, old_errors, seen, reg, usize::MAX as nat, outcomes)
    &&& derive_free(old) ==> left == old && seen == old_errors + implicit_errors(old, reg)
    &&& old_errors.is_prefix_of(seen)
    &&& rs.len() == site_count(left, reg)
    &&& new == substituted(left, reg, rs, 0)
    &&& new_errors == seen + failures(sites(left, reg), rs, 0)
}

impl<'a> MacroExpander<'a> {
    /// The registry that the expansion reads.
    pub open spec fn env(&self) -> MacroEnv {
        *self.macros
    }

    /// An expansion over the macros of `macros`, without errors so far.
    pub fn new(macros: &'a MacroEnv) -> (expander: MacroExpander<'a>)
        ensures
            expander.env() == *macros,
            expander.errors@.len() == 0,
    {
        MacroExpander { errors: Vec::new(), macros }
    }

    /// The errors of the expansion, if there are any.
    pub fn finish(self) -> (r: Result<(), Errors>)
        ensures
            match r {
                Ok(_) => self.errors@.len() == 0,
                Err(errors) => errors == self.errors && errors@.len() > 0,
            },
    {
        if self.errors.len() > 0 {
            Err(self.errors)
        } else {
            Ok(())
        }
    }

    /// Expands the macros of `expr`. The traversal starts the expansion of every
    /// site it meets, then all of them are waited for, and then each site is
    /// replaced by the result of its own expansion.
    ///
    /// What the macros and the generator return is theirs to decide. The
    /// function promises that there is a tree that the traversal leaves, as
    /// `traversed` and `derived_group` say, and a list of outcomes, one for each
    /// site of that tree: what waiting has come to for the expansion that the
    /// macro of the site has started with a copy of the arguments of the site.
    /// The tree comes out as `substituted` says, and the errors are those of
    /// the traversal followed by the failures among these outcomes. A tree
    /// without `derive` attributes is left as it is by the traversal.
    pub fn run<G: DeriveGenerator>(&mut self, generator: &mut G, expr: &mut SpannedExpr)
        requires
            old(self).env().wf(),
        ensures
            final(self).env() == old(self).env(),
            final(expr)@.span == old(expr)@.span,
            errors_view(old(self).errors@).is_prefix_of(errors_view(final(self).errors@)),
            derive_free(old(expr)@) ==> exists|rs: Seq<Outcome>|
                {
                    &&& rs.len() == site_count(old(expr)@, old(self).env().names())
                    &&& final(expr)@ == #[trigger] substituted(
                        old(expr)@,
                        old(self).env().names(),
                        rs,
                        0,
                    )
                    &&& errors_view(final(self).errors@) == errors_view(old(self).errors@)
                        + implicit_errors(old(expr)@, old(self).env().names()) + failures(
                        sites(old(expr)@, old(self).env().names()),
                        rs,
                        0,
                    )
                },
            exists|left: Tree, rs: Seq<Outcome>, seen: Seq<SpannedErrorView>|
                #[trigger] ran::<G>(
                    old(expr)@,
                    final(expr)@,
                    errors_view(old(self).errors@),
                    errors_view(final(self).errors@),
                    old(self).env(),
                    left,
                    rs,
                    seen,
                ),
    {
        let ghost env = self.env();
        let ghost reg = self.env().names();
        let ghost e0 = errors_view(self.errors@);
        let mut visitor = MacroVisitor { exprs: Vec::new() };
        visitor.visit_expr(self, generator, expr, usize::MAX);
        let ghost left = expr@;
        let ghost seen = errors_view(self.errors@);
        let ghost futures = visitor.exprs@;
        let results = join_ordered(visitor.exprs);
        let macros = self.macros;
        apply_expansions(expr, macros, results, &mut self.errors);
        proof {
            let rs = outcomes_of(results@);
            if derive_free(old(expr)@) {
                assert(final(expr)@ == substituted(old(expr)@, old(self).env().names(), rs, 0));
            }
            assert(futures.skip(0) == futures);
            assert(launched(env, sites(left, reg), futures) && joined(futures, rs));
            assert(ran::<G>(old(expr)@, expr@, e0, errors_view(self.errors@), env, left, rs, seen));
        }
    }
}

impl MacroVisitor {
    /// Visits `expr` and what is below it, depth first. At a site the expansion
    /// is started with a copy of the arguments and the traversal does not
    /// descend. A macro call with implicit arguments is reported. With `derive`
    /// above zero, every `derive` attribute of a group of type bindings is
    /// handed to the generator, and what it returns is put in front of the body
    /// of the group. The generated code is visited like any other code, with
    /// `derive` one lower: `derive` bounds how deep code that was generated for
    /// generated code is still derived.
    #[verifier::rlimit(60)]
    #[verifier::spinoff_prover]
    pub fn visit_expr<G: DeriveGenerator>(
        &mut self,
        expander: &mut MacroExpander,
        generator: &mut G,
        expr: &mut SpannedExpr,
        derive: usize,
    )
        requires
            old(expander).env().wf(),
        ensures
            final(expander).env() == old(expander).env(),
            final(self).exprs@.len() == old(self).exprs@.len() + site_count(
                final(expr)@,
                old(expander).env().names(),
            ),
            final(expr)@.span == old(expr)@.span,
            old(self).exprs@.is_prefix_of(final(self).exprs@),
            launched(
                old(expander).env(),
                sites(final(expr)@, old(expander).env().names()),
                final(self).exprs@.skip(old(self).exprs@.len() as int),
            ),
            traversed(old(expr)@, final(expr)@, old(expander).env().names(), derive as nat),
            is_site(old(expr)@, old(expander).env().names()) ==> {
                &&& final(expr)@ == old(expr)@
                &&& final(self).exprs@.len() == old(self).exprs@.len() + 1
                &&& started(
                    old(expander).env().macro_of(macro_name(old(expr)@)->Some_0),
                    old(expr)@.node->args,
                    final(self).exprs@.last(),
                )
                &&& errors_view(final(expander).errors@) == errors_view(old(expander).errors@)
            },
            old(expr)@.node is TypeBindings && derive > 0
                ==> exists|outcomes: Seq<(Span, Result<Vec<ValueBinding>, Error>)>|
                #[trigger] derived_group::<G>(
                    old(expr)@,
                    final(expr)@,
                    errors_view(old(expander).errors@),
                    errors_view(final(expander).errors@),
                    old(expander).env().names(),
                    derive as nat,
                    outcomes,
                ),
            errors_view(old(expander).errors@).is_prefix_of(errors_view(final(expander).errors@)),
            (old(expr)@.node is Ident || final(expr)@.node is Ident) ==> final(expr)@ == old(expr)@,
            (derive == 0 || derive_free(old(expr)@)) ==> {
                &&& final(expr)@ == old(expr)@
                &&& errors_view(final(expander).errors@) == errors_view(old(expander).errors@)
                    + implicit_errors(old(expr)@, old(expander).env().names())
            },
        decreases
                derive,
                *old(expr),
    {
        let ghost reg = expander.env().names();
        let ghost env = expander.env();
        let ghost w0 = self.exprs@;
        let ghost t = expr@;
        let ghost e0 = errors_view(expander.errors@);
        let macros = expander.macros;
        proof {
            lemma_view(*expr);
        }
        let mut reported = false;
        match macro_call(expr) {
            Some(name) => {
                if implicit_args_given(expr) {
                    expander.errors.push(
                        SpannedError {
                            span: expr.span,
                            value: Error::message("Implicit arguments are not allowed on macros"),
                        },
                    );
                    reported = true;
                } else {
                    match macros.get(name.as_str()) {
                        Some(m) => {
                            let args = invocation_args(expr);
                            let ghost handed = args;
                            let future = m.0.expand(args);
                            self.exprs.push(future);
                            proof {
                                assert(e0 + Seq::<SpannedErrorView>::empty() == e0);
                                assert(starts(*m, handed, future));
                                assert(started(*m, t.node->args, future));
                                assert(old(self).exprs@.is_prefix_of(self.exprs@));
                                assert(sites(t, reg) == seq![t]);
                                assert(self.exprs@.skip(w0.len() as int) == seq![future]);
                            }
                            return ;
                        },
                        None => {},
                    }
                }
            },
            None => {},
        }
        let ghost here = if reported {
            seq![implicit_args_error(t)]
        } else {
            Seq::<SpannedErrorView>::empty()
        };
        let ghost e1 = errors_view(expander.errors@);
        let ghost mut asked: Seq<(Span, Result<Vec<ValueBinding>, Error>)> = Seq::empty();
        let ghost mut left: Tree = t;
        proof {
            assert(e1 == e0 + here);
            assert(e0.is_prefix_of(e1));
            assert(!is_site(t, reg));
        }
        match &mut expr.value {
            Expr::App { func, implicit_args, args } => {
                let ghost x1 = implicit_errors(func@, reg);
                let ghost x2 = implicit_errors_all(trees_of(*implicit_args), reg);
                let ghost x3 = implicit_errors_all(trees_of(*args), reg);
                proof {
                    assert(e0 + here + x1 + x2 + x3 == e0 + (here + (x1 + x2 + x3)));
                }
                let ghost seen = errors_view(expander.errors@);
                self.visit_expr(expander, generator, func, derive);
                proof {
                    lemma_prefix_trans(e0, seen, errors_view(expander.errors@));
                }
                let ghost seen = errors_view(expander.errors@);
                let ghost w1 = self.exprs@;
                self.visit_all(expander, generator, implicit_args, derive);
                proof {
                    lemma_prefix_trans(e0, seen, errors_view(expander.errors@));
                    lemma_launched_after(
                        env,
                        w0,
                        w1,
                        self.exprs@,
                        sites(func@, reg),
                        sites_all(trees_of(*implicit_args), reg),
                    );
                    lemma_prefix_trans(w0, w1, self.exprs@);
                }
                let ghost seen = errors_view(expander.errors@);
                let ghost w2 = self.exprs@;
                self.visit_all(expander, generator, args, derive);
                proof {
                    lemma_prefix_trans(e0, seen, errors_view(expander.errors@));
                    lemma_launched_after(
                        env,
                        w0,
                        w2,
                        self.exprs@,
                        sites(func@, reg) + sites_all(trees_of(*implicit_args), reg),
                        sites_all(trees_of(*args), reg),
                    );
                }
                proof {
                    lemma_trees_of(*implicit_args);
                }
            },
            Expr::Block(es) => {
                let ghost x1 = implicit_errors_all(trees_of(*es), reg);
                proof {
                    assert(e0 + here + x1 == e0 + (here + x1));
                }
                let ghost seen = errors_view(expander.errors@);
                self.visit_all(expander, generator, es, derive);
                proof {
                    lemma_prefix_trans(e0, seen, errors_view(expander.errors@));
                }
            },
            Expr::LetBindings(bs, body) => {
                let ghost x1 = implicit_errors_all(binding_trees(*bs), reg);
                let ghost x2 = implicit_errors(body@, reg);
                proof {
                    assert(e0 + here + x1 + x2 == e0 + (here + (x1 + x2)));
                }
                let ghost seen = errors_view(expander.errors@);
                self.visit_bindings(expander, generator, bs, derive);
                proof {
                    lemma_prefix_trans(e0, seen, errors_view(expander.errors@));
                }
                let ghost seen = errors_view(expander.errors@);
                let ghost w1 = self.exprs@;
                self.visit_expr(expander, generator, body, derive);
                proof {
                    lemma_prefix_trans(e0, seen, errors_view(expander.errors@));
                    lemma_launched_after(
                        env,
                        w0,
                        w1,
                        self.exprs@,
                        sites_all(binding_trees(*bs), reg),
                        sites(body@, reg),
                    );
                }
            },
            Expr::TypeBindings(binds, body) => {
                let ghost x1 = implicit_errors(body@, reg);
                let ghost no_derive = forall|j: int|
                    0 <= j < binds.len() ==> !derives(#[trigger] type_bindings_of(*binds)[j]);
                proof {
                    assert(e0 + here + x1 == e0 + (here + x1));
                    assert(t.node == Node::TypeBindings(type_bindings_of(*binds), Box::new(body@)));
                    assert(type_bindings_of(*binds).len() == binds.len());
                    if derive_free(t) {
                        let ts = type_bindings_of(*binds);
                        assert(t.node->TypeBindings_0 == ts);
                        assert forall|j: int| 0 <= j < binds.len() implies !derives(
                            #[trigger] type_bindings_of(*binds)[j],
                        ) by {
                            assert(!derives(ts[j]));
                        }
                    }
                }
                let ghost body0 = body@;
                let ghost mut base = e0;
                let mut generated: Vec<ValueBinding> = Vec::new();
                if derive > 0 {
                    let outcomes = generate_group(generator, binds);
                    proof {
                        asked = outcomes@;
                        if no_derive {
                            lemma_deriving_requests_none(type_bindings_of(*binds));
                            assert(outcomes@.len() == 0);
                        }
                    }
                    let ghost seen = errors_view(expander.errors@);
                    generated = collect_generated(outcomes, &mut expander.errors);
                    let ghost fresh = generated;
                    proof {
                        assert(here == Seq::<SpannedErrorView>::empty());
                        assert(seen == e0);
                        base = e0 + generation_errors(asked);
                        assert(errors_view(expander.errors@) == base);
                        assert(base.is_prefix_of(base));
                        assert(seen.is_prefix_of(errors_view(expander.errors@)));
                        lemma_prefix_trans(e0, seen, errors_view(expander.errors@));
                        if generated@.len() == 0 {
                            assert(binding_trees(generated) == Seq::<Tree>::empty());
                        }
                        assert(errors_view(expander.errors@) + Seq::<SpannedErrorView>::empty()
                            == errors_view(expander.errors@));
                    }
                    let ghost seen = errors_view(expander.errors@);
                    self.visit_bindings(expander, generator, &mut generated, derive - 1);
                    proof {
                        lemma_prefix_trans(e0, seen, errors_view(expander.errors@));
                        lemma_prefix_trans(base, seen, errors_view(expander.errors@));
                        assert(binding_names(fresh) =~= names_in(generated_of(asked)));
                        assert(binding_trees(fresh) =~= trees_in(generated_of(asked)));
                    }
                }
                let ghost generated_trees = binding_trees(generated);
                proof {
                    if generated@.len() == 0 {
                        assert(generated_trees == Seq::<Tree>::empty());
                    }
                }
                let ghost seen = errors_view(expander.errors@);
                let ghost w1 = self.exprs@;
                proof {
                    if derive == 0 {
                        assert(w1.skip(w0.len() as int) == Seq::<MacroFuture>::empty());
                        assert(sites_all(generated_trees, reg) == Seq::<Tree>::empty());
                    }
                }
                self.visit_expr(expander, generator, body, derive);
                proof {
                    lemma_prefix_trans(e0, seen, errors_view(expander.errors@));
                    if derive > 0 {
                        lemma_prefix_trans(base, seen, errors_view(expander.errors@));
                    }
                    lemma_launched_after(
                        env,
                        w0,
                        w1,
                        self.exprs@,
                        sites_all(generated_trees, reg),
                        sites(body@, reg),
                    );
                    if generated@.len() == 0 {
                        assert(sites_all(generated_trees, reg) + sites(body@, reg) == sites(
                            body@,
                            reg,
                        ));
                    }
                }
                if generated.len() > 0 {
                    let ghost visited = body@;
                    splice_generated(body, generated);
                    proof {
                        assert(!is_site(body@, reg));
                        assert(sites(body@, reg) == sites_all(generated_trees, reg) + sites(
                            visited,
                            reg,
                        ));
                    }
                }
                proof {
                    left = body@;
                    if derive > 0 {
                        assert(group_body(body0, left, reg, derive as nat, asked));
                    }
                }
            },
            Expr::MacroExpansion { replacement, .. } => {
                let ghost x1 = implicit_errors(replacement@, reg);
                proof {
                    assert(e0 + here + x1 == e0 + (here + x1));
                }
                let ghost seen = errors_view(expander.errors@);
                self.visit_expr(expander, generator, replacement, derive);
                proof {
                    lemma_prefix_trans(e0, seen, errors_view(expander.errors@));
                }
            },
            _ => {
                assert(e0 + here + Seq::<SpannedErrorView>::empty() == e0 + here);
                assert(self.exprs@.skip(w0.len() as int) == Seq::<MacroFuture>::empty());
            },
        }
        proof {
            lemma_view(*expr);
            if t.node is TypeBindings && derive > 0 {
                assert(derived_group::<G>(
                    t,
                    expr@,
                    e0,
                    errors_view(expander.errors@),
                    reg,
                    derive as nat,
                    asked,
                ));
            }
        }
    }

    /// Visits the expressions of `es`, one after the other.
    #[verifier::spinoff_prover]
    pub fn visit_all<G: DeriveGenerator>(
        &mut self,
        expander: &mut MacroExpander,
        generator: &mut G,
        es: &mut Vec<SpannedExpr>,
        derive: usize,
    )
        requires
            old(expander).env().wf(),
        ensures
            final(expander).env() == old(expander).env(),
            final(self).exprs@.len() == old(self).exprs@.len() + site_count_all(
                trees_of(*final(es)),
                old(expander).env().names(),
            ),
            final(es).len() == old(es).len(),
            old(self).exprs@.is_prefix_of(final(self).exprs@),
            launched(
                old(expander).env(),
                sites_all(trees_of(*final(es)), old(expander).env().names()),
                final(self).exprs@.skip(old(self).exprs@.len() as int),
            ),
            traversed_all(
                trees_of(*old(es)),
                trees_of(*final(es)),
                old(expander).env().names(),
                derive as nat,
            ),
            errors_view(old(expander).errors@).is_prefix_of(errors_view(final(expander).errors@)),
            (derive == 0 || derive_free_all(trees_of(*old(es)))) ==> {
                &&& trees_of(*final(es)) == trees_of(*old(es))
                &&& errors_view(final(expander).errors@) == errors_view(old(expander).errors@)
                    + implicit_errors_all(trees_of(*old(es)), old(expander).env().names())
            },
        decreases
                derive,
                *old(es),
    {
        let ghost reg = expander.env().names();
        let ghost ts = trees_of(*es);
        let ghost e0 = errors_view(expander.errors@);
        let ghost l0 = self.exprs@.len();
        let ghost w0 = self.exprs@;
        let ghost plain = derive == 0 || derive_free_all(ts);
        let n = es.len();
        let mut i: usize = 0;
        proof {
            lemma_trees_of(*es);
            assert(e0 + Seq::<SpannedErrorView>::empty() == e0);
            assert(trees_of(*es).take(0) == Seq::<Tree>::empty());
            assert(ts.take(0) == Seq::<Tree>::empty());
            assert(self.exprs@.skip(l0 as int) == Seq::<MacroFuture>::empty());
        }
        while i < n
            invariant
                expander.env() == old(expander).env(),
                expander.env().wf(),
                reg == expander.env().names(),
                i <= n,
                es.len() == n,
                ts.len() == n,
                ts == trees_of(*old(es)),
                plain == (derive == 0 || derive_free_all(ts)),
                e0.is_prefix_of(errors_view(expander.errors@)),
                w0.is_prefix_of(self.exprs@),
                l0 == w0.len(),
                traversed_all(ts.take(i as int), trees_of(*es).take(i as int), reg, derive as nat),
                forall|j: int| i <= j < n ==> es@[j] == old(es)@[j],
                self.exprs@.len() == l0 + site_count_all(trees_of(*es).take(i as int), reg),
                launched(
                    expander.env(),
                    sites_all(trees_of(*es).take(i as int), reg),
                    self.exprs@.skip(l0 as int),
                ),
                plain ==> forall|j: int| 0 <= j < i ==> (#[trigger] es@[j])@ == ts[j],
                plain ==> errors_view(expander.errors@) == e0 + implicit_errors_all(
                    ts.take(i as int),
                    reg,
                ),
            decreases n - i,
        {
            let ghost before = trees_of(*es);
            let ghost x0 = implicit_errors_all(ts.take(i as int), reg);
            proof {
                lemma_trees_of(*es);
                lemma_trees_of(*old(es));
                lemma_sites_all_step(ts, reg, i as int);
                if derive > 0 && derive_free_all(ts) {
                    lemma_derive_free_all(ts, i as int);
                }
                assert(e0 + x0 + implicit_errors(ts[i as int], reg) == e0 + (x0 + implicit_errors(
                    ts[i as int],
                    reg,
                )));
            }
            let ghost had = self.exprs@;
            self.visit_expr(expander, generator, &mut es[i], derive);
            proof {
                lemma_trees_of(*es);
                let after = trees_of(*es);
                assert(after.take(i as int) == before.take(i as int));
                lemma_sites_all_step(after, reg, i as int);
                lemma_prefix_trans(w0, had, self.exprs@);
                lemma_launched_after(
                    expander.env(),
                    w0,
                    had,
                    self.exprs@,
                    sites_all(before.take(i as int), reg),
                    sites(after[i as int], reg),
                );
                assert(ts.take(i as int + 1).drop_last() == ts.take(i as int));
                assert(after.take(i as int + 1).drop_last() == after.take(i as int));
                assert(after.take(i as int + 1).last() == after[i as int]);
                assert(ts.take(i as int + 1).last() == ts[i as int]);
            }
            i += 1;
        }
        proof {
            lemma_trees_of(*es);
            assert(trees_of(*es).take(n as int) == trees_of(*es));
            assert(ts.take(n as int) == ts);
            if plain {
                assert(trees_of(*es) =~= ts);
            }
        }
    }

    /// Visits the expressions of the bindings `bs`, one binding after the other.
    #[verifier::spinoff_prover]
    pub fn visit_bindings<G: DeriveGenerator>(
        &mut self,
        expander: &mut MacroExpander,
        generator: &mut G,
        bs: &mut Vec<ValueBinding>,
        derive: usize,
    )
        requires
            old(expander).env().wf(),
        ensures
            final(expander).env() == old(expander).env(),
            final(self).exprs@.len() == old(self).exprs@.len() + site_count_all(
                binding_trees(*final(bs)),
                old(expander).env().names(),
            ),
            final(bs).len() == old(bs).len(),
            binding_names(*final(bs)) == binding_names(*old(bs)),
            old(self).exprs@.is_prefix_of(final(self).exprs@),
            launched(
                old(expander).env(),
                sites_all(binding_trees(*final(bs)), old(expander).env().names()),
                final(self).exprs@.skip(old(self).exprs@.len() as int),
            ),
            traversed_all(
                binding_trees(*old(bs)),
                binding_trees(*final(bs)),
                old(expander).env().names(),
                derive as nat,
            ),
            errors_view(old(expander).errors@).is_prefix_of(errors_view(final(expander).errors@)),
            (derive == 0 || derive_free_all(binding_trees(*old(bs)))) ==> {
                &&& binding_trees(*final(bs)) == binding_trees(*old(bs))
                &&& binding_names(*final(bs)) == binding_names(*old(bs))
                &&& errors_view(final(expander).errors@) == errors_view(old(expander).errors@)
                    + implicit_errors_all(binding_trees(*old(bs)), old(expander).env().names())
            },
        decreases
                derive,
                *old(bs),
    {
        let ghost reg = expander.env().names();
        let ghost ts = binding_trees(*bs);
        let ghost e0 = errors_view(expander.errors@);
        let ghost l0 = self.exprs@.len();
        let ghost w0 = self.exprs@;
        let ghost plain = derive == 0 || derive_free_all(ts);
        let n = bs.len();
        let mut i: usize = 0;
        proof {
            lemma_binding_trees(*bs);
            assert(e0 + Seq::<SpannedErrorView>::empty() == e0);
            assert(binding_trees(*bs).take(0) == Seq::<Tree>::empty());
            assert(ts.take(0) == Seq::<Tree>::empty());
            assert(self.exprs@.skip(l0 as int) == Seq::<MacroFuture>::empty());
        }
        while i < n
            invariant
                expander.env() == old(expander).env(),
                expander.env().wf(),
                reg == expander.env().names(),
                i <= n,
                bs.len() == n,
                ts.len() == n,
                ts == binding_trees(*old(bs)),
                plain == (derive == 0 || derive_free_all(ts)),
                e0.is_prefix_of(errors_view(expander.errors@)),
                w0.is_prefix_of(self.exprs@),
                l0 == w0.len(),
                traversed_all(
                    ts.take(i as int),
                    binding_trees(*bs).take(i as int),
                    reg,
                    derive as nat,
                ),
                forall|j: int| i <= j < n ==> bs@[j] == old(bs)@[j],
                forall|j: int| 0 <= j < n ==> (#[trigger] bs@[j]).name == old(bs)@[j].name,
                forall|j: int| 0 <= j < n ==> (#[trigger] bs@[j]).span == old(bs)@[j].span,
                self.exprs@.len() == l0 + site_count_all(binding_trees(*bs).take(i as int), reg),
                launched(
                    expander.env(),
                    sites_all(binding_trees(*bs).take(i as int), reg),
                    self.exprs@.skip(l0 as int),
                ),
                plain ==> forall|j: int| 0 <= j < i ==> (#[trigger] bs@[j]).expr@ == ts[j],
                plain ==> errors_view(expander.errors@) == e0 + implicit_errors_all(
                    ts.take(i as int),
                    reg,
                ),
            decreases n - i,
        {
            let ghost before = binding_trees(*bs);
            let ghost x0 = implicit_errors_all(ts.take(i as int), reg);
            proof {
                lemma_binding_trees(*bs);
                lemma_binding_trees(*old(bs));
                lemma_sites_all_step(ts, reg, i as int);
                if derive > 0 && derive_free_all(ts) {
                    lemma_derive_free_all(ts, i as int);
                }
                assert(e0 + x0 + implicit_errors(ts[i as int], reg) == e0 + (x0 + implicit_errors(
                    ts[i as int],
                    reg,
                )));
            }
            let ghost had = self.exprs@;
            let binding = &mut bs[i];
            self.visit_expr(expander, generator, &mut binding.expr, derive);
            proof {
                lemma_binding_trees(*bs);
                let after = binding_trees(*bs);
                assert(after.take(i as int) == before.take(i as int));
                lemma_sites_all_step(after, reg, i as int);
                lemma_prefix_trans(w0, had, self.exprs@);
                lemma_launched_after(
                    expander.env(),
                    w0,
                    had,
                    self.exprs@,
                    sites_all(before.take(i as int), reg),
                    sites(after[i as int], reg),
                );
                assert(ts.take(i as int + 1).drop_last() == ts.take(i as int));
                assert(after.take(i as int + 1).drop_last() == after.take(i as int));
                assert(after.take(i as int + 1).last() == after[i as int]);
                assert(ts.take(i as int + 1).last() == ts[i as int]);
            }
            i += 1;
        }
        proof {
            lemma_binding_trees(*bs);
            assert(binding_trees(*bs).take(n as int) == binding_trees(*bs));
            assert(ts.take(n as int) == ts);
            assert(binding_names(*bs) =~= binding_names(*old(bs)));
            if plain {
                assert(binding_trees(*bs) =~= ts);
            }
        }
    }
}

} // verus!
