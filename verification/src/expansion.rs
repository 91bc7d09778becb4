//! What macro expansion means, stated over the view of a syntax tree.
//!
//! A *site* is a call whose callee ends with the invocation marker `!`, that has
//! no implicit arguments and whose name, without the marker, is registered. Sites
//! are numbered in the order in which a depth-first traversal meets them; the
//! traversal does not descend into a site.
use crate::ast::{AttributeView, Node, Span, Tree, TypeBindingView};
use crate::error::{ErrorKind, ErrorView};
use vstd::prelude::*;

verus! {

/// What one expansion came to.
pub enum Outcome {
    Expanded(Tree),
    Failed(ErrorView),
}

/// The view of an error with the span it is reported at.
pub struct SpannedErrorView {
    pub span: Span,
    pub error: ErrorView,
}

/// The name of the macro that `t` invokes: the callee without the marker.
pub open spec fn macro_name(t: Tree) -> Option<Seq<char>> {
    match t.node {
        Node::App { func, .. } => match func.node {
            Node::Ident(id) => if id.len() > 0 && id.last() == '!' {
                Some(id.drop_last())
            } else {
                None
            },
            _ => None,
        },
        _ => None,
    }
}

/// Whether `t` is a call with implicit arguments.
pub open spec fn has_implicit_args(t: Tree) -> bool {
    match t.node {
        Node::App { implicit_args, .. } => implicit_args.len() > 0,
        _ => false,
    }
}

/// Whether `t` is an invocation site of a macro registered in `reg`.
pub open spec fn is_site(t: Tree, reg: Set<Seq<char>>) -> bool {
    match macro_name(t) {
        Some(name) => !has_implicit_args(t) && reg.contains(name),
        None => false,
    }
}

/// The sites of `t`, in traversal order.
pub open spec fn sites(t: Tree, reg: Set<Seq<char>>) -> Seq<Tree>
    decreases t,
{
    if is_site(t, reg) {
        seq![t]
    } else {
        match t.node {
            Node::App { func, implicit_args, args } => sites(*func, reg) + sites_all(
                implicit_args,
                reg,
            ) + sites_all(args, reg),
            Node::Block(es) => sites_all(es, reg),
            Node::LetBindings(_, es, body) => sites_all(es, reg) + sites(*body, reg),
            Node::TypeBindings(_, body) => sites(*body, reg),
            Node::MacroExpansion { replacement, .. } => sites(*replacement, reg),
            _ => Seq::empty(),
        }
    }
}

/// The sites of the trees of `ts`, in traversal order.
pub open spec fn sites_all(ts: Seq<Tree>, reg: Set<Seq<char>>) -> Seq<Tree>
    decreases ts,
{
    if ts.len() == 0 {
        Seq::empty()
    } else {
        sites_all(ts.drop_last(), reg) + sites(ts.last(), reg)
    }
}

/// Number of sites of `t`.
pub open spec fn site_count(t: Tree, reg: Set<Seq<char>>) -> nat {
    sites(t, reg).len()
}

/// Number of sites of the trees of `ts`.
pub open spec fn site_count_all(ts: Seq<Tree>, reg: Set<Seq<char>>) -> nat {
    sites_all(ts, reg).len()
}

/// What a site becomes once its expansion has come to `outcome`. A replacement
/// takes the span of the site and stands beside the original call; a failure
/// leaves an error placeholder with the span of the site.
pub open spec fn applied(site: Tree, outcome: Outcome) -> Tree {
    match outcome {
        Outcome::Expanded(replacement) => Tree {
            span: site.span,
            node: Node::MacroExpansion {
                original: Box::new(site),
                replacement: Box::new(Tree { span: site.span, node: replacement.node }),
            },
        },
        Outcome::Failed(_) => Tree { span: site.span, node: Node::Error },
    }
}

/// The site numbered `k` once the outcomes `rs` are known: a site without an
/// outcome stays as it is.
pub open spec fn applied_at(site: Tree, rs: Seq<Outcome>, k: int) -> Tree {
    if 0 <= k < rs.len() {
        applied(site, rs[k])
    } else {
        site
    }
}

/// `t` with each of its sites replaced by what its outcome makes of it, where
/// the first site of `t` has the outcome `rs[k]`, the second `rs[k + 1]`, and so on.
pub open spec fn substituted(t: Tree, reg: Set<Seq<char>>, rs: Seq<Outcome>, k: int) -> Tree
    decreases t,
{
    if is_site(t, reg) {
        applied_at(t, rs, k)
    } else {
        match t.node {
            Node::App { func, implicit_args, args } => {
                let a = k + site_count(*func, reg);
                let b = a + site_count_all(implicit_args, reg);
                Tree {
                    span: t.span,
                    node: Node::App {
                        func: Box::new(substituted(*func, reg, rs, k)),
                        implicit_args: substituted_all(implicit_args, reg, rs, a),
                        args: substituted_all(args, reg, rs, b),
                    },
                }
            },
            Node::Block(es) => Tree {
                span: t.span,
                node: Node::Block(substituted_all(es, reg, rs, k)),
            },
            Node::LetBindings(names, es, body) => Tree {
                span: t.span,
                node: Node::LetBindings(
                    names,
                    substituted_all(es, reg, rs, k),
                    Box::new(substituted(*body, reg, rs, k + site_count_all(es, reg))),
                ),
            },
            Node::TypeBindings(ts, body) => Tree {
                span: t.span,
                node: Node::TypeBindings(ts, Box::new(substituted(*body, reg, rs, k))),
            },
            Node::MacroExpansion { original, replacement } => Tree {
                span: t.span,
                node: Node::MacroExpansion {
                    original,
                    replacement: Box::new(substituted(*replacement, reg, rs, k)),
                },
            },
            _ => t,
        }
    }
}

/// The trees of `ts`, each with its sites replaced; the sites of `ts[i]` follow
/// those of the trees before it.
pub open spec fn substituted_all(
    ts: Seq<Tree>,
    reg: Set<Seq<char>>,
    rs: Seq<Outcome>,
    k: int,
) -> Seq<Tree>
    decreases ts,
{
    Seq::new(
        ts.len(),
        |i: int|
            if 0 <= i < ts.len() {
                substituted(ts[i], reg, rs, k + site_count_all(ts.take(i), reg))
            } else {
                arbitrary()
            },
    )
}

/// The failures among the outcomes of the sites `ss`, in site order, each with
/// the span of its site. The first site has the outcome `rs[k]`.
pub open spec fn failures(ss: Seq<Tree>, rs: Seq<Outcome>, k: int) -> Seq<SpannedErrorView>
    decreases ss.len(),
{
    if ss.len() == 0 {
        Seq::empty()
    } else {
        let j = k + ss.len() - 1;
        let before = failures(ss.drop_last(), rs, k);
        if 0 <= j < rs.len() {
            match rs[j] {
                Outcome::Failed(e) => before.push(
                    SpannedErrorView { span: ss.last().span, error: e },
                ),
                Outcome::Expanded(_) => before,
            }
        } else {
            before
        }
    }
}

/// The text of the error that a macro call with implicit arguments is reported with.
pub open spec fn implicit_args_text() -> Seq<char> {
    "Implicit arguments are not allowed on macros"@
}

/// The error recorded at a macro call that has implicit arguments.
pub open spec fn implicit_args_error(t: Tree) -> SpannedErrorView {
    SpannedErrorView {
        span: t.span,
        error: ErrorView { kind: ErrorKind::Message, text: implicit_args_text() },
    }
}

/// The errors that the traversal of `t` records by itself, in traversal order:
/// one for each macro call with implicit arguments that it meets.
pub open spec fn implicit_errors(t: Tree, reg: Set<Seq<char>>) -> Seq<SpannedErrorView>
    decreases t,
{
    if is_site(t, reg) {
        Seq::empty()
    } else {
        let here = if macro_name(t) is Some && has_implicit_args(t) {
            seq![implicit_args_error(t)]
        } else {
            Seq::empty()
        };
        here + match t.node {
            Node::App { func, implicit_args, args } => implicit_errors(*func, reg)
                + implicit_errors_all(implicit_args, reg) + implicit_errors_all(args, reg),
            Node::Block(es) => implicit_errors_all(es, reg),
            Node::LetBindings(_, es, body) => implicit_errors_all(es, reg) + implicit_errors(
                *body,
                reg,
            ),
            Node::TypeBindings(_, body) => implicit_errors(*body, reg),
            Node::MacroExpansion { replacement, .. } => implicit_errors(*replacement, reg),
            _ => Seq::empty(),
        }
    }
}

/// The errors that the traversal of the trees of `ts` records by itself.
pub open spec fn implicit_errors_all(ts: Seq<Tree>, reg: Set<Seq<char>>) -> Seq<SpannedErrorView>
    decreases ts,
{
    if ts.len() == 0 {
        Seq::empty()
    } else {
        implicit_errors_all(ts.drop_last(), reg) + implicit_errors(ts.last(), reg)
    }
}

/// Whether `new` is a tree that the traversal can leave of `old`. Nothing
/// changes below a site, nor anywhere with `derive` at zero. Elsewhere the
/// tree keeps its shape, its spans, its names and its type bindings, and only
/// the body of a group of type bindings can change its form: it is what the
/// traversal leaves of the old body, or a group of bindings over that.
pub open spec fn traversed(old: Tree, new: Tree, reg: Set<Seq<char>>, derive: nat) -> bool
    decreases old,
{
    if derive == 0 || is_site(old, reg) {
        new == old
    } else {
        &&& new.span == old.span
        &&& match old.node {
            Node::App { func, implicit_args, args } => {
                &&& new.node matches Node::App { func: f, implicit_args: i, args: a }
                &&& traversed(*func, *f, reg, derive)
                &&& traversed_all(implicit_args, i, reg, derive)
                &&& traversed_all(args, a, reg, derive)
            },
            Node::Block(es) => {
                &&& new.node matches Node::Block(left)
                &&& traversed_all(es, left, reg, derive)
            },
            Node::LetBindings(names, es, body) => {
                &&& new.node matches Node::LetBindings(same, left, inner)
                &&& same == names
                &&& traversed_all(es, left, reg, derive)
                &&& traversed(*body, *inner, reg, derive)
            },
            Node::TypeBindings(ts, body) => {
                &&& new.node matches Node::TypeBindings(same, left)
                &&& same == ts
                &&& {
                    ||| traversed(*body, *left, reg, derive)
                    ||| {
                        &&& left.span == Span { start: 0, end: 0 }
                        &&& left.node matches Node::LetBindings(_, generated, inner)
                        &&& generated.len() > 0
                        &&& traversed(*body, *inner, reg, derive)
                    }
                }
            },
            Node::MacroExpansion { original, replacement } => {
                &&& new.node matches Node::MacroExpansion { original: same, replacement: left }
                &&& same == original
                &&& traversed(*replacement, *left, reg, derive)
            },
            _ => new.node == old.node,
        }
    }
}

/// Whether the trees of `new` are, one by one, what the traversal can leave of
/// the trees of `old`.
pub open spec fn traversed_all(
    old: Seq<Tree>,
    new: Seq<Tree>,
    reg: Set<Seq<char>>,
    derive: nat,
) -> bool
    decreases old,
{
    if old.len() == 0 {
        new.len() == 0
    } else {
        &&& new.len() == old.len()
        &&& traversed_all(old.drop_last(), new.drop_last(), reg, derive)
        &&& traversed(old.last(), new.last(), reg, derive)
    }
}

/// Trees that did not change are what the traversal can leave of them.
pub proof fn lemma_traversed_same(t: Tree, reg: Set<Seq<char>>, derive: nat)
    ensures
        traversed(t, t, reg, derive),
    decreases t,
{
    if derive != 0 && !is_site(t, reg) {
        match t.node {
            Node::App { func, implicit_args, args } => {
                lemma_traversed_same(*func, reg, derive);
                lemma_traversed_all_same(implicit_args, reg, derive);
                lemma_traversed_all_same(args, reg, derive);
            },
            Node::Block(es) => {
                lemma_traversed_all_same(es, reg, derive);
            },
            Node::LetBindings(_, es, body) => {
                lemma_traversed_all_same(es, reg, derive);
                lemma_traversed_same(*body, reg, derive);
            },
            Node::TypeBindings(_, body) => {
                lemma_traversed_same(*body, reg, derive);
            },
            Node::MacroExpansion { replacement, .. } => {
                lemma_traversed_same(*replacement, reg, derive);
            },
            _ => {},
        }
    }
}

/// Lists of trees that did not change are what the traversal can leave of them.
pub proof fn lemma_traversed_all_same(ts: Seq<Tree>, reg: Set<Seq<char>>, derive: nat)
    ensures
        traversed_all(ts, ts, reg, derive),
    decreases ts,
{
    if ts.len() > 0 {
        lemma_traversed_all_same(ts.drop_last(), reg, derive);
        lemma_traversed_same(ts.last(), reg, derive);
    }
}

/// The attributes of `attributes` that are named `derive`, in order.
pub open spec fn derive_attributes(attributes: Seq<AttributeView>) -> Seq<AttributeView>
    decreases attributes.len(),
{
    if attributes.len() == 0 {
        Seq::empty()
    } else if attributes.last().name == "derive"@ {
        derive_attributes(attributes.drop_last()).push(attributes.last())
    } else {
        derive_attributes(attributes.drop_last())
    }
}

/// Whether a type binding carries a `derive` attribute.
pub open spec fn derives(b: TypeBindingView) -> bool {
    derive_attributes(b.attributes).len() > 0
}

/// What the generator is asked about one type binding: every `derive`
/// attribute of the binding, in order, each together with the binding.
pub open spec fn derive_requests(b: TypeBindingView) -> Seq<(AttributeView, TypeBindingView)> {
    Seq::new(derive_attributes(b.attributes).len(), |i: int| (derive_attributes(b.attributes)[i], b))
}

/// What the generator is asked about a group of type bindings: the requests
/// of one binding after those of the other, in the order of the bindings.
pub open spec fn deriving_requests(ts: Seq<TypeBindingView>) -> Seq<
    (AttributeView, TypeBindingView),
>
    decreases ts.len(),
{
    if ts.len() == 0 {
        Seq::empty()
    } else {
        deriving_requests(ts.drop_last()) + derive_requests(ts.last())
    }
}

/// Of a group without `derive` attributes the generator is asked nothing.
pub proof fn lemma_deriving_requests_none(ts: Seq<TypeBindingView>)
    requires
        forall|i: int| 0 <= i < ts.len() ==> !derives(#[trigger] ts[i]),
    ensures
        deriving_requests(ts).len() == 0,
    decreases ts.len(),
{
    if ts.len() > 0 {
        lemma_deriving_requests_none(ts.drop_last());
        assert(!derives(ts[ts.len() - 1]));
    }
}

/// Whether no type binding of `t` carries a `derive` attribute, so that the
/// traversal of `t` generates nothing.
pub open spec fn derive_free(t: Tree) -> bool
    decreases t,
{
    match t.node {
        Node::App { func, implicit_args, args } => derive_free(*func) && derive_free_all(
            implicit_args,
        ) && derive_free_all(args),
        Node::Block(es) => derive_free_all(es),
        Node::LetBindings(_, es, body) => derive_free_all(es) && derive_free(*body),
        Node::TypeBindings(ts, body) => {
            &&& forall|i: int| 0 <= i < ts.len() ==> !derives(#[trigger] ts[i])
            &&& derive_free(*body)
        },
        Node::MacroExpansion { replacement, .. } => derive_free(*replacement),
        _ => true,
    }
}

/// Whether no tree of `ts` has a type binding with a `derive` attribute.
pub open spec fn derive_free_all(ts: Seq<Tree>) -> bool
    decreases ts,
{
    if ts.len() == 0 {
        true
    } else {
        derive_free_all(ts.drop_last()) && derive_free(ts.last())
    }
}

/// Every tree of a list without `derive` attributes is without them.
pub proof fn lemma_derive_free_all(ts: Seq<Tree>, i: int)
    requires
        derive_free_all(ts),
        0 <= i < ts.len(),
    ensures
        derive_free(ts[i]),
    decreases ts.len(),
{
    if i < ts.len() - 1 {
        lemma_derive_free_all(ts.drop_last(), i);
    }
}

/// A substitution leaves the span of the tree as it is.
pub proof fn lemma_substituted_span(t: Tree, reg: Set<Seq<char>>, rs: Seq<Outcome>, k: int)
    ensures
        substituted(t, reg, rs, k).span == t.span,
{
}

/// The failures of two runs of sites, one after the other.
pub proof fn lemma_failures_concat(a: Seq<Tree>, b: Seq<Tree>, rs: Seq<Outcome>, k: int)
    ensures
        failures(a + b, rs, k) == failures(a, rs, k) + failures(b, rs, k + a.len()),
    decreases b.len(),
{
    if b.len() == 0 {
        assert(a + b == a);
        assert(failures(a, rs, k) + Seq::<SpannedErrorView>::empty() == failures(a, rs, k));
    } else {
        lemma_failures_concat(a, b.drop_last(), rs, k);
        assert((a + b).drop_last() == a + b.drop_last());
        assert((a + b).last() == b.last());
        let j = k + a.len() + b.len() - 1;
        let before = failures(b.drop_last(), rs, k + a.len());
        if 0 <= j < rs.len() && rs[j] is Failed {
            let e = SpannedErrorView { span: b.last().span, error: rs[j]->Failed_0 };
            assert((failures(a, rs, k) + before).push(e) == failures(a, rs, k) + before.push(e));
        }
    }
}

/// A single site fails exactly when its own outcome is a failure.
pub proof fn lemma_failures_one(site: Tree, rs: Seq<Outcome>, k: int)
    ensures
        failures(seq![site], rs, k) == if 0 <= k < rs.len() && rs[k] is Failed {
            seq![SpannedErrorView { span: site.span, error: rs[k]->Failed_0 }]
        } else {
            Seq::<SpannedErrorView>::empty()
        },
{
    reveal_with_fuel(failures, 2);
    assert(seq![site].drop_last() == Seq::<Tree>::empty());
    assert(failures(seq![site].drop_last(), rs, k) == Seq::<SpannedErrorView>::empty());
    if 0 <= k < rs.len() && rs[k] is Failed {
        assert(Seq::<SpannedErrorView>::empty().push(
            SpannedErrorView { span: site.span, error: rs[k]->Failed_0 },
        ) == seq![SpannedErrorView { span: site.span, error: rs[k]->Failed_0 }]);
    }
}

/// The sites of a list that has one more tree.
pub proof fn lemma_sites_all_step(ts: Seq<Tree>, reg: Set<Seq<char>>, i: int)
    requires
        0 <= i < ts.len(),
    ensures
        sites_all(ts.take(i + 1), reg) == sites_all(ts.take(i), reg) + sites(ts[i], reg),
        implicit_errors_all(ts.take(i + 1), reg) == implicit_errors_all(ts.take(i), reg)
            + implicit_errors(ts[i], reg),
        sites_all(ts.take(0), reg) == Seq::<Tree>::empty(),
        implicit_errors_all(ts.take(0), reg) == Seq::<SpannedErrorView>::empty(),
{
    assert(ts.take(i + 1).drop_last() == ts.take(i));
    assert(ts.take(i + 1).last() == ts[i]);
}

/// The nodes of `new` that stand where `old` has its sites, in traversal order.
/// `new` is read as a tree of the shape of `old`.
pub open spec fn at_sites(old: Tree, new: Tree, reg: Set<Seq<char>>) -> Seq<Tree>
    decreases old,
{
    if is_site(old, reg) {
        seq![new]
    } else {
        match (old.node, new.node) {
            (
                Node::App { func: f0, implicit_args: i0, args: a0 },
                Node::App { func: f1, implicit_args: i1, args: a1 },
            ) => at_sites(*f0, *f1, reg) + at_sites_all(i0, i1, reg) + at_sites_all(a0, a1, reg),
            (Node::Block(es0), Node::Block(es1)) => at_sites_all(es0, es1, reg),
            (Node::LetBindings(_, es0, b0), Node::LetBindings(_, es1, b1)) => at_sites_all(
                es0,
                es1,
                reg,
            ) + at_sites(*b0, *b1, reg),
            (Node::TypeBindings(_, b0), Node::TypeBindings(_, b1)) => at_sites(*b0, *b1, reg),
            (
                Node::MacroExpansion { replacement: r0, .. },
                Node::MacroExpansion { replacement: r1, .. },
            ) => at_sites(*r0, *r1, reg),
            _ => Seq::empty(),
        }
    }
}

/// The nodes of the trees of `new` that stand where the trees of `old` have
/// their sites.
pub open spec fn at_sites_all(old: Seq<Tree>, new: Seq<Tree>, reg: Set<Seq<char>>) -> Seq<Tree>
    decreases old,
{
    if old.len() == 0 {
        Seq::empty()
    } else {
        at_sites_all(old.drop_last(), new.take(old.len() - 1), reg) + at_sites(
            old.last(),
            new[old.len() - 1],
            reg,
        )
    }
}

/// What the sites `ss` become, one by one, when the first of them has the
/// outcome `rs[k]`.
pub open spec fn outcomes_at(ss: Seq<Tree>, rs: Seq<Outcome>, k: int) -> Seq<Tree> {
    Seq::new(ss.len(), |j: int| applied_at(ss[j], rs, k + j))
}

/// What two runs of sites become, one after the other.
proof fn lemma_outcomes_at_concat(a: Seq<Tree>, b: Seq<Tree>, rs: Seq<Outcome>, k: int)
    ensures
        outcomes_at(a + b, rs, k) == outcomes_at(a, rs, k) + outcomes_at(b, rs, k + a.len()),
{
    assert(outcomes_at(a + b, rs, k) =~= outcomes_at(a, rs, k) + outcomes_at(b, rs, k + a.len()));
}

/// Order of substitution: after the substitution, the node at the place of the
/// site numbered `j` in traversal order is what the outcome numbered `j` makes
/// of that site. It does not depend on any other outcome, nor on the order in
/// which the expansions came to an end.
pub proof fn lemma_sites_in_order(t: Tree, reg: Set<Seq<char>>, rs: Seq<Outcome>, k: int)
    ensures
        at_sites(t, substituted(t, reg, rs, k), reg) == outcomes_at(sites(t, reg), rs, k),
    decreases t,
{
    if is_site(t, reg) {
        assert(seq![applied_at(t, rs, k)] =~= outcomes_at(seq![t], rs, k));
    } else {
        match t.node {
            Node::App { func, implicit_args, args } => {
                let a = k + site_count(*func, reg);
                let b = a + site_count_all(implicit_args, reg);
                lemma_sites_in_order(*func, reg, rs, k);
                lemma_sites_in_order_all(implicit_args, reg, rs, a);
                lemma_sites_in_order_all(args, reg, rs, b);
                lemma_outcomes_at_concat(sites(*func, reg), sites_all(implicit_args, reg), rs, k);
                lemma_outcomes_at_concat(
                    sites(*func, reg) + sites_all(implicit_args, reg),
                    sites_all(args, reg),
                    rs,
                    k,
                );
            },
            Node::Block(es) => {
                lemma_sites_in_order_all(es, reg, rs, k);
            },
            Node::LetBindings(_, es, body) => {
                lemma_sites_in_order_all(es, reg, rs, k);
                lemma_sites_in_order(*body, reg, rs, k + site_count_all(es, reg));
                lemma_outcomes_at_concat(sites_all(es, reg), sites(*body, reg), rs, k);
            },
            Node::TypeBindings(_, body) => {
                lemma_sites_in_order(*body, reg, rs, k);
            },
            Node::MacroExpansion { replacement, .. } => {
                lemma_sites_in_order(*replacement, reg, rs, k);
            },
            _ => {
                assert(outcomes_at(Seq::<Tree>::empty(), rs, k) =~= Seq::<Tree>::empty());
            },
        }
    }
}

/// Order of substitution, for the trees of a list.
pub proof fn lemma_sites_in_order_all(ts: Seq<Tree>, reg: Set<Seq<char>>, rs: Seq<Outcome>, k: int)
    ensures
        at_sites_all(ts, substituted_all(ts, reg, rs, k), reg) == outcomes_at(
            sites_all(ts, reg),
            rs,
            k,
        ),
    decreases ts,
{
    if ts.len() == 0 {
        assert(outcomes_at(Seq::<Tree>::empty(), rs, k) =~= Seq::<Tree>::empty());
    } else {
        let init = ts.drop_last();
        let n = ts.len() - 1;
        lemma_sites_in_order_all(init, reg, rs, k);
        lemma_sites_in_order(ts.last(), reg, rs, k + site_count_all(init, reg));
        assert(ts.take(n) == init);
        assert forall|i: int| 0 <= i < n implies ts.take(i) == init.take(i) by {
            assert(ts.take(i) =~= init.take(i));
        }
        assert(substituted_all(ts, reg, rs, k).take(n) =~= substituted_all(init, reg, rs, k));
        lemma_outcomes_at_concat(sites_all(init, reg), sites(ts.last(), reg), rs, k);
    }
}

/// Fault isolation: when the expansion of the site numbered `j` fails, that site
/// becomes an error placeholder with its own span, and every other site becomes
/// what it would have become had the expansion of `j` succeeded.
pub proof fn lemma_fault_isolation(
    t: Tree,
    reg: Set<Seq<char>>,
    rs: Seq<Outcome>,
    j: int,
    error: ErrorView,
)
    requires
        rs.len() == site_count(t, reg),
        0 <= j < rs.len(),
    ensures
        ({
            let failing = rs.update(j, Outcome::Failed(error));
            let with_failure = at_sites(t, substituted(t, reg, failing, 0), reg);
            let without = at_sites(t, substituted(t, reg, rs, 0), reg);
            &&& with_failure.len() == without.len() == rs.len()
            &&& with_failure[j] == Tree { span: sites(t, reg)[j].span, node: Node::Error }
            &&& forall|i: int| 0 <= i < rs.len() && i != j ==> with_failure[i] == without[i]
            &&& forall|i: int|
                0 <= i < rs.len() && i != j && rs[i] is Expanded ==> with_failure[i].node
                    is MacroExpansion
        }),
{
    let failing = rs.update(j, Outcome::Failed(error));
    lemma_sites_in_order(t, reg, failing, 0);
    lemma_sites_in_order(t, reg, rs, 0);
}

/// The errors of a substitution are the failures among the outcomes, no more:
/// the list has one error for each failed outcome and none when all succeeded.
pub proof fn lemma_failures_len(ss: Seq<Tree>, rs: Seq<Outcome>, k: int)
    ensures
        failures(ss, rs, k).len() <= ss.len(),
        (forall|j: int| k <= j < k + ss.len() && 0 <= j < rs.len() ==> rs[j] is Expanded)
            ==> failures(ss, rs, k).len() == 0,
    decreases ss.len(),
{
    if ss.len() > 0 {
        lemma_failures_len(ss.drop_last(), rs, k);
    }
}

} // verus!
