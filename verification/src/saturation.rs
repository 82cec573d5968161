use vstd::prelude::*;
use egg::{AstSize, Extractor, RecExpr, Rewrite, Runner, SymbolLang};
use crate::tree::{Term, sexpr};
use crate::egg_terms::{Enode, RuleView, recexpr_nodes};
use crate::congruence::{cluster_count, one_line};
use crate::laws::{children_first, node_term};
use crate::rule::decimal;
use crate::site::{stats_text, stats_message, extract_message, iteration_label, rule_views};

verus! {

/// A finished egg `Runner` over `SymbolLang` with no analysis, with the
/// expression, the rules and the iteration limit it was started from;
/// opaque here (Verus does not take a declaration of `Runner` itself, whose
/// parameters are bound by egg's traits).
#[verifier::external_body]
pub struct Saturation {
    runner: Runner<SymbolLang, ()>,
    expr: RecExpr<SymbolLang>,
    rules: Vec<Rewrite<SymbolLang, ()>>,
    limit: usize,
}

/// What a run was started from, as it keeps it: the nodes of its
/// expression, its rules and its iteration limit.
pub uninterp spec fn saturation_start(s: Saturation) -> (Seq<Enode>, Seq<RuleView>, nat);

/// The number of iterations a run took.
pub uninterp spec fn saturation_iterations(s: Saturation) -> nat;

/// The number of classes of the run's e-graph.
pub uninterp spec fn saturation_classes(s: Saturation) -> nat;

/// The number of nodes of the run's e-graph.
pub uninterp spec fn saturation_nodes(s: Saturation) -> nat;

/// The terms that the class of the run's expression holds in the run's
/// e-graph: each is a node of the class whose children are terms of the
/// children's classes (a node without children is a leaf).
pub uninterp spec fn saturation_root_terms(s: Saturation) -> Set<Term>;

/// Whether egg can add `expr` to an e-graph: it has a node, and every
/// node's children come before it.
pub open spec fn addable(expr: RecExpr<SymbolLang>) -> bool {
    recexpr_nodes(expr).len() >= 1 && children_first(recexpr_nodes(expr), 0)
}

/// The term that an expression's nodes stand for, read from the last one.
pub open spec fn expr_term(nodes: Seq<Enode>) -> Term {
    node_term(nodes, nodes.len() - 1)
}

/// The number of nodes of a term written out as a tree.
pub open spec fn term_size(t: Term) -> nat
    decreases t, 0int,
{
    match t {
        Term::Leaf(_) => 1,
        Term::Node(_, kids) => 1 + kids_size(kids, kids.len() as int),
    }
}

/// The sizes of the first `n` children, added up.
pub open spec fn kids_size(kids: Seq<Term>, n: int) -> nat
    decreases kids, n,
{
    if n <= 0 || n > kids.len() {
        0
    } else {
        kids_size(kids, n - 1) + term_size(kids[n - 1])
    }
}

/// A size as egg's `AstSize` counts it, adding with saturation.
pub open spec fn capped(n: nat) -> nat {
    if n < usize::MAX { n } else { usize::MAX as nat }
}

/// The number of different terms among those of the nodes: what adding
/// the expression to an empty e-graph makes of it, one class and one node
/// for each.
pub open spec fn distinct_terms(nodes: Seq<Enode>) -> nat {
    Set::new(|t: Term| exists|i: int| 0 <= i < nodes.len() && node_term(nodes, i) == t).len()
}

/// Whether a label is printed by egg as it is: not empty, and none of the
/// characters that egg's s-expression printer puts in quotes.
pub open spec fn plain_label(s: Seq<char>) -> bool {
    s.len() > 0 && forall|i: int| 0 <= i < s.len() ==> {
        let c = #[trigger] s[i];
        c != '(' && c != ')' && c != ' ' && c != '\t' && c != '{' && c != '}' && c != '%'
    }
}

/// Whether every label of the term is plain.
pub open spec fn all_plain(t: Term) -> bool
    decreases t,
{
    match t {
        Term::Leaf(s) => plain_label(s),
        Term::Node(op, kids) => plain_label(op) && forall|i: int| 0 <= i < kids.len() ==> all_plain(#[trigger] kids[i]),
    }
}

/// Calls `Runner::default().with_expr(expr).with_iter_limit(limit).run(rules)`:
/// saturation from `expr` with at most `limit` iterations and egg's default
/// limits of 10 000 nodes and 5 seconds. The run also stops on the clock,
/// so what it reaches is left open; claimed: where it started, that it took
/// at least one iteration and, past the first, no more than `limit`, that
/// its e-graph has a class and at least one node per class, that the class
/// of `expr` still holds `expr` (egg only merges classes), and that with no
/// rules it takes one iteration and leaves the bare e-graph of `expr`.
/// (Nodes can merge, so their count may fall below that of `expr`.)
#[verifier::external_body]
fn run_saturation_limited(expr: &RecExpr<SymbolLang>, rules: &[Rewrite<SymbolLang, ()>], limit: usize) -> (s: Saturation)
    requires
        addable(*expr),
    ensures
        saturation_start(s) == (recexpr_nodes(*expr), rule_views(rules@), limit as nat),
        1 <= saturation_iterations(s),
        saturation_iterations(s) <= limit || saturation_iterations(s) == 1,
        1 <= saturation_classes(s) <= saturation_nodes(s),
        saturation_root_terms(s).contains(expr_term(recexpr_nodes(*expr))),
        rules@.len() == 0 ==> saturation_iterations(s) == 1
            && saturation_classes(s) == distinct_terms(recexpr_nodes(*expr))
            && saturation_nodes(s) == distinct_terms(recexpr_nodes(*expr)),
{
    let runner = Runner::default().with_expr(expr).with_iter_limit(limit).run(rules);
    Saturation { runner, expr: expr.clone(), rules: rules.to_vec(), limit }
}

/// The length of the run's `iterations`.
#[verifier::external_body]
fn iteration_count(s: &Saturation) -> (n: usize)
    ensures
        n == saturation_iterations(*s),
{
    s.runner.iterations.len()
}

/// Calls `EGraph::number_of_classes` on the run's e-graph.
#[verifier::external_body]
fn class_count(s: &Saturation) -> (n: usize)
    ensures
        n == saturation_classes(*s),
{
    s.runner.egraph.number_of_classes()
}

/// Calls `EGraph::total_number_of_nodes` on the run's e-graph.
#[verifier::external_body]
fn node_count(s: &Saturation) -> (n: usize)
    ensures
        n == saturation_nodes(*s),
{
    s.runner.egraph.total_number_of_nodes()
}

/// Whether the rule's right side is a pattern none of whose operators
/// breaks a line.
pub open spec fn applier_one_line(r: RuleView) -> bool {
    match r.2 {
        Some(ps) => forall|j: int| 0 <= j < ps.len() ==> (#[trigger] ps[j]).0 || one_line(ps[j].1),
        None => false,
    }
}

/// Whether no label that a run can put in its e-graph breaks a line: the
/// operators of its expression and of its rules' right sides (the only
/// nodes egg adds come from these).
pub open spec fn one_line_labels(start: (Seq<Enode>, Seq<RuleView>, nat)) -> bool {
    &&& forall|i: int| 0 <= i < start.0.len() ==> #[trigger] one_line(start.0[i].0)
    &&& forall|r: int| 0 <= r < start.1.len() ==> applier_one_line(#[trigger] start.1[r])
}

/// Calls `EGraph::dot` on the run's e-graph and renders it as Graphviz text.
/// Egg writes one `subgraph cluster_` line per class; when no label breaks
/// a line, those are the only places where a line starts that way, so the
/// text draws exactly the run's classes. (The order of the classes in it is
/// that of egg's hash map, so no more is stated.)
#[verifier::external_body]
fn saturation_dot(s: &Saturation) -> (d: String)
    ensures
        one_line_labels(saturation_start(*s)) ==> cluster_count(d@) == saturation_classes(*s),
{
    s.runner.egraph.dot().to_string()
}

/// Calls `Extractor::find_best` with `AstSize` on the class of the run's
/// expression: the cost and a least-cost term of that class, children
/// before parents with the root last. Its cost is its size, and no term of
/// the class costs less (sizes add with saturation, as `AstSize` does);
/// with no rules the class holds the expression alone. Which of several
/// smallest terms comes out depends on egg's hash maps, so no more is
/// stated.
#[verifier::external_body]
fn extract_smallest(s: &Saturation) -> (r: (usize, RecExpr<SymbolLang>))
    ensures
        addable(r.1),
        saturation_root_terms(*s).contains(expr_term(recexpr_nodes(r.1))),
        r.0 == capped(term_size(expr_term(recexpr_nodes(r.1)))),
        forall|t: Term| #[trigger] saturation_root_terms(*s).contains(t) ==> r.0 <= capped(term_size(t)),
        saturation_start(*s).1.len() == 0 ==> expr_term(recexpr_nodes(r.1)) == expr_term(saturation_start(*s).0),
{
    Extractor::new(&s.runner.egraph, AstSize).find_best(s.runner.roots[0])
}

/// Calls `RecExpr`'s `Display` (`to_string`): egg prints the term of the
/// last node as an s-expression, `(op child ...)`, a node without children
/// as its label alone, and puts a label in quotes when it is empty or holds
/// a space, a tab, a parenthesis, a brace or `%`; the text is claimed for
/// terms without such labels.
#[verifier::external_body]
fn recexpr_text(r: &RecExpr<SymbolLang>) -> (t: String)
    requires
        addable(*r),
    ensures
        all_plain(expr_term(recexpr_nodes(*r))) ==> t@ == sexpr(expr_term(recexpr_nodes(*r))),
{
    r.to_string()
}

/// What the page shows of one saturation run.
pub struct IterationView {
    /// The e-graph as Graphviz text.
    pub dot: String,
    /// The statistics line.
    pub stats: String,
    /// The smallest expression found, with its size.
    pub extract: String,
    /// The number of iterations the run took.
    pub iterations: usize,
    /// The number of classes of the e-graph.
    pub classes: usize,
    /// The number of nodes of the e-graph.
    pub nodes: usize,
    /// The size of the smallest expression found.
    pub cost: usize,
}

/// Whether `v` shows the run `s` and the term `best` extracted from it: a
/// term of the class of the run's expression, of least size there.
pub open spec fn shows(v: IterationView, s: Saturation, best: Term) -> bool {
    let (nodes, rules, _) = saturation_start(s);
    &&& v.iterations == saturation_iterations(s)
    &&& v.classes == saturation_classes(s)
    &&& v.nodes == saturation_nodes(s)
    &&& v.stats@ == stats_text(v.iterations as nat, v.classes as nat, v.nodes as nat)
    &&& (one_line_labels(saturation_start(s)) ==> cluster_count(v.dot@) == v.classes)
    &&& saturation_root_terms(s).contains(best)
    &&& saturation_root_terms(s).contains(expr_term(nodes))
    &&& v.cost == capped(term_size(best))
    &&& forall|t: Term| #[trigger] saturation_root_terms(s).contains(t) ==> v.cost <= capped(term_size(t))
    &&& (term_size(expr_term(nodes)) < usize::MAX ==> term_size(best) <= term_size(expr_term(nodes)))
    &&& (rules.len() == 0 ==> best == expr_term(nodes))
    &&& exists|text: Seq<char>| v.extract@ == text + "  (стоимость "@ + decimal(v.cost as nat) + ")"@
        && (all_plain(best) ==> text == sexpr(best))
}

/// Whether `v` shows a run of egg from the expression with `nodes`, with
/// `rules` and at most `limit` iterations: the run's counts (one iteration
/// at least and, past the first, no more than the limit; a class and a
/// node per class at least), and the smallest term in the expression's
/// class with its size; with no rules, one iteration over the bare e-graph,
/// and the expression itself.
pub open spec fn shows_run(v: IterationView, nodes: Seq<Enode>, rules: Seq<RuleView>, limit: nat) -> bool {
    &&& exists|s: Saturation, best: Term| saturation_start(s) == (nodes, rules, limit) && #[trigger] shows(v, s, best)
    &&& 1 <= v.iterations
    &&& v.iterations <= limit || v.iterations == 1
    &&& 1 <= v.classes <= v.nodes
    &&& v.cost >= 1
    &&& rules.len() == 0 ==> v.iterations == 1 && v.classes == distinct_terms(nodes) && v.nodes == distinct_terms(nodes)
}

/// The page's view of saturating `expr` with `rules` for at most `iter`
/// iterations (one at least): the e-graph, the counts of iterations,
/// classes and nodes, and the smallest expression in the class of `expr`.
pub fn show_iteration(expr: &RecExpr<SymbolLang>, rules: &[Rewrite<SymbolLang, ()>], iter: usize) -> (v: IterationView)
    requires
        addable(*expr),
    ensures
        shows_run(v, recexpr_nodes(*expr), rule_views(rules@), iter as nat),
{
    let run = run_saturation_limited(expr, rules, iter);
    let iterations = iteration_count(&run);
    let classes = class_count(&run);
    let nodes = node_count(&run);
    let stats = stats_message(iterations, classes, nodes);
    let (cost, best) = extract_smallest(&run);
    let text = recexpr_text(&best);
    let extract = extract_message(text.as_str(), cost);
    let dot = saturation_dot(&run);
    let v = IterationView { dot, stats, extract, iterations, classes, nodes, cost };
    proof {
        let b = expr_term(recexpr_nodes(best));
        lemma_term_size_positive(b);
        assert(shows(v, run, b));
    }
    v
}

proof fn lemma_term_size_positive(t: Term)
    ensures
        term_size(t) >= 1,
        capped(term_size(t)) >= 1,
{
}

/// The iteration limit of egg's `Runner::default()`.
pub const RUNNER_ITER_LIMIT: usize = 30;

/// A full run of `expr` with `rules` under egg's default limits (at most
/// 30 iterations): the number of iterations it took, the slider's label
/// for it, and the page's view of a run that stops at that number.
pub fn run_full(expr: &RecExpr<SymbolLang>, rules: &[Rewrite<SymbolLang, ()>]) -> (r: (usize, String, IterationView))
    requires
        addable(*expr),
    ensures
        exists|s: Saturation| saturation_start(s) == (recexpr_nodes(*expr), rule_views(rules@), 30nat)
            && #[trigger] saturation_iterations(s) == r.0,
        1 <= r.0 <= 30,
        rules@.len() == 0 ==> r.0 == 1,
        r.1@ == decimal(r.0 as nat) + " из "@ + decimal(r.0 as nat),
        shows_run(r.2, recexpr_nodes(*expr), rule_views(rules@), r.0 as nat),
{
    let run = run_saturation_limited(expr, rules, RUNNER_ITER_LIMIT);
    let max_iter = iteration_count(&run);
    let label = iteration_label(max_iter);
    let view = show_iteration(expr, rules, max_iter);
    (max_iter, label, view)
}

} // verus!
