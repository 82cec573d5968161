use vstd::prelude::*;
use egg::{EGraph, Id, SymbolLang};
use crate::egg_terms::{Enode, index_values, symbol_node_parts, symbol_leaf, symbol_node};

verus! {

/// An egg `EGraph` over `SymbolLang` with no analysis; opaque here (Verus
/// does not take a declaration of `EGraph` itself, whose parameters are
/// bound by egg's traits).
#[verifier::external_body]
pub struct SymbolGraph {
    graph: EGraph<SymbolLang, ()>,
}

/// The nodes of an e-graph, by id: the node each id was made for.
pub uninterp spec fn egraph_nodes(g: SymbolGraph) -> Seq<Enode>;

/// The representative of the class of `id` (what `EGraph::find` returns).
pub uninterp spec fn egraph_find(g: SymbolGraph, id: nat) -> nat;

/// Whether two ids are in one class.
pub open spec fn same_class(g: SymbolGraph, i: nat, j: nat) -> bool {
    egraph_find(g, i) == egraph_find(g, j)
}

/// Whether every class holds one id.
pub open spec fn all_apart(g: SymbolGraph) -> bool {
    forall|i: nat, j: nat|
        i < egraph_nodes(g).len() && j < egraph_nodes(g).len() && #[trigger] same_class(g, i, j) ==> i == j
}

/// The ids that represent their class.
pub open spec fn class_roots(g: SymbolGraph) -> Set<nat> {
    Set::new(|i: nat| i < egraph_nodes(g).len() && egraph_find(g, i) == i)
}

/// Whether the nodes `i` and `j` have one operator and children that
/// `rel` relates one by one.
pub open spec fn congruent_nodes(nodes: Seq<Enode>, rel: spec_fn(nat, nat) -> bool, i: nat, j: nat) -> bool {
    &&& nodes[i as int].0 == nodes[j as int].0
    &&& nodes[i as int].1.len() == nodes[j as int].1.len()
    &&& forall|k: int| 0 <= k < nodes[i as int].1.len() ==> #[trigger] rel(nodes[i as int].1[k], nodes[j as int].1[k])
}

/// Whether `rel` is an equivalence on the ids of `nodes` that relates
/// congruent nodes.
pub open spec fn is_congruence(nodes: Seq<Enode>, rel: spec_fn(nat, nat) -> bool) -> bool {
    &&& forall|i: nat| i < nodes.len() ==> #[trigger] rel(i, i)
    &&& forall|i: nat, j: nat| #[trigger] rel(i, j) ==> rel(j, i)
    &&& forall|i: nat, j: nat, k: nat| #[trigger] rel(i, j) && #[trigger] rel(j, k) ==> rel(i, k)
    &&& forall|i: nat, j: nat|
        i < nodes.len() && j < nodes.len() && #[trigger] congruent_nodes(nodes, rel, i, j) ==> rel(i, j)
}

/// Whether `rel` relates every pair of ids below `n` that `base` relates.
pub open spec fn includes(rel: spec_fn(nat, nat) -> bool, base: spec_fn(nat, nat) -> bool, n: nat) -> bool {
    forall|i: nat, j: nat| i < n && j < n && #[trigger] base(i, j) ==> rel(i, j)
}

/// Whether the least congruence on `nodes` that holds `base` relates `i`
/// and `j`.
pub open spec fn congruence_closure(nodes: Seq<Enode>, base: spec_fn(nat, nat) -> bool, i: nat, j: nat) -> bool {
    forall|rel: spec_fn(nat, nat) -> bool|
        #[trigger] is_congruence(nodes, rel) && includes(rel, base, nodes.len()) ==> rel(i, j)
}

/// Calls `EGraph::default`: an e-graph with no nodes.
#[verifier::external_body]
fn egraph_new() -> (g: SymbolGraph)
    ensures
        egraph_nodes(g) == Seq::<Enode>::empty(),
{
    SymbolGraph { graph: EGraph::default() }
}

/// Calls `EGraph::add` on an e-graph in which no two ids are in one
/// class, with a node that it does not hold yet: the node gets the next
/// id, in a class of its own. (`add` reads the children's classes, so they
/// must be ids of the graph; an `Id` holds 32 bits.)
#[verifier::external_body]
fn egraph_add(g: &mut SymbolGraph, n: SymbolLang) -> (id: usize)
    requires
        egraph_nodes(*old(g)).len() < u32::MAX,
        all_apart(*old(g)),
        !egraph_nodes(*old(g)).contains(symbol_node_parts(n)),
        forall|k: int| 0 <= k < symbol_node_parts(n).1.len() ==>
            (#[trigger] symbol_node_parts(n).1[k]) < egraph_nodes(*old(g)).len(),
    ensures
        egraph_nodes(*final(g)) == egraph_nodes(*old(g)).push(symbol_node_parts(n)),
        id == egraph_nodes(*old(g)).len(),
        all_apart(*final(g)),
{
    usize::from(g.graph.add(n))
}

/// Calls `EGraph::union`: the classes of `a` and `b` become one; the
/// result says whether they were apart.
#[verifier::external_body]
fn egraph_union(g: &mut SymbolGraph, a: usize, b: usize) -> (merged: bool)
    requires
        a < egraph_nodes(*old(g)).len(),
        b < egraph_nodes(*old(g)).len(),
    ensures
        egraph_nodes(*final(g)) == egraph_nodes(*old(g)),
        merged == !same_class(*old(g), a as nat, b as nat),
        forall|i: nat, j: nat| i < egraph_nodes(*old(g)).len() && j < egraph_nodes(*old(g)).len() ==>
            (#[trigger] same_class(*final(g), i, j) <==> {
                ||| same_class(*old(g), i, j)
                ||| same_class(*old(g), i, a as nat) && same_class(*old(g), b as nat, j)
                ||| same_class(*old(g), i, b as nat) && same_class(*old(g), a as nat, j)
            }),
{
    g.graph.union(Id::from(a), Id::from(b))
}

/// Calls `EGraph::rebuild`, which restores congruence: afterwards two ids
/// are in one class exactly when the least congruence that holds the
/// classes before relates them. (Each class is represented by one of its
/// ids, as always in egg's union-find.)
#[verifier::external_body]
fn egraph_rebuild(g: &mut SymbolGraph)
    ensures
        egraph_nodes(*final(g)) == egraph_nodes(*old(g)),
        forall|i: nat| i < egraph_nodes(*old(g)).len() ==> {
            &&& #[trigger] egraph_find(*final(g), i) < egraph_nodes(*old(g)).len()
            &&& egraph_find(*final(g), egraph_find(*final(g), i)) == egraph_find(*final(g), i)
        },
        forall|i: nat, j: nat| i < egraph_nodes(*old(g)).len() && j < egraph_nodes(*old(g)).len() ==>
            (#[trigger] same_class(*final(g), i, j) <==> congruence_closure(
                egraph_nodes(*old(g)),
                |x: nat, y: nat| same_class(*old(g), x, y),
                i,
                j,
            )),
{
    g.graph.rebuild();
}

/// Calls `EGraph::find`: the representative of the class of `id`, itself
/// an id of the graph that represents its own class.
#[verifier::external_body]
fn egraph_find_id(g: &SymbolGraph, id: usize) -> (r: usize)
    requires
        id < egraph_nodes(*g).len(),
    ensures
        r == egraph_find(*g, id as nat),
        r < egraph_nodes(*g).len(),
        egraph_find(*g, r as nat) == r,
{
    usize::from(g.graph.find(Id::from(id)))
}

/// Calls `EGraph::number_of_classes`: one class per representative.
#[verifier::external_body]
fn egraph_class_count(g: &SymbolGraph) -> (c: usize)
    ensures
        c == class_roots(*g).len(),
{
    g.graph.number_of_classes()
}

/// The line egg's Graphviz text opens each class with, from its newline
/// before up to the class id.
pub open spec fn cluster_header() -> Seq<char> {
    "\n  subgraph cluster_"@
}

/// How many times `p` stands in `d` from position `i` on.
pub open spec fn occurrences_from(d: Seq<char>, p: Seq<char>, i: int) -> nat
    decreases d.len() - i,
{
    if i < 0 || i >= d.len() || i + p.len() > d.len() {
        0
    } else {
        (if d.subrange(i, i + p.len()) == p { 1nat } else { 0nat }) + occurrences_from(d, p, i + 1)
    }
}

/// The number of classes drawn in a Graphviz text of egg.
pub open spec fn cluster_count(d: Seq<char>) -> nat {
    occurrences_from(d, cluster_header(), 0)
}

/// Whether a label has no line break.
pub open spec fn one_line(s: Seq<char>) -> bool {
    forall|k: int| 0 <= k < s.len() ==> s[k] != '\n'
}

/// Calls `EGraph::dot` and renders it as Graphviz text. Egg writes one
/// `subgraph cluster_` line per class of the graph; when no node's label
/// breaks a line, those are the only places where a line starts that way,
/// so the text draws exactly the graph's classes. (The order of the classes
/// in it is that of egg's hash map, so no more is stated.)
#[verifier::external_body]
fn egraph_dot(g: &SymbolGraph) -> (s: String)
    ensures
        (forall|i: int| 0 <= i < egraph_nodes(*g).len() ==> #[trigger] one_line(egraph_nodes(*g)[i].0))
            ==> cluster_count(s@) == class_roots(*g).len(),
{
    g.graph.dot().to_string()
}

/// The nodes of the demonstration, by id: `a`, `b`, `c`, `f(a, b)`, `f(a, c)`.
pub open spec fn demo_nodes() -> Seq<Enode> {
    seq![
        ("a"@, Seq::<nat>::empty()),
        ("b"@, Seq::<nat>::empty()),
        ("c"@, Seq::<nat>::empty()),
        ("f"@, seq![0nat, 1nat]),
        ("f"@, seq![0nat, 2nat]),
    ]
}

/// A label of the class of each id before rebuilding: the declared
/// equalities `a = b` (`ab`) and `b = c` (`bc`) joined.
pub open spec fn declared_class(ab: bool, bc: bool, i: nat) -> nat {
    if i == 1 && ab {
        0
    } else if i == 2 && bc {
        if ab { 0 } else { 1 }
    } else {
        i
    }
}

/// A label of the class of each id after rebuilding: congruence also puts
/// `f(a, c)` with `f(a, b)` once `b = c`.
pub open spec fn demo_class(ab: bool, bc: bool, i: nat) -> nat {
    if i == 4 && bc {
        3
    } else {
        declared_class(ab, bc, i)
    }
}

/// Rebuilding the declared classes of the demonstration gives the classes
/// of `demo_class`: congruence adds `f(a, b) = f(a, c)` exactly when
/// `b = c`.
proof fn lemma_demo_closure(ab: bool, bc: bool, before: SymbolGraph, after: SymbolGraph)
    requires
        forall|i: nat, j: nat| i < 5 && j < 5 ==>
            (#[trigger] same_class(before, i, j) <==> declared_class(ab, bc, i) == declared_class(ab, bc, j)),
        forall|i: nat, j: nat| i < 5 && j < 5 ==>
            (#[trigger] same_class(after, i, j) <==> congruence_closure(
                demo_nodes(),
                |x: nat, y: nat| same_class(before, x, y),
                i,
                j,
            )),
    ensures
        forall|i: nat, j: nat| i < 5 && j < 5 ==>
            (#[trigger] same_class(after, i, j) <==> demo_class(ab, bc, i) == demo_class(ab, bc, j)),
{
    reveal_strlit("a");
    reveal_strlit("b");
    reveal_strlit("c");
    reveal_strlit("f");
    let nodes = demo_nodes();
    assert(nodes.len() == 5);
    let base = |x: nat, y: nat| same_class(before, x, y);
    let label = |x: nat, y: nat| demo_class(ab, bc, x) == demo_class(ab, bc, y);
    assert forall|i: nat, j: nat| i < 5 && j < 5 && #[trigger] congruent_nodes(nodes, label, i, j) implies label(i, j) by {
        if i < 3 || j < 3 {
            assert(nodes[i as int].0[0] == nodes[j as int].0[0]);
        } else if i != j {
            assert(label(nodes[i as int].1[1], nodes[j as int].1[1]));
        }
    }
    assert(is_congruence(nodes, label));
    assert(includes(label, base, 5));
    assert forall|i: nat, j: nat| i < 5 && j < 5 implies
        (#[trigger] same_class(after, i, j) <==> demo_class(ab, bc, i) == demo_class(ab, bc, j)) by {
        if label(i, j) {
            assert forall|rel: spec_fn(nat, nat) -> bool|
                #[trigger] is_congruence(nodes, rel) && includes(rel, base, nodes.len()) implies rel(i, j) by {
                if !base(i, j) {
                    assert(base(1, 2));
                    assert(rel(0, 0));
                    assert(rel(1, 2));
                    assert(rel(nodes[3].1[0], nodes[4].1[0]));
                    assert(rel(nodes[3].1[1], nodes[4].1[1]));
                    assert(congruent_nodes(nodes, rel, 3, 4));
                    assert(rel(3, 4));
                    assert(rel(4, 3));
                }
            }
        }
    }
}

/// With the classes of `demo_class`, the demonstration's graph has one
/// representative per class.
proof fn lemma_demo_count(ab: bool, bc: bool, g: SymbolGraph)
    requires
        egraph_nodes(g).len() == 5,
        forall|i: nat| i < 5 ==> {
            &&& #[trigger] egraph_find(g, i) < 5
            &&& egraph_find(g, egraph_find(g, i)) == egraph_find(g, i)
        },
        forall|i: nat, j: nat| i < 5 && j < 5 ==>
            (#[trigger] same_class(g, i, j) <==> demo_class(ab, bc, i) == demo_class(ab, bc, j)),
    ensures
        class_roots(g).len() == 5 - (if ab { 1int } else { 0int }) - (if bc { 2int } else { 0int }),
{
    broadcast use vstd::set::group_set_axioms;
    let f0 = egraph_find(g, 0);
    let f1 = egraph_find(g, 1);
    let f2 = egraph_find(g, 2);
    let f3 = egraph_find(g, 3);
    let f4 = egraph_find(g, 4);
    let roots = Set::<nat>::empty().insert(f0).insert(f1).insert(f2).insert(f3).insert(f4);
    assert forall|i: nat| class_roots(g).contains(i) implies roots.contains(i) by {
        assert(same_class(g, i, egraph_find(g, i)));
    }
    assert forall|i: nat| roots.contains(i) implies class_roots(g).contains(i) by {
    }
    assert(class_roots(g) =~= roots);
    assert(same_class(g, 0, 1) == ab);
    assert(same_class(g, 1, 2) == bc);
    assert(same_class(g, 0, 2) == (ab && bc));
    assert(!same_class(g, 0, 3));
    assert(!same_class(g, 1, 3));
    assert(!same_class(g, 2, 3));
    assert(!same_class(g, 0, 4));
    assert(!same_class(g, 1, 4));
    assert(!same_class(g, 2, 4));
    assert(same_class(g, 3, 4) == bc);
}

/// The e-graph of `a`, `b`, `c`, `f(a, b)` and `f(a, c)`, after declaring
/// `a = b` (if `ab`) and `b = c` (if `bc`) and rebuilding; whether
/// `f(a, b)` and `f(a, c)` are then in one class; how many classes there
/// are; and the graph as Graphviz text.
pub fn congruence_demo(ab: bool, bc: bool) -> (r: (SymbolGraph, bool, usize, String))
    ensures
        egraph_nodes(r.0) == demo_nodes(),
        forall|i: nat, j: nat| i < 5 && j < 5 ==>
            (#[trigger] same_class(r.0, i, j) <==> demo_class(ab, bc, i) == demo_class(ab, bc, j)),
        r.1 == same_class(r.0, 3, 4),
        r.1 == bc,
        r.2 == class_roots(r.0).len(),
        r.2 == 5 - (if ab { 1int } else { 0int }) - (if bc { 2int } else { 0int }),
        cluster_count(r.3@) == r.2,
{
    proof {
        reveal_strlit("a");
        reveal_strlit("b");
        reveal_strlit("c");
        reveal_strlit("f");
    }
    let mut g = egraph_new();
    assert("a"@ != "b"@ && "a"@ != "c"@ && "b"@ != "c"@) by {
        assert("a"@[0] != "b"@[0] && "a"@[0] != "c"@[0] && "b"@[0] != "c"@[0]);
    }
    let a = egraph_add(&mut g, symbol_leaf("a"));
    let b = egraph_add(&mut g, symbol_leaf("b"));
    let c = egraph_add(&mut g, symbol_leaf("c"));
    let kids_ab = vec![a, b];
    assert(index_values(kids_ab@) =~= seq![0nat, 1nat]);
    let fab = egraph_add(&mut g, symbol_node("f", kids_ab));
    let kids_ac = vec![a, c];
    assert(index_values(kids_ac@) =~= seq![0nat, 2nat]);
    assert(seq![0nat, 1nat] != seq![0nat, 2nat]) by {
        assert(seq![0nat, 1nat][1] != seq![0nat, 2nat][1]);
    }
    let fac = egraph_add(&mut g, symbol_node("f", kids_ac));
    assert(egraph_nodes(g) =~= demo_nodes());
    if ab {
        egraph_union(&mut g, a, b);
    }
    if bc {
        egraph_union(&mut g, b, c);
    }
    let ghost before = g;
    assert forall|i: nat, j: nat| i < 5 && j < 5 implies
        (#[trigger] same_class(before, i, j) <==> declared_class(ab, bc, i) == declared_class(ab, bc, j)) by {
    }
    egraph_rebuild(&mut g);
    proof {
        lemma_demo_closure(ab, bc, before, g);
        assert(same_class(g, 3, 4) == bc);
    }
    let same = egraph_find_id(&g, fab) == egraph_find_id(&g, fac);
    let classes = egraph_class_count(&g);
    proof {
        lemma_demo_count(ab, bc, g);
    }
    assert forall|i: int| 0 <= i < egraph_nodes(g).len() implies #[trigger] one_line(egraph_nodes(g)[i].0) by {
        assert(egraph_nodes(g)[i].0.len() == 1);
    }
    let dot = egraph_dot(&g);
    (g, same, classes, dot)
}

} // verus!
