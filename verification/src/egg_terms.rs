use vstd::prelude::*;
use egg::{Id, Pattern, RecExpr, Rewrite, SymbolLang};
use crate::tree::{Tree, Term, lemma_node_view, terms_of};

verus! {

broadcast use vstd::string::group_string_axioms;

/// egg's `RecExpr`, a flat list of nodes; opaque here.
#[verifier::external_type_specification]
#[verifier::external_body]
#[verifier::reject_recursive_types(L)]
pub struct ExRecExpr<L>(RecExpr<L>);

/// egg's `SymbolLang` node: an operator symbol and child ids; opaque here.
#[verifier::external_type_specification]
#[verifier::external_body]
pub struct ExSymbolLang(SymbolLang);

/// egg's `Pattern`; opaque here.
#[verifier::external_type_specification]
#[verifier::external_body]
#[verifier::reject_recursive_types(L)]
pub struct ExPattern<L>(Pattern<L>);

/// egg's `Rewrite` rule; opaque here.
#[verifier::external_type_specification]
#[verifier::external_body]
#[verifier::reject_recursive_types(L)]
#[verifier::reject_recursive_types(N)]
pub struct ExRewrite<L, N>(Rewrite<L, N>);

/// An e-node as plain values: its operator and the indices of its children.
pub type Enode = (Seq<char>, Seq<nat>);

/// What a `SymbolLang` node holds: its operator's text and its children.
pub uninterp spec fn symbol_node_parts(n: SymbolLang) -> Enode;

/// What a `RecExpr` holds: its nodes, in order.
pub uninterp spec fn recexpr_nodes(r: RecExpr<SymbolLang>) -> Seq<Enode>;

/// The values of a sequence of indices.
pub open spec fn index_values(v: Seq<usize>) -> Seq<nat> {
    v.map_values(|i: usize| i as nat)
}

/// Calls `SymbolLang::leaf`: a node with operator `op` and no children.
#[verifier::external_body]
pub(crate) fn symbol_leaf(op: &str) -> (n: SymbolLang)
    ensures
        symbol_node_parts(n) == (op@, Seq::<nat>::empty()),
{
    SymbolLang::leaf(op)
}

/// Calls `SymbolLang::new`: a node with operator `op` and the given
/// children (converted to `Id`s one for one; an `Id` holds 32 bits, so each
/// child index must fit in a `u32`).
#[verifier::external_body]
pub(crate) fn symbol_node(op: &str, children: Vec<usize>) -> (n: SymbolLang)
    requires
        forall|k: int| 0 <= k < children@.len() ==> #[trigger] children@[k] <= u32::MAX,
    ensures
        symbol_node_parts(n) == (op@, index_values(children@)),
{
    SymbolLang::new(op, children.into_iter().map(Id::from).collect())
}

/// Calls `RecExpr::default`: an expression with no nodes.
#[verifier::external_body]
fn recexpr_empty() -> (r: RecExpr<SymbolLang>)
    ensures
        recexpr_nodes(r) == Seq::<Enode>::empty(),
{
    RecExpr::default()
}

/// Calls `RecExpr::add`, which pushes the node and returns the index of
/// the new last node. Its children must already be in the expression
/// (a debug assertion of `add` checks this), and the new index must fit in
/// egg's 32-bit `Id`.
#[verifier::external_body]
fn recexpr_add(r: &mut RecExpr<SymbolLang>, n: SymbolLang) -> (id: usize)
    requires
        recexpr_nodes(*old(r)).len() <= u32::MAX,
        forall|k: int| 0 <= k < symbol_node_parts(n).1.len() ==>
            (#[trigger] symbol_node_parts(n).1[k]) < recexpr_nodes(*old(r)).len(),
    ensures
        recexpr_nodes(*final(r)) == recexpr_nodes(*old(r)).push(symbol_node_parts(n)),
        id == recexpr_nodes(*old(r)).len(),
{
    usize::from(r.add(n))
}

/// The nodes of `t`, children before parents, for an expression that
/// already holds `base` nodes.
pub open spec fn flatten(t: Term, base: nat) -> Seq<Enode>
    decreases t, 0int,
{
    match t {
        Term::Leaf(s) => seq![(s, Seq::<nat>::empty())],
        Term::Node(op, kids) => {
            let (nodes, ids) = flatten_kids(kids, base, kids.len() as int);
            nodes.push((op, ids))
        },
    }
}

/// The nodes of the first `n` children, one after another, and the index
/// of each child's root.
pub open spec fn flatten_kids(kids: Seq<Term>, base: nat, n: int) -> (Seq<Enode>, Seq<nat>)
    decreases kids, n,
{
    if n <= 0 || n > kids.len() {
        (Seq::empty(), Seq::empty())
    } else {
        let (nodes, ids) = flatten_kids(kids, base, n - 1);
        let sub = flatten(kids[n - 1], base + nodes.len());
        (nodes + sub, ids.push((base + nodes.len() + sub.len() - 1) as nat))
    }
}

proof fn lemma_flatten_nonempty(t: Term, base: nat)
    ensures
        flatten(t, base).len() >= 1,
{
}

proof fn lemma_flatten_kids_ids(kids: Seq<Term>, base: nat, n: int)
    ensures
        flatten_kids(kids, base, n).1.len() == (if n <= 0 || n > kids.len() { 0 } else { n }),
        forall|k: int| 0 <= k < flatten_kids(kids, base, n).1.len() ==>
            (#[trigger] flatten_kids(kids, base, n).1[k]) < base + flatten_kids(kids, base, n).0.len(),
    decreases n,
{
    if 0 < n <= kids.len() {
        lemma_flatten_kids_ids(kids, base, n - 1);
        let (nodes, ids) = flatten_kids(kids, base, n - 1);
        lemma_flatten_nonempty(kids[n - 1], base + nodes.len());
    }
}

/// How far the nodes of the first `n` children reach grows with `n`.
pub proof fn lemma_flatten_kids_grow(kids: Seq<Term>, base: nat, m: int, n: int)
    requires
        0 <= m <= n <= kids.len(),
    ensures
        flatten_kids(kids, base, m).0.len() <= flatten_kids(kids, base, n).0.len(),
    decreases n - m,
{
    if m < n {
        lemma_flatten_kids_grow(kids, base, m, n - 1);
    }
}

/// How many nodes a term has does not depend on where they are added.
pub proof fn lemma_flatten_len(t: Term, base: nat)
    ensures
        flatten(t, base).len() == flatten(t, 0).len(),
    decreases t, 0int,
{
    if let Term::Node(op, kids) = t {
        lemma_flatten_kids_len(kids, base, kids.len() as int);
    }
}

proof fn lemma_flatten_kids_len(kids: Seq<Term>, base: nat, n: int)
    ensures
        flatten_kids(kids, base, n).0.len() == flatten_kids(kids, 0, n).0.len(),
    decreases kids, n,
{
    if 0 < n <= kids.len() {
        lemma_flatten_kids_len(kids, base, n - 1);
        let a = flatten_kids(kids, base, n - 1).0;
        let b = flatten_kids(kids, 0, n - 1).0;
        lemma_flatten_len(kids[n - 1], base + a.len());
        lemma_flatten_len(kids[n - 1], 0 + b.len());
    }
}

/// Adds the nodes of `t` to `r`; returns the index of its root.
fn add_tree(r: &mut RecExpr<SymbolLang>, t: &Tree) -> (id: usize)
    requires
        recexpr_nodes(*old(r)).len() + flatten(t@, recexpr_nodes(*old(r)).len()).len() <= u32::MAX + 1,
    ensures
        recexpr_nodes(*final(r)) == recexpr_nodes(*old(r)) + flatten(t@, recexpr_nodes(*old(r)).len()),
        id + 1 == recexpr_nodes(*final(r)).len(),
    decreases t,
{
    let ghost start = recexpr_nodes(*r);
    match t {
        Tree::Leaf(s) => {
            let n = symbol_leaf(s.as_str());
            let id = recexpr_add(r, n);
            assert(recexpr_nodes(*r) =~= start + flatten(t@, start.len()));
            id
        },
        Tree::Node(op, kids) => {
            proof {
                lemma_node_view(*op, *kids);
            }
            let ghost ks = terms_of(kids@);
            let ghost base = start.len();
            let n = kids.len();
            let mut ids: Vec<usize> = Vec::new();
            let mut i: usize = 0;
            while i < n
                invariant
                    i <= n == kids@.len() == ks.len(),
                    ks == terms_of(kids@),
                    base == start.len(),
                    *t is Node,
                    (*t)->Node_1 == *kids,
                    t@ == Term::Node(op@, ks),
                    base + flatten(t@, base).len() <= u32::MAX + 1,
                    recexpr_nodes(*r) == start + flatten_kids(ks, base, i as int).0,
                    index_values(ids@) == flatten_kids(ks, base, i as int).1,
                decreases n - i,
            {
                proof {
                    assert(decreases_to!(*t => (*t)->Node_1));
                    assert(decreases_to!(*kids => kids@));
                    assert(decreases_to!(kids@ => kids@[i as int]));
                }
                let ghost before = recexpr_nodes(*r);
                proof {
                    lemma_flatten_kids_grow(ks, base, i + 1, n as int);
                    assert(ks[i as int] == kids@[i as int]@);
                }
                let id = add_tree(r, &kids[i]);
                ids.push(id);
                proof {
                    let (nodes, prev_ids) = flatten_kids(ks, base, i as int);
                    let sub = flatten(ks[i as int], base + nodes.len());
                    assert(ks[i as int] == kids@[i as int]@);
                    assert(before.len() == base + nodes.len());
                    assert(flatten_kids(ks, base, i + 1) == (nodes + sub, prev_ids.push((base + nodes.len() + sub.len() - 1) as nat)));
                    assert(recexpr_nodes(*r) =~= start + (nodes + sub));
                    assert(index_values(ids@) =~= prev_ids.push((base + nodes.len() + sub.len() - 1) as nat));
                }
                i = i + 1;
            }
            proof {
                lemma_flatten_kids_ids(ks, base, n as int);
                assert forall|k: int| 0 <= k < ids@.len() implies #[trigger] ids@[k] <= u32::MAX by {
                    assert(index_values(ids@)[k] == ids@[k] as nat);
                }
            }
            let node = symbol_node(op.as_str(), ids);
            let id = recexpr_add(r, node);
            assert(recexpr_nodes(*r) =~= start + flatten(t@, start.len()));
            id
        },
    }
}

/// The number of nodes of `t` in egg's form, if it is at most `limit`.
pub fn count_nodes(t: &Tree, limit: u64) -> (r: Option<u64>)
    ensures
        match r {
            Some(c) => c == flatten(t@, 0).len() && c <= limit,
            None => flatten(t@, 0).len() > limit,
        },
    decreases t,
{
    match t {
        Tree::Leaf(_) => if limit >= 1 { Some(1) } else { None },
        Tree::Node(op, kids) => {
            proof {
                lemma_node_view(*op, *kids);
            }
            let ghost ks = terms_of(kids@);
            let n = kids.len();
            let mut total: u64 = 0;
            let mut i: usize = 0;
            while i < n
                invariant
                    i <= n == kids@.len() == ks.len(),
                    ks == terms_of(kids@),
                    *t is Node,
                    (*t)->Node_1 == *kids,
                    t@ == Term::Node(op@, ks),
                    total == flatten_kids(ks, 0, i as int).0.len(),
                    total <= limit,
                decreases n - i,
            {
                proof {
                    assert(decreases_to!(*t => (*t)->Node_1));
                    assert(decreases_to!(*kids => kids@));
                    assert(decreases_to!(kids@ => kids@[i as int]));
                    assert(ks[i as int] == kids@[i as int]@);
                    lemma_flatten_len(ks[i as int], total as nat);
                    lemma_flatten_kids_grow(ks, 0, i + 1, n as int);
                }
                match count_nodes(&kids[i], limit - total) {
                    Some(c) => {
                        total = total + c;
                    },
                    None => {
                        return None;
                    },
                }
                i = i + 1;
            }
            if total < limit {
                Some(total + 1)
            } else {
                None
            }
        },
    }
}

/// The tree as an egg `RecExpr`, children before parents (used to build
/// the e-graph). egg numbers nodes with 32-bit ids, so the tree can have at
/// most 2^32 nodes.
pub fn tree_to_recexpr(t: &Tree) -> (r: RecExpr<SymbolLang>)
    requires
        flatten(t@, 0).len() <= u32::MAX + 1,
    ensures
        recexpr_nodes(r) == flatten(t@, 0),
{
    let mut r = recexpr_empty();
    proof {
        lemma_flatten_len(t@, 0);
    }
    add_tree(&mut r, t);
    assert(recexpr_nodes(r) =~= flatten(t@, 0));
    r
}

// ---------------------------------------------------------------------------
// rewrite rules

/// A node of a pattern as plain values: whether it is a variable, its text
/// (the variable, such as `?x`, or the operator) and the indices of its
/// children.
pub type PatNode = (bool, Seq<char>, Seq<nat>);

/// The nodes of a pattern's `ast`, in order, children before parents.
pub uninterp spec fn pattern_nodes(p: Pattern<SymbolLang>) -> Seq<PatNode>;

/// What parsing `s` as an egg pattern gives: the nodes of the pattern, or
/// the `Debug` text of the parse error.
pub uninterp spec fn pattern_parse(s: Seq<char>) -> Result<Seq<PatNode>, Seq<char>>;

/// The variables among the first `n` nodes, without repeats, in order of
/// first occurrence (what `Pattern::vars` lists, each shown as text).
pub open spec fn vars_upto(nodes: Seq<PatNode>, n: int) -> Seq<Seq<char>>
    decreases n,
{
    if n <= 0 || n > nodes.len() {
        Seq::empty()
    } else {
        let before = vars_upto(nodes, n - 1);
        let node = nodes[n - 1];
        if node.0 && !before.contains(node.1) {
            before.push(node.1)
        } else {
            before
        }
    }
}

/// The variables of a pattern with these nodes.
pub open spec fn vars_of(nodes: Seq<PatNode>) -> Seq<Seq<char>> {
    vars_upto(nodes, nodes.len() as int)
}

/// Calls `<Pattern<SymbolLang> as FromStr>::from_str`; an error is turned
/// into its `Debug` text.
#[verifier::external_body]
fn parse_pattern(s: &str) -> (r: Result<Pattern<SymbolLang>, String>)
    ensures
        match r {
            Ok(p) => pattern_parse(s@) == Ok::<Seq<PatNode>, Seq<char>>(pattern_nodes(p)),
            Err(e) => pattern_parse(s@) == Err::<Seq<PatNode>, Seq<char>>(e@),
        },
{
    match s.parse::<Pattern<SymbolLang>>() {
        Ok(p) => Ok(p),
        Err(e) => Err(format!("{e:?}")),
    }
}

/// The first variable of `used` that `bound` does not hold.
pub open spec fn first_unbound(used: Seq<Seq<char>>, bound: Seq<Seq<char>>) -> Seq<char>
    decreases used.len(),
{
    if used.len() == 0 {
        Seq::empty()
    } else if !bound.contains(used[0]) {
        used[0]
    } else {
        first_unbound(used.drop_first(), bound)
    }
}

/// Whether every variable of `used` is in `bound`.
pub open spec fn all_bound(used: Seq<Seq<char>>, bound: Seq<Seq<char>>) -> bool {
    forall|k: int| 0 <= k < used.len() ==> bound.contains(#[trigger] used[k])
}

/// The message of `Rewrite::new` for a right side with a variable that the
/// left side does not bind.
pub open spec fn unbound_var_message(name: Seq<char>, used: Seq<Seq<char>>, bound: Seq<Seq<char>>) -> Seq<char> {
    "Rewrite "@ + name + " refers to unbound var "@ + first_unbound(used, bound)
}

/// A rewrite as plain values: its name and the nodes of its searcher's
/// and its applier's pattern (`get_pattern_ast`; `None` for a side that
/// is not a pattern).
pub type RuleView = (Seq<char>, Option<Seq<PatNode>>, Option<Seq<PatNode>>);

/// What a rewrite holds: its `name` as text, and the pattern of each side.
pub uninterp spec fn rewrite_parts(r: Rewrite<SymbolLang, ()>) -> RuleView;

/// Calls `Rewrite::new`: it succeeds exactly when every variable of the
/// applier is a variable of the searcher, and the rewrite then holds the
/// given name and the two patterns as its sides; otherwise it names the
/// first variable of the applier that is not bound.
#[verifier::external_body]
fn new_rewrite(name: &str, searcher: Pattern<SymbolLang>, applier: Pattern<SymbolLang>) -> (r: Result<Rewrite<SymbolLang, ()>, String>)
    ensures
        r is Ok <==> all_bound(vars_of(pattern_nodes(applier)), vars_of(pattern_nodes(searcher))),
        r matches Ok(rw) ==> rewrite_parts(rw) == (name@, Some(pattern_nodes(searcher)), Some(pattern_nodes(applier))),
        r matches Err(e) ==> e@ == unbound_var_message(name@, vars_of(pattern_nodes(applier)), vars_of(pattern_nodes(searcher))),
{
    Rewrite::new(name.to_string(), searcher, applier)
}

/// The part of a rule that egg refused.
pub enum RulePart {
    Left,
    Right,
    Whole,
}

/// The message for a part of a rule that egg refused: the part's text and
/// egg's own account of the problem.
pub open spec fn rule_part_message(part: RulePart, text: Seq<char>, detail: Seq<char>) -> Seq<char> {
    match part {
        RulePart::Left => "левая часть «"@ + text + "»: "@ + detail,
        RulePart::Right => "правая часть «"@ + text + "»: "@ + detail,
        RulePart::Whole => "правило «"@ + text + "»: "@ + detail,
    }
}

/// The message for a part of a rule that egg refused.
pub fn rule_error_message(part: RulePart, text: &str, detail: &str) -> (m: String)
    ensures
        m@ == rule_part_message(part, text@, detail@),
{
    let mut m = match part {
        RulePart::Left => String::from_str("левая часть «"),
        RulePart::Right => String::from_str("правая часть «"),
        RulePart::Whole => String::from_str("правило «"),
    };
    m.append(text);
    m.append("»: ");
    m.append(detail);
    m
}

/// What building the rule `name: lhs => rhs` (s-expression sides) gives:
/// the rule, or the error message.
pub open spec fn rule_build(name: Seq<char>, lhs: Seq<char>, rhs: Seq<char>) -> Result<RuleView, Seq<char>> {
    match pattern_parse(lhs) {
        Err(d) => Err(rule_part_message(RulePart::Left, lhs, d)),
        Ok(l) => match pattern_parse(rhs) {
            Err(d) => Err(rule_part_message(RulePart::Right, rhs, d)),
            Ok(r) => if all_bound(vars_of(r), vars_of(l)) {
                Ok((name, Some(l), Some(r)))
            } else {
                Err(rule_part_message(RulePart::Whole, name, unbound_var_message(name, vars_of(r), vars_of(l))))
            },
        },
    }
}

/// Builds an egg rewrite from its name and its two sides in s-expression
/// form: its searcher is the pattern of `lhs`, its applier that of `rhs`.
pub fn make_rule(name: &str, lhs: &str, rhs: &str) -> (r: Result<Rewrite<SymbolLang, ()>, String>)
    ensures
        match r {
            Ok(rw) => rule_build(name@, lhs@, rhs@) == Ok::<RuleView, Seq<char>>(rewrite_parts(rw)),
            Err(e) => rule_build(name@, lhs@, rhs@) == Err::<RuleView, Seq<char>>(e@),
        },
{
    let searcher = match parse_pattern(lhs) {
        Ok(p) => p,
        Err(d) => return Err(rule_error_message(RulePart::Left, lhs, d.as_str())),
    };
    let applier = match parse_pattern(rhs) {
        Ok(p) => p,
        Err(d) => return Err(rule_error_message(RulePart::Right, rhs, d.as_str())),
    };
    match new_rewrite(name, searcher, applier) {
        Ok(rw) => Ok(rw),
        Err(d) => Err(rule_error_message(RulePart::Whole, name, d.as_str())),
    }
}

} // verus!
