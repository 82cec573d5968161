use vstd::prelude::*;

verus! {

/// An expression tree: a leaf symbol, or an operator applied to children.
#[derive(Debug, PartialEq, Eq)]
pub enum Tree {
    Leaf(String),
    Node(String, Vec<Tree>),
}

/// The mathematical value of a `Tree`.
#[verifier::ext_equal]
pub enum Term {
    Leaf(Seq<char>),
    Node(Seq<char>, Seq<Term>),
}

pub open spec fn term_of(t: Tree) -> Term
    decreases t,
{
    match t {
        Tree::Leaf(s) => Term::Leaf(s@),
        Tree::Node(op, kids) => Term::Node(
            op@,
            Seq::new(kids@.len(), |i: int| if 0 <= i < kids@.len() { term_of(kids@[i]) } else { Term::Leaf(Seq::empty()) }),
        ),
    }
}

impl View for Tree {
    type V = Term;

    open spec fn view(&self) -> Term {
        term_of(*self)
    }
}

/// The s-expression text of a term.
pub open spec fn sexpr(t: Term) -> Seq<char>
    decreases t, 0nat,
{
    match t {
        Term::Leaf(s) => s,
        Term::Node(op, kids) => seq!['('] + op + kids_text(kids, kids.len()) + seq![')'],
    }
}

/// The text of the first `n` children, each preceded by a space.
pub open spec fn kids_text(kids: Seq<Term>, n: nat) -> Seq<char>
    decreases kids, n,
{
    if n == 0 || n > kids.len() {
        Seq::empty()
    } else {
        kids_text(kids, (n - 1) as nat) + seq![' '] + sexpr(kids[n - 1])
    }
}


impl Tree {
    /// A leaf holding a copy of `s`.
    pub(crate) fn leaf(s: &str) -> (t: Tree)
        ensures
            t@ == Term::Leaf(s@),
    {
        Tree::Leaf(s.to_string())
    }

    /// A node with operator `op` and children `kids`.
    pub(crate) fn node(op: &str, kids: Vec<Tree>) -> (t: Tree)
        ensures
            t@ == Term::Node(op@, kids@.map_values(|k: Tree| k@)),
    {
        let t = Tree::Node(op.to_string(), kids);
        proof {
            assert(t@->Node_1 =~= kids@.map_values(|k: Tree| k@));
        }
        t
    }
}

/// The terms of a vector of trees.
pub open spec fn terms_of(kids: Seq<Tree>) -> Seq<Term> {
    kids.map_values(|k: Tree| k@)
}

pub proof fn lemma_node_view(op: String, kids: Vec<Tree>)
    ensures
        Tree::Node(op, kids)@ == Term::Node(op@, terms_of(kids@)),
{
    assert(Tree::Node(op, kids)@->Node_1 =~= terms_of(kids@));
}

/// The s-expression text of a tree: a leaf is its symbol, a node is
/// `(op k1 k2 ...)` with one space before each child.
pub fn tree_to_sexpr(t: &Tree) -> (s: String)
    ensures
        s@ == sexpr(t@),
    decreases t,
{
    match t {
        Tree::Leaf(x) => x.clone(),
        Tree::Node(op, kids) => {
            let ghost ks = terms_of(kids@);
            proof {
                lemma_node_view(*op, *kids);
            }
            let mut s = String::new();
            s.push('(');
            s.append(op.as_str());
            let n = kids.len();
            let mut i: usize = 0;
            while i < n
                invariant
                    i <= n == kids@.len() == ks.len(),
                    ks == terms_of(kids@),
                    *t is Node,
                    (*t)->Node_1 == *kids,
                    s@ == seq!['('] + op@ + kids_text(ks, i as nat),
                decreases n - i,
            {
                proof {
                    assert(decreases_to!(*t => (*t)->Node_1));
                    assert(decreases_to!(*kids => kids@));
                    assert(decreases_to!(kids@ => kids@[i as int]));
                }
                let k = tree_to_sexpr(&kids[i]);
                s.push(' ');
                s.append(k.as_str());
                i = i + 1;
                assert(s@ =~= seq!['('] + op@ + kids_text(ks, i as nat));
            }
            s.push(')');
            s
        }
    }
}

/// A deep copy of a tree.
pub fn tree_clone(t: &Tree) -> (r: Tree)
    ensures
        r@ == t@,
    decreases t,
{
    match t {
        Tree::Leaf(x) => Tree::Leaf(x.clone()),
        Tree::Node(op, kids) => {
            proof {
                lemma_node_view(*op, *kids);
            }
            let n = kids.len();
            let mut out: Vec<Tree> = Vec::new();
            let mut i: usize = 0;
            while i < n
                invariant
                    i <= n == kids@.len(),
                    *t is Node,
                    (*t)->Node_1 == *kids,
                    out@.len() == i,
                    forall|j: int| 0 <= j < i ==> (#[trigger] out@[j])@ == kids@[j]@,
                decreases n - i,
            {
                proof {
                    assert(decreases_to!(*t => (*t)->Node_1));
                    assert(decreases_to!(*kids => kids@));
                    assert(decreases_to!(kids@ => kids@[i as int]));
                }
                let k = tree_clone(&kids[i]);
                out.push(k);
                i = i + 1;
            }
            let o = op.clone();
            let ghost out_v = out;
            let r = Tree::Node(o, out);
            proof {
                lemma_node_view(o, out_v);
                assert(terms_of(out_v@) =~= terms_of(kids@));
            }
            r
        }
    }
}

impl Clone for Tree {
    /// A deep copy, by `tree_clone`.
    fn clone(&self) -> (r: Self)
        ensures
            r@ == self@,
    {
        tree_clone(self)
    }
}

/// Structural equality of two trees.
pub fn tree_eq(a: &Tree, b: &Tree) -> (r: bool)
    ensures
        r == (a@ == b@),
    decreases a,
{
    match (a, b) {
        (Tree::Leaf(x), Tree::Leaf(y)) => *x == *y,
        (Tree::Node(op1, k1), Tree::Node(op2, k2)) => {
            proof {
                lemma_node_view(*op1, *k1);
                lemma_node_view(*op2, *k2);
            }
            if !(*op1 == *op2) || k1.len() != k2.len() {
                proof {
                    if a@ == b@ {
                        assert(terms_of(k1@).len() == terms_of(k2@).len());
                    }
                }
                return false;
            }
            let n = k1.len();
            let mut i: usize = 0;
            while i < n
                invariant
                    i <= n == k1@.len() == k2@.len(),
                    *a is Node,
                    (*a)->Node_1 == *k1,
                    *b is Node,
                    (*b)->Node_1 == *k2,
                    a@ == Term::Node(op1@, terms_of(k1@)),
                    b@ == Term::Node(op2@, terms_of(k2@)),
                    op1@ == op2@,
                    forall|j: int| 0 <= j < i ==> (#[trigger] k1@[j])@ == k2@[j]@,
                decreases n - i,
            {
                proof {
                    assert(decreases_to!(*a => (*a)->Node_1));
                    assert(decreases_to!(*k1 => k1@));
                    assert(decreases_to!(k1@ => k1@[i as int]));
                }
                if !tree_eq(&k1[i], &k2[i]) {
                    proof {
                        if a@ == b@ {
                            assert(terms_of(k1@)[i as int] == terms_of(k2@)[i as int]);
                        }
                    }
                    return false;
                }
                i = i + 1;
            }
            proof {
                assert(terms_of(k1@) =~= terms_of(k2@));
            }
            true
        }
        _ => false,
    }
}

} // verus!
