use vstd::prelude::*;
use crate::tree::{Tree, Term, lemma_node_view, terms_of, tree_clone, tree_eq, tree_to_sexpr, sexpr};
use crate::text::{chars_of, trim, trim_chars, string_of, slice_of};
use crate::parse::{parse_text, parse_any};
use crate::rule::{rule_parse, parse_rule_str, find_char_from};

verus! {

broadcast use vstd::string::group_string_axioms;

/// A pattern variable: a symbol that starts with `?`.
pub open spec fn is_var(s: Seq<char>) -> bool {
    s.len() > 0 && s[0] == '?'
}

/// Matching `pat` against `subj`, extending the bindings `sub`: whether it
/// matched, and the bindings afterwards. A variable matches anything the
/// first time and, once bound, only its binding; children are matched from
/// left to right, and all of them are tried even after one fails.
pub open spec fn match_term(pat: Term, subj: Term, sub: Map<Seq<char>, Term>) -> (bool, Map<Seq<char>, Term>)
    decreases pat, 0int,
{
    match pat {
        Term::Leaf(v) => if is_var(v) {
            if sub.contains_key(v) {
                (sub[v] == subj, sub)
            } else {
                (true, sub.insert(v, subj))
            }
        } else {
            match subj {
                Term::Leaf(b) => (v == b, sub),
                Term::Node(..) => (false, sub),
            }
        },
        Term::Node(op1, k1) => match subj {
            Term::Node(op2, k2) => if op1 == op2 && k1.len() == k2.len() {
                match_kids(k1, k2, sub, k1.len() as int)
            } else {
                (false, sub)
            },
            Term::Leaf(_) => (false, sub),
        },
    }
}

/// Matching the first `n` pattern children against the first `n` subject children.
pub open spec fn match_kids(ps: Seq<Term>, ss: Seq<Term>, sub: Map<Seq<char>, Term>, n: int) -> (bool, Map<Seq<char>, Term>)
    decreases ps, n,
{
    if n <= 0 || n > ps.len() || n > ss.len() {
        (true, sub)
    } else {
        let (ok, s1) = match_kids(ps, ss, sub, n - 1);
        let (ok2, s2) = match_term(ps[n - 1], ss[n - 1], s1);
        (ok && ok2, s2)
    }
}

/// `pat` with its bound variables replaced by their bindings.
pub open spec fn instance(pat: Term, sub: Map<Seq<char>, Term>) -> Term
    decreases pat,
{
    match pat {
        Term::Leaf(v) => if is_var(v) && sub.contains_key(v) {
            sub[v]
        } else {
            Term::Leaf(v)
        },
        Term::Node(op, kids) => Term::Node(
            op,
            Seq::new(kids.len(), |i: int| if 0 <= i < kids.len() { instance(kids[i], sub) } else { Term::Leaf(Seq::empty()) }),
        ),
    }
}

/// A rewrite rule: its name, left side and right side.
pub type Rule = (Seq<char>, Term, Term);

/// The first rule, from the `i`-th on, whose left side matches `t` itself,
/// applied to `t`.
pub open spec fn rewrite_at_root(t: Term, rules: Seq<Rule>, i: int) -> Option<Term>
    decreases rules.len() - i,
{
    if i < 0 || i >= rules.len() {
        None
    } else {
        let (ok, sub) = match_term(rules[i].1, t, Map::empty());
        if ok {
            Some(instance(rules[i].2, sub))
        } else {
            rewrite_at_root(t, rules, i + 1)
        }
    }
}

/// One step of top-down rewriting: the first rule that matches `t` itself
/// rewrites it; otherwise the first child (from the left) that can take a
/// step takes it.
pub open spec fn rewrite_step(t: Term, rules: Seq<Rule>) -> Option<Term>
    decreases t, 0int,
{
    match rewrite_at_root(t, rules, 0) {
        Some(x) => Some(x),
        None => match t {
            Term::Leaf(_) => None,
            Term::Node(op, kids) => step_in_kids(op, kids, rules, 0),
        },
    }
}

/// A step in the first child, from the `j`-th on, that can take one.
pub open spec fn step_in_kids(op: Seq<char>, kids: Seq<Term>, rules: Seq<Rule>, j: int) -> Option<Term>
    decreases kids, kids.len() - j,
{
    if j < 0 || j >= kids.len() {
        None
    } else {
        match rewrite_step(kids[j], rules) {
            Some(nk) => Some(Term::Node(op, kids.update(j, nk))),
            None => step_in_kids(op, kids, rules, j + 1),
        }
    }
}

// ---------------------------------------------------------------------------
// bindings as a list of pairs

/// The bindings held by a list of pairs; a later pair overrides an earlier one.
/// Bindings are kept as pairs rather than in a `HashMap<String, Tree>`:
/// vstd specifies a hash map's lookups only for keys that obey its key
/// model (`obeys_key_model`), which it states for integer and `bool` keys
/// and not for `String`, so lookups in such a map could not be proved. A pair
/// is looked up from the end (`lookup`), which reads the list exactly as
/// this map does.
pub open spec fn bindings(v: Seq<(String, Tree)>) -> Map<Seq<char>, Term>
    decreases v.len(),
{
    if v.len() == 0 {
        Map::empty()
    } else {
        bindings(v.drop_last()).insert(v.last().0@, v.last().1@)
    }
}

proof fn lemma_bindings_tail(v: Seq<(String, Tree)>, i: int, key: Seq<char>)
    requires
        0 <= i <= v.len(),
        forall|j: int| i <= j < v.len() ==> (#[trigger] v[j]).0@ != key,
    ensures
        bindings(v).contains_key(key) == bindings(v.take(i)).contains_key(key),
        bindings(v).contains_key(key) ==> bindings(v)[key] == bindings(v.take(i))[key],
    decreases v.len() - i,
{
    if i < v.len() {
        assert(v.drop_last().take(i) =~= v.take(i));
        lemma_bindings_tail(v.drop_last(), i, key);
    } else {
        assert(v.take(i) =~= v);
    }
}

/// The binding of `key`, searching from the most recent pair.
fn lookup(v: &Vec<(String, Tree)>, key: &String) -> (r: Option<usize>)
    ensures
        match r {
            Some(i) => i < v@.len() && bindings(v@).contains_key(key@) && bindings(v@)[key@] == v@[i as int].1@,
            None => !bindings(v@).contains_key(key@),
        },
{
    let mut i = v.len();
    while i > 0
        invariant
            i <= v@.len(),
            forall|j: int| i <= j < v@.len() ==> (#[trigger] v@[j]).0@ != key@,
        decreases i,
    {
        if v[i - 1].0 == *key {
            proof {
                lemma_bindings_tail(v@, i as int, key@);
                assert(v@.take(i as int).drop_last() =~= v@.take(i - 1));
            }
            return Some(i - 1);
        }
        i = i - 1;
    }
    proof {
        lemma_bindings_tail(v@, 0, key@);
        assert(v@.take(0) =~= Seq::<(String, Tree)>::empty());
    }
    None
}

// ---------------------------------------------------------------------------
// matching and instantiation

/// Matches `pat` against `subj`, adding bindings to `subst`.
fn match_tree(pat: &Tree, subj: &Tree, subst: &mut Vec<(String, Tree)>) -> (r: bool)
    ensures
        (r, bindings(final(subst)@)) == match_term(pat@, subj@, bindings(old(subst)@)),
    decreases pat,
{
    if let Tree::Leaf(v) = pat {
        if starts_with_question(v) {
            return match lookup(subst, v) {
                Some(i) => tree_eq(&subst[i].1, subj),
                None => {
                    let ghost before = subst@;
                    subst.push((v.clone(), tree_clone(subj)));
                    assert(subst@.drop_last() =~= before);
                    true
                },
            };
        }
        return match subj {
            Tree::Leaf(b) => *v == *b,
            Tree::Node(..) => false,
        };
    }
    match (pat, subj) {
        (Tree::Node(op1, k1), Tree::Node(op2, k2)) => {
            proof {
                lemma_node_view(*op1, *k1);
                lemma_node_view(*op2, *k2);
            }
            if !(*op1 == *op2) || k1.len() != k2.len() {
                return false;
            }
            let ghost ps = terms_of(k1@);
            let ghost ss = terms_of(k2@);
            let ghost start = bindings(subst@);
            let n = k1.len();
            let mut ok = true;
            let mut i: usize = 0;
            while i < n
                invariant
                    i <= n == k1@.len() == k2@.len() == ps.len() == ss.len(),
                    ps == terms_of(k1@),
                    ss == terms_of(k2@),
                    *pat is Node,
                    (*pat)->Node_1 == *k1,
                    (ok, bindings(subst@)) == match_kids(ps, ss, start, i as int),
                decreases n - i,
            {
                proof {
                    assert(decreases_to!(*pat => (*pat)->Node_1));
                    assert(decreases_to!(*k1 => k1@));
                    assert(decreases_to!(k1@ => k1@[i as int]));
                }
                let m = match_tree(&k1[i], &k2[i], subst);
                ok = ok && m;
                i = i + 1;
            }
            ok
        },
        _ => false,
    }
}

fn starts_with_question(s: &String) -> (r: bool)
    ensures
        r == is_var(s@),
{
    let t = s.as_str();
    if t.unicode_len() == 0 {
        false
    } else {
        t.get_char(0) == '?'
    }
}

/// `pat` with its bound variables replaced by (copies of) their bindings.
fn instantiate(pat: &Tree, subst: &Vec<(String, Tree)>) -> (r: Tree)
    ensures
        r@ == instance(pat@, bindings(subst@)),
    decreases pat,
{
    match pat {
        Tree::Leaf(v) => {
            let ghost sub = bindings(subst@);
            assert(pat@ == Term::Leaf(v@));
            if starts_with_question(v) {
                if let Some(i) = lookup(subst, v) {
                    let r = tree_clone(&subst[i].1);
                    assert(instance(pat@, sub) == sub[v@]);
                    return r;
                }
            }
            let r = Tree::leaf(v.as_str());
            assert(instance(pat@, sub) == Term::Leaf(v@));
            r
        },
        Tree::Node(op, kids) => {
            proof {
                lemma_node_view(*op, *kids);
            }
            let ghost sub = bindings(subst@);
            let n = kids.len();
            let mut out: Vec<Tree> = Vec::new();
            let mut i: usize = 0;
            while i < n
                invariant
                    i <= n == kids@.len(),
                    *pat is Node,
                    (*pat)->Node_1 == *kids,
                    sub == bindings(subst@),
                    out@.len() == i,
                    forall|j: int| 0 <= j < i ==> (#[trigger] out@[j])@ == instance(kids@[j]@, sub),
                decreases n - i,
            {
                proof {
                    assert(decreases_to!(*pat => (*pat)->Node_1));
                    assert(decreases_to!(*kids => kids@));
                    assert(decreases_to!(kids@ => kids@[i as int]));
                }
                let k = instantiate(&kids[i], subst);
                out.push(k);
                i = i + 1;
            }
            let ghost outv = out@;
            let r = Tree::node(op.as_str(), out);
            proof {
                let ks = terms_of(kids@);
                let inst = instance(pat@, sub);
                assert(inst->Node_1.len() == ks.len());
                assert(outv.map_values(|k: Tree| k@) =~= inst->Node_1);
                assert(r@ =~= inst);
            }
            r
        },
    }
}

/// The rules as the specification sees them.
pub open spec fn rules_view(rules: Seq<(String, Tree, Tree)>) -> Seq<Rule> {
    rules.map_values(|r: (String, Tree, Tree)| (r.0@, r.1@, r.2@))
}

/// One top-down rewriting step: the first matching rule rewrites the tree
/// itself, else the leftmost child that can be rewritten is.
#[verifier::loop_isolation(false)]
fn apply_once(t: &Tree, rules: &Vec<(String, Tree, Tree)>) -> (r: Option<Tree>)
    ensures
        match r {
            Some(x) => rewrite_step(t@, rules_view(rules@)) == Some(x@),
            None => rewrite_step(t@, rules_view(rules@)) is None,
        },
    decreases t,
{
    let ghost rs = rules_view(rules@);
    let m = rules.len();
    let mut i: usize = 0;
    while i < m
        invariant
            i <= m == rules@.len() == rs.len(),
            rs == rules_view(rules@),
            rewrite_at_root(t@, rs, 0) == rewrite_at_root(t@, rs, i as int),
        decreases m - i,
    {
        let mut subst: Vec<(String, Tree)> = Vec::new();
        assert(bindings(subst@) =~= Map::<Seq<char>, Term>::empty());
        if match_tree(&rules[i].1, t, &mut subst) {
            return Some(instantiate(&rules[i].2, &subst));
        }
        i = i + 1;
    }
    if let Tree::Node(op, kids) = t {
        proof {
            lemma_node_view(*op, *kids);
        }
        let ghost ks = terms_of(kids@);
        let n = kids.len();
        let mut j: usize = 0;
        while j < n
            invariant
                j <= n == kids@.len() == ks.len(),
                ks == terms_of(kids@),
                rs == rules_view(rules@),
                *t is Node,
                (*t)->Node_1 == *kids,
                step_in_kids(op@, ks, rs, 0) == step_in_kids(op@, ks, rs, j as int),
            decreases n - j,
        {
            proof {
                assert(decreases_to!(*t => (*t)->Node_1));
                assert(decreases_to!(*kids => kids@));
                assert(decreases_to!(kids@ => kids@[j as int]));
            }
            if let Some(nk) = apply_once(&kids[j], rules) {
                let mut new_kids: Vec<Tree> = Vec::new();
                let mut k: usize = 0;
                while k < n
                    invariant
                        k <= n == kids@.len(),
                        new_kids@.len() == k,
                        forall|q: int| 0 <= q < k ==> (#[trigger] new_kids@[q])@ == kids@[q]@,
                    decreases n - k,
                {
                    new_kids.push(tree_clone(&kids[k]));
                    k = k + 1;
                }
                let ghost nkv = nk@;
                new_kids.set(j, nk);
                let ghost nv = new_kids@;
                let r = Tree::node(op.as_str(), new_kids);
                assert(nv.map_values(|k: Tree| k@) =~= ks.update(j as int, nkv));
                return Some(r);
            }
            j = j + 1;
        }
    }
    None
}

// ---------------------------------------------------------------------------
// the rewriter

/// The most steps the rewriter takes before it gives up.
pub const STEP_LIMIT: usize = 2000;

/// The lines of `s`, split at each `\n` (a `\r` before it stays at the end
/// of its line, and every line is trimmed before it is read).
pub open spec fn split_lines(s: Seq<char>) -> Seq<Seq<char>>
    decreases s.len(),
{
    match find_char_from(s, '\n', 0) {
        Some(i) => if 0 <= i < s.len() {
            seq![s.take(i)] + split_lines(s.skip(i + 1))
        } else {
            seq![s]
        },
        None => seq![s],
    }
}

/// A (trimmed) line that holds no rule: empty, or a `#` comment.
pub open spec fn is_skipped(line: Seq<char>) -> bool {
    line.len() == 0 || line[0] == '#'
}

/// `done` in front of the rules of `r`, or the error of `r`.
pub open spec fn append_rules(done: Seq<Rule>, r: Result<Seq<Rule>, Seq<char>>) -> Result<Seq<Rule>, Seq<char>> {
    match r {
        Ok(rs) => Ok(done + rs),
        Err(e) => Err(e),
    }
}

/// The rules of the lines from the `i`-th on, `idx` rules having come
/// before; or the message of the first line that fails.
pub open spec fn rules_from(ls: Seq<Seq<char>>, i: int, idx: nat) -> Result<Seq<Rule>, Seq<char>>
    decreases ls.len() - i,
{
    if i < 0 || i >= ls.len() {
        Ok(seq![])
    } else {
        let line = trim(ls[i]);
        if is_skipped(line) {
            rules_from(ls, i + 1, idx)
        } else {
            match rule_parse(line, idx + 1) {
                Err(e) => Err(e),
                Ok((name, l, r)) => match parse_text(l) {
                    Err(e) => Err(e),
                    Ok(lt) => match parse_text(r) {
                        Err(e) => Err(e),
                        Ok(rt) => append_rules(seq![(name, lt, rt)], rules_from(ls, i + 1, idx + 1)),
                    },
                },
            }
        }
    }
}

/// The rules that a rules text holds, one per line.
pub open spec fn rules_of_text(text: Seq<char>) -> Result<Seq<Rule>, Seq<char>> {
    rules_from(split_lines(text), 0, 0)
}

/// Rewriting `t` from step `steps` on: whether it reached a term that no
/// rule rewrites, the number of steps taken, and the last term.
pub open spec fn run_from(t: Term, rules: Seq<Rule>, steps: nat) -> (bool, nat, Term)
    decreases STEP_LIMIT - steps,
{
    if steps >= STEP_LIMIT {
        (false, steps, t)
    } else {
        match rewrite_step(t, rules) {
            None => (true, steps, t),
            Some(nt) => if steps + 1 >= STEP_LIMIT {
                (false, (steps + 1) as nat, nt)
            } else {
                run_from(nt, rules, (steps + 1) as nat)
            },
        }
    }
}

/// What the rewriter reports for an expression and a rules text:
/// (ok, error, converged, steps, best).
pub open spec fn naive_outcome(expr: Seq<char>, rules: Seq<char>) -> (bool, Seq<char>, bool, nat, Seq<char>) {
    match parse_text(expr) {
        Err(e) => (false, e, false, 0, Seq::empty()),
        Ok(t) => match rules_of_text(rules) {
            Err(e) => (false, e, false, 0, Seq::empty()),
            Ok(rs) => {
                let (converged, steps, last) = run_from(t, rs, 0);
                (true, Seq::empty(), converged, steps, sexpr(last))
            },
        },
    }
}

/// The outcome of greedy rewriting.
#[derive(Clone, Debug, Default)]
pub struct NaiveOut {
    pub ok: bool,
    pub error: String,
    pub converged: bool,
    pub steps: usize,
    pub best: String,
}

proof fn lemma_find_newline(s: Seq<char>, i: int)
    requires
        0 <= i <= s.len(),
        forall|j: int| 0 <= j < i ==> (#[trigger] s[j]) != '\n',
    ensures
        find_char_from(s, '\n', 0) == find_char_from(s, '\n', i),
    decreases i,
{
    if i > 0 {
        lemma_find_newline(s, i - 1);
    }
}

/// The character sequences of a vector of lines.
pub open spec fn line_views(ls: Seq<Vec<char>>) -> Seq<Seq<char>> {
    ls.map_values(|l: Vec<char>| l@)
}

/// The lines of `cs`, split at each `\n`.
pub(crate) fn split_lines_of(cs: &Vec<char>) -> (out: Vec<Vec<char>>)
    ensures
        line_views(out@) == split_lines(cs@),
{
    let n = cs.len();
    let mut out: Vec<Vec<char>> = Vec::new();
    let mut start: usize = 0;
    let mut i: usize = 0;
    assert(cs@.skip(0) =~= cs@);
    assert(line_views(out@) + split_lines(cs@) =~= split_lines(cs@));
    while i < n
        invariant
            start <= i <= n == cs@.len(),
            forall|j: int| start <= j < i ==> (#[trigger] cs@[j]) != '\n',
            split_lines(cs@) == line_views(out@) + split_lines(cs@.skip(start as int)),
        decreases n - i,
    {
        if cs[i] == '\n' {
            let ghost rest = cs@.skip(start as int);
            let ghost before = line_views(out@);
            let ghost s0 = start as int;
            proof {
                lemma_find_newline(rest, i - start);
                assert(rest.skip(i - start + 1) =~= cs@.skip(i + 1));
                assert(rest.take(i - start) =~= cs@.subrange(start as int, i as int));
                assert(split_lines(rest) == seq![rest.take(i - start)] + split_lines(cs@.skip(i + 1)));
            }
            let line = slice_of(cs, start, i);
            out.push(line);
            start = i + 1;
            assert(line_views(out@) =~= before.push(rest.take(i - s0)));
            assert(split_lines(cs@) =~= line_views(out@) + split_lines(cs@.skip(start as int)));
        }
        i = i + 1;
    }
    let ghost rest = cs@.skip(start as int);
    let ghost before = line_views(out@);
    proof {
        lemma_find_newline(rest, n - start);
        assert(rest =~= cs@.subrange(start as int, n as int));
    }
    let line = slice_of(cs, start, n);
    out.push(line);
    assert(line_views(out@) =~= before.push(rest));
    out
}

fn failure(e: String) -> (out: NaiveOut)
    ensures
        out.ok == false,
        out.error@ == e@,
        out.converged == false,
        out.steps == 0,
        out.best@ == Seq::<char>::empty(),
{
    NaiveOut { ok: false, error: e, converged: false, steps: 0, best: String::new() }
}

/// Greedy top-down rewriting of `expr` with the rules of `rules` (one rule
/// per line, as `parse_rule_str` reads them; empty lines and lines that
/// start with `#` hold none), for comparison with the e-graph.
#[verifier::loop_isolation(false)]
pub fn naive_rewrite(expr: &str, rules: &str) -> (out: NaiveOut)
    ensures
        (out.ok, out.error@, out.converged, out.steps as nat, out.best@) == naive_outcome(expr@, rules@),
{
    let mut tree = match parse_any(expr) {
        Ok(t) => t,
        Err(e) => return failure(e),
    };
    let ghost t0 = tree@;
    let rs_chars = chars_of(rules);
    let ls = split_lines_of(&rs_chars);
    let ghost lsv = line_views(ls@);
    let mut parsed: Vec<(String, Tree, Tree)> = Vec::new();
    let mut idx: usize = 0;
    let nl = ls.len();
    let mut i: usize = 0;
    assert(append_rules(rules_view(parsed@), rules_from(lsv, 0, 0)) =~= rules_from(lsv, 0, 0)) by {
        match rules_from(lsv, 0, 0) {
            Ok(r) => { assert(rules_view(parsed@) + r =~= r); },
            Err(_) => {},
        }
    }
    while i < nl
        invariant
            i <= nl == ls@.len() == lsv.len(),
            lsv == line_views(ls@),
            lsv == split_lines(rules@),
            idx <= i,
            rules_from(lsv, 0, 0) == append_rules(rules_view(parsed@), rules_from(lsv, i as int, idx as nat)),
        decreases nl - i,
    {
        let line = trim_chars(&ls[i]);
        let ghost lv = line@;
        assert(lv == trim(lsv[i as int]));
        if line.len() == 0 || line[0] == '#' {
            i = i + 1;
        } else {
            idx = idx + 1;
            let text = string_of(&line, 0, line.len());
            assert(line@.subrange(0, line@.len() as int) =~= line@);
            let (name, lhs_s, rhs_s) = match parse_rule_str(text.as_str(), idx) {
                Ok(x) => x,
                Err(e) => return failure(e),
            };
            let lhs = match parse_any(lhs_s.as_str()) {
                Ok(t) => t,
                Err(e) => return failure(e),
            };
            let rhs = match parse_any(rhs_s.as_str()) {
                Ok(t) => t,
                Err(e) => return failure(e),
            };
            let ghost before = rules_view(parsed@);
            let ghost entry = (name@, lhs@, rhs@);
            parsed.push((name, lhs, rhs));
            assert(rules_view(parsed@) =~= before + seq![entry]);
            i = i + 1;
            assert(rules_from(lsv, 0, 0) == append_rules(rules_view(parsed@), rules_from(lsv, i as int, idx as nat))) by {
                match rules_from(lsv, i as int, idx as nat) {
                    Ok(r) => { assert(before + (seq![entry] + r) =~= (before + seq![entry]) + r); },
                    Err(_) => {},
                }
            }
        }
    }
    let ghost rs = rules_view(parsed@);
    assert(rules_of_text(rules@) == Ok::<Seq<Rule>, Seq<char>>(rs)) by {
        assert(rs + seq![] =~= rs);
    }
    let mut steps: usize = 0;
    loop
        invariant
            steps < STEP_LIMIT,
            rs == rules_view(parsed@),
            run_from(t0, rs, 0) == run_from(tree@, rs, steps as nat),
        decreases STEP_LIMIT - steps,
    {
        match apply_once(&tree, &parsed) {
            Some(nt) => {
                tree = nt;
                steps = steps + 1;
                if steps >= STEP_LIMIT {
                    return NaiveOut {
                        ok: true,
                        error: String::new(),
                        converged: false,
                        steps,
                        best: tree_to_sexpr(&tree),
                    };
                }
            },
            None => {
                return NaiveOut {
                    ok: true,
                    error: String::new(),
                    converged: true,
                    steps,
                    best: tree_to_sexpr(&tree),
                };
            },
        }
    }
}

} // verus!
