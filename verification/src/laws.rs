use vstd::prelude::*;
use crate::tree::{Term, sexpr};
use crate::parse::{parse_text, empty_input_message, Token, expr_at, expr_rest, term_at, term_rest, factor_at};
use crate::text::{trim, trim_start, trim_end, is_white_space, lemma_trim_twice};
use crate::rule::{rule_parse, is_name_char, find_char_from, find_arrow_from, declared_name};
use crate::canon::{law_canonical_form_reads_back, printable, lemma_printed_reads_back, printed_char, lemma_sexpr_chars};
use crate::egg_terms::{Enode, flatten, flatten_kids};
use crate::naive::{is_var, match_term, match_kids, instance, rewrite_at_root, rewrite_step, step_in_kids, run_from, rules_of_text, naive_outcome, Rule, STEP_LIMIT};

verus! {

// ---------------------------------------------------------------------------
// matching and instantiation

/// Every pattern variable of `p` has a binding in `sub`.
pub open spec fn vars_bound(p: Term, sub: Map<Seq<char>, Term>) -> bool
    decreases p,
{
    match p {
        Term::Leaf(v) => is_var(v) ==> sub.contains_key(v),
        Term::Node(_, kids) => forall|i: int| 0 <= i < kids.len() ==> vars_bound(#[trigger] kids[i], sub),
    }
}

/// Once all of a pattern's variables are bound, more bindings change
/// neither that nor its instance.
proof fn lemma_instance_stable(p: Term, sub: Map<Seq<char>, Term>, more: Map<Seq<char>, Term>)
    requires
        vars_bound(p, sub),
        sub.submap_of(more),
    ensures
        vars_bound(p, more),
        instance(p, sub) == instance(p, more),
    decreases p,
{
    match p {
        Term::Leaf(v) => {},
        Term::Node(op, kids) => {
            assert forall|i: int| 0 <= i < kids.len() implies vars_bound(#[trigger] kids[i], more) by {
                lemma_instance_stable(kids[i], sub, more);
            }
            let a = instance(p, sub)->Node_1;
            let b = instance(p, more)->Node_1;
            assert forall|i: int| 0 <= i < kids.len() implies #[trigger] a[i] == b[i] by {
                lemma_instance_stable(kids[i], sub, more);
            }
            assert(a =~= b);
        },
    }
}

proof fn lemma_match(pat: Term, subj: Term, sub: Map<Seq<char>, Term>)
    ensures
        sub.submap_of(match_term(pat, subj, sub).1),
        match_term(pat, subj, sub).0 ==> vars_bound(pat, match_term(pat, subj, sub).1)
            && instance(pat, match_term(pat, subj, sub).1) == subj,
    decreases pat, 0int,
{
    match pat {
        Term::Leaf(v) => {},
        Term::Node(op1, k1) => {
            if let Term::Node(op2, k2) = subj {
                if op1 == op2 && k1.len() == k2.len() {
                    lemma_match_kids(k1, k2, sub, k1.len() as int);
                    let (ok, s2) = match_kids(k1, k2, sub, k1.len() as int);
                    if ok {
                        let a = instance(pat, s2)->Node_1;
                        assert forall|i: int| 0 <= i < k1.len() implies #[trigger] a[i] == k2[i] by {
                            assert(vars_bound(k1[i], s2));
                        }
                        assert(a =~= k2);
                        assert(vars_bound(pat, s2));
                    }
                }
            }
        },
    }
}

proof fn lemma_match_kids(ps: Seq<Term>, ss: Seq<Term>, sub: Map<Seq<char>, Term>, n: int)
    requires
        0 <= n <= ps.len(),
        n <= ss.len(),
    ensures
        sub.submap_of(match_kids(ps, ss, sub, n).1),
        match_kids(ps, ss, sub, n).0 ==> forall|j: int| 0 <= j < n ==>
            vars_bound(#[trigger] ps[j], match_kids(ps, ss, sub, n).1)
            && instance(ps[j], match_kids(ps, ss, sub, n).1) == ss[j],
    decreases ps, n,
{
    if n > 0 {
        lemma_match_kids(ps, ss, sub, n - 1);
        let (ok, s1) = match_kids(ps, ss, sub, n - 1);
        lemma_match(ps[n - 1], ss[n - 1], s1);
        let (ok2, s2) = match_term(ps[n - 1], ss[n - 1], s1);
        assert forall|k: Seq<char>| sub.dom().contains(k) implies #[trigger] s2.dom().contains(k) && s2[k] == sub[k] by {
            assert(s1.dom().contains(k));
        }
        if ok && ok2 {
            assert forall|j: int| 0 <= j < n implies vars_bound(#[trigger] ps[j], s2) && instance(ps[j], s2) == ss[j] by {
                if j < n - 1 {
                    lemma_instance_stable(ps[j], s1, s2);
                }
            }
        }
    }
}

/// When a pattern matches a term, the pattern's instance under the bindings
/// that the match made is that term; so a rule rewrites a term to the
/// instance of its right side under bindings that rebuild the term from
/// its left side.
pub proof fn law_match_then_instantiate(pat: Term, subj: Term)
    ensures
        match_term(pat, subj, Map::empty()).0 ==> instance(pat, match_term(pat, subj, Map::empty()).1) == subj,
{
    lemma_match(pat, subj, Map::empty());
}

/// Whether the variable `v` stands somewhere in `p`.
pub open spec fn occurs_var(p: Term, v: Seq<char>) -> bool
    decreases p,
{
    match p {
        Term::Leaf(x) => is_var(x) && x == v,
        Term::Node(_, kids) => exists|i: int| 0 <= i < kids.len() && occurs_var(#[trigger] kids[i], v),
    }
}

proof fn lemma_vars_bound_occurs(p: Term, sub: Map<Seq<char>, Term>, v: Seq<char>)
    requires
        vars_bound(p, sub),
        occurs_var(p, v),
    ensures
        sub.contains_key(v),
    decreases p,
{
    if let Term::Node(_, kids) = p {
        let i = choose|i: int| 0 <= i < kids.len() && occurs_var(#[trigger] kids[i], v);
        lemma_vars_bound_occurs(kids[i], sub, v);
    }
}

/// Matching binds nothing but the pattern's variables.
proof fn lemma_match_domain(pat: Term, subj: Term, sub: Map<Seq<char>, Term>, v: Seq<char>)
    requires
        match_term(pat, subj, sub).1.contains_key(v),
    ensures
        sub.contains_key(v) || occurs_var(pat, v),
    decreases pat, 0int,
{
    if let Term::Node(op1, k1) = pat {
        if let Term::Node(op2, k2) = subj {
            if op1 == op2 && k1.len() == k2.len() {
                lemma_match_kids_domain(k1, k2, sub, k1.len() as int, v);
            }
        }
    }
}

proof fn lemma_match_kids_domain(ps: Seq<Term>, ss: Seq<Term>, sub: Map<Seq<char>, Term>, n: int, v: Seq<char>)
    requires
        0 <= n <= ps.len(),
        n <= ss.len(),
        match_kids(ps, ss, sub, n).1.contains_key(v),
    ensures
        sub.contains_key(v) || exists|i: int| 0 <= i < n && occurs_var(#[trigger] ps[i], v),
    decreases ps, n,
{
    if n > 0 {
        let (ok, s1) = match_kids(ps, ss, sub, n - 1);
        lemma_match_domain(ps[n - 1], ss[n - 1], s1, v);
        if s1.contains_key(v) {
            lemma_match_kids_domain(ps, ss, sub, n - 1, v);
        }
    }
}

/// Matching keeps every binding it starts with; the bindings afterwards are
/// those and the pattern's own variables; and when it matches, the
/// pattern's instance under them is the term.
pub proof fn law_match_sound(pat: Term, subj: Term, sub: Map<Seq<char>, Term>)
    ensures
        sub.submap_of(match_term(pat, subj, sub).1),
        forall|v: Seq<char>| #[trigger] match_term(pat, subj, sub).1.contains_key(v) ==>
            sub.contains_key(v) || occurs_var(pat, v),
        match_term(pat, subj, sub).0 ==> {
            &&& instance(pat, match_term(pat, subj, sub).1) == subj
            &&& forall|v: Seq<char>| #[trigger] occurs_var(pat, v) ==> match_term(pat, subj, sub).1.contains_key(v)
        },
{
    lemma_match(pat, subj, sub);
    assert forall|v: Seq<char>| #[trigger] match_term(pat, subj, sub).1.contains_key(v) implies
        sub.contains_key(v) || occurs_var(pat, v) by {
        lemma_match_domain(pat, subj, sub, v);
    }
    if match_term(pat, subj, sub).0 {
        assert forall|v: Seq<char>| #[trigger] occurs_var(pat, v) implies match_term(pat, subj, sub).1.contains_key(v) by {
            lemma_vars_bound_occurs(pat, match_term(pat, subj, sub).1, v);
        }
    }
}

/// What the bindings `sig` give a variable: its binding, or the variable
/// itself as a leaf (which is what instantiating leaves there).
pub open spec fn image(sig: Map<Seq<char>, Term>, v: Seq<char>) -> Term {
    if sig.contains_key(v) { sig[v] } else { Term::Leaf(v) }
}

/// Whether every binding of `sub` is what `sig` gives its variable.
pub open spec fn agrees(sub: Map<Seq<char>, Term>, sig: Map<Seq<char>, Term>) -> bool {
    forall|v: Seq<char>| #[trigger] sub.contains_key(v) ==> sub[v] == image(sig, v)
}

proof fn lemma_match_complete(pat: Term, sub: Map<Seq<char>, Term>, sig: Map<Seq<char>, Term>)
    requires
        agrees(sub, sig),
    ensures
        match_term(pat, instance(pat, sig), sub).0,
        agrees(match_term(pat, instance(pat, sig), sub).1, sig),
    decreases pat, 0int,
{
    if let Term::Node(op, kids) = pat {
        lemma_match_kids_complete(kids, instance(pat, sig)->Node_1, sub, sig, kids.len() as int);
    }
}

proof fn lemma_match_kids_complete(ps: Seq<Term>, ss: Seq<Term>, sub: Map<Seq<char>, Term>, sig: Map<Seq<char>, Term>, n: int)
    requires
        agrees(sub, sig),
        0 <= n <= ps.len(),
        ps.len() == ss.len(),
        forall|i: int| 0 <= i < ps.len() ==> #[trigger] ss[i] == instance(ps[i], sig),
    ensures
        match_kids(ps, ss, sub, n).0,
        agrees(match_kids(ps, ss, sub, n).1, sig),
    decreases ps, n,
{
    if n > 0 {
        lemma_match_kids_complete(ps, ss, sub, sig, n - 1);
        let s1 = match_kids(ps, ss, sub, n - 1).1;
        assert(ss[n - 1] == instance(ps[n - 1], sig));
        lemma_match_complete(ps[n - 1], s1, sig);
    }
}

/// Matching is complete: whenever some bindings that agree with the ones
/// the match starts with instantiate the pattern to the term, the pattern
/// matches it.
pub proof fn law_match_complete(pat: Term, subj: Term, sub: Map<Seq<char>, Term>, sig: Map<Seq<char>, Term>)
    requires
        sub.submap_of(sig),
        instance(pat, sig) == subj,
    ensures
        match_term(pat, subj, sub).0,
{
    lemma_match_complete(pat, sub, sig);
}

/// Instantiating with bindings for none of the pattern's variables leaves
/// it as it is (so do empty bindings).
pub proof fn law_instance_unbound(pat: Term, sub: Map<Seq<char>, Term>)
    requires
        forall|v: Seq<char>| #[trigger] occurs_var(pat, v) ==> !sub.contains_key(v),
    ensures
        instance(pat, sub) == pat,
    decreases pat,
{
    if let Term::Leaf(x) = pat {
        if is_var(x) {
            assert(occurs_var(pat, x));
        }
    }
    if let Term::Node(op, kids) = pat {
        assert forall|i: int| 0 <= i < kids.len() implies instance(#[trigger] kids[i], sub) == kids[i] by {
            assert forall|v: Seq<char>| #[trigger] occurs_var(kids[i], v) implies !sub.contains_key(v) by {
                assert(occurs_var(pat, v));
            }
            law_instance_unbound(kids[i], sub);
        }
        assert(instance(pat, sub)->Node_1 =~= kids);
    }
}

// ---------------------------------------------------------------------------
// the rewriting loop

/// The rewriter stops within the step limit; when it reports convergence no
/// rule applies anywhere in the last term, and when it does not it has
/// taken exactly the limit.
pub proof fn law_run_outcome(t: Term, rules: Seq<Rule>, steps: nat)
    requires
        steps < STEP_LIMIT,
    ensures
        steps <= run_from(t, rules, steps).1 <= STEP_LIMIT,
        run_from(t, rules, steps).0 ==> rewrite_step(run_from(t, rules, steps).2, rules) is None,
        !run_from(t, rules, steps).0 ==> run_from(t, rules, steps).1 == STEP_LIMIT,
    decreases STEP_LIMIT - steps,
{
    if let Some(nt) = rewrite_step(t, rules) {
        if steps + 1 < STEP_LIMIT {
            law_run_outcome(nt, rules, (steps + 1) as nat);
        }
    }
}

/// The term after `k` rewriting steps from `t`, if each of them can be taken.
pub open spec fn iterate(t: Term, rules: Seq<Rule>, k: nat) -> Option<Term>
    decreases k,
{
    if k == 0 {
        Some(t)
    } else {
        match rewrite_step(t, rules) {
            Some(n) => iterate(n, rules, (k - 1) as nat),
            None => None,
        }
    }
}

/// The rewriter takes steps one after another: the term it ends with is the
/// one after the steps it counts, and it has converged exactly when it
/// stopped short of the limit.
pub proof fn law_run_iterates(t: Term, rules: Seq<Rule>, steps: nat)
    requires
        steps < STEP_LIMIT,
    ensures
        steps <= run_from(t, rules, steps).1 <= STEP_LIMIT,
        iterate(t, rules, (run_from(t, rules, steps).1 - steps) as nat) == Some(run_from(t, rules, steps).2),
        run_from(t, rules, steps).0 <==> run_from(t, rules, steps).1 < STEP_LIMIT,
        run_from(t, rules, steps).0 ==> rewrite_step(run_from(t, rules, steps).2, rules) is None,
    decreases STEP_LIMIT - steps,
{
    law_run_outcome(t, rules, steps);
    if let Some(nt) = rewrite_step(t, rules) {
        if steps + 1 < STEP_LIMIT {
            law_run_iterates(nt, rules, (steps + 1) as nat);
            let k = (run_from(t, rules, steps).1 - steps) as nat;
            assert(iterate(t, rules, k) == iterate(nt, rules, (k - 1) as nat));
        } else {
            assert(iterate(nt, rules, 0) == Some(nt));
        }
    }
}

/// What the naive rewriter reports for an expression and rules that both
/// read: success, the steps of the run from the expression, whether it
/// converged (before the step limit, with no rule left to apply), and the
/// last term in canonical form.
pub proof fn law_naive_runs(expr: Seq<char>, rules: Seq<char>)
    requires
        parse_text(expr) is Ok,
        rules_of_text(rules) is Ok,
    ensures
        naive_outcome(expr, rules).0,
        naive_outcome(expr, rules).1 == Seq::<char>::empty(),
        naive_outcome(expr, rules).3 <= STEP_LIMIT,
        iterate(parse_text(expr)->Ok_0, rules_of_text(rules)->Ok_0, naive_outcome(expr, rules).3) matches Some(last)
            && naive_outcome(expr, rules).4 == sexpr(last)
            && (naive_outcome(expr, rules).2 ==> rewrite_step(last, rules_of_text(rules)->Ok_0) is None),
        naive_outcome(expr, rules).2 <==> naive_outcome(expr, rules).3 < STEP_LIMIT,
{
    law_run_iterates(parse_text(expr)->Ok_0, rules_of_text(rules)->Ok_0, 0);
}

/// A rules text that does not read stops the naive rewriter before any
/// step, with the message of its first bad line (when the expression
/// reads; otherwise the expression's message comes first).
pub proof fn law_naive_rule_error(expr: Seq<char>, rules: Seq<char>)
    requires
        parse_text(expr) is Ok,
        rules_of_text(rules) is Err,
    ensures
        naive_outcome(expr, rules) == (false, rules_of_text(rules)->Err_0, false, 0nat, Seq::<char>::empty()),
{
}

/// Whether some bindings make the left side of rule `i` into `t`.
pub open spec fn root_match(t: Term, rules: Seq<Rule>, i: int) -> bool {
    exists|sig: Map<Seq<char>, Term>| instance(rules[i].1, sig) == t
}

/// A rewrite at the root uses the first rule whose left side has `t` as an
/// instance, with the bindings that matching finds; there is none exactly
/// when no rule's left side has `t` as an instance.
pub proof fn law_root_rewrite(t: Term, rules: Seq<Rule>, k: int)
    requires
        0 <= k,
    ensures
        rewrite_at_root(t, rules, k) is None <==> forall|i: int| k <= i < rules.len() ==> !#[trigger] root_match(t, rules, i),
        rewrite_at_root(t, rules, k) matches Some(u) ==> exists|i: int| {
            &&& k <= i < rules.len()
            &&& #[trigger] root_match(t, rules, i)
            &&& (forall|j: int| k <= j < i ==> !#[trigger] root_match(t, rules, j))
            &&& u == instance(rules[i].2, match_term(rules[i].1, t, Map::empty()).1)
        },
    decreases rules.len() - k,
{
    if k < rules.len() {
        law_root_rewrite(t, rules, k + 1);
        let (ok, sub) = match_term(rules[k].1, t, Map::empty());
        if ok {
            law_match_sound(rules[k].1, t, Map::empty());
            assert(root_match(t, rules, k));
        } else {
            assert(!root_match(t, rules, k)) by {
                if root_match(t, rules, k) {
                    let sig = choose|sig: Map<Seq<char>, Term>| instance(rules[k].1, sig) == t;
                    law_match_complete(rules[k].1, t, Map::empty(), sig);
                }
            }
            if let Some(u) = rewrite_at_root(t, rules, k + 1) {
                let i = choose|i: int| {
                    &&& k + 1 <= i < rules.len()
                    &&& #[trigger] root_match(t, rules, i)
                    &&& (forall|j: int| k + 1 <= j < i ==> !#[trigger] root_match(t, rules, j))
                    &&& u == instance(rules[i].2, match_term(rules[i].1, t, Map::empty()).1)
                };
                assert forall|j: int| k <= j < i implies !#[trigger] root_match(t, rules, j) by {}
            }
        }
    }
}

/// Whether no rule's left side has `t`, or any part of `t`, as an instance.
pub open spec fn nowhere_matches(t: Term, rules: Seq<Rule>) -> bool
    decreases t,
{
    &&& forall|i: int| 0 <= i < rules.len() ==> !#[trigger] root_match(t, rules, i)
    &&& match t {
        Term::Leaf(_) => true,
        Term::Node(_, kids) => forall|j: int| 0 <= j < kids.len() ==> nowhere_matches(#[trigger] kids[j], rules),
    }
}

proof fn lemma_step_in_kids_none(op: Seq<char>, kids: Seq<Term>, rules: Seq<Rule>, j: int)
    requires
        0 <= j,
    ensures
        step_in_kids(op, kids, rules, j) is None <==>
            forall|m: int| j <= m < kids.len() ==> rewrite_step(#[trigger] kids[m], rules) is None,
    decreases kids.len() - j,
{
    if j < kids.len() {
        lemma_step_in_kids_none(op, kids, rules, j + 1);
    }
}

/// One rewriting step is impossible exactly when no rule's left side has
/// the term or any part of it as an instance.
pub proof fn law_step_none(t: Term, rules: Seq<Rule>)
    ensures
        rewrite_step(t, rules) is None <==> nowhere_matches(t, rules),
    decreases t,
{
    law_root_rewrite(t, rules, 0);
    if let Term::Node(op, kids) = t {
        lemma_step_in_kids_none(op, kids, rules, 0);
        assert forall|m: int| 0 <= m < kids.len() implies
            (rewrite_step(#[trigger] kids[m], rules) is None <==> nowhere_matches(kids[m], rules)) by {
            law_step_none(kids[m], rules);
        }
    }
}

proof fn lemma_no_rules_kids(op: Seq<char>, kids: Seq<Term>, j: int)
    requires
        0 <= j,
    ensures
        step_in_kids(op, kids, Seq::empty(), j) is None,
    decreases kids, kids.len() - j,
{
    if j < kids.len() {
        law_no_rules_no_step(kids[j]);
        lemma_no_rules_kids(op, kids, j + 1);
    }
}

/// With no rules, no term can be rewritten (so the rewriter converges at
/// once and gives back the expression in canonical form).
pub proof fn law_no_rules_no_step(t: Term)
    ensures
        rewrite_step(t, Seq::empty()) is None,
    decreases t, 0int,
{
    if let Term::Node(op, kids) = t {
        lemma_no_rules_kids(op, kids, 0);
    }
}

// ---------------------------------------------------------------------------
// reading an expression

/// Whitespace around an expression changes nothing: reading the trimmed
/// text gives what reading the text gives, and the text is refused as
/// empty exactly when nothing is left after trimming.
pub proof fn law_parse_ignores_surrounding_space(s: Seq<char>)
    ensures
        parse_text(trim(s)) == parse_text(s),
        parse_text(s) == Err::<Term, Seq<char>>(empty_input_message()) <==> trim(s).len() == 0,
{
    lemma_trim_twice(s);
    reveal_strlit("пустой ввод");
    reveal_strlit("неожиданный символ '");
    reveal_strlit("не смог разобрать «");
    if trim(s).len() > 0 {
        if let Err(e) = parse_text(s) {
            assert(e[0] == 'н');
            assert(empty_input_message()[0] == 'п');
        }
    }
}

// ---------------------------------------------------------------------------
// sums group from the left

/// The token of an operator character.
pub open spec fn op_token(c: char) -> Token {
    Token::Op(c)
}

/// The tokens `a0 o1 a1 ... on an` of the first `n` operators: atoms with
/// an operator between each two.
pub open spec fn chain_tokens(atoms: Seq<Seq<char>>, ops: Seq<char>, n: int) -> Seq<Token>
    decreases n,
{
    if n <= 0 {
        seq![Token::Atom(atoms[0])]
    } else {
        chain_tokens(atoms, ops, n - 1).push(op_token(ops[n - 1])).push(Token::Atom(atoms[n]))
    }
}

/// `a0 o1 a1 ... on an` grouped from the left: `((a0 o1 a1) o2 a2) ...`.
pub open spec fn left_grouped(atoms: Seq<Seq<char>>, ops: Seq<char>, n: int) -> Term
    decreases n,
{
    if n <= 0 {
        Term::Leaf(atoms[0])
    } else {
        Term::Node(seq![ops[n - 1]], seq![left_grouped(atoms, ops, n - 1), Term::Leaf(atoms[n])])
    }
}

proof fn lemma_chain_tokens(atoms: Seq<Seq<char>>, ops: Seq<char>, n: int)
    requires
        0 <= n,
    ensures
        chain_tokens(atoms, ops, n).len() == 2 * n + 1,
        forall|k: int| 0 <= k <= n ==> #[trigger] chain_tokens(atoms, ops, n)[2 * k] == Token::Atom(atoms[k]),
        forall|k: int| 0 <= k < n ==> #[trigger] chain_tokens(atoms, ops, n)[2 * k + 1] == op_token(ops[k]),
    decreases n,
{
    if n > 0 {
        lemma_chain_tokens(atoms, ops, n - 1);
        let ts = chain_tokens(atoms, ops, n);
        let pre = chain_tokens(atoms, ops, n - 1);
        let mid = pre.push(op_token(ops[n - 1]));
        assert(ts == mid.push(Token::Atom(atoms[n])));
        assert(pre.len() == 2 * n - 1);
        assert forall|k: int| 0 <= k <= n implies #[trigger] ts[2 * k] == Token::Atom(atoms[k]) by {
            if k < n {
                assert(pre[2 * k] == Token::Atom(atoms[k]));
                assert(mid[2 * k] == pre[2 * k]);
                assert(ts[2 * k] == mid[2 * k]);
            }
        }
        assert forall|k: int| 0 <= k < n implies #[trigger] ts[2 * k + 1] == op_token(ops[k]) by {
            if k < n - 1 {
                assert(pre[2 * k + 1] == op_token(ops[k]));
                assert(mid[2 * k + 1] == pre[2 * k + 1]);
            }
            assert(ts[2 * k + 1] == mid[2 * k + 1]);
        }
    }
}

proof fn lemma_sum_rest(atoms: Seq<Seq<char>>, ops: Seq<char>, n: int, k: int)
    requires
        0 <= k <= n,
        forall|i: int| 0 <= i < n ==> #[trigger] ops[i] == '+' || ops[i] == '-',
    ensures
        expr_rest(chain_tokens(atoms, ops, n), left_grouped(atoms, ops, k), 2 * k + 1)
            == Some((left_grouped(atoms, ops, n), 2 * n + 1)),
    decreases n - k,
{
    let ts = chain_tokens(atoms, ops, n);
    lemma_chain_tokens(atoms, ops, n);
    if k < n {
        let pos = 2 * k + 1;
        assert(ts[pos] == op_token(ops[k]));
        assert(ts[2 * (k + 1)] == Token::Atom(atoms[k + 1]));
        assert(factor_at(ts, pos + 1) == Some((Term::Leaf(atoms[k + 1]), pos + 2)));
        if k + 1 < n {
            assert(ts[2 * (k + 1) + 1] == op_token(ops[k + 1]));
        }
        assert(term_rest(ts, Term::Leaf(atoms[k + 1]), pos + 2) == Some((Term::Leaf(atoms[k + 1]), pos + 2)));
        assert(term_at(ts, pos + 1) == Some((Term::Leaf(atoms[k + 1]), pos + 2)));
        lemma_sum_rest(atoms, ops, n, k + 1);
    }
}

/// Sums and differences group from the left: `a0 o1 a1 ... on an` with each
/// operator `+` or `-` reads as `((a0 o1 a1) o2 a2) ...`, whatever the
/// operators are, and takes all the tokens.
pub proof fn law_sums_group_left(atoms: Seq<Seq<char>>, ops: Seq<char>, n: int)
    requires
        0 <= n,
        forall|i: int| 0 <= i < n ==> #[trigger] ops[i] == '+' || ops[i] == '-',
    ensures
        expr_at(chain_tokens(atoms, ops, n), 0) == Some((left_grouped(atoms, ops, n), 2 * n + 1)),
{
    let ts = chain_tokens(atoms, ops, n);
    lemma_chain_tokens(atoms, ops, n);
    assert(ts[2 * 0int] == Token::Atom(atoms[0]));
    if n > 0 {
        assert(ts[2 * 0int + 1] == op_token(ops[0]));
    }
    assert(factor_at(ts, 0) == Some((Term::Leaf(atoms[0]), 1int)));
    assert(term_rest(ts, Term::Leaf(atoms[0]), 1) == Some((Term::Leaf(atoms[0]), 1int)));
    lemma_sum_rest(atoms, ops, n, 0);
}

proof fn lemma_step_in_kids_first(op: Seq<char>, kids: Seq<Term>, rules: Seq<Rule>, from: int, j: int)
    requires
        0 <= from <= j < kids.len(),
        forall|m: int| from <= m < j ==> rewrite_step(#[trigger] kids[m], rules) is None,
        rewrite_step(kids[j], rules) is Some,
    ensures
        step_in_kids(op, kids, rules, from) == Some(Term::Node(op, kids.update(j, rewrite_step(kids[j], rules)->Some_0))),
    decreases j - from,
{
    if from < j {
        lemma_step_in_kids_first(op, kids, rules, from + 1, j);
    }
}

/// When no rule matches a term itself, a rewriting step goes into its
/// leftmost child that can take a step, and changes nothing else.
pub proof fn law_leftmost_child(op: Seq<char>, kids: Seq<Term>, rules: Seq<Rule>, j: int)
    requires
        rewrite_at_root(Term::Node(op, kids), rules, 0) is None,
        0 <= j < kids.len(),
        forall|m: int| 0 <= m < j ==> rewrite_step(#[trigger] kids[m], rules) is None,
        rewrite_step(kids[j], rules) is Some,
    ensures
        rewrite_step(Term::Node(op, kids), rules)
            == Some(Term::Node(op, kids.update(j, rewrite_step(kids[j], rules)->Some_0))),
{
    lemma_step_in_kids_first(op, kids, rules, 0, j);
}

proof fn lemma_product_rest(atoms: Seq<Seq<char>>, ops: Seq<char>, n: int, k: int)
    requires
        0 <= k <= n,
        forall|i: int| 0 <= i < n ==> #[trigger] ops[i] == '*' || ops[i] == '/',
    ensures
        term_rest(chain_tokens(atoms, ops, n), left_grouped(atoms, ops, k), 2 * k + 1)
            == Some((left_grouped(atoms, ops, n), 2 * n + 1)),
    decreases n - k,
{
    let ts = chain_tokens(atoms, ops, n);
    lemma_chain_tokens(atoms, ops, n);
    if k < n {
        let pos = 2 * k + 1;
        assert(ts[pos] == op_token(ops[k]));
        assert(ts[2 * (k + 1)] == Token::Atom(atoms[k + 1]));
        assert(factor_at(ts, pos + 1) == Some((Term::Leaf(atoms[k + 1]), pos + 2)));
        lemma_product_rest(atoms, ops, n, k + 1);
    }
}

/// Products and quotients group from the left too: `a0 o1 a1 ... on an`
/// with each operator `*` or `/` reads as `((a0 o1 a1) o2 a2) ...`.
pub proof fn law_products_group_left(atoms: Seq<Seq<char>>, ops: Seq<char>, n: int)
    requires
        0 <= n,
        forall|i: int| 0 <= i < n ==> #[trigger] ops[i] == '*' || ops[i] == '/',
    ensures
        expr_at(chain_tokens(atoms, ops, n), 0) == Some((left_grouped(atoms, ops, n), 2 * n + 1)),
{
    let ts = chain_tokens(atoms, ops, n);
    lemma_chain_tokens(atoms, ops, n);
    assert(ts[2 * 0int] == Token::Atom(atoms[0]));
    assert(factor_at(ts, 0) == Some((Term::Leaf(atoms[0]), 1int)));
    lemma_product_rest(atoms, ops, n, 0);
    assert(term_at(ts, 0) == Some((left_grouped(atoms, ops, n), 2 * n + 1)));
}

/// `*` and `/` bind tighter than `+` and `-`, on either side:
/// `a + b * c` reads as `a + (b * c)` and `a * b + c` as `(a * b) + c`.
pub proof fn law_products_bind_tighter(atoms: Seq<Seq<char>>, ops: Seq<char>)
    requires
        (ops[0] == '+' || ops[0] == '-') && (ops[1] == '*' || ops[1] == '/')
            || (ops[0] == '*' || ops[0] == '/') && (ops[1] == '+' || ops[1] == '-'),
    ensures
        expr_at(chain_tokens(atoms, ops, 2), 0) == Some((
            if ops[0] == '+' || ops[0] == '-' {
                Term::Node(seq![ops[0]], seq![Term::Leaf(atoms[0]), Term::Node(seq![ops[1]], seq![Term::Leaf(atoms[1]), Term::Leaf(atoms[2])])])
            } else {
                Term::Node(seq![ops[1]], seq![Term::Node(seq![ops[0]], seq![Term::Leaf(atoms[0]), Term::Leaf(atoms[1])]), Term::Leaf(atoms[2])])
            },
            5int,
        )),
{
    let ts = chain_tokens(atoms, ops, 2);
    lemma_chain_tokens(atoms, ops, 2);
    assert(ts[2 * 0int] == Token::Atom(atoms[0]));
    assert(ts[2 * 0int + 1] == op_token(ops[0]));
    assert(ts[2 * 1int] == Token::Atom(atoms[1]));
    assert(ts[2 * 1int + 1] == op_token(ops[1]));
    assert(ts[2 * 2int] == Token::Atom(atoms[2]));
    let a = Term::Leaf(atoms[0]);
    let b = Term::Leaf(atoms[1]);
    let c = Term::Leaf(atoms[2]);
    assert(factor_at(ts, 0) == Some((a, 1int)));
    assert(factor_at(ts, 2) == Some((b, 3int)));
    assert(factor_at(ts, 4) == Some((c, 5int)));
    assert(term_rest(ts, c, 5) == Some((c, 5int)));
    if ops[0] == '+' || ops[0] == '-' {
        let bc = Term::Node(seq![ops[1]], seq![b, c]);
        assert(term_rest(ts, bc, 5) == Some((bc, 5int)));
        assert(term_rest(ts, b, 3) == Some((bc, 5int)));
        assert(term_at(ts, 2) == Some((bc, 5int)));
        assert(term_rest(ts, a, 1) == Some((a, 1int)));
        assert(term_at(ts, 0) == Some((a, 1int)));
        let abc = Term::Node(seq![ops[0]], seq![a, bc]);
        assert(expr_rest(ts, abc, 5) == Some((abc, 5int)));
        assert(expr_rest(ts, a, 1) == Some((abc, 5int)));
    } else {
        let ab = Term::Node(seq![ops[0]], seq![a, b]);
        assert(term_rest(ts, ab, 3) == Some((ab, 3int)));
        assert(term_rest(ts, a, 1) == Some((ab, 3int)));
        assert(term_at(ts, 0) == Some((ab, 3int)));
        assert(term_at(ts, 4) == Some((c, 5int)));
        let abc = Term::Node(seq![ops[1]], seq![ab, c]);
        assert(expr_rest(ts, abc, 5) == Some((abc, 5int)));
        assert(expr_rest(ts, ab, 3) == Some((abc, 5int)));
    }
}

/// A rewriting step rewrites the term itself whenever a rule matches it
/// there, with the first rule that does; a step goes into a child only
/// when no rule matches at the root.
pub proof fn law_root_first(t: Term, rules: Seq<Rule>)
    ensures
        rewrite_at_root(t, rules, 0) matches Some(u) ==> rewrite_step(t, rules) == Some(u),
        (exists|i: int| 0 <= i < rules.len() && #[trigger] root_match(t, rules, i)) ==>
            rewrite_step(t, rules) == rewrite_at_root(t, rules, 0) && rewrite_step(t, rules) is Some,
{
    law_root_rewrite(t, rules, 0);
}

// ---------------------------------------------------------------------------
// rule lines

/// Both sides that a rule line yields are in canonical form: each reads
/// back, by `parse_any`, as a term whose s-expression is that side.
pub proof fn law_rule_sides_canonical(line: Seq<char>, idx: nat)
    requires
        rule_parse(line, idx) is Ok,
    ensures
        parse_text(rule_parse(line, idx)->Ok_0.1) matches Ok(l) && sexpr(l) == rule_parse(line, idx)->Ok_0.1,
        parse_text(rule_parse(line, idx)->Ok_0.2) matches Ok(r) && sexpr(r) == rule_parse(line, idx)->Ok_0.2,
{
    let (name, rest) = match crate::rule::declared_name(line) {
        Some((n, r)) => (n, r),
        None => ("custom-"@ + crate::rule::decimal(idx), line),
    };
    let arrow = crate::rule::find_arrow_from(rest, 0)->Some_0;
    let lhs = crate::text::trim(rest.take(arrow));
    let rhs = crate::text::trim(rest.skip(arrow + 2));
    law_canonical_form_reads_back(lhs);
    law_canonical_form_reads_back(rhs);
}

proof fn lemma_find_char_at(s: Seq<char>, c: char, i: int, j: int)
    requires
        0 <= i <= j < s.len(),
        forall|k: int| i <= k < j ==> s[k] != c,
        s[j] == c,
    ensures
        find_char_from(s, c, i) == Some(j),
    decreases j - i,
{
    if i < j {
        lemma_find_char_at(s, c, i + 1, j);
    }
}

proof fn lemma_find_arrow_at(s: Seq<char>, i: int, j: int)
    requires
        0 <= i <= j,
        j + 1 < s.len(),
        forall|k: int| i <= k < j ==> s[k] != '=',
        s[j] == '=',
        s[j + 1] == '>',
    ensures
        find_arrow_from(s, i) == Some(j),
    decreases j - i,
{
    if i < j {
        lemma_find_arrow_at(s, i + 1, j);
    }
}

proof fn lemma_trim_lengths(s: Seq<char>)
    ensures
        trim_start(s).len() <= s.len(),
        trim_end(s).len() <= s.len(),
    decreases s.len(),
{
    if s.len() > 0 {
        lemma_trim_lengths(s.drop_first());
        lemma_trim_lengths(s.drop_last());
    }
}

/// A text that trimming leaves alone starts and ends with a character
/// that is not white space.
proof fn lemma_trimmed_ends(s: Seq<char>)
    requires
        s.len() > 0,
        trim(s) == s,
    ensures
        !is_white_space(s[0]),
        !is_white_space(s.last()),
{
    lemma_trim_lengths(s);
    lemma_trim_lengths(s.drop_first());
    lemma_trim_lengths(trim_start(s));
    if is_white_space(s[0]) {
        lemma_trim_lengths(trim_start(s.drop_first()));
        assert(trim(s).len() < s.len());
    }
    assert(trim_start(s) == s);
    if is_white_space(s.last()) {
        lemma_trim_lengths(s.drop_last());
        assert(trim(s).len() < s.len());
    }
}

proof fn lemma_trim_plain(s: Seq<char>)
    requires
        forall|k: int| 0 <= k < s.len() ==> !is_white_space(#[trigger] s[k]),
    ensures
        trim(s) == s,
{
    if s.len() > 0 {
        assert(trim_start(s) == s);
        assert(trim_end(s) == s);
    }
}

/// A rule line made of a name, a colon, a printed left side, an arrow and a
/// printed right side reads as that name and those sides.
pub proof fn law_rule_line_reads_back(name: Seq<char>, lt: Term, rt: Term, idx: nat)
    requires
        name.len() > 0,
        forall|k: int| 0 <= k < name.len() ==> is_name_char(#[trigger] name[k]),
        printable(lt),
        printable(rt),
    ensures
        rule_parse(name + ": "@ + sexpr(lt) + " => "@ + sexpr(rt), idx)
            == Ok::<(Seq<char>, Seq<char>, Seq<char>), Seq<char>>((name, sexpr(lt), sexpr(rt))),
{
    reveal_strlit(": ");
    reveal_strlit(" => ");
    let l = sexpr(lt);
    let r = sexpr(rt);
    let line = name + ": "@ + l + " => "@ + r;
    let n = name.len() as int;
    crate::canon::lemma_print_trimmed(lt);
    crate::canon::lemma_print_trimmed(rt);
    lemma_sexpr_chars(lt);
    lemma_sexpr_chars(rt);
    lemma_trimmed_ends(l);
    lemma_trimmed_ends(r);
    // the name ends at the first colon
    assert forall|k: int| 0 <= k < n implies line[k] != ':' && !is_white_space(#[trigger] name[k]) by {
        assert(line[k] == name[k]);
    }
    assert(line[n] == ':');
    lemma_find_char_at(line, ':', 0, n);
    assert(line.take(n) =~= name);
    lemma_trim_plain(name);
    assert(declared_name(line) == Some((name, line.skip(n + 1))));
    // the arrow follows the left side
    let rest = line.skip(n + 1);
    assert(rest =~= seq![' '] + l + (" => "@ + r));
    let a: int = l.len() as int + 2;
    assert forall|k: int| 0 <= k < a - 1 implies rest[k] != '=' by {
        if k > 0 {
            assert(rest[k] == l[k - 1]);
            assert(printed_char(l[k - 1]));
        }
    }
    assert(rest[a - 1] == ' ');
    assert(rest[a] == '=');
    assert(rest[a + 1] == '>');
    lemma_find_arrow_at(rest, 0, a);
    // both sides trim to the printed terms
    let left = rest.take(a);
    assert(left =~= seq![' '] + (l + seq![' ']));
    assert(trim_start(left) == trim_start(l + seq![' '])) by {
        assert(left.drop_first() =~= l + seq![' ']);
    }
    assert(trim_start(l + seq![' ']) == l + seq![' ']) by {
        assert((l + seq![' '])[0] == l[0]);
    }
    assert(trim_end(l + seq![' ']) == trim_end(l)) by {
        assert((l + seq![' ']).drop_last() =~= l);
    }
    assert(trim_end(l) == l);
    assert(trim(left) == l);
    let right = rest.skip(a + 2);
    assert(right =~= seq![' '] + r);
    assert(trim_start(right) == trim_start(r)) by {
        assert(right.drop_first() =~= r);
    }
    assert(trim_start(r) == r);
    assert(trim_end(r) == r);
    assert(trim(right) == r);
    lemma_printed_reads_back(lt);
    lemma_printed_reads_back(rt);
}

// ---------------------------------------------------------------------------
// the nodes that tree_to_recexpr adds

/// Every node's children stand before it, counting `base` nodes already there.
pub open spec fn children_first(nodes: Seq<Enode>, base: nat) -> bool {
    forall|i: int, k: int| 0 <= i < nodes.len() && 0 <= k < nodes[i].1.len() ==>
        #[trigger] nodes[i].1[k] < base + i
}

proof fn lemma_flatten_children_first(t: Term, base: nat)
    ensures
        children_first(flatten(t, base), base),
        flatten(t, base).len() >= 1,
    decreases t, 0int,
{
    match t {
        Term::Leaf(_) => {},
        Term::Node(op, kids) => {
            lemma_flatten_kids_children_first(kids, base, kids.len() as int);
            let (nodes, ids) = flatten_kids(kids, base, kids.len() as int);
            let all = nodes.push((op, ids));
            assert forall|i: int, k: int| 0 <= i < all.len() && 0 <= k < all[i].1.len() implies
                #[trigger] all[i].1[k] < base + i by {
                if i < nodes.len() {
                    assert(all[i] == nodes[i]);
                } else {
                    assert(all[i] == (op, ids));
                }
            }
        },
    }
}

proof fn lemma_flatten_kids_children_first(kids: Seq<Term>, base: nat, n: int)
    ensures
        children_first(flatten_kids(kids, base, n).0, base),
        flatten_kids(kids, base, n).1.len() == (if n <= 0 || n > kids.len() { 0 } else { n }),
        forall|k: int| 0 <= k < flatten_kids(kids, base, n).1.len() ==>
            (#[trigger] flatten_kids(kids, base, n).1[k]) < base + flatten_kids(kids, base, n).0.len(),
    decreases kids, n,
{
    if 0 < n <= kids.len() {
        lemma_flatten_kids_children_first(kids, base, n - 1);
        let (nodes, ids) = flatten_kids(kids, base, n - 1);
        let sub_base = base + nodes.len();
        lemma_flatten_children_first(kids[n - 1], sub_base);
        let sub = flatten(kids[n - 1], sub_base);
        let all = nodes + sub;
        assert forall|i: int, k: int| 0 <= i < all.len() && 0 <= k < all[i].1.len() implies
            #[trigger] all[i].1[k] < base + i by {
            if i < nodes.len() {
                assert(all[i] == nodes[i]);
            } else {
                assert(all[i] == sub[i - nodes.len()]);
                assert(sub[i - nodes.len()].1[k] < sub_base + (i - nodes.len()));
            }
        }
        let new_ids = ids.push((base + nodes.len() + sub.len() - 1) as nat);
        assert forall|k: int| 0 <= k < new_ids.len() implies (#[trigger] new_ids[k]) < base + all.len() by {
            if k < ids.len() {
                assert(new_ids[k] == ids[k]);
            }
        }
    }
}

/// The symbol at the root of a term.
pub open spec fn root_symbol(t: Term) -> Seq<char> {
    match t {
        Term::Leaf(s) => s,
        Term::Node(op, _) => op,
    }
}

/// The expression that `tree_to_recexpr` builds is well formed as egg asks:
/// every node's children come before it, and the root is the last node.
pub proof fn law_recexpr_children_first(t: Term)
    ensures
        children_first(flatten(t, 0), 0),
        flatten(t, 0).len() >= 1,
        flatten(t, 0).last().0 == root_symbol(t),
{
    lemma_flatten_children_first(t, 0);
}

// ---------------------------------------------------------------------------
// reading the expression back

/// The term that node `i` stands for, reading its children (which come
/// before it) recursively; a node without children reads as a leaf.
pub open spec fn node_term(nodes: Seq<Enode>, i: int) -> Term
    decreases i,
{
    if i < 0 || i >= nodes.len() {
        Term::Leaf(Seq::empty())
    } else {
        let (op, ch) = nodes[i];
        if ch.len() == 0 {
            Term::Leaf(op)
        } else {
            Term::Node(op, Seq::new(ch.len(), |k: int|
                if 0 <= k < ch.len() && ch[k] < i { node_term(nodes, ch[k] as int) } else { Term::Leaf(Seq::empty()) }))
        }
    }
}

/// Every operator node of `t` has at least one child (egg cannot tell an
/// operator without children from a leaf).
pub open spec fn no_empty_nodes(t: Term) -> bool
    decreases t,
{
    match t {
        Term::Leaf(_) => true,
        Term::Node(_, kids) => kids.len() > 0 && forall|i: int| 0 <= i < kids.len() ==> no_empty_nodes(#[trigger] kids[i]),
    }
}

proof fn lemma_children_first_concat(a: Seq<Enode>, c: Seq<Enode>)
    requires
        children_first(a, 0),
        children_first(c, a.len()),
    ensures
        children_first(a + c, 0),
{
    let all = a + c;
    assert forall|i: int, k: int| 0 <= i < all.len() && 0 <= k < all[i].1.len() implies
        #[trigger] all[i].1[k] < 0 + i by {
        if i < a.len() {
            assert(all[i] == a[i]);
        } else {
            assert(all[i] == c[i - a.len()]);
            assert(c[i - a.len()].1[k] < a.len() + (i - a.len()));
        }
    }
}

proof fn lemma_node_term_prefix(a: Seq<Enode>, b: Seq<Enode>, i: int)
    requires
        children_first(a, 0),
        0 <= i < a.len(),
    ensures
        node_term(a + b, i) == node_term(a, i),
    decreases i,
{
    let all = a + b;
    assert(all[i] == a[i]);
    let (op, ch) = a[i];
    if ch.len() > 0 {
        assert forall|k: int| 0 <= k < ch.len() implies #[trigger] ch[k] < i by {
            assert(a[i].1[k] < 0 + i);
        }
        let x = node_term(all, i)->Node_1;
        let y = node_term(a, i)->Node_1;
        assert forall|k: int| 0 <= k < ch.len() implies #[trigger] x[k] == y[k] by {
            lemma_node_term_prefix(a, b, ch[k] as int);
        }
        assert(x =~= y);
    }
}

proof fn lemma_flatten_kids_prefix(kids: Seq<Term>, base: nat, k: int, n: int)
    requires
        0 <= k < n <= kids.len(),
    ensures
        flatten_kids(kids, base, n).0 == flatten_kids(kids, base, k + 1).0
            + flatten_kids(kids, base, n).0.skip(flatten_kids(kids, base, k + 1).0.len() as int),
        flatten_kids(kids, base, k + 1).0.len() <= flatten_kids(kids, base, n).0.len(),
        flatten_kids(kids, base, n).1.len() == n,
        flatten_kids(kids, base, n).1[k] == flatten_kids(kids, base, k + 1).1[k],
    decreases n - k,
{
    lemma_flatten_kids_children_first(kids, base, n);
    lemma_flatten_kids_children_first(kids, base, k + 1);
    if n == k + 1 {
        let x = flatten_kids(kids, base, n).0;
        assert(x.skip(x.len() as int) =~= Seq::<Enode>::empty());
        assert(x + Seq::<Enode>::empty() =~= x);
    } else {
        lemma_flatten_kids_prefix(kids, base, k, n - 1);
        lemma_flatten_kids_children_first(kids, base, n - 1);
        let (nodes, ids) = flatten_kids(kids, base, n - 1);
        let sub = flatten(kids[n - 1], base + nodes.len());
        let pre = flatten_kids(kids, base, k + 1).0;
        assert((nodes + sub).skip(pre.len() as int) =~= nodes.skip(pre.len() as int) + sub);
        assert(nodes + sub =~= pre + (nodes + sub).skip(pre.len() as int));
    }
}

/// Reading back the nodes of `t`, added after a well-formed prefix, gives `t`.
proof fn lemma_read_back(t: Term, p: Seq<Enode>)
    requires
        no_empty_nodes(t),
        children_first(p, 0),
    ensures
        node_term(p + flatten(t, p.len()), p.len() + flatten(t, p.len()).len() - 1) == t,
    decreases t,
{
    let b = p.len();
    match t {
        Term::Leaf(s) => {
            assert((p + flatten(t, b))[b as int] == (s, Seq::<nat>::empty()));
        },
        Term::Node(op, kids) => {
            let n = kids.len() as int;
            lemma_flatten_kids_children_first(kids, b, n);
            let (nodes, ids) = flatten_kids(kids, b, n);
            let all = p + flatten(t, b);
            let last = (b + nodes.len()) as int;
            assert(all[last] == (op, ids));
            assert(all.len() == last + 1);
            lemma_flatten_children_first(t, b);
            lemma_children_first_concat(p, flatten(t, b));
            let x = node_term(all, last)->Node_1;
            assert forall|k: int| 0 <= k < n implies #[trigger] x[k] == kids[k] by {
                lemma_flatten_kids_prefix(kids, b, k, n);
                lemma_flatten_kids_children_first(kids, b, k);
                let (pre_nodes, pre_ids) = flatten_kids(kids, b, k);
                let p2 = p + pre_nodes;
                lemma_children_first_concat(p, pre_nodes);
                let sub = flatten(kids[k], p2.len());
                assert(no_empty_nodes(kids[k]));
                lemma_read_back(kids[k], p2);
                lemma_flatten_children_first(kids[k], p2.len());
                lemma_children_first_concat(p2, sub);
                let front = flatten_kids(kids, b, k + 1).0;
                assert(front == pre_nodes + sub);
                assert(ids[k] == b + pre_nodes.len() + sub.len() - 1);
                let rest = nodes.skip(front.len() as int).push((op, ids));
                assert(ids[k] < last);
                assert(all =~= (p2 + sub) + rest);
                lemma_node_term_prefix(p2 + sub, rest, ids[k] as int);
            }
            assert(x =~= kids);
        },
    }
}

/// The expression that `tree_to_recexpr` builds stands for the tree: read
/// from its last node, it gives the tree back (for trees in which every
/// operator has a child; egg's `SymbolLang` makes no difference between an
/// operator without children and a leaf).
pub proof fn law_recexpr_reads_back(t: Term)
    requires
        no_empty_nodes(t),
    ensures
        node_term(flatten(t, 0), flatten(t, 0).len() - 1) == t,
{
    let e = Seq::<Enode>::empty();
    lemma_read_back(t, e);
    assert(e + flatten(t, 0) =~= flatten(t, 0));
}

} // verus!
