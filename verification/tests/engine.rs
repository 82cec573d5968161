use egg::{Applier, RecExpr, Searcher, SymbolLang};
use egg_web::engine::{
    make_rule, naive_rewrite, parse_any, parse_expr_str, parse_rule_str, tree_to_recexpr,
    tree_to_sexpr, Tree,
};

fn canon(s: &str) -> String {
    parse_expr_str(s).unwrap()
}

#[test]
fn infix_precedence_and_grouping() {
    assert_eq!(canon("a * 2 + b"), "(+ (* a 2) b)");
    assert_eq!(canon("a + 2 * b"), "(+ a (* 2 b))");
    assert_eq!(canon("a - b - c"), "(- (- a b) c)");
    assert_eq!(canon("a / b / c"), "(/ (/ a b) c)");
    assert_eq!(canon("a * (b + c)"), "(* a (+ b c))");
    assert_eq!(canon("((x))"), "x");
}

#[test]
fn sexpr_input() {
    assert_eq!(canon("(* a 2)"), "(* a 2)");
    assert_eq!(canon("(f x (g y z))"), "(f x (g y z))");
    assert_eq!(canon("(+ 0 (* 1 a))"), "(+ 0 (* 1 a))");
    assert_eq!(canon("+"), "+");
    assert_eq!(canon("(g (f))"), "(g (f))");
}

#[test]
fn whitespace_and_unicode() {
    assert_eq!(canon("  a\t+\nb  "), "(+ a b)");
    assert_eq!(canon("х + у"), "(+ х у)");
    assert_eq!(canon("?x_1 * 3"), "(* ?x_1 3)");
}

#[test]
fn parenthesised_atom_reads_as_infix() {
    // "(f)" is a parenthesised atom in infix notation, before it is a list.
    assert_eq!(canon("(f)"), "f");
}

#[test]
fn empty_input_error() {
    assert_eq!(parse_any("   ").unwrap_err(), "пустой ввод");
    assert_eq!(parse_expr_str("").unwrap_err(), "пустой ввод");
}

#[test]
fn unexpected_char_error() {
    assert_eq!(parse_any("a $ b").unwrap_err(), "неожиданный символ '$'");
}

#[test]
fn unparsable_error() {
    assert_eq!(
        parse_any(" a + ").unwrap_err(),
        "не смог разобрать «a +» ни как инфиксное, ни как s-выражение"
    );
    assert_eq!(
        parse_any("()").unwrap_err(),
        "не смог разобрать «()» ни как инфиксное, ни как s-выражение"
    );
    assert_eq!(
        parse_any("((f) x)").unwrap_err(),
        "не смог разобрать «((f) x)» ни как инфиксное, ни как s-выражение"
    );
    assert!(parse_any("(a b").is_err());
    assert!(parse_any("a b").is_err());
}

#[test]
fn parse_any_tree_shape() {
    let t = parse_any("a * 2 + b").unwrap();
    match t {
        Tree::Node(op, kids) => {
            assert_eq!(op, "+");
            assert_eq!(kids.len(), 2);
            assert!(matches!(&kids[1], Tree::Leaf(s) if s == "b"));
        }
        Tree::Leaf(_) => panic!("expected a node"),
    }
}

#[test]
fn canonical_form_is_stable() {
    for s in [
        "a * 2 + b",
        "(* a 2)",
        "(f + b)",
        "(f x (g y z))",
        "(g (f))",
        "+",
        "x",
        "a - (b - c)",
    ] {
        let once = canon(s);
        assert_eq!(canon(&once), once, "input {s}");
        assert_eq!(tree_to_sexpr(&parse_any(&once).unwrap()), once);
    }
}

#[test]
fn tree_to_sexpr_prints_nodes() {
    let t = Tree::Node(
        "+".to_string(),
        vec![Tree::Leaf("a".to_string()), Tree::Node("f".to_string(), vec![])],
    );
    assert_eq!(tree_to_sexpr(&t), "(+ a (f))");
}

#[test]
fn rule_with_name() {
    let (name, lhs, rhs) = parse_rule_str("idemp: (+ ?x 0) => ?x", 1).unwrap();
    assert_eq!(name, "idemp");
    assert_eq!(lhs, "(+ ?x 0)");
    assert_eq!(rhs, "?x");
}

#[test]
fn rule_default_name() {
    let (name, lhs, rhs) = parse_rule_str("?x + 0 => ?x", 3).unwrap();
    assert_eq!(name, "custom-3");
    assert_eq!(lhs, "(+ ?x 0)");
    assert_eq!(rhs, "?x");
    let (name, _, _) = parse_rule_str("x * 1 => x", 120).unwrap();
    assert_eq!(name, "custom-120");
}

#[test]
fn rule_bad_name_keeps_colon() {
    // "a b" is no name, so the colon stays in the left side.
    assert_eq!(
        parse_rule_str("a b: x => y", 12).unwrap_err(),
        "неожиданный символ ':'"
    );
}

#[test]
fn rule_without_arrow() {
    assert_eq!(
        parse_rule_str("r: x", 1).unwrap_err(),
        "в правиле «r: x» нет стрелки «=>» (пример: idemp: (+ ?x 0) => ?x)"
    );
}

#[test]
fn rule_with_empty_side() {
    assert_eq!(
        parse_rule_str("r: => x", 1).unwrap_err(),
        "пустая сторона в правиле «r: => x»"
    );
    assert_eq!(
        parse_rule_str("r: x =>  ", 1).unwrap_err(),
        "пустая сторона в правиле «r: x =>  »"
    );
}

#[test]
fn rule_side_parse_error() {
    assert_eq!(parse_rule_str("r: a + => x", 1).unwrap_err(),
        "не смог разобрать «a +» ни как инфиксное, ни как s-выражение");
}

#[test]
fn naive_converges() {
    let out = naive_rewrite("(* x 1)", "mul-1: (* ?x 1) => ?x");
    assert!(out.ok);
    assert!(out.converged);
    assert_eq!(out.steps, 1);
    assert_eq!(out.best, "x");
    assert_eq!(out.error, "");
}

#[test]
fn naive_demo_expression() {
    let rules = "add-0: (+ ?x 0) => ?x\nmul-1: (* ?x 1) => ?x\nadd-same: (+ ?x ?x) => (* 2 ?x)\n";
    let out = naive_rewrite("(* (+ 0 (* 1 a)) (+ b b))", rules);
    assert!(out.ok);
    assert!(out.converged);
    assert_eq!(out.steps, 1);
    assert_eq!(out.best, "(* (+ 0 (* 1 a)) (* 2 b))");
}

#[test]
fn naive_loops_on_commutativity() {
    let out = naive_rewrite("a + b", "commute-add: (+ ?x ?y) => (+ ?y ?x)");
    assert!(out.ok);
    assert!(!out.converged);
    assert_eq!(out.steps, 2000);
    assert_eq!(out.best, "(+ a b)");
}

#[test]
fn naive_no_rules() {
    let out = naive_rewrite("a * 2 + b", "");
    assert!(out.ok);
    assert!(out.converged);
    assert_eq!(out.steps, 0);
    assert_eq!(out.best, "(+ (* a 2) b)");
}

#[test]
fn naive_skips_comments_and_blank_lines() {
    let out = naive_rewrite("(* x 1)", "# comment\r\n\n   \n  mul-1: (* ?x 1) => ?x\r\n");
    assert!(out.converged);
    assert_eq!(out.steps, 1);
    assert_eq!(out.best, "x");
}

#[test]
fn naive_repeated_variable() {
    let out = naive_rewrite("(+ a b)", "(+ ?x ?x) => ?x");
    assert!(out.converged);
    assert_eq!(out.steps, 0);
    let out = naive_rewrite("(+ (f a) (f a))", "(+ ?x ?x) => (* 2 ?x)");
    assert_eq!(out.best, "(* 2 (f a))");
}

#[test]
fn naive_rewrites_leftmost_child_first() {
    let out = naive_rewrite("(g (h a) (h b))", "h-to-k: (h ?x) => (k ?x)");
    assert!(out.converged);
    assert_eq!(out.steps, 2);
    assert_eq!(out.best, "(g (k a) (k b))");
}

#[test]
fn naive_unbound_variable_stays() {
    let out = naive_rewrite("(f a)", "(f ?x) => (g ?y)");
    assert_eq!(out.steps, 1);
    assert_eq!(out.best, "(g ?y)");
}

#[test]
fn naive_errors() {
    let out = naive_rewrite("", "x => y");
    assert!(!out.ok);
    assert_eq!(out.error, "пустой ввод");
    assert_eq!(out.steps, 0);
    assert_eq!(out.best, "");
    let out = naive_rewrite("a", "# ok\nbad rule");
    assert!(!out.ok);
    assert_eq!(
        out.error,
        "в правиле «bad rule» нет стрелки «=>» (пример: idemp: (+ ?x 0) => ?x)"
    );
}

#[test]
fn recexpr_from_tree() {
    let t = parse_any("a + b * c").unwrap();
    let r: RecExpr<SymbolLang> = tree_to_recexpr(&t);
    assert_eq!(r.to_string(), "(+ a (* b c))");
    assert_eq!(r.as_ref().len(), 5);
    assert!(r.is_dag());
    let leaf = tree_to_recexpr(&Tree::Leaf("x".to_string()));
    assert_eq!(leaf.to_string(), "x");
}

#[test]
fn make_rule_accepts_builtin_rules() {
    for (name, lhs, rhs) in [
        ("commute-add", "(+ ?x ?y)", "(+ ?y ?x)"),
        ("mul-0", "(* ?x 0)", "0"),
        ("mul-assoc", "(* (* ?x ?y) ?z)", "(* ?x (* ?y ?z))"),
    ] {
        let rw = make_rule(name, lhs, rhs).unwrap();
        assert_eq!(rw.name.as_str(), name);
    }
}

#[test]
fn make_rule_unbound_variable() {
    assert_eq!(
        make_rule("bad", "(+ ?x 0)", "?y").err().unwrap(),
        "правило «bad»: Rewrite bad refers to unbound var ?y"
    );
}

#[test]
fn make_rule_parse_errors() {
    let e = make_rule("r", "(+ ?x", "?x").err().unwrap();
    assert!(e.starts_with("левая часть «(+ ?x»: "), "{e}");
    let e = make_rule("r", "?x", "()").err().unwrap();
    assert!(e.starts_with("правая часть «()»: "), "{e}");
}

#[test]
fn identity_rule_rebuilds_the_matched_term() {
    // The instance of a matched pattern is the matched term itself, so a rule
    // whose sides agree always applies and never changes anything.
    let out = naive_rewrite("(f (g a) b)", "(f ?x ?y) => (f ?x ?y)");
    assert!(!out.converged);
    assert_eq!(out.steps, 2000);
    assert_eq!(out.best, "(f (g a) b)");
}

#[test]
fn rule_sides_are_canonical() {
    for line in ["idemp: ?x + 0 => ?x", "r: a * (b + c) => a * b + a * c", "(f x) => (g (h x))"] {
        let (_, lhs, rhs) = parse_rule_str(line, 1).unwrap();
        assert_eq!(parse_expr_str(&lhs).unwrap(), lhs);
        assert_eq!(parse_expr_str(&rhs).unwrap(), rhs);
    }
}

#[test]
fn recexpr_reads_back_node_by_node() {
    let r = tree_to_recexpr(&parse_any("(f (g a) b)").unwrap());
    let nodes = r.as_ref();
    assert_eq!(nodes.len(), 4);
    assert_eq!(nodes[0].op.as_str(), "a");
    assert_eq!(nodes[1].op.as_str(), "g");
    assert_eq!(nodes[1].children, vec![egg::Id::from(0)]);
    assert_eq!(nodes[2].op.as_str(), "b");
    assert!(nodes[2].children.is_empty());
    assert_eq!(nodes[3].op.as_str(), "f");
    assert_eq!(nodes[3].children, vec![egg::Id::from(1), egg::Id::from(2)]);
}

#[test]
fn make_rule_sides_are_the_given_patterns() {
    let rw = make_rule("mul-assoc", "(* (* ?x ?y) ?z)", "(* ?x (* ?y ?z))").unwrap();
    let lhs = Searcher::<SymbolLang, ()>::get_pattern_ast(&*rw.searcher).unwrap();
    let rhs = Applier::<SymbolLang, ()>::get_pattern_ast(&*rw.applier).unwrap();
    assert_eq!(lhs.to_string(), "(* (* ?x ?y) ?z)");
    assert_eq!(rhs.to_string(), "(* ?x (* ?y ?z))");
    let rw = make_rule("add-0", "(+ ?x 0)", "?x").unwrap();
    let rhs = Applier::<SymbolLang, ()>::get_pattern_ast(&*rw.applier).unwrap();
    assert_eq!(rhs.to_string(), "?x");
}

#[test]
fn builtin_rule_lines_read_back_as_their_sides() {
    let table = egg_web::site::builtin_rules();
    for (i, (_, name, lhs, rhs)) in table.iter().enumerate() {
        let line = format!("{name}: {lhs} => {rhs}");
        let (n, l, r) = parse_rule_str(&line, i + 1).unwrap();
        assert_eq!((n.as_str(), l.as_str(), r.as_str()), (*name, *lhs, *rhs));
    }
}

#[test]
fn tree_clone_and_equality() {
    let t = parse_any("(f (g a) b)").unwrap();
    let c = t.clone();
    assert_eq!(c, t);
    assert_ne!(c, parse_any("(f (g a) c)").unwrap());
    assert_eq!(tree_to_sexpr(&c), "(f (g a) b)");
}

#[test]
fn unicode_white_space_is_trimmed() {
    assert_eq!(canon("\u{3000}a + b\u{2003}\u{85}"), "(+ a b)");
    assert_eq!(canon("\u{a0}(* x 1)\u{2029}"), "(* x 1)");
}

#[test]
fn first_bad_rule_line_stops_the_run() {
    let out = naive_rewrite("a", "add-0: (+ ?x 0) => ?x\nbad\nalso bad");
    assert!(!out.ok);
    assert_eq!(out.error, "в правиле «bad» нет стрелки «=>» (пример: idemp: (+ ?x 0) => ?x)");
    assert!(!out.converged);
    assert_eq!(out.steps, 0);
    assert_eq!(out.best, "");
}

#[test]
fn matching_is_complete_and_binds_once() {
    // (+ ?x ?x) has (+ (g a) (g a)) as an instance, so it matches; it has no
    // instance (+ a b), so the rewriter leaves that alone.
    let out = naive_rewrite("(+ (g a) (g a))", "(+ ?x ?x) => (* 2 ?x)");
    assert!(out.converged);
    assert_eq!(out.steps, 1);
    assert_eq!(out.best, "(* 2 (g a))");
    let out = naive_rewrite("(+ a b)", "(+ ?x ?x) => (* 2 ?x)");
    assert_eq!((out.converged, out.steps), (true, 0));
    assert_eq!(out.best, "(+ a b)");
}
