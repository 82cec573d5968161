use egg_web::saturation::{run_full, show_iteration};
use egg::{Applier, Searcher, SymbolLang};
use egg_web::congruence::congruence_demo;
use egg_web::site::{
    builtin_rules, congruence_message, decimal_string, expr_to_recexpr, extract_message,
    iteration_label, naive_status, parse_iteration, rules_error_message, rules_text,
    selected_rules, stats_message, toggled,
};
use egg_web::engine::naive_rewrite;

#[test]
fn builtin_table() {
    let t = builtin_rules();
    assert_eq!(t.len(), 7);
    assert_eq!(t[0], ("rule-commute-add", "commute-add", "(+ ?x ?y)", "(+ ?y ?x)"));
    assert_eq!(t[6], ("rule-mul-assoc", "mul-assoc", "(* (* ?x ?y) ?z)", "(* ?x (* ?y ?z))"));
}

#[test]
fn rules_text_of_ticked() {
    let s = rules_text(&[false, false, true, false, true, false, false], "x => y");
    assert_eq!(s, "add-0: (+ ?x 0) => ?x\nmul-1: (* ?x 1) => ?x\nx => y");
    assert_eq!(rules_text(&[], "abc"), "abc");
}

#[test]
fn all_rules_build() {
    let rules = selected_rules(&[true; 7], "").unwrap();
    assert_eq!(rules.len(), 7);
    let rules = selected_rules(&[true, false], "# c\n\nmy: ?x - ?x => 0\n").unwrap();
    assert_eq!(rules.len(), 2);
    assert_eq!(rules[1].name.as_str(), "my");
}

#[test]
fn custom_rule_errors() {
    assert_eq!(
        selected_rules(&[true; 7], "bad").err().unwrap(),
        "в правиле «bad» нет стрелки «=>» (пример: idemp: (+ ?x 0) => ?x)"
    );
    assert_eq!(
        selected_rules(&[], "x => ?y").err().unwrap(),
        "правило «custom-1»: Rewrite custom-1 refers to unbound var ?y"
    );
}

#[test]
fn naive_with_page_rules() {
    let text = rules_text(&[false, false, true, false, true, true, false], "");
    let out = naive_rewrite("(* (+ 0 (* 1 a)) (+ b b))", &text);
    assert!(out.converged);
    assert_eq!(out.best, "(* (+ 0 (* 1 a)) (* 2 b))");
}

#[test]
fn page_expression() {
    let r = expr_to_recexpr("a * 2 + b").unwrap();
    assert_eq!(r.to_string(), "(+ (* a 2) b)");
    assert_eq!(expr_to_recexpr(" ").err().unwrap(), "пустой ввод");
}

#[test]
fn messages() {
    assert_eq!(stats_message(7, 12, 30), "Итераций: 7, классов эквивалентности: 12, узлов: 30");
    assert_eq!(extract_message("(* a (+ b b))", 5), "(* a (+ b b))  (стоимость 5)");
    assert_eq!(iteration_label(7), "7 из 7");
    assert_eq!(decimal_string(0), "0");
    assert_eq!(decimal_string(2000), "2000");
    assert_eq!(naive_status(true, 1), "Сошёлся: 1 шагов");
    assert_eq!(naive_status(false, 2000), "НЕ сошёлся за 2000 шагов (ограничение) — зациклился");
    assert_eq!(congruence_message(true, 2), "f(a,b) и f(a,c) в одном классе: ДА | всего классов: 2");
    assert_eq!(congruence_message(false, 5), "f(a,b) и f(a,c) в одном классе: нет | всего классов: 5");
    assert_eq!(rules_error_message("x"), "Правила: x");
}

#[test]
fn toggle_flips() {
    assert_eq!(toggled(false), (true, "toggle on"));
    assert_eq!(toggled(true), (false, "toggle"));
}

#[test]
fn slider_values() {
    assert_eq!(parse_iteration("12"), 12);
    assert_eq!(parse_iteration("+7"), 7);
    assert_eq!(parse_iteration("0"), 0);
    assert_eq!(parse_iteration(""), 0);
    assert_eq!(parse_iteration("+"), 0);
    assert_eq!(parse_iteration("-1"), 0);
    assert_eq!(parse_iteration("1a"), 0);
    assert_eq!(parse_iteration("99999999999999999999999"), 0);
    assert_eq!(parse_iteration(&usize::MAX.to_string()), usize::MAX);
}

#[test]
fn congruence_demo_classes() {
    let (_, same, classes, dot) = congruence_demo(false, false);
    assert_eq!((same, classes), (false, 5));
    assert!(dot.contains("digraph"));
    let (_, same, classes, _) = congruence_demo(true, false);
    assert_eq!((same, classes), (false, 4));
    let (_, same, classes, _) = congruence_demo(false, true);
    assert_eq!((same, classes), (true, 3));
    let (_, same, classes, _) = congruence_demo(true, true);
    assert_eq!((same, classes), (true, 2));
    assert_eq!(congruence_message(same, classes), "f(a,b) и f(a,c) в одном классе: ДА | всего классов: 2");
}

#[test]
fn selected_rules_hold_their_sides() {
    let rules = selected_rules(&[false, false, true], "double: ?x + ?x => 2 * ?x").unwrap();
    assert_eq!(rules.len(), 2);
    assert_eq!(rules[0].name.as_str(), "add-0");
    let l = Searcher::<SymbolLang, ()>::get_pattern_ast(&*rules[0].searcher).unwrap();
    assert_eq!(l.to_string(), "(+ ?x 0)");
    assert_eq!(rules[1].name.as_str(), "double");
    let l = Searcher::<SymbolLang, ()>::get_pattern_ast(&*rules[1].searcher).unwrap();
    let r = Applier::<SymbolLang, ()>::get_pattern_ast(&*rules[1].applier).unwrap();
    assert_eq!(l.to_string(), "(+ ?x ?x)");
    assert_eq!(r.to_string(), "(* 2 ?x)");
}

#[test]
fn saturation_views() {
    let expr = expr_to_recexpr("(* (+ a 0) 1)").unwrap();
    let rules = selected_rules(&[false, false, true, false, true, false, false], "").unwrap();
    let (max_iter, label, view) = run_full(&expr, &rules);
    assert!(max_iter >= 1 && max_iter <= 30);
    assert_eq!(label, format!("{max_iter} из {max_iter}"));
    assert!(view.iterations <= max_iter);
    assert_eq!(view.extract, "a  (стоимость 1)");
    assert_eq!(view.cost, 1);
    assert!(view.classes >= 1 && view.classes <= view.nodes);
    assert_eq!(view.stats, stats_message(view.iterations, view.classes, view.nodes));
    assert!(view.dot.contains("digraph"));
    let first = show_iteration(&expr, &rules, 0);
    assert_eq!(first.iterations, 1);
    assert_eq!(first.extract, "(* (+ a 0) 1)  (стоимость 5)");
}

#[test]
fn saturation_without_rules_keeps_the_bare_graph() {
    // The leaf b stands twice, so the 9 nodes hold 8 different terms.
    let expr = expr_to_recexpr("(* (+ 0 (* 1 a)) (+ b b))").unwrap();
    let (max_iter, label, view) = run_full(&expr, &[]);
    assert_eq!(max_iter, 1);
    assert_eq!(label, "1 из 1");
    assert_eq!((view.iterations, view.classes, view.nodes), (1, 8, 8));
    assert_eq!(view.cost, 9);
    assert_eq!(view.extract, "(* (+ 0 (* 1 a)) (+ b b))  (стоимость 9)");
    let view = show_iteration(&expr, &[], 5);
    assert_eq!((view.iterations, view.classes, view.nodes, view.cost), (1, 8, 8, 9));
}

#[test]
fn saturation_extracts_a_smallest_term() {
    let expr = expr_to_recexpr("(* (+ 0 (* 1 a)) (+ b b))").unwrap();
    let rules = selected_rules(&[true; 7], "").unwrap();
    let (max_iter, _, view) = run_full(&expr, &rules);
    assert_eq!(max_iter, 7);
    assert_eq!(view.cost, 5);
    let valid = [
        "(* a (+ b b))",
        "(* a (* 2 b))",
        "(* (+ b b) a)",
        "(* (* 2 b) a)",
        "(* a (* b 2))",
        "(* (* b 2) a)",
    ];
    assert!(valid.iter().any(|b| view.extract == format!("{b}  (стоимость 5)")), "{}", view.extract);
}
