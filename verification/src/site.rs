use vstd::prelude::*;
use egg::{RecExpr, Rewrite, SymbolLang};
use crate::text::{chars_of, trim, trim_chars, string_of};
use crate::tree::{Term, sexpr};
use crate::parse::{parse_text, parse_any, is_word_char, is_op_char};
use crate::rule::{decimal, push_decimal, rule_parse, parse_rule_str, is_name_char};
use crate::naive::{split_lines, split_lines_of, line_views, is_skipped};
use crate::saturation::addable;
use crate::laws::{law_recexpr_children_first, law_rule_line_reads_back};
use crate::canon::{printable, wf_term, is_word_text};
use crate::egg_terms::{recexpr_nodes, flatten, rule_build, make_rule, tree_to_recexpr, rewrite_parts, RuleView, count_nodes};

verus! {

broadcast use vstd::string::group_string_axioms;

// ---------------------------------------------------------------------------
// the built-in rules

/// A built-in rule: the id of its checkbox, its name, its left and right side.
pub type BuiltinRule = (Seq<char>, Seq<char>, Seq<char>, Seq<char>);

/// The built-in rules of the page, in the order of their checkboxes.
pub open spec fn builtin_table() -> Seq<BuiltinRule> {
    seq![
        ("rule-commute-add"@, "commute-add"@, "(+ ?x ?y)"@, "(+ ?y ?x)"@),
        ("rule-commute-mul"@, "commute-mul"@, "(* ?x ?y)"@, "(* ?y ?x)"@),
        ("rule-add-0"@, "add-0"@, "(+ ?x 0)"@, "?x"@),
        ("rule-mul-0"@, "mul-0"@, "(* ?x 0)"@, "0"@),
        ("rule-mul-1"@, "mul-1"@, "(* ?x 1)"@, "?x"@),
        ("rule-add-same"@, "add-same"@, "(+ ?x ?x)"@, "(* 2 ?x)"@),
        ("rule-mul-assoc"@, "mul-assoc"@, "(* (* ?x ?y) ?z)"@, "(* ?x (* ?y ?z))"@),
    ]
}

/// The built-in rules: (checkbox id, name, left side, right side). The same
/// texts serve egg and the naive rewriter.
pub fn builtin_rules() -> (r: Vec<(&'static str, &'static str, &'static str, &'static str)>)
    ensures
        r@.len() == builtin_table().len(),
        forall|i: int| 0 <= i < r@.len() ==> (r@[i].0@, r@[i].1@, r@[i].2@, r@[i].3@) == #[trigger] builtin_table()[i],
{
    let r = vec![
        ("rule-commute-add", "commute-add", "(+ ?x ?y)", "(+ ?y ?x)"),
        ("rule-commute-mul", "commute-mul", "(* ?x ?y)", "(* ?y ?x)"),
        ("rule-add-0", "add-0", "(+ ?x 0)", "?x"),
        ("rule-mul-0", "mul-0", "(* ?x 0)", "0"),
        ("rule-mul-1", "mul-1", "(* ?x 1)", "?x"),
        ("rule-add-same", "add-same", "(+ ?x ?x)", "(* 2 ?x)"),
        ("rule-mul-assoc", "mul-assoc", "(* (* ?x ?y) ?z)", "(* ?x (* ?y ?z))"),
    ];
    assert forall|i: int| 0 <= i < r@.len() implies (r@[i].0@, r@[i].1@, r@[i].2@, r@[i].3@) == #[trigger] builtin_table()[i] by {
        if i == 0 {} else if i == 1 {} else if i == 2 {} else if i == 3 {} else if i == 4 {} else if i == 5 {} else {}
    }
    r
}

/// Whether the `i`-th checkbox is ticked (a missing one is not).
pub open spec fn ticked(selected: Seq<bool>, i: int) -> bool {
    0 <= i < selected.len() && selected[i]
}

/// The text line of a built-in rule, as the naive rewriter reads rules.
pub open spec fn builtin_line(r: BuiltinRule) -> Seq<char> {
    r.1 + ": "@ + r.2 + " => "@ + r.3 + "\n"@
}

/// The lines of the ticked built-in rules among the first `n`.
pub open spec fn ticked_text(selected: Seq<bool>, n: int) -> Seq<char>
    decreases n,
{
    if n <= 0 || n > builtin_table().len() {
        Seq::empty()
    } else {
        ticked_text(selected, n - 1) + if ticked(selected, n - 1) {
            builtin_line(builtin_table()[n - 1])
        } else {
            Seq::empty()
        }
    }
}

/// The rules text for the naive rewriter: the ticked built-in rules, one per
/// line, then the user's own rules.
pub fn rules_text(selected: &[bool], custom: &str) -> (s: String)
    ensures
        s@ == ticked_text(selected@, builtin_table().len() as int) + custom@,
{
    let table = builtin_rules();
    let mut s = String::new();
    let mut i: usize = 0;
    while i < table.len()
        invariant
            i <= table@.len() == builtin_table().len(),
            forall|k: int| 0 <= k < table@.len() ==> (table@[k].0@, table@[k].1@, table@[k].2@, table@[k].3@) == #[trigger] builtin_table()[k],
            s@ == ticked_text(selected@, i as int),
        decreases table.len() - i,
    {
        let ghost before = s@;
        if i < selected.len() && selected[i] {
            let (_, name, lhs, rhs) = table[i];
            assert((table@[i as int].0@, table@[i as int].1@, table@[i as int].2@, table@[i as int].3@) == builtin_table()[i as int]);
            s.append(name);
            s.append(": ");
            s.append(lhs);
            s.append(" => ");
            s.append(rhs);
            s.append("\n");
            assert(s@ =~= before + builtin_line(builtin_table()[i as int]));
        } else {
            assert(s@ =~= before + Seq::<char>::empty());
        }
        i = i + 1;
    }
    s.append(custom);
    s
}

proof fn lemma_ticked_text_prefix(selected: Seq<bool>, n: int, m: int)
    requires
        0 <= n <= m <= builtin_table().len(),
    ensures
        ticked_text(selected, m).take(ticked_text(selected, n).len() as int) == ticked_text(selected, n),
        ticked_text(selected, n).len() <= ticked_text(selected, m).len(),
    decreases m - n,
{
    if n < m {
        lemma_ticked_text_prefix(selected, n, m - 1);
        let a = ticked_text(selected, m - 1);
        let b = if ticked(selected, m - 1) { builtin_line(builtin_table()[m - 1]) } else { Seq::empty() };
        assert(ticked_text(selected, m) == a + b);
        assert((a + b).take(ticked_text(selected, n).len() as int) =~= a.take(ticked_text(selected, n).len() as int));
    } else {
        assert(ticked_text(selected, m).take(ticked_text(selected, m).len() as int) =~= ticked_text(selected, m));
    }
}

/// Every ticked built-in rule is written into the rules text, after the
/// ticked rules before it in the table: the text starts with the lines of
/// the ticked rules up to and including it.
pub proof fn law_ticked_rule_written(selected: Seq<bool>, i: int)
    requires
        0 <= i < builtin_table().len(),
        ticked(selected, i),
    ensures
        ticked_text(selected, builtin_table().len() as int)
            .take((ticked_text(selected, i).len() + builtin_line(builtin_table()[i]).len()) as int)
            == ticked_text(selected, i) + builtin_line(builtin_table()[i]),
{
    lemma_ticked_text_prefix(selected, i + 1, builtin_table().len() as int);
    assert(ticked_text(selected, i + 1) == ticked_text(selected, i) + builtin_line(builtin_table()[i]));
}

/// With one built-in rule ticked, the rules text of the table is that
/// rule's line and nothing else; with none ticked, it is empty.
pub proof fn law_one_ticked_rule(selected: Seq<bool>, i: int)
    requires
        forall|j: int| 0 <= j < builtin_table().len() ==> (#[trigger] ticked(selected, j) <==> j == i),
    ensures
        ticked_text(selected, builtin_table().len() as int) == if 0 <= i < builtin_table().len() {
            builtin_line(builtin_table()[i])
        } else {
            Seq::<char>::empty()
        },
{
    let n = builtin_table().len() as int;
    assert forall|m: int| 0 <= m <= n implies #[trigger] ticked_text(selected, m) == if 0 <= i < m {
        builtin_line(builtin_table()[i])
    } else {
        Seq::<char>::empty()
    } by {
        lemma_one_ticked_upto(selected, i, m);
    }
    assert(ticked_text(selected, n) == ticked_text(selected, n));
}

proof fn lemma_one_ticked_upto(selected: Seq<bool>, i: int, m: int)
    requires
        0 <= m <= builtin_table().len(),
        forall|j: int| 0 <= j < builtin_table().len() ==> (#[trigger] ticked(selected, j) <==> j == i),
    ensures
        ticked_text(selected, m) == if 0 <= i < m {
            builtin_line(builtin_table()[i])
        } else {
            Seq::<char>::empty()
        },
    decreases m,
{
    if m > 0 {
        lemma_one_ticked_upto(selected, i, m - 1);
        assert(ticked(selected, m - 1) <==> m - 1 == i);
        if m - 1 == i {
            assert(Seq::<char>::empty() + builtin_line(builtin_table()[i]) =~= builtin_line(builtin_table()[i]));
        } else if 0 <= i < m - 1 {
            assert(builtin_line(builtin_table()[i]) + Seq::<char>::empty() =~= builtin_line(builtin_table()[i]));
        } else {
            assert(Seq::<char>::empty() + Seq::<char>::empty() =~= Seq::<char>::empty());
        }
    }
}

/// Building the ticked built-in rules among the first `n`: the rules, or
/// the first error.
pub open spec fn ticked_build(selected: Seq<bool>, n: int) -> Result<Seq<RuleView>, Seq<char>>
    decreases n,
{
    if n <= 0 || n > builtin_table().len() {
        Ok(seq![])
    } else {
        match ticked_build(selected, n - 1) {
            Err(e) => Err(e),
            Ok(c) => if ticked(selected, n - 1) {
                let r = builtin_table()[n - 1];
                match rule_build(r.1, r.2, r.3) {
                    Ok(v) => Ok(c.push(v)),
                    Err(e) => Err(e),
                }
            } else {
                Ok(c)
            },
        }
    }
}

proof fn lemma_ticked_err(selected: Seq<bool>, n: int, m: int)
    requires
        0 < n <= m <= builtin_table().len(),
        ticked_build(selected, n) is Err,
    ensures
        ticked_build(selected, m) == ticked_build(selected, n),
    decreases m - n,
{
    if m > n {
        lemma_ticked_err(selected, n, m - 1);
    }
}

/// Building the rules of the lines from the `i`-th on, `idx` rules having
/// come before: the rules, or the first error.
pub open spec fn lines_build(ls: Seq<Seq<char>>, i: int, idx: nat) -> Result<Seq<RuleView>, Seq<char>>
    decreases ls.len() - i,
{
    if i < 0 || i >= ls.len() {
        Ok(seq![])
    } else {
        let line = trim(ls[i]);
        if is_skipped(line) {
            lines_build(ls, i + 1, idx)
        } else {
            match rule_parse(line, idx + 1) {
                Err(e) => Err(e),
                Ok((name, l, r)) => match rule_build(name, l, r) {
                    Err(e) => Err(e),
                    Ok(v) => match lines_build(ls, i + 1, idx + 1) {
                        Ok(c) => Ok(seq![v] + c),
                        Err(e) => Err(e),
                    },
                },
            }
        }
    }
}

/// What collecting the rules gives: the rules in order, or the first
/// error (the ticked built-in rules first, then the user's lines).
pub open spec fn rules_outcome(selected: Seq<bool>, custom: Seq<char>) -> Result<Seq<RuleView>, Seq<char>> {
    match ticked_build(selected, builtin_table().len() as int) {
        Err(e) => Err(e),
        Ok(c) => match lines_build(split_lines(custom), 0, 0) {
            Err(e) => Err(e),
            Ok(d) => Ok(c + d),
        },
    }
}

/// A list of rewrites as plain values.
pub open spec fn rule_views(v: Seq<Rewrite<SymbolLang, ()>>) -> Seq<RuleView> {
    v.map_values(|r: Rewrite<SymbolLang, ()>| rewrite_parts(r))
}

/// The egg rules to run: the ticked built-in rules and the user's own
/// (one per line; empty lines and `#` comments hold none). An error in any
/// rule stops with its message.
#[verifier::loop_isolation(false)]
pub fn selected_rules(selected: &[bool], custom: &str) -> (r: Result<Vec<Rewrite<SymbolLang, ()>>, String>)
    ensures
        match r {
            Ok(v) => rules_outcome(selected@, custom@) == Ok::<Seq<RuleView>, Seq<char>>(rule_views(v@)),
            Err(e) => rules_outcome(selected@, custom@) == Err::<Seq<RuleView>, Seq<char>>(e@),
        },
{
    let table = builtin_rules();
    let mut rules: Vec<Rewrite<SymbolLang, ()>> = Vec::new();
    let mut i: usize = 0;
    assert(rule_views(rules@) =~= Seq::<RuleView>::empty());
    while i < table.len()
        invariant
            i <= table@.len() == builtin_table().len(),
            ticked_build(selected@, i as int) == Ok::<Seq<RuleView>, Seq<char>>(rule_views(rules@)),
        decreases table.len() - i,
    {
        if i < selected.len() && selected[i] {
            let (_, name, lhs, rhs) = table[i];
            assert((table@[i as int].0@, table@[i as int].1@, table@[i as int].2@, table@[i as int].3@) == builtin_table()[i as int]);
            let ghost before = rule_views(rules@);
            match make_rule(name, lhs, rhs) {
                Ok(rw) => {
                    rules.push(rw);
                    assert(rule_views(rules@) =~= before.push(rewrite_parts(rw)));
                },
                Err(e) => {
                    proof {
                        lemma_ticked_err(selected@, i + 1, builtin_table().len() as int);
                    }
                    return Err(e);
                },
            }
        }
        i = i + 1;
    }
    let ghost built = rule_views(rules@);
    let count = rules.len();
    let cs = chars_of(custom);
    let ls = split_lines_of(&cs);
    let ghost lsv = line_views(ls@);
    let nl = ls.len();
    let mut idx: usize = 0;
    let mut j: usize = 0;
    assert(rule_views(rules@).skip(count as int) =~= Seq::<RuleView>::empty());
    assert(rule_views(rules@).take(count as int) =~= built);
    while j < nl
        invariant
            j <= nl == ls@.len() == lsv.len(),
            lsv == split_lines(custom@),
            idx <= j,
            count <= rules@.len(),
            ticked_build(selected@, builtin_table().len() as int) == Ok::<Seq<RuleView>, Seq<char>>(built),
            rule_views(rules@).take(count as int) == built,
            lines_build(lsv, 0, 0) matches Ok(all) ==> lines_build(lsv, j as int, idx as nat) matches Ok(rest)
                && all == rule_views(rules@).skip(count as int) + rest,
            lines_build(lsv, 0, 0) is Err ==> lines_build(lsv, 0, 0) == lines_build(lsv, j as int, idx as nat),
        decreases nl - j,
    {
        let line = trim_chars(&ls[j]);
        if line.len() == 0 || line[0] == '#' {
            j = j + 1;
        } else {
            idx = idx + 1;
            let text = string_of(&line, 0, line.len());
            assert(line@.subrange(0, line@.len() as int) =~= line@);
            let (name, lhs, rhs) = match parse_rule_str(text.as_str(), idx) {
                Ok(x) => x,
                Err(e) => return Err(e),
            };
            let ghost before = rule_views(rules@);
            match make_rule(name.as_str(), lhs.as_str(), rhs.as_str()) {
                Ok(rw) => {
                    rules.push(rw);
                    assert(rule_views(rules@) =~= before.push(rewrite_parts(rw)));
                    assert(rule_views(rules@).take(count as int) =~= before.take(count as int));
                    assert(rule_views(rules@).skip(count as int) =~= before.skip(count as int).push(rewrite_parts(rw)));
                    proof {
                        if let Ok(all) = lines_build(lsv, 0, 0) {
                            let rest = lines_build(lsv, j as int + 1, idx as nat)->Ok_0;
                            assert(before.skip(count as int) + (seq![rewrite_parts(rw)] + rest) =~= before.skip(count as int).push(rewrite_parts(rw)) + rest);
                        }
                    }
                },
                Err(e) => return Err(e),
            }
            j = j + 1;
        }
    }
    proof {
        if let Ok(all) = lines_build(lsv, 0, 0) {
            assert(lines_build(lsv, j as int, idx as nat) == Ok::<Seq<RuleView>, Seq<char>>(seq![]));
            assert(rule_views(rules@) =~= built + rule_views(rules@).skip(count as int));
            assert(rule_views(rules@).skip(count as int) + seq![] =~= rule_views(rules@).skip(count as int));
        }
    }
    Ok(rules)
}

// ---------------------------------------------------------------------------
// the expression

/// The message for an expression with more nodes than egg can number.
pub open spec fn too_large_message() -> Seq<char> {
    "выражение слишком велико для egg: больше 4294967296 узлов"@
}

/// Reads the expression of the page into an egg expression.
pub fn expr_to_recexpr(text: &str) -> (r: Result<RecExpr<SymbolLang>, String>)
    ensures
        match r {
            Ok(x) => parse_text(text@) matches Ok(t) && recexpr_nodes(x) == flatten(t, 0) && addable(x),
            Err(e) => match parse_text(text@) {
                Ok(t) => flatten(t, 0).len() > u32::MAX + 1 && e@ == too_large_message(),
                Err(m) => e@ == m,
            },
        },
{
    match parse_any(text) {
        Ok(t) => match count_nodes(&t, 4294967296u64) {
            Some(_) => {
                proof {
                    law_recexpr_children_first(t@);
                }
                Ok(tree_to_recexpr(&t))
            },
            None => Err(String::from_str("выражение слишком велико для egg: больше 4294967296 узлов")),
        },
        Err(e) => Err(e),
    }
}

// ---------------------------------------------------------------------------
// what the page shows

/// The decimal digits of `n`.
pub fn decimal_string(n: usize) -> (s: String)
    ensures
        s@ == decimal(n as nat),
{
    let mut s = String::new();
    push_decimal(&mut s, n);
    assert(s@ =~= decimal(n as nat));
    s
}

/// The statistics of a saturation run.
pub open spec fn stats_text(iterations: nat, classes: nat, nodes: nat) -> Seq<char> {
    "Итераций: "@ + decimal(iterations) + ", классов эквивалентности: "@ + decimal(classes) + ", узлов: "@ + decimal(nodes)
}

/// The statistics line of a saturation run.
pub fn stats_message(iterations: usize, classes: usize, nodes: usize) -> (s: String)
    ensures
        s@ == stats_text(iterations as nat, classes as nat, nodes as nat),
{
    let mut s = String::from_str("Итераций: ");
    push_decimal(&mut s, iterations);
    s.append(", классов эквивалентности: ");
    push_decimal(&mut s, classes);
    s.append(", узлов: ");
    push_decimal(&mut s, nodes);
    s
}

/// The extracted expression with its cost.
pub fn extract_message(best: &str, cost: usize) -> (s: String)
    ensures
        s@ == best@ + "  (стоимость "@ + decimal(cost as nat) + ")"@,
{
    let mut s = String::from_str(best);
    s.append("  (стоимость ");
    push_decimal(&mut s, cost);
    s.append(")");
    s
}

/// The slider's label after a full run: `n из n`.
pub fn iteration_label(n: usize) -> (s: String)
    ensures
        s@ == decimal(n as nat) + " из "@ + decimal(n as nat),
{
    let mut s = String::new();
    push_decimal(&mut s, n);
    s.append(" из ");
    push_decimal(&mut s, n);
    s
}

/// The status line of the naive rewriter after a run that parsed.
pub open spec fn naive_status_text(converged: bool, steps: nat) -> Seq<char> {
    if converged {
        "Сошёлся: "@ + decimal(steps) + " шагов"@
    } else {
        "НЕ сошёлся за "@ + decimal(steps) + " шагов (ограничение) — зациклился"@
    }
}

/// The status line of the naive rewriter after a run that parsed.
pub fn naive_status(converged: bool, steps: usize) -> (s: String)
    ensures
        s@ == naive_status_text(converged, steps as nat),
{
    if converged {
        let mut s = String::from_str("Сошёлся: ");
        push_decimal(&mut s, steps);
        s.append(" шагов");
        s
    } else {
        let mut s = String::from_str("НЕ сошёлся за ");
        push_decimal(&mut s, steps);
        s.append(" шагов (ограничение) — зациклился");
        s
    }
}

/// The status line of the congruence-closure demo.
pub open spec fn congruence_text(same: bool, classes: nat) -> Seq<char> {
    "f(a,b) и f(a,c) в одном классе: "@ + (if same { "ДА"@ } else { "нет"@ }) + " | всего классов: "@ + decimal(classes)
}

/// The status line of the congruence-closure demo.
pub fn congruence_message(same: bool, classes: usize) -> (s: String)
    ensures
        s@ == congruence_text(same, classes as nat),
{
    let mut s = String::from_str("f(a,b) и f(a,c) в одном классе: ");
    if same {
        s.append("ДА");
    } else {
        s.append("нет");
    }
    s.append(" | всего классов: ");
    push_decimal(&mut s, classes);
    s
}

/// The status line for rules that could not be built.
pub fn rules_error_message(e: &str) -> (s: String)
    ensures
        s@ == "Правила: "@ + e@,
{
    let mut s = String::from_str("Правила: ");
    s.append(e);
    s
}

/// A toggle button's next state and its class: pressing flips it.
pub fn toggled(active: bool) -> (r: (bool, &'static str))
    ensures
        r.0 == !active,
        r.1@ == (if !active { "toggle on"@ } else { "toggle"@ }),
{
    if active {
        (false, "toggle")
    } else {
        (true, "toggle on")
    }
}

// ---------------------------------------------------------------------------
// the slider's value

/// The value of a run of decimal digits.
pub open spec fn digits_value(s: Seq<char>) -> nat
    decreases s.len(),
{
    if s.len() == 0 {
        0
    } else {
        digits_value(s.drop_last()) * 10 + (s.last() as nat - '0' as nat) as nat
    }
}

/// A non-empty run of ASCII digits.
pub open spec fn is_digits(s: Seq<char>) -> bool {
    s.len() > 0 && forall|k: int| 0 <= k < s.len() ==> '0' <= #[trigger] s[k] && s[k] <= '9'
}

/// The number that `s` spells as `usize::from_str` reads it (an optional
/// `+`, then digits, within range), or 0 where it spells none.
pub open spec fn count_or_zero(s: Seq<char>) -> nat {
    let d = if s.len() > 0 && s[0] == '+' { s.drop_first() } else { s };
    if is_digits(d) && digits_value(d) <= usize::MAX {
        digits_value(d)
    } else {
        0
    }
}

proof fn lemma_digits_grow(s: Seq<char>, i: int)
    requires
        0 <= i <= s.len(),
        forall|k: int| 0 <= k < s.len() ==> '0' <= #[trigger] s[k] && s[k] <= '9',
    ensures
        digits_value(s.take(i)) <= digits_value(s),
    decreases s.len() - i,
{
    if i < s.len() {
        lemma_digits_grow(s, i + 1);
        let a = s.take(i + 1);
        assert(a.drop_last() =~= s.take(i));
        assert(digits_value(a) == digits_value(s.take(i)) * 10 + (a.last() as nat - '0' as nat) as nat);
    } else {
        assert(s.take(i) =~= s);
    }
}

/// The iteration count that the slider's text gives (0 where it is no number).
pub fn parse_iteration(text: &str) -> (n: usize)
    ensures
        n as nat == count_or_zero(text@),
{
    let cs = chars_of(text);
    let len = cs.len();
    let start: usize = if len > 0 && cs[0] == '+' { 1 } else { 0 };
    let ghost d = if cs@.len() > 0 && cs@[0] == '+' { cs@.drop_first() } else { cs@ };
    assert(d =~= cs@.skip(start as int));
    if start >= len {
        return 0;
    }
    let mut value: usize = 0;
    let mut i = start;
    while i < len
        invariant
            start <= i <= len == cs@.len(),
            cs@ == text@,
            d == (if text@.len() > 0 && text@[0] == '+' { text@.drop_first() } else { text@ }),
            d == cs@.skip(start as int),
            d.len() > 0,
            forall|k: int| start <= k < i ==> '0' <= #[trigger] cs@[k] && cs@[k] <= '9',
            value as nat == digits_value(d.take(i - start)),
        decreases len - i,
    {
        let c = cs[i];
        if !('0' <= c && c <= '9') {
            proof {
                assert(!is_digits(d)) by {
                    assert(d[i - start] == c);
                }
            }
            return 0;
        }
        let digit = (c as u32 - '0' as u32) as usize;
        let ghost before = d.take(i - start);
        proof {
            let a = d.take(i - start + 1);
            assert(a.drop_last() =~= before);
            assert(a.last() == c);
        }
        match value.checked_mul(10) {
            Some(v) => match v.checked_add(digit) {
                Some(w) => {
                    value = w;
                },
                None => {
                    proof {
                        if is_digits(d) {
                            lemma_digits_grow(d, i - start + 1);
                        }
                    }
                    return 0;
                },
            },
            None => {
                proof {
                    if is_digits(d) {
                        lemma_digits_grow(d, i - start + 1);
                    }
                }
                return 0;
            },
        }
        i = i + 1;
    }
    proof {
        assert(d.take(len - start) =~= d);
        assert forall|k: int| 0 <= k < d.len() implies '0' <= #[trigger] d[k] && d[k] <= '9' by {
            assert(d[k] == cs@[start + k]);
        }
    }
    value
}

} // verus!
verus! {

/// The printed form of an operator with two children, and when it reads
/// back.
proof fn lemma_sexpr_binary(op: Seq<char>, a: Term, b: Term)
    ensures
        sexpr(Term::Node(op, seq![a, b])) == seq!['('] + op + seq![' '] + sexpr(a) + seq![' '] + sexpr(b) + seq![')'],
        op.len() == 1 && is_op_char(op[0]) && wf_term(a) && wf_term(b) ==> printable(Term::Node(op, seq![a, b])),
{
    assert(seq![a, b][0] == a && seq![a, b][1] == b);
    let kids = seq![a, b];
    assert(crate::tree::kids_text(kids, 0) == Seq::<char>::empty());
    assert(crate::tree::kids_text(kids, 1) == Seq::<char>::empty() + seq![' '] + sexpr(a));
    assert(crate::tree::kids_text(kids, 2) == crate::tree::kids_text(kids, 1) + seq![' '] + sexpr(b));
    assert(sexpr(Term::Node(op, kids)) =~= seq!['('] + op + seq![' '] + sexpr(a) + seq![' '] + sexpr(b) + seq![')']);
}
/// The built-in rules are written in canonical form: each one's line,
/// `name: lhs => rhs`, reads back as its own name and sides, so egg and the
/// naive rewriter see the same rules.
pub proof fn law_builtin_lines_read_back(i: int, idx: nat)
    requires
        0 <= i < builtin_table().len(),
    ensures
        rule_parse(builtin_table()[i].1 + ": "@ + builtin_table()[i].2 + " => "@ + builtin_table()[i].3, idx)
            == Ok::<(Seq<char>, Seq<char>, Seq<char>), Seq<char>>((builtin_table()[i].1, builtin_table()[i].2, builtin_table()[i].3)),
{
    reveal_strlit("(* (* ?x ?y) ?z)");
    reveal_strlit("(* 2 ?x)");
    reveal_strlit("(* ?x (* ?y ?z))");
    reveal_strlit("(* ?x 0)");
    reveal_strlit("(* ?x 1)");
    reveal_strlit("(* ?x ?y)");
    reveal_strlit("(* ?y ?x)");
    reveal_strlit("(+ ?x 0)");
    reveal_strlit("(+ ?x ?x)");
    reveal_strlit("(+ ?x ?y)");
    reveal_strlit("(+ ?y ?x)");
    reveal_strlit("*");
    reveal_strlit("+");
    reveal_strlit("0");
    reveal_strlit("1");
    reveal_strlit("2");
    reveal_strlit("?x");
    reveal_strlit("?y");
    reveal_strlit("?z");
    reveal_strlit("add-0");
    reveal_strlit("add-same");
    reveal_strlit("commute-add");
    reveal_strlit("commute-mul");
    reveal_strlit("mul-0");
    reveal_strlit("mul-1");
    reveal_strlit("mul-assoc");
    assert(is_word_text("?x"@)) by {
        assert forall|k: int| 0 <= k < 2 implies is_word_char(#[trigger] "?x"@[k]) by { if k == 0 {} else {} }
    }
    assert(is_word_text("?y"@)) by {
        assert forall|k: int| 0 <= k < 2 implies is_word_char(#[trigger] "?y"@[k]) by { if k == 0 {} else {} }
    }
    assert(is_word_text("?z"@)) by {
        assert forall|k: int| 0 <= k < 2 implies is_word_char(#[trigger] "?z"@[k]) by { if k == 0 {} else {} }
    }
    assert(is_word_text("0"@)) by {
        assert forall|k: int| 0 <= k < 1 implies is_word_char(#[trigger] "0"@[k]) by {  }
    }
    assert(is_word_text("1"@)) by {
        assert forall|k: int| 0 <= k < 1 implies is_word_char(#[trigger] "1"@[k]) by {  }
    }
    assert(is_word_text("2"@)) by {
        assert forall|k: int| 0 <= k < 1 implies is_word_char(#[trigger] "2"@[k]) by {  }
    }
    if i == 0 {
        let lt = Term::Node("+"@, seq![Term::Leaf("?x"@), Term::Leaf("?y"@)]);
        let rt = Term::Node("+"@, seq![Term::Leaf("?y"@), Term::Leaf("?x"@)]);
        lemma_sexpr_binary("+"@, Term::Leaf("?x"@), Term::Leaf("?y"@));
        lemma_sexpr_binary("+"@, Term::Leaf("?y"@), Term::Leaf("?x"@));
        assert(sexpr(lt) =~= "(+ ?x ?y)"@);
        assert(sexpr(rt) =~= "(+ ?y ?x)"@);
        assert forall|k: int| 0 <= k < 11 implies is_name_char(#[trigger] "commute-add"@[k]) by {
            if k == 0 {} else if k == 1 {} else if k == 2 {} else if k == 3 {} else if k == 4 {} else if k == 5 {} else if k == 6 {} else if k == 7 {} else if k == 8 {} else if k == 9 {} else {}
        }
        law_rule_line_reads_back("commute-add"@, lt, rt, idx);
    } else if i == 1 {
        let lt = Term::Node("*"@, seq![Term::Leaf("?x"@), Term::Leaf("?y"@)]);
        let rt = Term::Node("*"@, seq![Term::Leaf("?y"@), Term::Leaf("?x"@)]);
        lemma_sexpr_binary("*"@, Term::Leaf("?x"@), Term::Leaf("?y"@));
        lemma_sexpr_binary("*"@, Term::Leaf("?y"@), Term::Leaf("?x"@));
        assert(sexpr(lt) =~= "(* ?x ?y)"@);
        assert(sexpr(rt) =~= "(* ?y ?x)"@);
        assert forall|k: int| 0 <= k < 11 implies is_name_char(#[trigger] "commute-mul"@[k]) by {
            if k == 0 {} else if k == 1 {} else if k == 2 {} else if k == 3 {} else if k == 4 {} else if k == 5 {} else if k == 6 {} else if k == 7 {} else if k == 8 {} else if k == 9 {} else {}
        }
        law_rule_line_reads_back("commute-mul"@, lt, rt, idx);
    } else if i == 2 {
        let lt = Term::Node("+"@, seq![Term::Leaf("?x"@), Term::Leaf("0"@)]);
        let rt = Term::Leaf("?x"@);
        lemma_sexpr_binary("+"@, Term::Leaf("?x"@), Term::Leaf("0"@));
        assert(sexpr(lt) =~= "(+ ?x 0)"@);
        assert(sexpr(rt) =~= "?x"@);
        assert forall|k: int| 0 <= k < 5 implies is_name_char(#[trigger] "add-0"@[k]) by {
            if k == 0 {} else if k == 1 {} else if k == 2 {} else if k == 3 {} else {}
        }
        law_rule_line_reads_back("add-0"@, lt, rt, idx);
    } else if i == 3 {
        let lt = Term::Node("*"@, seq![Term::Leaf("?x"@), Term::Leaf("0"@)]);
        let rt = Term::Leaf("0"@);
        lemma_sexpr_binary("*"@, Term::Leaf("?x"@), Term::Leaf("0"@));
        assert(sexpr(lt) =~= "(* ?x 0)"@);
        assert(sexpr(rt) =~= "0"@);
        assert forall|k: int| 0 <= k < 5 implies is_name_char(#[trigger] "mul-0"@[k]) by {
            if k == 0 {} else if k == 1 {} else if k == 2 {} else if k == 3 {} else {}
        }
        law_rule_line_reads_back("mul-0"@, lt, rt, idx);
    } else if i == 4 {
        let lt = Term::Node("*"@, seq![Term::Leaf("?x"@), Term::Leaf("1"@)]);
        let rt = Term::Leaf("?x"@);
        lemma_sexpr_binary("*"@, Term::Leaf("?x"@), Term::Leaf("1"@));
        assert(sexpr(lt) =~= "(* ?x 1)"@);
        assert(sexpr(rt) =~= "?x"@);
        assert forall|k: int| 0 <= k < 5 implies is_name_char(#[trigger] "mul-1"@[k]) by {
            if k == 0 {} else if k == 1 {} else if k == 2 {} else if k == 3 {} else {}
        }
        law_rule_line_reads_back("mul-1"@, lt, rt, idx);
    } else if i == 5 {
        let lt = Term::Node("+"@, seq![Term::Leaf("?x"@), Term::Leaf("?x"@)]);
        let rt = Term::Node("*"@, seq![Term::Leaf("2"@), Term::Leaf("?x"@)]);
        lemma_sexpr_binary("+"@, Term::Leaf("?x"@), Term::Leaf("?x"@));
        lemma_sexpr_binary("*"@, Term::Leaf("2"@), Term::Leaf("?x"@));
        assert(sexpr(lt) =~= "(+ ?x ?x)"@);
        assert(sexpr(rt) =~= "(* 2 ?x)"@);
        assert forall|k: int| 0 <= k < 8 implies is_name_char(#[trigger] "add-same"@[k]) by {
            if k == 0 {} else if k == 1 {} else if k == 2 {} else if k == 3 {} else if k == 4 {} else if k == 5 {} else if k == 6 {} else {}
        }
        law_rule_line_reads_back("add-same"@, lt, rt, idx);
    } else if i == 6 {
        let lt = Term::Node("*"@, seq![Term::Node("*"@, seq![Term::Leaf("?x"@), Term::Leaf("?y"@)]), Term::Leaf("?z"@)]);
        let rt = Term::Node("*"@, seq![Term::Leaf("?x"@), Term::Node("*"@, seq![Term::Leaf("?y"@), Term::Leaf("?z"@)])]);
        lemma_sexpr_binary("*"@, Term::Leaf("?x"@), Term::Leaf("?y"@));
        lemma_sexpr_binary("*"@, Term::Node("*"@, seq![Term::Leaf("?x"@), Term::Leaf("?y"@)]), Term::Leaf("?z"@));
        lemma_sexpr_binary("*"@, Term::Leaf("?y"@), Term::Leaf("?z"@));
        lemma_sexpr_binary("*"@, Term::Leaf("?x"@), Term::Node("*"@, seq![Term::Leaf("?y"@), Term::Leaf("?z"@)]));
        assert(sexpr(lt) =~= "(* (* ?x ?y) ?z)"@);
        assert(sexpr(rt) =~= "(* ?x (* ?y ?z))"@);
        assert forall|k: int| 0 <= k < 9 implies is_name_char(#[trigger] "mul-assoc"@[k]) by {
            if k == 0 {} else if k == 1 {} else if k == 2 {} else if k == 3 {} else if k == 4 {} else if k == 5 {} else if k == 6 {} else if k == 7 {} else {}
        }
        law_rule_line_reads_back("mul-assoc"@, lt, rt, idx);
    }
}

} // verus!
