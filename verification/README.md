# egg_web

The reading and rewriting core of an interactive page about e-graphs and
equality saturation built on [egg](https://github.com/egraphs-good/egg),
written in Verus with its behaviour stated in contracts and proved.

- `src/text.rs` — characters: trimming, the character classes (`char`
  methods of std behind stated wrappers).
- `src/tree.rs` — the expression tree `Tree`, its mathematical value `Term`,
  printing as an s-expression.
- `src/parse.rs` — the tokenizer and the two grammars (infix with the usual
  precedence, and s-expressions); `parse_any`, `parse_expr_str`.
- `src/rule.rs` — rule lines `name: lhs => rhs`; `parse_rule_str`.
- `src/naive.rs` — the greedy top-down term rewriter; `naive_rewrite`.
- `src/egg_terms.rs` — the bridge to egg: `tree_to_recexpr`, `make_rule`
  (egg's types and calls behind trusted items with stated contracts).
- `src/congruence.rs` — the congruence-closure demonstration: the e-graph
  of `a`, `b`, `c`, `f(a,b)`, `f(a,c)` after declaring `a = b` and `b = c`,
  with its classes stated exactly (egg's `EGraph` behind trusted items).
- `src/saturation.rs` — equality saturation with egg's `Runner` and the
  extraction of a smallest term of the expression's class in the run's
  e-graph: what each run starts from, and what holds of every run (the
  expression stays in its class; without rules: one iteration over the
  bare e-graph, and the expression itself comes out).
- `src/site.rs` — what the page computes: the built-in rules, collecting
  the rules to run, the texts it shows.
- `src/canon.rs`, `src/laws.rs` — laws: the canonical s-expression reads
  back as the same term; whitespace around an expression changes nothing;
  a rule line of printed sides (the built-in ones among them) reads back
  as itself; matching is sound and complete; the rewriter's
  run is an iteration of single steps within the step limit; the
  expressions handed to egg are well formed and read back as the tree.
- `src/engine.rs` — the public functions under one path.
- `app/lib.rs` — the page itself (web-sys, wasm-bindgen), not verified.
