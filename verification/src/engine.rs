// The reading, rule-building and naive-rewriting functions under one path.
pub use crate::egg_terms::{make_rule, tree_to_recexpr};
pub use crate::naive::{naive_rewrite, NaiveOut};
pub use crate::parse::{parse_any, parse_expr_str};
pub use crate::rule::parse_rule_str;
pub use crate::tree::{tree_to_sexpr, Tree};
