pub mod text;
pub mod tree;
pub mod parse;
pub mod rule;
pub mod naive;
pub mod egg_terms;
pub mod congruence;
pub mod canon;
pub mod laws;
pub mod site;
pub mod saturation;
pub mod engine;

