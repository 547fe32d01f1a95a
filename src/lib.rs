//! A small regular-expression engine: a pattern is parsed into a syntax tree,
//! compiled into instructions for a tiny virtual machine, and run against a line.
mod codegen;
mod engine;
mod evaluator;
mod parser;

pub use codegen::{
    code_len, code_of, flows, get_code, lemma_match_reachable, lemma_program_well_formed, list_code,
    list_len, program_of, CodeGenError,
};
pub use engine::{
    do_matching, is_literal, lemma_literal_pattern, lemma_match_strategies_agree, match_outcome, parse, spells, spells_code, Instruction, MatchError,
};
pub use evaluator::{
    accepts, accepts_from, backtrack_outcome, depth_outcome, dfs, eval, lemma_well_formed_stays_inside, outcome_from,
    reaches_from, reaches_within, strays_from, well_formed, width_outcome, EvalError,
};
pub use parser::{parse_chars, parse_spec, tree_of, trees_of, ParseError, Tree, AST};
