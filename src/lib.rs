//! A Yacc grammar compiler core: it lowers a parsed grammar into a dense, index-addressed
//! table, and computes FIRST sets, LR(1) item-set closure and GOTO, and the costs and
//! minimal sentences of rules.
pub mod ast;
pub mod bits;
pub mod builder;
pub mod firsts;
pub mod grammar;
pub mod idx;
pub mod itemset;
pub mod sentence;

pub use ast::{GrammarAST, GrammarValidationError, Production};
pub use builder::{YaccGrammarError, YaccKind};
pub use firsts::Firsts;
pub use grammar::{AssocKind, Precedence, YaccGrammar};
pub use idx::{PIdx, RIdx, SIdx, Symbol, TIdx};
pub use itemset::{Item, Itemset, LookaheadShapeMismatch};
pub use sentence::{rule_max_costs, rule_min_costs, CostOverflow, SentenceGenerator};
