//! Synthetic table data.
use vstd::prelude::*;

pub mod aside;
pub mod audit;
pub mod branch;
pub mod candidates;
pub mod cardinality;
pub mod copula;
pub mod coverage;
pub mod datetime;
pub mod decimal;
pub mod decisions;
pub mod derivation;
pub mod digraph;
pub mod distinct;
pub mod domain;
pub mod draft;
pub mod draw;
pub mod export;
pub mod evaluation;
pub mod expr;
pub mod fitting;
pub mod fk_pool;
pub mod generate_run;
pub mod generated;
pub mod generator;
pub mod grammar;
pub mod graph;
pub mod grid;
pub mod integrity;
pub mod learning;
pub mod lexer;
pub mod literal;
pub mod marginal;
pub mod mine;
pub mod model;
pub mod names;
pub mod overrides;
pub mod parser;
pub mod pools;
pub mod repeat;
pub mod report;
pub mod rules;
pub mod seed;
pub mod session;
pub mod syntax;
pub mod text;
pub mod train_run;
pub mod training;
pub mod value;
pub mod values;
pub mod writing;

verus! {

/// Cap on categorical levels kept while training.
#[derive(Debug, Clone, Copy, PartialEq, Eq, Structural)]
pub enum CategoricalTopK {
    Limit(usize),
    Full,
}

impl CategoricalTopK {
    pub fn cap(self) -> (r: Option<usize>)
        ensures
            r == (match self {
                CategoricalTopK::Limit(n) => Some(n),
                CategoricalTopK::Full => None::<usize>,
            }),
    {
        match self {
            Self::Limit(n) => Some(n),
            Self::Full => None,
        }
    }
}

} // verus!
