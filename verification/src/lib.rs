pub mod bitset;
pub mod words;
pub mod parser;
pub mod expression;
pub mod text;
pub mod query;
pub mod matcher;
pub mod wordlist;
pub mod search;
pub mod phrases;
pub mod evaluator;
