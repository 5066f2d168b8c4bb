pub mod address;
pub mod ast_node;
pub mod compiler;
pub mod config_util;
pub mod context;
pub mod error;
pub mod eth_call;
pub mod executable;
pub mod executor;
pub mod expression;
pub mod extractor;
pub mod mc_repo_fetcher;
pub mod parser;
pub mod perf_expression_evaluator;
pub mod registry;
pub mod table;
pub mod text;
pub mod type_kind;
