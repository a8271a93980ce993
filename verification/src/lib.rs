//! Code-graph indexing core: the symbol and language model, repository scan
//! rules, import resolution, tiered symbol, call and heritage resolution,
//! type propagation, the in-memory graph store and the linking of parsed
//! files into it, communities, processes, graph diffs and symbol matching,
//! queries and export, with their behaviour stated and proved by Verus.

pub mod text;
pub mod types;
pub mod assoc;
pub mod bench;
pub mod call_resolver;
pub mod community;
pub mod config;
pub mod diff;
pub mod error;
pub mod export;
pub mod glob;
pub mod graph;
pub mod heritage_resolver;
pub mod import_resolver;
pub mod linking;
pub mod matching;
pub mod symbol_diff;
pub mod mcp;
pub mod paths;
pub mod pipeline;
pub mod process;
pub mod queries;
pub mod resolution;
pub mod scanner;
pub mod symbol_table;
pub mod syntax;
pub mod type_env;
