//! Planning, reading, writing and checking of documentation that is generated
//! from source code: the decisions of the agent, with their contracts.

pub mod answers;
pub mod api;
pub mod audit;
pub mod audit_run;
pub mod budget;
pub mod citations;
pub mod code_blocks;
pub mod code_graph;
pub mod comparison;
pub mod composition;
pub mod config;
pub mod context;
pub mod coverage;
pub mod db;
pub mod editorial;
pub mod findings;
pub mod graph;
pub mod json;
pub mod laws;
pub mod leaves;
pub mod llm;
pub mod maintenance;
pub mod markdown;
pub mod model;
pub mod order;
pub mod packing;
pub mod pages;
pub mod parser;
pub mod planning;
pub mod prompts;
pub mod publish;
pub mod purpose;
pub mod reading;
pub mod resume;
pub mod source;
pub mod syntax;
pub mod text;
pub mod vault;
pub mod web;
