//! ascfix library: repair of ASCII diagrams, tables, lists and code fences
//! in Markdown, with its behaviour stated in contracts and proved.

pub mod text;
pub mod primitives;
pub mod grid;
pub mod detector;
pub mod normalizer;
pub mod renderer;
pub mod inline_code;
pub mod parser;
pub mod scanner;
pub mod fences;
pub mod links;
pub mod tables;
pub mod lists;
pub mod config;
pub mod cli;
pub mod output;
pub mod discovery;
pub mod processor;
pub mod modes;
pub mod transformation_analysis;
pub mod quality;
