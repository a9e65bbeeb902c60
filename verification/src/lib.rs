pub mod analyzer;
pub mod ast;
pub mod callgraph;
pub mod detector;
pub mod loader;
pub mod parser;
pub mod parser_laws;
pub mod properties;
pub mod registry;
pub mod text;
pub mod detector_laws;
