//! Reading XML DTDs and showing their structure: the declarations are parsed
//! into a model (elements with their content models and attributes, and
//! entities), which is then drawn as a static tree, a Mermaid graph, or the
//! rows of an interactive tree view.
pub mod error;
pub mod model;
pub mod text;
pub mod parser;
pub mod tree;
pub mod format;
pub mod static_tree;
pub mod state;
pub mod display;
pub mod keys;
pub mod laws;
