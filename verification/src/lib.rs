//! A parser and layout engine for state-machine specifications written in a
//! small, stakeholder-readable subset of TLA+, with the session logic of a
//! studio built on them: walking the machine's transitions, collecting
//! stakeholders' comments, and bundling source and comments as text.

pub mod chars;
pub mod model;
pub mod text;
pub mod grammar;
pub mod prose;
pub mod parser;
pub mod order;
pub mod maps;
pub mod layout;
pub mod laws;
pub mod layout_laws;
pub mod fit_laws;
pub mod sweep;
pub mod graph;
pub mod ranking;
pub mod dag_laws;
pub mod diagram;
pub mod studio;
pub mod session;
