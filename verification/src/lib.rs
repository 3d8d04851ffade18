//! Compiler for proxy-profile configurations: verified override engine,
//! provider path rules, schema-ordered output and helper codecs.
pub mod json;
pub mod model;
pub mod text;
pub mod cli;
pub mod compiler;
pub mod engine;
pub mod io;
