use vstd::prelude::*;

pub mod misc;
pub mod idmap;
pub mod text;
pub mod term;
pub mod plain;
pub mod plaintext;
pub mod question;
pub mod grammar;
pub mod parser;
pub mod base;
pub mod answer;
pub mod context;
pub mod attributes;
pub mod render;
pub mod environment;
pub mod ifunctions;
pub mod strategies;
pub mod solver;
pub mod manual;
pub mod solverlog;
pub mod totalsize;
