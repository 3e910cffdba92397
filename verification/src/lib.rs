//! Search configuration, filtering rules and text formatting for a fast
//! local file finder.

pub mod commands;
pub mod config;
pub mod ignore;
pub mod interactive;
pub mod matcher;
pub mod output;
pub mod paths;
pub mod scanner;
pub mod text;
