//! A small Unix shell's command-line language: quoting, escapes, comments,
//! variable and status expansion, redirection and pipelines, with the
//! decisions its built-in commands, job control and session loop make.
pub mod jobs;
pub mod parser;
pub mod parser_laws;
pub mod pipeline_laws;
pub mod paths;
pub mod prompt;
pub mod session;
pub mod shell;
pub mod text;
pub mod word_laws;

pub use parser::{
    parse_command_line, parse_command_line_with_status, parse_line, parse_line_with_status,
    parse_pipeline, parse_pipeline_with_status,
    OutputRedirection, ParseError, ParsedCommand,
};
