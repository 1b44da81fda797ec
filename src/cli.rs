//! Output formats offered on the command line.
use vstd::prelude::*;

verus! {

/// Output formats of the command-line front end.
#[derive(Debug, Clone, Copy, PartialEq, Eq, Structural)]
pub enum OutputFormat {
    Text,
    Json,
    Yaml,
    Csv,
    Markdown,
    Toml,
}

} // verus!
