use vstd::prelude::*;

verus! {

/// The ways in which deriving the pull-request metadata can fail.
#[derive(Debug)]
pub enum ScriptErrors {
    /// Something in the configuration (or in a file it points to) is unusable.
    ConfigError(String),
    /// The configuration document could not be parsed.
    ParseError(String),
}

impl ScriptErrors {
    /// The text that the error carries.
    pub fn message(&self) -> (r: &String)
        ensures
            r == match self {
                ScriptErrors::ConfigError(m) => m,
                ScriptErrors::ParseError(m) => m,
            },
    {
        match self {
            ScriptErrors::ConfigError(m) => m,
            ScriptErrors::ParseError(m) => m,
        }
    }
}

} // verus!
