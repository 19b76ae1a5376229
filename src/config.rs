//! The compiler's configuration, taken from its command-line arguments.
use vstd::prelude::*;

verus! {

/// Configuration of one run of the compiler.
#[derive(Debug)]
pub struct Config {
    /// The C file to be compiled
    pub filename: String,
}

/// Why no configuration could be formed from the arguments.
#[derive(Clone, Copy, Debug, PartialEq, Eq, Structural)]
pub enum ConfigError {
    /// No file name followed the program name.
    MissingFilename,
}

impl Config {
    /// Builds a `Config` from the command-line arguments, the program name first:
    /// the file to compile is the argument after it.
    pub fn new(args: Vec<String>) -> (r: Result<Config, ConfigError>)
        ensures
            args.len() >= 2 <==> r is Ok,
            r matches Ok(c) ==> c.filename@ == args[1]@,
            r matches Err(e) ==> e == ConfigError::MissingFilename,
    {
        if args.len() < 2 {
            return Err(ConfigError::MissingFilename);
        }
        let filename = args[1].clone();
        Ok(Config { filename })
    }
}

impl ConfigError {
    /// A message that describes the error.
    pub fn message(&self) -> (r: &'static str)
        ensures
            r@ == "No file was given"@,
    {
        "No file was given"
    }
}

} // verus!
