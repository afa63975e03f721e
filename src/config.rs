//! The settings of one search, taken from the command line.
use vstd::prelude::*;

verus! {

/// What to look for, where, and whether case counts.
#[derive(Debug, Clone)]
pub struct Config {
    pub query: String,
    pub file_path: String,
    pub ignore_case: bool,
}

/// Why the command line gave no `Config`.
#[derive(Debug, Clone, Copy, PartialEq, Eq, Structural)]
pub enum ArgError {
    /// Nothing followed the program name.
    MissingQuery,
    /// A query came, but no file path after it.
    MissingFilePath,
}

impl ArgError {
    /// The message shown to the user.
    pub fn message(&self) -> (r: &'static str)
        ensures
            *self == ArgError::MissingQuery ==> r@ == "Didn't get query string"@,
            *self == ArgError::MissingFilePath ==> r@ == "Didn't get a file path"@,
    {
        match self {
            ArgError::MissingQuery => "Didn't get query string",
            ArgError::MissingFilePath => "Didn't get a file path",
        }
    }
}

impl Config {
    /// Reads a `Config` from the program's arguments. The first argument is
    /// the program's name and is passed over; the query and the file path
    /// follow, in that order, and anything after them is not read.
    /// `ignore_case` is whether the caller's environment asks for matching
    /// that ignores case.
    pub fn build(args: Vec<String>, ignore_case: bool) -> (r: Result<Config, ArgError>)
        ensures
            args.len() < 2 <==> r == Err::<Config, ArgError>(ArgError::MissingQuery),
            args.len() == 2 <==> r == Err::<Config, ArgError>(ArgError::MissingFilePath),
            args.len() > 2 <==> r is Ok,
            r is Ok ==> r->Ok_0.query@ == args[1]@ && r->Ok_0.file_path@ == args[2]@
                && r->Ok_0.ignore_case == ignore_case,
    {
        if args.len() < 2 {
            return Err(ArgError::MissingQuery);
        }
        if args.len() < 3 {
            return Err(ArgError::MissingFilePath);
        }
        let query = args[1].clone();
        let file_path = args[2].clone();
        Ok(Config { query, file_path, ignore_case })
    }
}

} // verus!
