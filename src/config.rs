use vstd::prelude::*;

verus! {

/// Which positional argument was not given.
#[derive(Clone, Copy, Debug, PartialEq, Eq, Structural)]
pub enum Argument {
    Query,
    Filename,
}

/// Why a run configuration could not be built.
#[derive(Clone, Copy, Debug, PartialEq, Eq, Structural)]
pub enum ConfigError {
    /// A required positional argument is absent.
    MissingArgument(Argument),
}

impl ConfigError {
    /// A human-readable description of the error.
    pub fn message(&self) -> (r: &'static str)
        ensures
            *self == ConfigError::MissingArgument(Argument::Query) ==> r@
                == "Didn't get a query string"@,
            *self == ConfigError::MissingArgument(Argument::Filename) ==> r@
                == "Didn't get a file name"@,
    {
        match self {
            ConfigError::MissingArgument(Argument::Query) => "Didn't get a query string",
            ConfigError::MissingArgument(Argument::Filename) => "Didn't get a file name",
        }
    }
}

/// The parameters of one search run.
#[derive(Clone, Debug, PartialEq, Eq)]
pub struct Config {
    pub query: String,
    pub filename: String,
    pub case_sensitive: bool,
}

impl Config {
    /// Builds a configuration from the process arguments, whose first element
    /// is the program's own name, followed by the query and the file name.
    /// `case_insensitive_set` tells whether the `CASE_INSENSITIVE` environment
    /// variable is present; its value does not matter.
    pub fn new(args: &[String], case_insensitive_set: bool) -> (r: Result<Config, ConfigError>)
        ensures
            args@.len() < 2 ==> r == Err::<Config, ConfigError>(
                ConfigError::MissingArgument(Argument::Query),
            ),
            args@.len() == 2 ==> r == Err::<Config, ConfigError>(
                ConfigError::MissingArgument(Argument::Filename),
            ),
            args@.len() > 2 ==> (r matches Ok(c) && c.query@ == args@[1]@ && c.filename@
                == args@[2]@ && c.case_sensitive == !case_insensitive_set),
    {
        if args.len() < 2 {
            return Err(ConfigError::MissingArgument(Argument::Query));
        }
        if args.len() < 3 {
            return Err(ConfigError::MissingArgument(Argument::Filename));
        }
        let query = args[1].clone();
        let filename = args[2].clone();
        Ok(Config { query, filename, case_sensitive: !case_insensitive_set })
    }
}

} // verus!
