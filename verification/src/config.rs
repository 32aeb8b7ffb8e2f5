//! Server configuration, read from the environment. All durable state is the
//! SQLite cache at `db_path`; the modules live under `root`. The application
//! reads the variables and checks the filesystem; this module decides.

use vstd::prelude::*;

use crate::text::str_eq;

verus! {

/// The server's settings.
#[derive(Debug, Clone)]
pub struct Config {
    /// Address to listen on.
    pub bind: String,
    /// When set, `/api/*` is reachable without forward-auth headers (open
    /// mode, `DEV_AUTH=1` or `TRACKER_OPEN=1`). Never on a public host.
    pub dev_auth: bool,
    /// Root of the module collection. Required: the scanner walks this tree.
    pub root: String,
    /// SQLite cache file (path index + parsed metadata).
    pub db_path: String,
    /// Directory of the built SPA to serve.
    pub static_dir: String,
}

/// Why no configuration could be formed.
#[derive(Debug, Clone, PartialEq, Eq)]
pub enum ConfigError {
    /// `TRACKER_ROOT` is unset or empty.
    MissingRoot,
    /// `TRACKER_ROOT` names something that is not a directory.
    RootNotADirectory(String),
}

impl ConfigError {
    /// The error as the server reports it.
    pub fn message(&self) -> (res: String)
        ensures
            match *self {
                ConfigError::MissingRoot => res@
                    == "TRACKER_ROOT is required (path to the module collection)"@,
                ConfigError::RootNotADirectory(r) => res@ == "TRACKER_ROOT "@ + r@
                    + " is not a directory"@,
            },
    {
        match self {
            ConfigError::MissingRoot => String::from_str(
                "TRACKER_ROOT is required (path to the module collection)",
            ),
            ConfigError::RootNotADirectory(r) => {
                let mut m = String::from_str("TRACKER_ROOT ");
                m.append(r.as_str());
                m.append(" is not a directory");
                m
            },
        }
    }
}

/// The value of an optional variable, or `default` when it is unset.
pub open spec fn or_default(v: Option<Seq<char>>, default: Seq<char>) -> Seq<char> {
    match v {
        Some(s) => s,
        None => default,
    }
}

/// Whether an optional variable is set to exactly `1`.
pub open spec fn is_one(v: Option<Seq<char>>) -> bool {
    v == Some("1"@)
}

/// The views of an optional variable.
pub open spec fn opt_view(v: Option<String>) -> Option<Seq<char>> {
    match v {
        Some(s) => Some(s@),
        None => None,
    }
}

fn flag_set(v: &Option<String>) -> (res: bool)
    ensures
        res == is_one(opt_view(*v)),
{
    match v {
        Some(s) => str_eq(s.as_str(), "1"),
        None => false,
    }
}

fn value_or(v: Option<String>, default: &str) -> (res: String)
    ensures
        res@ == or_default(opt_view(v), default@),
{
    match v {
        Some(s) => s,
        None => String::from_str(default),
    }
}

impl Config {
    /// Build the configuration from the environment's values: each argument
    /// is the variable's value, `None` when unset (or not valid Unicode).
    /// `root_is_dir` says whether `tracker_root` names an existing directory.
    /// `TRACKER_ROOT` is required and must be a directory (the server fails
    /// closed); the rest have defaults.
    pub fn from_env(
        dev_auth: Option<String>,
        tracker_open: Option<String>,
        tracker_root: Option<String>,
        root_is_dir: bool,
        tracker_bind: Option<String>,
        tracker_db_path: Option<String>,
        static_dir: Option<String>,
    ) -> (res: Result<Config, ConfigError>)
        ensures
            match opt_view(tracker_root) {
                None => res == Err::<Config, ConfigError>(ConfigError::MissingRoot),
                Some(r) => if r.len() == 0 {
                    res == Err::<Config, ConfigError>(ConfigError::MissingRoot)
                } else if !root_is_dir {
                    res matches Err(ConfigError::RootNotADirectory(p)) && p@ == r
                } else {
                    res matches Ok(c) && {
                        &&& c.root@ == r
                        &&& c.dev_auth == (is_one(opt_view(dev_auth)) || is_one(
                            opt_view(tracker_open),
                        ))
                        &&& c.bind@ == or_default(opt_view(tracker_bind), "0.0.0.0:3010"@)
                        &&& c.db_path@ == or_default(opt_view(tracker_db_path), "tracker.db"@)
                        &&& c.static_dir@ == or_default(opt_view(static_dir), "./dist"@)
                    }
                },
            },
    {
        let open = flag_set(&dev_auth) || flag_set(&tracker_open);
        let root = match tracker_root {
            Some(r) => r,
            None => return Err(ConfigError::MissingRoot),
        };
        if root.as_str().is_empty() {
            return Err(ConfigError::MissingRoot);
        }
        if !root_is_dir {
            return Err(ConfigError::RootNotADirectory(root));
        }
        Ok(
            Config {
                dev_auth: open,
                bind: value_or(tracker_bind, "0.0.0.0:3010"),
                root,
                db_path: value_or(tracker_db_path, "tracker.db"),
                static_dir: value_or(static_dir, "./dist"),
            },
        )
    }
}

} // verus!
