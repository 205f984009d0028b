//! The conventional places of configuration files.
//!
//! The functions of this module name the places; whether a file is there
//! is for the caller to find out.

use vstd::prelude::*;
use vstd::string::StringExecFns;
use crate::config::Config;
use crate::error::Error;

verus! {

/// `base` followed by `rest`.
fn joined(base: &str, rest: &str) -> (path: String)
    ensures
        path@ == base@ + rest@,
{
    let mut path: String = base.to_owned();
    path.append(rest);
    path
}

impl Config {
    /// The place of the user's configuration file: `.gitconfig` in the
    /// home directory. Fails with `NotFound` if no home directory is
    /// known.
    pub fn find_global(home: Option<&str>) -> (r: Result<String, Error>)
        ensures
            match home {
                Some(h) => r matches Ok(p) && p@ == h@ + "/.gitconfig"@,
                None => r matches Err(e) && e == Error::NotFound,
            },
    {
        match home {
            Some(h) => Ok(joined(h, "/.gitconfig")),
            None => Err(Error::NotFound),
        }
    }

    /// The place of the user's XDG configuration file: `git/config` in
    /// the XDG configuration directory if one is set, else
    /// `.config/git/config` in the home directory. Fails with `NotFound`
    /// if neither directory is known.
    pub fn find_xdg(xdg_config_home: Option<&str>, home: Option<&str>) -> (r: Result<String, Error>)
        ensures
            match (xdg_config_home, home) {
                (Some(x), _) => r matches Ok(p) && p@ == x@ + "/git/config"@,
                (None, Some(h)) => r matches Ok(p) && p@ == h@ + "/.config/git/config"@,
                (None, None) => r matches Err(e) && e == Error::NotFound,
            },
    {
        match xdg_config_home {
            Some(x) => Ok(joined(x, "/git/config")),
            None => match home {
                Some(h) => Ok(joined(h, "/.config/git/config")),
                None => Err(Error::NotFound),
            },
        }
    }

    /// The place of the machine's configuration file: `/etc/gitconfig`.
    pub fn find_system() -> (r: Result<String, Error>)
        ensures
            r matches Ok(p) && p@ == "/etc/gitconfig"@,
    {
        Ok("/etc/gitconfig".to_owned())
    }
}

} // verus!
