//! Where the store lives and where its files are, and whether it is set up.
use vstd::prelude::*;
use vstd::string::*;
use crate::paths::{join, path_join};
use crate::error::PrivconfError;

verus! {

/// The name of the store directory under the home directory.
pub const STORE_DIR_NAME: &'static str = ".privconf";

/// The name of the config file in the store.
pub const CONFIG_FILE_NAME: &'static str = "config.toml";

/// The name of the state file in the store.
pub const STATE_FILE_NAME: &'static str = "state.toml";

/// The store directory: the `PRIVCONF_DIR` override when it is set, else
/// `.privconf` under the home directory, else none.
pub open spec fn store_dir_of(env_override: Option<Seq<char>>, home: Option<Seq<char>>) -> Option<Seq<char>> {
    match env_override {
        Some(d) => Some(d),
        None => match home {
            Some(h) => Some(join(h, ".privconf"@)),
            None => None,
        },
    }
}

/// The store directory, from the value of `PRIVCONF_DIR` (when set) and the
/// home directory (when known).
pub fn store_dir(env_override: Option<&str>, home: Option<&str>) -> (r: Option<String>)
    ensures
        match r {
            Some(d) => store_dir_of(
                match env_override {
                    Some(e) => Some(e@),
                    None => None,
                },
                match home {
                    Some(h) => Some(h@),
                    None => None,
                },
            ) == Some(d@),
            None => env_override is None && home is None,
        },
{
    match env_override {
        Some(d) => Some(String::from_str(d)),
        None => match home {
            Some(h) => Some(path_join(h, STORE_DIR_NAME)),
            None => None,
        },
    }
}

/// The config file of the store.
pub fn config_path(store: &str) -> (r: String)
    ensures
        r@ == join(store@, "config.toml"@),
{
    path_join(store, CONFIG_FILE_NAME)
}

/// The state file of the store.
pub fn state_path(store: &str) -> (r: String)
    ensures
        r@ == join(store@, "state.toml"@),
{
    path_join(store, STATE_FILE_NAME)
}

/// The directory of a project in the store.
pub fn project_dir(store: &str, project: &str) -> (r: String)
    ensures
        r@ == join(join(store@, "projects"@), project@),
{
    let projects = path_join(store, "projects");
    path_join(projects.as_str(), project)
}

/// `Ok` when the store's config file exists, else `NotInitialized`.
pub fn ensure_initialized(config_exists: bool) -> (r: Result<(), PrivconfError>)
    ensures
        config_exists ==> r is Ok,
        !config_exists ==> r matches Err(PrivconfError::NotInitialized),
{
    if config_exists {
        Ok(())
    } else {
        Err(PrivconfError::NotInitialized)
    }
}

/// `Ok` when the store's config file does not exist yet, else
/// `AlreadyInitialized` with the store directory.
pub fn ensure_not_initialized(config_exists: bool, store: &str) -> (r: Result<(), PrivconfError>)
    ensures
        !config_exists ==> r is Ok,
        config_exists ==> (r matches Err(PrivconfError::AlreadyInitialized { store: s }) && s@
            == store@),
{
    if config_exists {
        Err(PrivconfError::AlreadyInitialized { store: String::from_str(store) })
    } else {
        Ok(())
    }
}

} // verus!
