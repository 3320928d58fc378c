//! Where dekho keeps things on disk.
//!
//! Hand-rolled rather than taken from a crate: three environment variables with
//! one fallback each does not justify a dependency, and the `$HOME`-unset case
//! has to be spelled out here either way.

use crate::text;
use vstd::prelude::*;

verus! {

/// What the environment says of where things go.
pub struct Environment {
    pub xdg_config_home: Option<String>,
    pub xdg_cache_home: Option<String>,
    pub xdg_state_home: Option<String>,
    pub home: Option<String>,
    /// The system's directory for temporary files.
    pub temp_dir: String,
}

/// A path with a further component.
pub open spec fn path_join(base: Seq<char>, name: Seq<char>) -> Seq<char> {
    if base.len() == 0 {
        name
    } else if base.last() == '/' {
        base + name
    } else {
        base + "/"@ + name
    }
}

/// A path with a further component.
pub fn join(base: &str, name: &str) -> (r: String)
    ensures
        r@ == path_join(base@, name@),
{
    let mut out = text::chars_of(base);
    if out.len() == 0 {
        return name.to_string();
    }
    if out[out.len() - 1] != '/' {
        text::push_str(&mut out, "/");
    }
    text::push_str(&mut out, name);
    text::string_of(out.as_slice())
}

/// A base directory: the variable where it is set, else a place in the home
/// directory, else the directory for temporary files. That one is wrong but
/// harmless, whereas a path relative to the working directory would litter
/// whatever directory dekho happened to be launched from.
pub open spec fn base_dir(
    var: Option<String>,
    home: Option<String>,
    fallback: Seq<char>,
    temp_dir: Seq<char>,
) -> Seq<char> {
    if text::or_empty(var).len() > 0 {
        text::or_empty(var)
    } else if text::or_empty(home).len() > 0 {
        path_join(text::or_empty(home), fallback)
    } else {
        temp_dir
    }
}

fn base(var: &Option<String>, fallback: &str, env: &Environment) -> (r: String)
    ensures
        r@ == base_dir(*var, env.home, fallback@, env.temp_dir@),
{
    if let Some(dir) = var {
        if !dir.as_str().is_empty() {
            return dir.clone();
        }
    }
    match &env.home {
        Some(home) => {
            if !home.as_str().is_empty() {
                return join(home.as_str(), fallback);
            }
        },
        None => {},
    }
    env.temp_dir.clone()
}

/// `$XDG_CONFIG_HOME`, or `~/.config`.
pub fn config_home(env: &Environment) -> (r: String)
    ensures
        r@ == base_dir(env.xdg_config_home, env.home, ".config"@, env.temp_dir@),
{
    base(&env.xdg_config_home, ".config", env)
}

/// `$XDG_CACHE_HOME`, or `~/.cache`.
pub fn cache_home(env: &Environment) -> (r: String)
    ensures
        r@ == base_dir(env.xdg_cache_home, env.home, ".cache"@, env.temp_dir@),
{
    base(&env.xdg_cache_home, ".cache", env)
}

/// `$XDG_STATE_HOME`, or `~/.local/state`.
pub fn state_home(env: &Environment) -> (r: String)
    ensures
        r@ == base_dir(env.xdg_state_home, env.home, ".local/state"@, env.temp_dir@),
{
    base(&env.xdg_state_home, ".local/state", env)
}

/// A file of dekho's own in a base directory.
pub open spec fn own_file(base: Seq<char>, name: Seq<char>) -> Seq<char> {
    path_join(path_join(base, "dekho"@), name)
}

/// A file of dekho's own in a base directory.
pub fn dekho_file(base: &str, name: &str) -> (r: String)
    ensures
        r@ == own_file(base@, name@),
{
    let dir = join(base, "dekho");
    join(dir.as_str(), name)
}

/// A base directory is the variable's where it is set, else one in the home
/// directory, else the temporary one. A path has one slash between its parts.
pub proof fn variables_outrank_the_home(
    var: Option<String>,
    home: Option<String>,
    fallback: Seq<char>,
    temp_dir: Seq<char>,
)
    ensures
        ({
            let r = base_dir(var, home, fallback, temp_dir);
            let set = var is Some && (var->0)@.len() > 0;
            let homely = home is Some && (home->0)@.len() > 0;
            &&& set ==> r == (var->0)@
            &&& !set && homely && (home->0)@.last() != '/' ==> r == (home->0)@ + "/"@ + fallback
            &&& !set && homely && (home->0)@.last() == '/' ==> r == (home->0)@ + fallback
            &&& !set && !homely ==> r == temp_dir
        }),
{
}

} // verus!
