//! The optional config file: the TMDB key, the piece-cache budget, and when
//! to queue the next episode.
//!
//! The environment still wins for the key. `TMDB_API_KEY` is how a one-off run
//! overrides everything. The file exists because a desktop panel spawns dekho
//! without a login shell's exported environment, so the key has to be readable
//! from somewhere on disk too. For the other keys the command-line flag wins
//! over the file.
//!
//! Parsed by hand: this is a two-line file of `key = "value"`, and a TOML crate
//! would be a dependency for that alone. Unknown keys are ignored rather than
//! rejected, so a config file written for a later dekho still works with this
//! one.

use crate::text;
use crate::text::Separator;
use crate::xdg;
use crate::xdg::Environment;
use vstd::prelude::*;

verus! {

pub const KEY: &'static str = "tmdb_api_key";

/// Where the config file lives.
pub fn path(env: &Environment) -> (r: String)
    ensures
        r@ == xdg::own_file(
            xdg::base_dir(env.xdg_config_home, env.home, ".config"@, env.temp_dir@),
            "config.toml"@,
        ),
{
    let base = xdg::config_home(env);
    xdg::dekho_file(base.as_str(), "config.toml")
}

/// The text is wrapped in a pair of the quotes.
pub open spec fn wrapped(s: Seq<char>, quote: char) -> bool {
    s.len() >= 2 && s[0] == quote && s.last() == quote
}

/// The text without one layer of matching quotes, where it has one.
pub open spec fn unquoted(s: Seq<char>) -> Seq<char> {
    if wrapped(s, '"') || wrapped(s, '\'') {
        s.subrange(1, s.len() - 1)
    } else {
        s
    }
}

/// Strip one layer of matching quotes, leaving anything else alone.
pub fn unquote(value: &str) -> (r: String)
    ensures
        r@ == unquoted(value@),
{
    let s = text::chars_of(value);
    let n = s.len();
    if n >= 2 && ((s[0] == '"' && s[n - 1] == '"') || (s[0] == '\'' && s[n - 1] == '\'')) {
        let inner = text::slice_of(s.as_slice(), 1, n - 1);
        text::string_of(inner.as_slice())
    } else {
        text::string_of(s.as_slice())
    }
}

/// The value that a line of the file gives a key, if it gives it one: the line
/// is no comment, names the key before its first equals sign, and has something
/// behind it.
pub open spec fn line_value(line: Seq<char>, key: Seq<char>) -> Option<Seq<char>> {
    let l = text::trim(line);
    if l.len() == 0 || l[0] == '#' {
        None
    } else {
        match text::place_of(l, '=') {
            Some(i) => {
                let value = unquoted(text::trim(l.skip(i + 1)));
                if text::trim(l.take(i)) == key && value.len() > 0 {
                    Some(value)
                } else {
                    None
                }
            },
            None => None,
        }
    }
}

/// The first value that the lines give a key.
pub open spec fn first_value(lines: Seq<Seq<char>>, key: Seq<char>) -> Option<Seq<char>>
    decreases lines.len(),
{
    if lines.len() == 0 {
        None
    } else {
        match line_value(lines[0], key) {
            Some(v) => Some(v),
            None => first_value(lines.drop_first(), key),
        }
    }
}

/// The value of a key in the text of a config file.
pub open spec fn configured(src: Seq<char>, key: Seq<char>) -> Option<Seq<char>> {
    first_value(text::split(src, Separator::Only('\n')), key)
}

/// The value of a key in a config file that may not be there.
pub open spec fn configured_in(file: Option<&str>, key: Seq<char>) -> Option<Seq<char>> {
    match file {
        Some(src) => configured(src@, key),
        None => None,
    }
}

fn read_line(line: &[char], key: &str) -> (r: Option<String>)
    ensures
        match r {
            Some(v) => line_value(line@, key@) == Some(v@),
            None => line_value(line@, key@) is None,
        },
{
    let l = text::trimmed(line);
    let n = l.len();
    if n == 0 || l[0] == '#' {
        return None;
    }
    match text::find_char(l.as_slice(), '=') {
        Some(i) => {
            let name = text::slice_of(l.as_slice(), 0, i);
            let rest = text::slice_of(l.as_slice(), i + 1, n);
            assert(name@ =~= l@.take(i as int));
            assert(rest@ =~= l@.skip(i + 1));
            let name = text::trimmed(name.as_slice());
            if !text::is_str(name.as_slice(), key) {
                return None;
            }
            let rest = text::trimmed(rest.as_slice());
            let value = text::string_of(rest.as_slice());
            let value = unquote(value.as_str());
            if value.as_str().is_empty() {
                None
            } else {
                Some(value)
            }
        },
        None => None,
    }
}

/// Read one key out of config-file text.
pub fn value_of(src: &str, key: &str) -> (r: Option<String>)
    ensures
        match r {
            Some(v) => configured(src@, key@) == Some(v@),
            None => configured(src@, key@) is None,
        },
{
    let s = text::chars_of(src);
    let lines = text::split_on(s.as_slice(), Separator::Only('\n'));
    let ghost all = text::texts(lines@);
    let mut i: usize = 0;
    assert(all.skip(0) =~= all);
    while i < lines.len()
        invariant
            i <= lines.len(),
            all == text::texts(lines@),
            all == text::split(src@, Separator::Only('\n')),
            configured(src@, key@) == first_value(all.skip(i as int), key@),
        decreases lines.len() - i,
    {
        assert(all.skip(i as int)[0] == lines@[i as int]@);
        if let Some(v) = read_line(lines[i].as_slice(), key) {
            return Some(v);
        }
        assert(all.skip(i as int).drop_first() =~= all.skip(i + 1));
        i += 1;
    }
    None
}

/// Read any key out of the config file. A missing file is simply no value.
pub fn get(file: Option<&str>, key: &str) -> (r: Option<String>)
    ensures
        match r {
            Some(v) => configured_in(file, key@) == Some(v@),
            None => configured_in(file, key@) is None,
        },
{
    match file {
        Some(src) => value_of(src, key),
        None => None,
    }
}

/// The key stored in a config file. A missing file is not an error: most
/// installs only ever set the environment variable.
pub fn file_key(file: Option<&str>) -> (r: Option<String>)
    ensures
        match r {
            Some(v) => configured_in(file, KEY@) == Some(v@),
            None => configured_in(file, KEY@) is None,
        },
{
    get(file, KEY)
}

/// The key as the environment gives it, if it does.
pub open spec fn key_from_env(env: Option<&str>) -> Seq<char> {
    match env {
        Some(k) => text::trim(k@),
        None => Seq::empty(),
    }
}

/// No key anywhere.
#[derive(Clone, Copy, Debug, PartialEq, Eq, Structural)]
pub struct KeyMissing;

impl KeyMissing {
    /// What to tell the user, given where the config file would be.
    pub fn message(self, path: &str) -> (r: String)
        ensures
            r@
                == "TMDB_API_KEY is not set.\nGet a free key at https://www.themoviedb.org/settings/api and export it:\n  set -Ux TMDB_API_KEY <your key>\nor put it in "@
                + path@ + ":\n  tmdb_api_key = \"<your key>\""@,
    {
        let mut out = text::chars_of(
            "TMDB_API_KEY is not set.\nGet a free key at https://www.themoviedb.org/settings/api and export it:\n  set -Ux TMDB_API_KEY <your key>\nor put it in ",
        );
        text::push_str(&mut out, path);
        text::push_str(&mut out, ":\n  tmdb_api_key = \"<your key>\"");
        text::string_of(out.as_slice())
    }
}

/// The TMDB key, from the environment first and the config file second.
pub fn tmdb_key(env: Option<&str>, file: Option<&str>) -> (r: Result<String, KeyMissing>)
    ensures
        match r {
            Ok(k) => if key_from_env(env).len() > 0 {
                k@ == key_from_env(env)
            } else {
                configured_in(file, KEY@) == Some(k@)
            },
            Err(_) => key_from_env(env).len() == 0 && configured_in(file, KEY@) is None,
        },
{
    if let Some(k) = env {
        let s = text::chars_of(k);
        let t = text::trimmed(s.as_slice());
        if t.len() > 0 {
            return Ok(text::string_of(t.as_slice()));
        }
    }
    match file_key(file) {
        Some(k) => Ok(k),
        None => Err(KeyMissing),
    }
}

/// `cache_max_gb`: the piece-cache budget in GiB, 0 meaning unlimited.
pub fn cache_max_gb(file: Option<&str>) -> (r: Option<u64>)
    ensures
        match configured_in(file, "cache_max_gb"@) {
            Some(v) => match r {
                Some(n) => text::parse_number(v, u64::MAX as nat) == Some(n as nat),
                None => text::parse_number(v, u64::MAX as nat) is None,
            },
            None => r is None,
        },
{
    match get(file, "cache_max_gb") {
        Some(v) => {
            let s = text::chars_of(v.as_str());
            text::read_number(s.as_slice(), u64::MAX)
        },
        None => None,
    }
}

/// `queue_next`: when a series queues the following episode: `auto`,
/// `immediate`, or a percentage like `50%`.
pub fn queue_next(file: Option<&str>) -> (r: Option<String>)
    ensures
        match r {
            Some(v) => configured_in(file, "queue_next"@) == Some(v@),
            None => configured_in(file, "queue_next"@) is None,
        },
{
    get(file, "queue_next")
}

/// Stripping takes one layer of quotes off, and only one.
pub proof fn one_layer_comes_off(s: Seq<char>, quote: char)
    requires
        quote == '"' || quote == '\'',
    ensures
        unquoted(seq![quote] + s + seq![quote]) == s,
{
    let w = seq![quote] + s + seq![quote];
    assert(w[0] == quote && w.last() == quote);
    assert(w.subrange(1, w.len() - 1) =~= s);
}

/// A value that no quotes wrap is left alone.
pub proof fn bare_values_stay(s: Seq<char>)
    requires
        s.len() == 0 || (s[0] != '"' && s[0] != '\''),
    ensures
        unquoted(s) == s,
{
}

/// A line gives the key before its first equals sign the value behind it, without
/// the quotes around it; it gives no other key a value, and none where the value is
/// empty. A comment gives none at all.
pub proof fn a_line_sets_its_key(key: Seq<char>, value: Seq<char>, other: Seq<char>)
    requires
        key.len() > 0,
        !key.contains('='),
        key[0] != '#',
        !text::is_space(key[0]),
        !text::is_space(key.last()),
        value.len() > 0,
        !text::is_space(value[0]),
        !text::is_space(value.last()),
    ensures
        unquoted(value).len() > 0 ==> line_value(key.push('=') + value, key) == Some(
            unquoted(value),
        ),
        unquoted(value).len() == 0 ==> line_value(key.push('=') + value, key) is None,
        other != key ==> line_value(key.push('=') + value, other) is None,
        line_value(seq!['#'] + key.push('=') + value, key) is None,
        line_value(key, key) is None,
{
    let line = key.push('=') + value;
    assert(line[0] == key[0]);
    assert(line.last() == value.last());
    assert(text::trim(line) == line);
    crate::torrentio::lemma_place(key, '=', value);
    assert(line.take(key.len() as int) =~= key);
    assert(line.skip(key.len() as int + 1) =~= value);
    assert(text::trim(key) == key && text::trim(value) == value);
    let comment = seq!['#'] + key.push('=') + value;
    assert(comment[0] == '#');
    assert(comment.last() == value.last());
    assert(text::trim(comment) == comment);
    crate::torrentio::lemma_no_place(key, '=');
}

/// Of the lines that give a key a value, the first counts; where none does, the
/// key has none.
pub proof fn the_first_line_counts(lines: Seq<Seq<char>>, key: Seq<char>, i: int)
    ensures
        0 <= i < lines.len() && line_value(lines[i], key) is Some && (forall|k: int|
            0 <= k < i ==> line_value(#[trigger] lines[k], key) is None) ==> first_value(lines, key)
            == line_value(lines[i], key),
        (forall|k: int| 0 <= k < lines.len() ==> line_value(#[trigger] lines[k], key) is None)
            ==> first_value(lines, key) is None,
    decreases lines.len(),
{
    if lines.len() > 0 {
        let t = lines.drop_first();
        the_first_line_counts(t, key, i - 1);
        assert forall|k: int| 0 <= k < t.len() implies #[trigger] t[k] == lines[k + 1] by {}
        if line_value(lines[0], key) is None {
            if forall|k: int| 0 <= k < lines.len() ==> line_value(#[trigger] lines[k], key) is None {
                assert forall|k: int| 0 <= k < t.len() implies line_value(
                    #[trigger] t[k],
                    key,
                ) is None by {
                    assert(line_value(lines[k + 1], key) is None);
                }
            }
            if 0 < i < lines.len() && line_value(lines[i], key) is Some && (forall|k: int|
                0 <= k < i ==> line_value(#[trigger] lines[k], key) is None) {
                assert forall|k: int| 0 <= k < i - 1 implies line_value(
                    #[trigger] t[k],
                    key,
                ) is None by {
                    assert(line_value(lines[k + 1], key) is None);
                }
                assert(t[i - 1] == lines[i]);
            }
        }
    }
}

} // verus!
