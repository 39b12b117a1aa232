//! The configuration model: named collections of files to index, context
//! annotations keyed by virtual-path scope, and where configuration and
//! cache files live.
use vstd::prelude::*;

use crate::paths::{absolutize, absolutized, is_absolute, join, path_join};
use crate::strmap::StrMap;
use crate::text::{chars_of, has_prefix, starts_with, string_from_chars};

verus! {

/// The default file pattern of a collection: every file.
pub open spec fn spec_default_pattern() -> Seq<char> {
    seq!['*', '*', '/', '*']
}

/// The pattern a collection gets when none is given: `**/*`.
pub fn default_pattern() -> (p: String)
    ensures
        p@ == spec_default_pattern(),
{
    let v: Vec<char> = vec!['*', '*', '/', '*'];
    string_from_chars(v.as_slice())
}

/// New collections are searched by default.
pub fn default_include_by_default() -> (b: bool)
    ensures
        b,
{
    true
}

/// A directory tree to index.
pub struct Collection {
    pub path: String,
    pub pattern: String,
    pub ignore: Vec<String>,
    pub context: Option<String>,
    pub update: Option<String>,
    pub include_by_default: bool,
}

impl Collection {
    /// A collection at `path` with pattern `pattern` and every other field
    /// at its default.
    pub open spec fn is_fresh(&self, path: Seq<char>, pattern: Seq<char>) -> bool {
        &&& self.path@ == path
        &&& self.pattern@ == pattern
        &&& self.ignore@.len() == 0
        &&& self.context is None
        &&& self.update is None
        &&& self.include_by_default
    }
}

impl Default for Collection {
    fn default() -> (c: Collection)
        ensures
            c.is_fresh(Seq::empty(), spec_default_pattern()),
    {
        Collection {
            path: String::new(),
            pattern: default_pattern(),
            ignore: Vec::new(),
            context: None,
            update: None,
            include_by_default: default_include_by_default(),
        }
    }
}

/// The whole configuration of an index.
pub struct Config {
    pub global_context: Option<String>,
    pub collections: StrMap<Collection>,
    pub contexts: StrMap<String>,
}

impl Default for Config {
    fn default() -> (c: Config)
        ensures
            c.global_context is None,
            c.collections@ == Map::<Seq<char>, Collection>::empty(),
            c.contexts@ == Map::<Seq<char>, String>::empty(),
    {
        Config { global_context: None, collections: StrMap::new(), contexts: StrMap::new() }
    }
}

/// A context annotation that applies to a path.
pub struct ContextMatch {
    pub scope: String,
    pub value: String,
}

impl View for ContextMatch {
    type V = (Seq<char>, Seq<char>);

    open spec fn view(&self) -> (Seq<char>, Seq<char>) {
        (self.scope@, self.value@)
    }
}

/// Why a configuration change or a location lookup failed.
#[derive(Debug, PartialEq, Eq)]
pub enum ConfigError {
    /// A collection of this name is already configured.
    CollectionExists(String),
    /// No collection of this name is configured.
    CollectionMissing(String),
    /// A relative path was given and the working directory is unknown.
    NoWorkingDirectory,
    /// There is no per-user configuration directory.
    NoConfigDirectory,
    /// There is no per-user cache directory.
    NoCacheDirectory,
}

/// The text of a message made of a quoted name between two fixed parts.
pub open spec fn quoted(before: Seq<char>, name: Seq<char>, after: Seq<char>) -> Seq<char> {
    before + name + after
}

/// The message each error is reported with.
pub open spec fn error_text(e: ConfigError) -> Seq<char> {
    match e {
        ConfigError::CollectionExists(n) => quoted("collection '"@, n@, "' already exists"@),
        ConfigError::CollectionMissing(n) => quoted("collection '"@, n@, "' does not exist"@),
        ConfigError::NoWorkingDirectory => "failed to read current directory"@,
        ConfigError::NoConfigDirectory => "failed to resolve XDG config directory"@,
        ConfigError::NoCacheDirectory => "failed to resolve XDG cache directory"@,
    }
}

impl ConfigError {
    /// The human-readable message for this error.
    pub fn message(&self) -> (m: String)
        ensures
            m@ == error_text(*self),
    {
        match self {
            ConfigError::CollectionExists(n) => {
                let mut m = "collection '".to_string();
                m.append(n.as_str());
                m.append("' already exists");
                m
            },
            ConfigError::CollectionMissing(n) => {
                let mut m = "collection '".to_string();
                m.append(n.as_str());
                m.append("' does not exist");
                m
            },
            ConfigError::NoWorkingDirectory => "failed to read current directory".to_string(),
            ConfigError::NoConfigDirectory => "failed to resolve XDG config directory".to_string(),
            ConfigError::NoCacheDirectory => "failed to resolve XDG cache directory".to_string(),
        }
    }
}

// ---------------------------------------------------------------------------
// Where files live

/// The locations that the environment and the platform offer: explicit file
/// and directory overrides, and the per-user configuration and cache
/// directories.
pub struct Locations {
    /// `SIFTER_CONFIG_FILE`.
    pub config_file: Option<String>,
    /// `SIFTER_CONFIG_HOME`.
    pub config_home: Option<String>,
    /// The per-user configuration directory of the application, if any.
    pub config_dir: Option<String>,
    /// `SIFTER_CACHE_FILE`.
    pub cache_file: Option<String>,
    /// `SIFTER_CACHE_DIR`.
    pub cache_dir_override: Option<String>,
    /// `SIFTER_CACHE_HOME`.
    pub cache_home: Option<String>,
    /// The per-user cache directory of the application, if any.
    pub cache_dir: Option<String>,
}

/// `name` followed by a suffix.
pub fn with_suffix(name: &str, suffix: &str) -> (s: String)
    ensures
        s@ == name@ + suffix@,
{
    let mut s = name.to_string();
    s.append(suffix);
    s
}

/// The first of: an explicit file, a file named `name` in an explicit
/// directory, a file named `name` in the platform directory.
pub open spec fn resolve(
    file: Option<String>,
    home: Option<String>,
    platform: Option<String>,
    name: Seq<char>,
) -> Option<Seq<char>> {
    match file {
        Some(f) => Some(f@),
        None => match home {
            Some(h) => Some(path_join(h@, name)),
            None => match platform {
                Some(d) => Some(path_join(d@, name)),
                None => None,
            },
        },
    }
}

fn resolve_location(
    file: &Option<String>,
    home: &Option<String>,
    platform: &Option<String>,
    name: &str,
) -> (r: Option<String>)
    ensures
        r matches Some(s) ==> resolve(*file, *home, *platform, name@) == Some(s@),
        r is None ==> resolve(*file, *home, *platform, name@) is None,
{
    match file {
        Some(f) => Some(f.clone()),
        None => match home {
            Some(h) => Some(join(h.as_str(), name)),
            None => match platform {
                Some(d) => Some(join(d.as_str(), name)),
                None => None,
            },
        },
    }
}

/// The configuration file of the index `index_name`: `SIFTER_CONFIG_FILE`,
/// else `<index_name>.yml` in `SIFTER_CONFIG_HOME`, else in the per-user
/// configuration directory.
pub fn config_file_path(index_name: &str, env: &Locations) -> (r: Result<String, ConfigError>)
    ensures
        r matches Ok(p) ==> resolve(env.config_file, env.config_home, env.config_dir, index_name@ + ".yml"@) == Some(p@),
        r matches Err(e) ==> e == ConfigError::NoConfigDirectory && resolve(env.config_file, env.config_home, env.config_dir, index_name@ + ".yml"@) is None,
{
    let name = with_suffix(index_name, ".yml");
    match resolve_location(&env.config_file, &env.config_home, &env.config_dir, name.as_str()) {
        Some(p) => Ok(p),
        None => Err(ConfigError::NoConfigDirectory),
    }
}

/// The index database of `index_name`: `SIFTER_CACHE_FILE`, else
/// `<index_name>.sqlite3` in `SIFTER_CACHE_HOME`, else in the per-user
/// cache directory.
pub fn cache_file_path(index_name: &str, env: &Locations) -> (r: Result<String, ConfigError>)
    ensures
        r matches Ok(p) ==> resolve(env.cache_file, env.cache_home, env.cache_dir, index_name@ + ".sqlite3"@) == Some(p@),
        r matches Err(e) ==> e == ConfigError::NoCacheDirectory && resolve(env.cache_file, env.cache_home, env.cache_dir, index_name@ + ".sqlite3"@) is None,
{
    let name = with_suffix(index_name, ".sqlite3");
    match resolve_location(&env.cache_file, &env.cache_home, &env.cache_dir, name.as_str()) {
        Some(p) => Ok(p),
        None => Err(ConfigError::NoCacheDirectory),
    }
}

/// The cache directory of `index_name`: `SIFTER_CACHE_DIR`, else
/// `<index_name>` in `SIFTER_CACHE_HOME`, else in the per-user cache
/// directory.
pub fn cache_dir_path(index_name: &str, env: &Locations) -> (r: Result<String, ConfigError>)
    ensures
        r matches Ok(p) ==> resolve(env.cache_dir_override, env.cache_home, env.cache_dir, index_name@) == Some(p@),
        r matches Err(e) ==> e == ConfigError::NoCacheDirectory && resolve(env.cache_dir_override, env.cache_home, env.cache_dir, index_name@) is None,
{
    match resolve_location(&env.cache_dir_override, &env.cache_home, &env.cache_dir, index_name) {
        Some(p) => Ok(p),
        None => Err(ConfigError::NoCacheDirectory),
    }
}

// ---------------------------------------------------------------------------
// The effect of each change

/// `after` is `before` with the collection `name` added, rooted at `path`
/// with pattern `pattern` and every other setting at its default.
pub open spec fn collection_added(before: Config, after: Config, name: Seq<char>, path: Seq<char>, pattern: Seq<char>) -> bool {
    &&& after.global_context == before.global_context
    &&& after.contexts@ == before.contexts@
    &&& after.collections@.dom() == before.collections@.dom().insert(name)
    &&& forall|k: Seq<char>| k != name && #[trigger] before.collections@.contains_key(k)
        ==> after.collections@[k] == before.collections@[k]
    &&& after.collections@[name].is_fresh(path, pattern)
}

/// `after` is `before` without the collection `name`.
pub open spec fn collection_removed(before: Config, after: Config, name: Seq<char>) -> bool {
    &&& after.global_context == before.global_context
    &&& after.contexts@ == before.contexts@
    &&& after.collections@ == before.collections@.remove(name)
}

/// `after` is `before` with the collection `from` moved, settings and all, to
/// the name `to`.
pub open spec fn collection_renamed(before: Config, after: Config, from: Seq<char>, to: Seq<char>) -> bool {
    &&& after.global_context == before.global_context
    &&& after.contexts@ == before.contexts@
    &&& after.collections@ == before.collections@.remove(from).insert(to, before.collections@[from])
}

/// `after` is `before` with the context of `scope` set to `value`.
pub open spec fn context_set(before: Config, after: Config, scope: Seq<char>, value: Seq<char>) -> bool {
    &&& after.global_context == before.global_context
    &&& after.collections@ == before.collections@
    &&& after.contexts@.dom() == before.contexts@.dom().insert(scope)
    &&& after.contexts@[scope]@ == value
    &&& forall|k: Seq<char>| k != scope && #[trigger] before.contexts@.contains_key(k)
        ==> after.contexts@[k] == before.contexts@[k]
}

/// `after` is `before` without a context for `scope`.
pub open spec fn context_removed(before: Config, after: Config, scope: Seq<char>) -> bool {
    &&& after.global_context == before.global_context
    &&& after.collections@ == before.collections@
    &&& after.contexts@ == before.contexts@.remove(scope)
}

// ---------------------------------------------------------------------------
// Changing the configuration

/// The configuration file of an index and the changes made to it.
///
/// Reading and writing the file is the caller's: each change takes the
/// configuration as loaded and gives back the configuration to save.
pub struct ConfigStore {
    path: String,
}

impl ConfigStore {
    /// The file this store reads and writes.
    pub closed spec fn file(&self) -> Seq<char> {
        self.path@
    }

    /// The store of the index `index_name`, at its configuration file.
    pub fn new(index_name: &str, env: &Locations) -> (r: Result<ConfigStore, ConfigError>)
        ensures
            r matches Ok(s) ==> resolve(env.config_file, env.config_home, env.config_dir, index_name@ + ".yml"@) == Some(s.file()),
            r matches Err(e) ==> e == ConfigError::NoConfigDirectory && resolve(env.config_file, env.config_home, env.config_dir, index_name@ + ".yml"@) is None,
    {
        let path = config_file_path(index_name, env)?;
        Ok(ConfigStore { path })
    }

    /// The store at `path`.
    pub fn from_path(path: String) -> (s: ConfigStore)
        ensures
            s.file() == path@,
    {
        ConfigStore { path }
    }

    /// The file this store reads and writes.
    pub fn path(&self) -> (p: &str)
        ensures
            p@ == self.file(),
    {
        self.path.as_str()
    }

    /// Adds the collection `name` rooted at `path` (made absolute against
    /// `cwd`) with `pattern`, or `**/*` when none is given. An absolute
    /// `path` is stored exactly as given, so a canonical path (the form the
    /// command line passes for a path that exists) is stored canonical.
    pub fn add_collection(
        &self,
        config: Config,
        name: &str,
        path: &str,
        pattern: Option<String>,
        cwd: Option<&str>,
    ) -> (r: Result<Config, ConfigError>)
        ensures
            config.collections@.contains_key(name@) ==> (r matches Err(ConfigError::CollectionExists(n))
                && n@ == name@),
            !config.collections@.contains_key(name@) && is_absolute(path@) ==> (r matches Ok(c)
                && c.collections@[name@].path@ == path@),
            !config.collections@.contains_key(name@) ==> match absolutized(path@, match cwd {
                Some(d) => Some(d@),
                None => None,
            }) {
                None => r == Err::<Config, ConfigError>(ConfigError::NoWorkingDirectory),
                Some(abs) => r matches Ok(c) && collection_added(config, c, name@, abs, match pattern {
                    Some(p) => p@,
                    None => spec_default_pattern(),
                }),
            },
    {
        let mut config = config;
        if config.collections.contains_key(name) {
            return Err(ConfigError::CollectionExists(name.to_string()));
        }
        let absolute = match absolutize(path, cwd) {
            Some(p) => p,
            None => {
                return Err(ConfigError::NoWorkingDirectory);
            },
        };
        let pattern = match pattern {
            Some(p) => p,
            None => default_pattern(),
        };
        let collection = Collection {
            path: absolute,
            pattern,
            ignore: Vec::new(),
            context: None,
            update: None,
            include_by_default: default_include_by_default(),
        };
        config.collections.insert(name.to_string(), collection);
        Ok(config)
    }

    /// Removes the collection `name`.
    pub fn remove_collection(&self, config: Config, name: &str) -> (r: Result<Config, ConfigError>)
        ensures
            !config.collections@.contains_key(name@) ==> (r matches Err(ConfigError::CollectionMissing(n))
                && n@ == name@),
            config.collections@.contains_key(name@) ==> (r matches Ok(c) && collection_removed(config, c, name@)),
    {
        let mut config = config;
        match config.collections.remove(name) {
            Some(_) => Ok(config),
            None => Err(ConfigError::CollectionMissing(name.to_string())),
        }
    }

    /// Renames the collection `from` to `to`, keeping its settings.
    pub fn rename_collection(&self, config: Config, from: &str, to: &str) -> (r: Result<Config, ConfigError>)
        ensures
            config.collections@.contains_key(to@) ==> (r matches Err(ConfigError::CollectionExists(n))
                && n@ == to@),
            !config.collections@.contains_key(to@) && !config.collections@.contains_key(from@) ==> (r matches Err(
                ConfigError::CollectionMissing(n),
            ) && n@ == from@),
            !config.collections@.contains_key(to@) && config.collections@.contains_key(from@) ==> (r matches Ok(
                c,
            ) && collection_renamed(config, c, from@, to@)),
    {
        let mut config = config;
        if config.collections.contains_key(to) {
            return Err(ConfigError::CollectionExists(to.to_string()));
        }
        let collection = match config.collections.remove(from) {
            Some(c) => c,
            None => {
                return Err(ConfigError::CollectionMissing(from.to_string()));
            },
        };
        config.collections.insert(to.to_string(), collection);
        Ok(config)
    }

    /// The settings of the collection `name`.
    pub fn collection<'a>(&self, config: &'a Config, name: &str) -> (r: Result<&'a Collection, ConfigError>)
        ensures
            !config.collections@.contains_key(name@) ==> (r matches Err(ConfigError::CollectionMissing(n))
                && n@ == name@),
            config.collections@.contains_key(name@) ==> (r matches Ok(c) && *c == config.collections@[name@]),
    {
        match config.collections.get(name) {
            Some(c) => Ok(c),
            None => Err(ConfigError::CollectionMissing(name.to_string())),
        }
    }

    /// Includes the collection `name` in searches by default, or excludes it.
    pub fn set_collection_included(&self, config: Config, name: &str, included: bool) -> (r: Result<
        Config,
        ConfigError,
    >)
        ensures
            !config.collections@.contains_key(name@) ==> (r matches Err(ConfigError::CollectionMissing(n))
                && n@ == name@),
            config.collections@.contains_key(name@) ==> (r matches Ok(c) && {
                let before = config.collections@[name@];
                let after = c.collections@[name@];
                &&& c.global_context == config.global_context
                &&& c.contexts@ == config.contexts@
                &&& c.collections@.dom() == config.collections@.dom()
                &&& forall|k: Seq<char>| k != name@ && #[trigger] config.collections@.contains_key(k)
                    ==> c.collections@[k] == config.collections@[k]
                &&& after.include_by_default == included
                &&& after.path == before.path
                &&& after.pattern == before.pattern
                &&& after.ignore == before.ignore
                &&& after.context == before.context
                &&& after.update == before.update
            }),
    {
        let mut config = config;
        match config.collections.remove(name) {
            Some(c) => {
                let mut c = c;
                c.include_by_default = included;
                config.collections.insert(name.to_string(), c);
                Ok(config)
            },
            None => Err(ConfigError::CollectionMissing(name.to_string())),
        }
    }

    /// Sets or clears the command run before updating the collection `name`.
    pub fn set_collection_update_command(&self, config: Config, name: &str, command: Option<String>) -> (r:
        Result<Config, ConfigError>)
        ensures
            !config.collections@.contains_key(name@) ==> (r matches Err(ConfigError::CollectionMissing(n))
                && n@ == name@),
            config.collections@.contains_key(name@) ==> (r matches Ok(c) && {
                let before = config.collections@[name@];
                let after = c.collections@[name@];
                &&& c.global_context == config.global_context
                &&& c.contexts@ == config.contexts@
                &&& c.collections@.dom() == config.collections@.dom()
                &&& forall|k: Seq<char>| k != name@ && #[trigger] config.collections@.contains_key(k)
                    ==> c.collections@[k] == config.collections@[k]
                &&& after.update == command
                &&& after.path == before.path
                &&& after.pattern == before.pattern
                &&& after.ignore == before.ignore
                &&& after.context == before.context
                &&& after.include_by_default == before.include_by_default
            }),
    {
        let mut config = config;
        match config.collections.remove(name) {
            Some(c) => {
                let mut c = c;
                c.update = command;
                config.collections.insert(name.to_string(), c);
                Ok(config)
            },
            None => Err(ConfigError::CollectionMissing(name.to_string())),
        }
    }

    /// Sets or clears the context that applies to every path.
    pub fn set_global_context(&self, config: Config, value: Option<String>) -> (c: Config)
        ensures
            c.global_context == value,
            c.collections@ == config.collections@,
            c.contexts@ == config.contexts@,
    {
        let mut config = config;
        config.global_context = value;
        config
    }

    /// Sets the context annotation of `scope` to `value`.
    pub fn add_context(&self, config: Config, scope: &str, value: &str) -> (c: Config)
        ensures
            context_set(config, c, scope@, value@),
    {
        let mut config = config;
        config.contexts.insert(scope.to_string(), value.to_string());
        config
    }

    /// Drops the context annotation of `scope`, if there is one.
    pub fn remove_context(&self, config: Config, scope: &str) -> (c: Config)
        ensures
            context_removed(config, c, scope@),
    {
        let mut config = config;
        config.contexts.remove(scope);
        config
    }
}

// ---------------------------------------------------------------------------
// Context matching

/// A context scope applies to a path that is the scope itself or lies
/// below it.
pub open spec fn scope_covers(scope: Seq<char>, candidate: Seq<char>) -> bool {
    candidate == scope || has_prefix(candidate, scope + seq!['/'])
}

/// The contexts among the first `n` that apply to `candidate`, in key order.
pub open spec fn covering(
    scopes: Seq<Seq<char>>,
    values: Seq<Seq<char>>,
    candidate: Seq<char>,
    n: int,
) -> Seq<(Seq<char>, Seq<char>)>
    decreases n,
{
    if n <= 0 {
        Seq::empty()
    } else {
        let before = covering(scopes, values, candidate, n - 1);
        if scope_covers(scopes[n - 1], candidate) {
            before.push((scopes[n - 1], values[n - 1]))
        } else {
            before
        }
    }
}

/// The first position at or after `i` whose scope is shorter than `len`.
pub open spec fn first_shorter(s: Seq<(Seq<char>, Seq<char>)>, len: nat, i: int) -> int
    decreases s.len() - i,
{
    if i < 0 || i >= s.len() {
        s.len() as int
    } else if s[i].0.len() < len {
        i
    } else {
        first_shorter(s, len, i + 1)
    }
}

/// `x` placed after every match whose scope is at least as long.
pub open spec fn insert_by_len(s: Seq<(Seq<char>, Seq<char>)>, x: (Seq<char>, Seq<char>)) -> Seq<(Seq<char>, Seq<char>)> {
    s.insert(first_shorter(s, x.0.len(), 0), x)
}

/// A stable sort by scope length, longest first.
pub open spec fn longest_first(s: Seq<(Seq<char>, Seq<char>)>) -> Seq<(Seq<char>, Seq<char>)>
    decreases s.len(),
{
    if s.len() == 0 {
        Seq::empty()
    } else {
        insert_by_len(longest_first(s.drop_last()), s.last())
    }
}

/// Scope lengths never grow along `s`.
pub open spec fn longest_first_ordered(s: Seq<(Seq<char>, Seq<char>)>) -> bool {
    forall|i: int, j: int| 0 <= i < j < s.len() ==> (#[trigger] s[i]).0.len() >= (#[trigger] s[j]).0.len()
}

proof fn lemma_first_shorter(s: Seq<(Seq<char>, Seq<char>)>, len: nat, i: int)
    requires
        0 <= i <= s.len(),
    ensures
        i <= first_shorter(s, len, i) <= s.len(),
        forall|k: int| i <= k < first_shorter(s, len, i) ==> (#[trigger] s[k]).0.len() >= len,
        first_shorter(s, len, i) < s.len() ==> s[first_shorter(s, len, i)].0.len() < len,
    decreases s.len() - i,
{
    if i < s.len() && s[i].0.len() >= len {
        lemma_first_shorter(s, len, i + 1);
    }
}

proof fn lemma_insert_by_len(s: Seq<(Seq<char>, Seq<char>)>, x: (Seq<char>, Seq<char>))
    requires
        longest_first_ordered(s),
    ensures
        longest_first_ordered(insert_by_len(s, x)),
        insert_by_len(s, x).len() == s.len() + 1,
        forall|y: (Seq<char>, Seq<char>)| #[trigger] insert_by_len(s, x).contains(y) <==> (s.contains(y) || y == x),
{
    let p = first_shorter(s, x.0.len(), 0);
    lemma_first_shorter(s, x.0.len(), 0);
    let r = s.insert(p, x);
    assert forall|i: int, j: int| 0 <= i < j < r.len() implies (#[trigger] r[i]).0.len() >= (#[trigger] r[j]).0.len() by {
        if j < p {
        } else if j == p {
        } else if i < p {
            assert(s[i].0.len() >= x.0.len());
            assert(s[j - 1].0.len() <= s[p].0.len() || j - 1 == p);
        } else if i == p {
            assert(s[p].0.len() < x.0.len());
            assert(s[p].0.len() >= s[j - 1].0.len() || j - 1 == p);
        } else {
        }
    }
    assert forall|y: (Seq<char>, Seq<char>)| #[trigger] r.contains(y) <==> (s.contains(y) || y == x) by {
        if r.contains(y) {
            let k = choose|k: int| 0 <= k < r.len() && r[k] == y;
            if k < p {
                assert(s[k] == y);
            } else if k > p {
                assert(s[k - 1] == y);
            }
        }
        if s.contains(y) {
            let k = choose|k: int| 0 <= k < s.len() && s[k] == y;
            if k < p {
                assert(r[k] == y);
            } else {
                assert(r[k + 1] == y);
            }
        }
        if y == x {
            assert(r[p] == y);
        }
    }
}

proof fn lemma_longest_first(s: Seq<(Seq<char>, Seq<char>)>)
    ensures
        longest_first_ordered(longest_first(s)),
        longest_first(s).len() == s.len(),
        forall|y: (Seq<char>, Seq<char>)| #[trigger] longest_first(s).contains(y) <==> s.contains(y),
    decreases s.len(),
{
    if s.len() > 0 {
        lemma_longest_first(s.drop_last());
        lemma_insert_by_len(longest_first(s.drop_last()), s.last());
        assert forall|y: (Seq<char>, Seq<char>)| #[trigger] s.contains(y) <==> (s.drop_last().contains(y) || y == s.last()) by {
            if s.contains(y) {
                let k = choose|k: int| 0 <= k < s.len() && s[k] == y;
                if k < s.len() - 1 {
                    assert(s.drop_last()[k] == y);
                }
            }
            if s.drop_last().contains(y) {
                let k = choose|k: int| 0 <= k < s.len() - 1 && s.drop_last()[k] == y;
                assert(s[k] == y);
            }
        }
    }
}

proof fn lemma_covering(scopes: Seq<Seq<char>>, values: Seq<Seq<char>>, candidate: Seq<char>, n: int)
    requires
        0 <= n <= scopes.len(),
        scopes.len() == values.len(),
    ensures
        forall|y: (Seq<char>, Seq<char>)| #[trigger] covering(scopes, values, candidate, n).contains(y)
            <==> exists|i: int| 0 <= i < n && scope_covers(scopes[i], candidate) && y == (scopes[i], values[i]),
    decreases n,
{
    if n > 0 {
        lemma_covering(scopes, values, candidate, n - 1);
        let before = covering(scopes, values, candidate, n - 1);
        assert forall|y: (Seq<char>, Seq<char>)| #[trigger] covering(scopes, values, candidate, n).contains(y)
            <==> exists|i: int| 0 <= i < n && scope_covers(scopes[i], candidate) && y == (scopes[i], values[i]) by {
            if scope_covers(scopes[n - 1], candidate) {
                let x = (scopes[n - 1], values[n - 1]);
                let after = before.push(x);
                if after.contains(y) {
                    let k = choose|k: int| 0 <= k < after.len() && after[k] == y;
                    if k < before.len() {
                        assert(before[k] == y);
                        assert(before.contains(y));
                    } else {
                        assert(y == x);
                    }
                }
                if exists|i: int| 0 <= i < n && scope_covers(scopes[i], candidate) && y == (scopes[i], values[i]) {
                    let i = choose|i: int| 0 <= i < n && scope_covers(scopes[i], candidate) && y == (scopes[i], values[i]);
                    if i < n - 1 {
                        assert(before.contains(y));
                        let k = choose|k: int| 0 <= k < before.len() && before[k] == y;
                        assert(after[k] == y);
                    } else {
                        assert(after[before.len() as int] == y);
                    }
                }
            } else {
                if exists|i: int| 0 <= i < n && scope_covers(scopes[i], candidate) && y == (scopes[i], values[i]) {
                    let i = choose|i: int| 0 <= i < n && scope_covers(scopes[i], candidate) && y == (scopes[i], values[i]);
                    assert(i < n - 1);
                }
            }
        }
    }
}

/// The contexts that apply to `candidate`, as (scope, value) pairs: longest
/// scope first, and scopes of equal length in key order.
pub open spec fn context_matches(config: Config, candidate: Seq<char>) -> Seq<(Seq<char>, Seq<char>)> {
    longest_first(
        covering(
            config.contexts.keys(),
            config.contexts.values().map_values(|v: String| v@),
            candidate,
            config.contexts.keys().len() as int,
        ),
    )
}

/// No two entries of `s` have the same scope.
pub open spec fn scopes_distinct(s: Seq<(Seq<char>, Seq<char>)>) -> bool {
    forall|i: int, j: int| 0 <= i < j < s.len() ==> (#[trigger] s[i]).0 != (#[trigger] s[j]).0
}

proof fn lemma_covers_prefix(scope: Seq<char>, candidate: Seq<char>)
    requires
        scope_covers(scope, candidate),
    ensures
        scope.len() <= candidate.len(),
        candidate.subrange(0, scope.len() as int) == scope,
{
    if candidate != scope {
        let p = scope + seq!['/'];
        assert(candidate.subrange(0, p.len() as int) == p);
        assert(candidate.subrange(0, scope.len() as int) =~= p.subrange(0, scope.len() as int));
        assert(p.subrange(0, scope.len() as int) =~= scope);
    } else {
        assert(candidate.subrange(0, scope.len() as int) =~= scope);
    }
}

proof fn lemma_insert_by_len_distinct(s: Seq<(Seq<char>, Seq<char>)>, x: (Seq<char>, Seq<char>))
    requires
        scopes_distinct(s),
        forall|k: int| 0 <= k < s.len() ==> (#[trigger] s[k]).0 != x.0,
    ensures
        scopes_distinct(insert_by_len(s, x)),
{
    let p = first_shorter(s, x.0.len(), 0);
    lemma_first_shorter(s, x.0.len(), 0);
    let r = s.insert(p, x);
    assert forall|i: int, j: int| 0 <= i < j < r.len() implies (#[trigger] r[i]).0 != (#[trigger] r[j]).0 by {
        if i < p && j < p {
        } else if i < p && j == p {
            assert(r[i] == s[i]);
        } else if i < p {
            assert(r[i] == s[i] && r[j] == s[j - 1]);
        } else if i == p {
            assert(r[j] == s[j - 1]);
        } else {
            assert(r[i] == s[i - 1] && r[j] == s[j - 1]);
        }
    }
}

proof fn lemma_longest_first_distinct(s: Seq<(Seq<char>, Seq<char>)>)
    requires
        scopes_distinct(s),
    ensures
        scopes_distinct(longest_first(s)),
    decreases s.len(),
{
    if s.len() > 0 {
        let rest = s.drop_last();
        let x = s.last();
        assert(scopes_distinct(rest)) by {
            assert forall|i: int, j: int| 0 <= i < j < rest.len() implies (#[trigger] rest[i]).0 != (#[trigger] rest[j]).0 by {
                assert(rest[i] == s[i] && rest[j] == s[j]);
            }
        }
        lemma_longest_first_distinct(rest);
        lemma_longest_first(rest);
        let r = longest_first(rest);
        assert forall|k: int| 0 <= k < r.len() implies (#[trigger] r[k]).0 != x.0 by {
            assert(r.contains(r[k]));
            assert(rest.contains(r[k]));
            let j = choose|j: int| 0 <= j < rest.len() && rest[j] == r[k];
            assert(s[j] == rest[j]);
            assert(s[s.len() - 1] == x);
        }
        lemma_insert_by_len_distinct(r, x);
    }
}

proof fn lemma_covering_distinct(scopes: Seq<Seq<char>>, values: Seq<Seq<char>>, candidate: Seq<char>, n: int)
    requires
        0 <= n <= scopes.len(),
        scopes.len() == values.len(),
        forall|i: int, j: int| 0 <= i < j < scopes.len() ==> scopes[i] != scopes[j],
    ensures
        scopes_distinct(covering(scopes, values, candidate, n)),
    decreases n,
{
    if n > 0 {
        lemma_covering_distinct(scopes, values, candidate, n - 1);
        lemma_covering(scopes, values, candidate, n - 1);
        let before = covering(scopes, values, candidate, n - 1);
        if scope_covers(scopes[n - 1], candidate) {
            let x = (scopes[n - 1], values[n - 1]);
            let after = before.push(x);
            assert forall|i: int, j: int| 0 <= i < j < after.len() implies (#[trigger] after[i]).0 != (#[trigger] after[j]).0 by {
                if j == before.len() {
                    assert(before.contains(before[i]));
                    let k = choose|k: int| 0 <= k < n - 1 && scope_covers(scopes[k], candidate) && before[i] == (scopes[k], values[k]);
                    assert(after[i] == before[i]);
                } else {
                    assert(after[i] == before[i] && after[j] == before[j]);
                }
            }
        }
    }
}

/// Whether the scope `scope` applies to `candidate`.
fn covers(scope: &Vec<char>, candidate: &Vec<char>) -> (r: bool)
    ensures
        r == scope_covers(scope@, candidate@),
{
    if candidate.len() == scope.len() && starts_with(candidate, scope) {
        proof {
            assert(candidate@.subrange(0, scope@.len() as int) == candidate@);
        }
        return true;
    }
    let mut with_slash = scope.clone();
    with_slash.push('/');
    proof {
        assert(with_slash@ == scope@ + seq!['/']);
        if candidate@ == scope@ {
            assert(candidate@.subrange(0, scope@.len() as int) == candidate@);
        }
    }
    starts_with(candidate, &with_slash)
}

/// The context annotations that apply to `candidate`, longest scope first;
/// annotations with scopes of equal length keep the order of their scopes.
pub fn matching_contexts(config: &Config, candidate: &str) -> (matches: Vec<ContextMatch>)
    ensures
        matches@.map_values(|m: ContextMatch| m@) == context_matches(*config, candidate@),
        // Longer scopes come first.
        forall|i: int, j: int| 0 <= i < j < matches@.len() ==> (#[trigger] matches@[i]).scope@.len()
            >= (#[trigger] matches@[j]).scope@.len(),
        // Every match is a configured context that applies to the candidate.
        forall|i: int| 0 <= i < matches@.len() ==> {
            let m = #[trigger] matches@[i];
            &&& scope_covers(m.scope@, candidate@)
            &&& config.contexts@.contains_key(m.scope@)
            &&& config.contexts@[m.scope@]@ == m.value@
        },
        // Every configured context that applies to the candidate is matched.
        forall|scope: Seq<char>| #[trigger] config.contexts@.contains_key(scope) && scope_covers(scope, candidate@)
            ==> exists|i: int| 0 <= i < matches@.len() && matches@[i].scope@ == scope,
{
    let ghost scopes = config.contexts.keys();
    let ghost values = config.contexts.values().map_values(|v: String| v@);
    let ghost n = scopes.len() as int;
    proof {
        use_type_invariant(&config.contexts);
        config.contexts.lemma_well_formed();
    }
    let cand = chars_of(candidate);
    let mut matches: Vec<ContextMatch> = Vec::new();
    let len = config.contexts.len();
    let mut i: usize = 0;
    while i < len
        invariant
            len == scopes.len(),
            scopes == config.contexts.keys(),
            values == config.contexts.values().map_values(|v: String| v@),
            values.len() == scopes.len(),
            cand@ == candidate@,
            i <= len,
            matches@.map_values(|m: ContextMatch| m@) == longest_first(covering(scopes, values, candidate@, i as int)),
        decreases len - i,
    {
        let scope = config.contexts.key_at(i);
        let scope_chars = chars_of(scope.as_str());
        if covers(&scope_chars, &cand) {
            let value = config.contexts.value_at(i);
            let ghost prior = covering(scopes, values, candidate@, i as int);
            let ghost sorted = matches@.map_values(|m: ContextMatch| m@);
            let x = ContextMatch { scope: scope.clone(), value: value.clone() };
            assert(x@ == (scopes[i as int], values[i as int]));
            // Find where the new match goes: after every scope at least as long.
            let mut p: usize = 0;
            let scope_len = scope_chars.len();
            proof {
                lemma_first_shorter(sorted, x@.0.len(), 0);
            }
            while p < matches.len() && chars_of(matches[p].scope.as_str()).len() >= scope_len
                invariant
                    p <= matches@.len(),
                    sorted == matches@.map_values(|m: ContextMatch| m@),
                    scope_len == x@.0.len(),
                    first_shorter(sorted, x@.0.len(), 0) == first_shorter(sorted, x@.0.len(), p as int),
                decreases matches.len() - p,
            {
                p += 1;
            }
            matches.insert(p, x);
            proof {
                assert(covering(scopes, values, candidate@, i + 1) == prior.push(x@));
                assert(prior.push(x@).drop_last() == prior);
                assert(matches@.map_values(|m: ContextMatch| m@) =~= sorted.insert(p as int, x@));
            }
        }
        i += 1;
    }
    proof {
        let all = covering(scopes, values, candidate@, n);
        lemma_longest_first(all);
        lemma_covering(scopes, values, candidate@, n);
        let views = matches@.map_values(|m: ContextMatch| m@);
        assert forall|i: int, j: int| 0 <= i < j < matches@.len() implies (#[trigger] matches@[i]).scope@.len()
            >= (#[trigger] matches@[j]).scope@.len() by {
            assert(views[i].0.len() >= views[j].0.len());
        }
        assert forall|i: int| 0 <= i < matches@.len() implies {
            let m = #[trigger] matches@[i];
            &&& scope_covers(m.scope@, candidate@)
            &&& config.contexts@.contains_key(m.scope@)
            &&& config.contexts@[m.scope@]@ == m.value@
        } by {
            assert(views.contains(views[i]));
            assert(all.contains(views[i]));
            let k = choose|k: int| 0 <= k < n && scope_covers(scopes[k], candidate@) && views[i] == (scopes[k], values[k]);
            assert(config.contexts@.contains_key(scopes[k]));
        }
        assert forall|scope: Seq<char>| #[trigger] config.contexts@.contains_key(scope) && scope_covers(scope, candidate@)
            implies exists|i: int| 0 <= i < matches@.len() && matches@[i].scope@ == scope by {
            assert(scopes.contains(scope));
            let k = choose|k: int| 0 <= k < scopes.len() && scopes[k] == scope;
            assert(all.contains((scopes[k], values[k])));
            assert(views.contains((scopes[k], values[k])));
            let i = choose|i: int| 0 <= i < views.len() && views[i] == (scopes[k], values[k]);
            assert(matches@[i].scope@ == scope);
        }
    }
    matches
}

// ---------------------------------------------------------------------------
// Laws

/// Removing a collection that was just added gives back the configuration
/// as it was before.
pub proof fn law_remove_undoes_add(
    before: Config,
    added: Config,
    removed: Config,
    name: Seq<char>,
    path: Seq<char>,
    pattern: Seq<char>,
)
    requires
        !before.collections@.contains_key(name),
        collection_added(before, added, name, path, pattern),
        collection_removed(added, removed, name),
    ensures
        removed.global_context == before.global_context,
        removed.contexts@ == before.contexts@,
        removed.collections@ == before.collections@,
{
    assert(removed.collections@ =~= before.collections@);
}

/// Renaming a collection back to its old name gives back the configuration
/// as it was before.
pub proof fn law_rename_back_restores(
    before: Config,
    renamed: Config,
    restored: Config,
    from: Seq<char>,
    to: Seq<char>,
)
    requires
        before.collections@.contains_key(from),
        !before.collections@.contains_key(to),
        collection_renamed(before, renamed, from, to),
        collection_renamed(renamed, restored, to, from),
    ensures
        restored.global_context == before.global_context,
        restored.contexts@ == before.contexts@,
        restored.collections@ == before.collections@,
{
    assert(restored.collections@ =~= before.collections@);
}

/// Removing a context that was just added for a new scope gives back the
/// configuration as it was before.
pub proof fn law_remove_context_undoes_add(
    before: Config,
    added: Config,
    removed: Config,
    scope: Seq<char>,
    value: Seq<char>,
)
    requires
        !before.contexts@.contains_key(scope),
        context_set(before, added, scope, value),
        context_removed(added, removed, scope),
    ensures
        removed.global_context == before.global_context,
        removed.collections@ == before.collections@,
        removed.contexts@ == before.contexts@,
{
    assert(removed.contexts@ =~= before.contexts@);
}

/// Every configured context whose scope applies to `candidate` is among the
/// matches of `candidate`, with its value.
pub proof fn law_configured_context_matches(config: Config, scope: Seq<char>, candidate: Seq<char>)
    requires
        config.contexts.well_formed(),
        config.contexts@.contains_key(scope),
        scope_covers(scope, candidate),
    ensures
        context_matches(config, candidate).contains((scope, config.contexts@[scope]@)),
{
    let scopes = config.contexts.keys();
    let values = config.contexts.values().map_values(|v: String| v@);
    config.contexts.lemma_well_formed();
    let k = choose|k: int| 0 <= k < scopes.len() && scopes[k] == scope;
    assert(values[k] == config.contexts@[scope]@);
    lemma_covering(scopes, values, candidate, scopes.len() as int);
    let all = covering(scopes, values, candidate, scopes.len() as int);
    assert(all.contains((scope, config.contexts@[scope]@)));
    lemma_longest_first(all);
}

/// A context just set for `scope` applies, with its new value, to every
/// path the scope covers.
pub proof fn law_added_context_matches(
    before: Config,
    added: Config,
    scope: Seq<char>,
    value: Seq<char>,
    candidate: Seq<char>,
)
    requires
        added.contexts.well_formed(),
        context_set(before, added, scope, value),
        scope_covers(scope, candidate),
    ensures
        context_matches(added, candidate).contains((scope, value)),
{
    law_configured_context_matches(added, scope, candidate);
}

/// The first match of a path is the context whose scope is the longest of
/// those that cover it: no configured scope that covers the path is longer.
pub proof fn law_longest_scope_first(config: Config, scope: Seq<char>, candidate: Seq<char>)
    requires
        config.contexts.well_formed(),
        config.contexts@.contains_key(scope),
        scope_covers(scope, candidate),
    ensures
        context_matches(config, candidate).len() > 0,
        context_matches(config, candidate)[0].0.len() >= scope.len(),
        scope_covers(context_matches(config, candidate)[0].0, candidate),
        config.contexts@.contains_key(context_matches(config, candidate)[0].0),
        config.contexts@[context_matches(config, candidate)[0].0]@ == context_matches(config, candidate)[0].1,
{
    let scopes = config.contexts.keys();
    let values = config.contexts.values().map_values(|v: String| v@);
    let all = covering(scopes, values, candidate, scopes.len() as int);
    let m = context_matches(config, candidate);
    law_configured_context_matches(config, scope, candidate);
    config.contexts.lemma_well_formed();
    lemma_longest_first(all);
    lemma_covering(scopes, values, candidate, scopes.len() as int);
    let i = choose|i: int| 0 <= i < m.len() && m[i] == (scope, config.contexts@[scope]@);
    if i > 0 {
        assert(longest_first_ordered(m));
        assert(m[0].0.len() >= m[i].0.len());
    }
    assert(m.contains(m[0]));
    assert(all.contains(m[0]));
    let k = choose|k: int| 0 <= k < scopes.len() && scope_covers(scopes[k], candidate) && m[0] == (scopes[k], values[k]);
    assert(config.contexts@.contains_key(scopes[k]));
}

/// The matches of a path are exactly the configured contexts whose scopes
/// cover it, each once, with its value, scopes strictly longest first.
pub proof fn law_context_matches_exact(config: Config, candidate: Seq<char>)
    requires
        config.contexts.well_formed(),
    ensures
        ({
            let m = context_matches(config, candidate);
            &&& forall|i: int| 0 <= i < m.len() ==> {
                &&& scope_covers((#[trigger] m[i]).0, candidate)
                &&& config.contexts@.contains_key(m[i].0)
                &&& config.contexts@[m[i].0]@ == m[i].1
            }
            &&& forall|scope: Seq<char>| #[trigger] config.contexts@.contains_key(scope) && scope_covers(scope, candidate)
                ==> m.contains((scope, config.contexts@[scope]@))
            &&& forall|i: int, j: int| 0 <= i < j < m.len() ==> (#[trigger] m[i]).0.len() > (#[trigger] m[j]).0.len()
        }),
{
    let scopes = config.contexts.keys();
    let values = config.contexts.values().map_values(|v: String| v@);
    let n = scopes.len() as int;
    let all = covering(scopes, values, candidate, n);
    let m = context_matches(config, candidate);
    config.contexts.lemma_well_formed();
    assert forall|i: int, j: int| 0 <= i < j < scopes.len() implies scopes[i] != scopes[j] by {
        assert(crate::strmap::lex_lt(scopes[i], scopes[j]));
        crate::strmap::lemma_lex_irreflexive(scopes[i], 0);
    }
    lemma_covering(scopes, values, candidate, n);
    lemma_covering_distinct(scopes, values, candidate, n);
    lemma_longest_first(all);
    lemma_longest_first_distinct(all);
    assert forall|i: int| 0 <= i < m.len() implies {
        &&& scope_covers((#[trigger] m[i]).0, candidate)
        &&& config.contexts@.contains_key(m[i].0)
        &&& config.contexts@[m[i].0]@ == m[i].1
    } by {
        assert(m.contains(m[i]));
        assert(all.contains(m[i]));
        let k = choose|k: int| 0 <= k < n && scope_covers(scopes[k], candidate) && m[i] == (scopes[k], values[k]);
        assert(config.contexts@.contains_key(scopes[k]));
    }
    assert forall|scope: Seq<char>| #[trigger] config.contexts@.contains_key(scope) && scope_covers(scope, candidate)
        implies m.contains((scope, config.contexts@[scope]@)) by {
        law_configured_context_matches(config, scope, candidate);
    }
    assert forall|i: int, j: int| 0 <= i < j < m.len() implies (#[trigger] m[i]).0.len() > (#[trigger] m[j]).0.len() by {
        assert(m.contains(m[i]) && m.contains(m[j]));
        assert(all.contains(m[i]) && all.contains(m[j]));
        let a = choose|k: int| 0 <= k < n && scope_covers(scopes[k], candidate) && m[i] == (scopes[k], values[k]);
        let b = choose|k: int| 0 <= k < n && scope_covers(scopes[k], candidate) && m[j] == (scopes[k], values[k]);
        lemma_covers_prefix(m[i].0, candidate);
        lemma_covers_prefix(m[j].0, candidate);
        if m[i].0.len() == m[j].0.len() {
            assert(m[i].0 == m[j].0);
        }
    }
}

} // verus!
