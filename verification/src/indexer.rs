//! Turning one file of a collection into the records the index stores.
use vstd::prelude::*;

use crate::codeintel::{first_handler, CodeRelation, CodeSymbol, LanguagePlugin, PluginRegistry};
use crate::config::{context_matches, law_context_matches_exact, matching_contexts, scope_covers, Collection, Config};
use crate::index::{
    chunk_file, classify_kind, docid_for, docid_of, file_chunks, infer_title, kind_of, line_count, title_of,
    ChunkRecord, IndexedFile,
};
use crate::text::{chars_of, lines};

verus! {

broadcast use vstd::string::group_string_axioms;

#[verifier::external_type_specification]
#[verifier::external_body]
pub struct ExGlobSet(globset::GlobSet);

/// Whether `Glob::new` accepts `pattern` as a glob.
pub uninterp spec fn glob_parses(pattern: Seq<char>) -> bool;

/// Whether a glob set holding the glob `pattern` builds.
pub uninterp spec fn glob_compiles(pattern: Seq<char>) -> bool;

/// Whether the glob `pattern` matches the relative path `path`.
pub uninterp spec fn glob_matches(pattern: Seq<char>, path: Seq<char>) -> bool;

/// Why a collection pattern gave no file filter, with `globset`'s account
/// of the failure.
#[derive(Debug, PartialEq, Eq)]
pub enum GlobError {
    /// The pattern is not a glob.
    Pattern(String),
    /// The glob set could not be built.
    Build(String),
}

/// The message each glob error is reported with: a pattern error as
/// `globset` words it, a build error under a heading of its own.
pub open spec fn glob_error_text(e: GlobError) -> Seq<char> {
    match e {
        GlobError::Pattern(m) => m@,
        GlobError::Build(m) => "failed to build collection glob: "@ + m@,
    }
}

impl GlobError {
    /// The human-readable message for this error.
    pub fn message(&self) -> (m: String)
        ensures
            m@ == glob_error_text(*self),
    {
        match self {
            GlobError::Pattern(m) => m.clone(),
            GlobError::Build(cause) => {
                let mut m = "failed to build collection glob: ".to_string();
                m.append(cause.as_str());
                m
            },
        }
    }
}

/// The file pattern of a collection, ready to match paths.
pub struct CollectionGlob {
    set: globset::GlobSet,
    pattern: String,
}

/// `Glob::new`, then `GlobSetBuilder::add` and `build`: the compiled
/// `pattern`, or the failing step with the text of the `globset` error (its
/// wording is not stated here).
#[verifier::external_body]
fn compile_glob(pattern: &str) -> (r: Result<CollectionGlob, GlobError>)
    ensures
        r is Ok <==> (glob_parses(pattern@) && glob_compiles(pattern@)),
        r matches Err(e) ==> (e is Pattern <==> !glob_parses(pattern@)),
        r matches Ok(g) ==> g.pattern() == pattern@,
{
    let glob = match globset::Glob::new(pattern) {
        Ok(glob) => glob,
        Err(e) => return Err(GlobError::Pattern(e.to_string())),
    };
    let mut builder = globset::GlobSetBuilder::new();
    builder.add(glob);
    match builder.build() {
        Ok(set) => Ok(CollectionGlob { set, pattern: pattern.to_string() }),
        Err(e) => Err(GlobError::Build(e.to_string())),
    }
}

/// `GlobSet::is_match` on a path relative to the collection root.
#[verifier::external_body]
fn glob_is_match(glob: &CollectionGlob, path: &str) -> (r: bool)
    ensures
        r == glob_matches(glob.pattern(), path@),
{
    glob.set.is_match(path)
}

impl CollectionGlob {
    /// The pattern this glob was compiled from.
    pub closed spec fn pattern(&self) -> Seq<char> {
        self.pattern@
    }

    /// The file filter of `collection`: its pattern compiled, or why the
    /// pattern gives none.
    pub fn of_collection(collection: &Collection) -> (r: Result<CollectionGlob, GlobError>)
        ensures
            r is Ok <==> (glob_parses(collection.pattern@) && glob_compiles(collection.pattern@)),
            r matches Err(e) ==> (e is Pattern <==> !glob_parses(collection.pattern@)),
            r matches Ok(g) ==> g.pattern() == collection.pattern@,
    {
        compile_glob(collection.pattern.as_str())
    }

    /// Whether the collection indexes the file at `relative_path`: it lies in
    /// no junk directory and the pattern matches it.
    pub fn selects(&self, relative_path: &str) -> (r: bool)
        ensures
            r == (!in_junk_dir(relative_path@) && glob_matches(self.pattern(), relative_path@)),
    {
        !skipped_by_default(relative_path) && glob_is_match(self, relative_path)
    }
}

/// The directories that indexing skips by default: version-control metadata,
/// tool state and build output.
pub open spec fn is_junk_dir(name: Seq<char>) -> bool {
    ||| name == ".git"@
    ||| name == "target"@
    ||| name == "dist"@
    ||| name == "build"@
    ||| name == ".direnv"@
    ||| name == "node_modules"@
}

/// Whether `p[i..j]` is a whole directory name of the relative path `p`: it
/// starts the path or follows a `/`, is followed by a `/`, and holds none.
pub open spec fn is_dir_component(p: Seq<char>, i: int, j: int) -> bool {
    &&& 0 <= i <= j < p.len()
    &&& p[j] == '/'
    &&& (i == 0 || p[i - 1] == '/')
    &&& forall|k: int| i <= k < j ==> p[k] != '/'
}

/// Whether some directory on the relative path `p` is a junk directory.
pub open spec fn in_junk_dir(p: Seq<char>) -> bool {
    exists|i: int, j: int| #[trigger] is_dir_component(p, i, j) && is_junk_dir(p.subrange(i, j))
}

/// Whether `p[i..j]` is `name`.
fn segment_is(p: &Vec<char>, i: usize, j: usize, name: &str) -> (r: bool)
    requires
        i <= j <= p@.len(),
    ensures
        r == (p@.subrange(i as int, j as int) == name@),
{
    let n = chars_of(name);
    if n.len() != j - i {
        return false;
    }
    let mut k: usize = 0;
    while k < n.len()
        invariant
            n@ == name@,
            n@.len() == j - i,
            i <= j <= p@.len(),
            k <= n@.len(),
            forall|m: int| 0 <= m < k ==> p@[i + m] == n@[m],
        decreases n.len() - k,
    {
        if p[i + k] != n[k] {
            proof {
                assert(p@.subrange(i as int, j as int)[k as int] != n@[k as int]);
            }
            return false;
        }
        k += 1;
    }
    proof {
        assert(p@.subrange(i as int, j as int) =~= n@);
    }
    true
}

/// Whether `p[i..j]` names a junk directory.
fn segment_is_junk(p: &Vec<char>, i: usize, j: usize) -> (r: bool)
    requires
        i <= j <= p@.len(),
    ensures
        r == is_junk_dir(p@.subrange(i as int, j as int)),
{
    segment_is(p, i, j, ".git") || segment_is(p, i, j, "target") || segment_is(p, i, j, "dist")
        || segment_is(p, i, j, "build") || segment_is(p, i, j, ".direnv") || segment_is(p, i, j, "node_modules")
}

/// Whether indexing skips the file at `relative_path` (relative to its
/// collection root, `/`-separated) because it lies inside a junk directory
/// such as `.git`, `target` or `node_modules`.
pub fn skipped_by_default(relative_path: &str) -> (r: bool)
    ensures
        r == in_junk_dir(relative_path@),
{
    let p = chars_of(relative_path);
    let mut start: usize = 0;
    let mut k: usize = 0;
    while k < p.len()
        invariant
            p@ == relative_path@,
            start <= k <= p@.len(),
            start == 0 || p@[start - 1] == '/',
            forall|m: int| start <= m < k ==> p@[m] != '/',
            forall|i: int, j: int| #[trigger] is_dir_component(p@, i, j) && j < k ==> !is_junk_dir(p@.subrange(i, j)),
        decreases p.len() - k,
    {
        if p[k] == '/' {
            if segment_is_junk(&p, start, k) {
                proof {
                    assert(is_dir_component(p@, start as int, k as int));
                }
                return true;
            }
            proof {
                assert forall|i: int, j: int| #[trigger] is_dir_component(p@, i, j) && j < k + 1 implies !is_junk_dir(
                    p@.subrange(i, j),
                ) by {
                    if j == k {
                        if i < start {
                            assert(p@[start - 1] == '/');
                        } else if i > start {
                            assert(p@[i - 1] == '/');
                        }
                    }
                }
            }
            start = k + 1;
        }
        k += 1;
    }
    false
}

/// A file ready for the index: its stored record, its chunks for the lexical
/// index, and the symbols it defines and names it refers to, as its language
/// plugin finds them.
pub struct FileRecord {
    pub file: IndexedFile,
    pub chunks: Vec<ChunkRecord>,
    pub symbols: Vec<CodeSymbol>,
    pub relations: Vec<CodeRelation>,
}

/// The virtual path of a file: `sifter://<collection>/<relative path>`.
pub open spec fn virtual_path_of(collection: Seq<char>, relative_path: Seq<char>) -> Seq<char> {
    "sifter://"@ + collection + seq!['/'] + relative_path
}

/// The context of a file: the value of the longest context scope that
/// applies to its virtual path.
pub open spec fn context_of(config: Config, virtual_path: Seq<char>) -> Option<Seq<char>> {
    let found = context_matches(config, virtual_path);
    if found.len() > 0 {
        Some(found[0].1)
    } else {
        None
    }
}

/// A file's context is the value of the longest configured scope that
/// covers its virtual path; a file no scope covers has none.
pub proof fn law_file_context_is_longest_scope(config: Config, virtual_path: Seq<char>)
    requires
        config.contexts.well_formed(),
    ensures
        context_of(config, virtual_path) matches Some(v) ==> exists|s: Seq<char>|
            #[trigger] config.contexts@.contains_key(s) && scope_covers(s, virtual_path) && config.contexts@[s]@ == v
                && forall|t: Seq<char>| #[trigger] config.contexts@.contains_key(t) && scope_covers(t, virtual_path) ==> t.len()
                    <= s.len(),
        context_of(config, virtual_path) is None ==> forall|t: Seq<char>| #[trigger] config.contexts@.contains_key(t)
            ==> !scope_covers(t, virtual_path),
{
    law_context_matches_exact(config, virtual_path);
    let m = context_matches(config, virtual_path);
    if m.len() > 0 {
        let s = m[0].0;
        assert(config.contexts@.contains_key(s) && scope_covers(s, virtual_path));
        assert forall|t: Seq<char>| #[trigger] config.contexts@.contains_key(t) && scope_covers(t, virtual_path) implies t.len()
            <= s.len() by {
            assert(m.contains((t, config.contexts@[t]@)));
            let i = choose|i: int| 0 <= i < m.len() && m[i] == (t, config.contexts@[t]@);
            if i > 0 {
                assert(m[0].0.len() > m[i].0.len());
            }
        }
    } else {
        assert forall|t: Seq<char>| #[trigger] config.contexts@.contains_key(t) implies !scope_covers(t, virtual_path) by {
            if scope_covers(t, virtual_path) {
                assert(m.contains((t, config.contexts@[t]@)));
            }
        }
    }
}

/// Reads one file of the collection `collection` into index records: its id,
/// virtual path, kind, title, language, context and line count, its chunks,
/// and the symbols and relations of the first plugin that handles it.
pub fn index_file<P: LanguagePlugin>(
    config: &Config,
    plugins: &PluginRegistry<P>,
    collection: &str,
    relative_path: &str,
    absolute_path: &str,
    content: &str,
) -> (record: FileRecord)
    ensures
        record.file.docid@ == docid_of(collection@, relative_path@, content@),
        record.file.collection@ == collection@,
        record.file.path@ == absolute_path@,
        record.file.virtual_path@ == virtual_path_of(collection@, relative_path@),
        record.file.kind@ == kind_of(absolute_path@),
        record.file.title@ == title_of(absolute_path@, content@),
        crate::rust_plugin::opt_view(record.file.context) == context_of(
            *config,
            virtual_path_of(collection@, relative_path@),
        ),
        // The context is that of the longest configured scope covering the file.
        record.file.context matches Some(v) ==> exists|s: Seq<char>|
            #[trigger] config.contexts@.contains_key(s) && scope_covers(s, virtual_path_of(collection@, relative_path@))
                && config.contexts@[s]@ == v@ && forall|t: Seq<char>| #[trigger] config.contexts@.contains_key(t)
                && scope_covers(t, virtual_path_of(collection@, relative_path@)) ==> t.len() <= s.len(),
        record.file.context is None ==> forall|t: Seq<char>| #[trigger] config.contexts@.contains_key(t) ==> !scope_covers(
            t,
            virtual_path_of(collection@, relative_path@),
        ),
        record.file.content@ == content@,
        record.file.line_start == 1,
        record.file.line_end == (if lines(content@).len() > 0 { lines(content@).len() } else { 1 }),
        record.chunks@.map_values(|c: ChunkRecord| c@) == file_chunks(
            collection@,
            relative_path@,
            absolute_path@,
            content@,
        ),
        ({
            let i = first_handler(plugins.plugins(), absolute_path@, 0);
            if i < plugins.plugins().len() {
                &&& crate::rust_plugin::opt_view(record.file.language) == Some(plugins.plugins()[i].name())
                &&& record.symbols@.map_values(|s: CodeSymbol| s@) == plugins.plugins()[i].symbols(
                    content@,
                    absolute_path@,
                )
                &&& record.relations@.map_values(|r: CodeRelation| r@) == plugins.plugins()[i].relations(
                    content@,
                    absolute_path@,
                )
            } else {
                &&& record.file.language is None
                &&& record.symbols@.len() == 0
                &&& record.relations@.len() == 0
            }
        }),
{
    let mut virtual_path = "sifter://".to_string();
    virtual_path.append(collection);
    virtual_path.append("/");
    virtual_path.append(relative_path);
    proof {
        reveal_strlit("/");
        assert("/"@ =~= seq!['/']);
        assert(virtual_path@ == virtual_path_of(collection@, relative_path@));
    }
    let kind = classify_kind(absolute_path).to_string();
    let plugin = plugins.plugin_for_path(absolute_path);
    let language = match plugin {
        Some(p) => {
            let name = p.language_name();
            let owned = name.to_string();
            assert(owned@ == name@);
            Some(owned)
        },
        None => None,
    };
    let title = infer_title(absolute_path, content);
    let line_end = line_count(content);
    let docid = docid_for(collection, relative_path, content);
    let matches = matching_contexts(config, virtual_path.as_str());
    proof {
        use_type_invariant(&config.contexts);
        law_file_context_is_longest_scope(*config, virtual_path@);
    }
    let context = if matches.len() > 0 {
        proof {
            assert(matches@.map_values(|m: crate::config::ContextMatch| m@)[0] == matches@[0]@);
        }
        Some(matches[0].value.clone())
    } else {
        None
    };
    let chunks = chunk_file(collection, relative_path, absolute_path, content);
    let symbols = match plugin {
        Some(p) => p.extract_symbols(content, absolute_path),
        None => Vec::new(),
    };
    let relations = match plugin {
        Some(p) => p.extract_relations(content, absolute_path),
        None => Vec::new(),
    };
    let file = IndexedFile {
        docid,
        collection: collection.to_string(),
        path: absolute_path.to_string(),
        virtual_path,
        kind,
        title,
        language,
        context,
        content: content.to_string(),
        line_start: 1,
        line_end,
    };
    proof {
        let i = first_handler(plugins.plugins(), absolute_path@, 0);
        crate::codeintel::lemma_first_handler(plugins.plugins(), absolute_path@, 0);
        if i < plugins.plugins().len() {
            assert(plugin is Some);
            assert(crate::rust_plugin::opt_view(language) == Some(plugins.plugins()[i].name()));
            assert(symbols@.map_values(|s: CodeSymbol| s@) == plugins.plugins()[i].symbols(content@, absolute_path@));
            assert(relations@.map_values(|r: CodeRelation| r@) == plugins.plugins()[i].relations(
                content@,
                absolute_path@,
            ));
        } else {
            assert(plugin is None);
        }
    }
    FileRecord { file, chunks, symbols, relations }
}

} // verus!
