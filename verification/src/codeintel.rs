use vstd::prelude::*;

verus! {

/// The kind of a top-level code symbol.
#[derive(Debug, Clone, Copy, PartialEq, Eq, Structural)]
pub enum SymbolKind {
    Function,
    Struct,
    Enum,
    Trait,
    Impl,
    Constant,
    TypeAlias,
    Module,
}

/// The stable name of each symbol kind, as stored in the index.
pub open spec fn symbol_kind_name(kind: SymbolKind) -> Seq<char> {
    match kind {
        SymbolKind::Function => "function"@,
        SymbolKind::Struct => "struct"@,
        SymbolKind::Enum => "enum"@,
        SymbolKind::Trait => "trait"@,
        SymbolKind::Impl => "impl"@,
        SymbolKind::Constant => "constant"@,
        SymbolKind::TypeAlias => "type_alias"@,
        SymbolKind::Module => "module"@,
    }
}

impl SymbolKind {
    /// The snake_case name of this kind.
    pub fn as_str(&self) -> (name: &'static str)
        ensures
            name@ == symbol_kind_name(*self),
    {
        match self {
            SymbolKind::Function => "function",
            SymbolKind::Struct => "struct",
            SymbolKind::Enum => "enum",
            SymbolKind::Trait => "trait",
            SymbolKind::Impl => "impl",
            SymbolKind::Constant => "constant",
            SymbolKind::TypeAlias => "type_alias",
            SymbolKind::Module => "module",
        }
    }
}

} // verus!

verus! {

/// A top-level symbol found in a source file.
#[derive(Debug, Clone, PartialEq, Eq)]
pub struct CodeSymbol {
    pub name: String,
    pub kind: SymbolKind,
    pub line_start: usize,
    pub line_end: usize,
    pub scope: Option<String>,
}

/// The mathematical value of a symbol: its text fields as character sequences.
pub struct CodeSymbolView {
    pub name: Seq<char>,
    pub kind: SymbolKind,
    pub line_start: nat,
    pub line_end: nat,
    pub scope: Option<Seq<char>>,
}

impl View for CodeSymbol {
    type V = CodeSymbolView;

    open spec fn view(&self) -> CodeSymbolView {
        CodeSymbolView {
            name: self.name@,
            kind: self.kind,
            line_start: self.line_start as nat,
            line_end: self.line_end as nat,
            scope: match self.scope {
                Some(s) => Some(s@),
                None => None,
            },
        }
    }
}

/// How a source file refers to a name: by importing it, or by mentioning it.
#[derive(Debug, Clone, Copy, PartialEq, Eq, Structural)]
pub enum RelationKind {
    Import,
    Mention,
}

/// The stable name of each relation kind, as stored in the index.
pub open spec fn relation_kind_name(kind: RelationKind) -> Seq<char> {
    match kind {
        RelationKind::Import => "import"@,
        RelationKind::Mention => "mention"@,
    }
}

impl RelationKind {
    /// The name of this kind.
    pub fn as_str(&self) -> (name: &'static str)
        ensures
            name@ == relation_kind_name(*self),
    {
        match self {
            RelationKind::Import => "import",
            RelationKind::Mention => "mention",
        }
    }
}

/// A name that a source file refers to, and the lines where it does.
#[derive(Debug, Clone, PartialEq, Eq)]
pub struct CodeRelation {
    pub name: String,
    pub kind: RelationKind,
    pub line_start: usize,
    pub line_end: usize,
}

/// The mathematical value of a relation.
pub struct CodeRelationView {
    pub name: Seq<char>,
    pub kind: RelationKind,
    pub line_start: nat,
    pub line_end: nat,
}

impl View for CodeRelation {
    type V = CodeRelationView;

    open spec fn view(&self) -> CodeRelationView {
        CodeRelationView {
            name: self.name@,
            kind: self.kind,
            line_start: self.line_start as nat,
            line_end: self.line_end as nat,
        }
    }
}

/// A language that the indexer knows how to read.
///
/// Implementations decide which paths they handle and extract the
/// top-level symbols of a source file.
pub trait LanguagePlugin {
    /// Whether this plugin handles the file at `path`; a plugin that does
    /// not say handles no file.
    closed spec fn handles(&self, path: Seq<char>) -> bool {
        false
    }

    /// The name this plugin reports for its language; empty unless said.
    closed spec fn name(&self) -> Seq<char> {
        Seq::empty()
    }

    /// The symbols this plugin finds in `source`; none unless said.
    closed spec fn symbols(&self, source: Seq<char>, path: Seq<char>) -> Seq<CodeSymbolView> {
        Seq::empty()
    }

    /// The names this plugin finds `source` refers to; none unless said.
    closed spec fn relations(&self, source: Seq<char>, path: Seq<char>) -> Seq<CodeRelationView> {
        Seq::empty()
    }

    fn language_name(&self) -> (name: &'static str)
        ensures
            name@ == self.name(),
    ;

    fn matches_path(&self, path: &str) -> (r: bool)
        ensures
            r == self.handles(path@),
    ;

    fn extract_symbols(&self, source: &str, path: &str) -> (symbols: Vec<CodeSymbol>)
        ensures
            symbols@.map_values(|s: CodeSymbol| s@) == self.symbols(source@, path@),
    ;

    fn extract_relations(&self, source: &str, path: &str) -> (relations: Vec<CodeRelation>)
        ensures
            relations@.map_values(|r: CodeRelation| r@) == self.relations(source@, path@),
    ;
}

/// The plugins the indexer consults, in registration order.
///
/// The registry holds plugins of one type `P`; a front end that serves
/// several languages uses a type that dispatches among them.
pub struct PluginRegistry<P: LanguagePlugin> {
    plugins: Vec<P>,
}

/// The position of the first plugin from `i` on that handles `path`, or the
/// number of plugins.
pub open spec fn first_handler<P: LanguagePlugin>(plugins: Seq<P>, path: Seq<char>, i: int) -> int
    decreases plugins.len() - i,
{
    if i < 0 || i >= plugins.len() {
        plugins.len() as int
    } else if plugins[i].handles(path) {
        i
    } else {
        first_handler(plugins, path, i + 1)
    }
}

pub proof fn lemma_first_handler<P: LanguagePlugin>(plugins: Seq<P>, path: Seq<char>, i: int)
    requires
        0 <= i <= plugins.len(),
    ensures
        i <= first_handler(plugins, path, i) <= plugins.len(),
        forall|k: int| i <= k < first_handler(plugins, path, i) ==> !(#[trigger] plugins[k]).handles(path),
        first_handler(plugins, path, i) < plugins.len() ==> plugins[first_handler(plugins, path, i)].handles(path),
    decreases plugins.len() - i,
{
    if i < plugins.len() && !plugins[i].handles(path) {
        lemma_first_handler(plugins, path, i + 1);
    }
}

impl<P: LanguagePlugin> PluginRegistry<P> {
    /// The registered plugins, first registered first.
    pub closed spec fn plugins(&self) -> Seq<P> {
        self.plugins@
    }

    /// Whether some plugin before position `n` handles `path`.
    pub open spec fn handled_before(&self, n: int, path: Seq<char>) -> bool {
        exists|i: int| 0 <= i < n && #[trigger] self.plugins()[i].handles(path)
    }

    /// An empty registry.
    pub fn new() -> (registry: Self)
        ensures
            registry.plugins() == Seq::<P>::empty(),
    {
        PluginRegistry { plugins: Vec::new() }
    }

    /// Adds `plugin` after every plugin registered so far.
    pub fn register(&mut self, plugin: P)
        ensures
            final(self).plugins() == old(self).plugins().push(plugin),
    {
        self.plugins.push(plugin);
    }

    /// The first registered plugin that handles `path`, if any.
    pub fn plugin_for_path(&self, path: &str) -> (found: Option<&P>)
        ensures
            found is None <==> first_handler(self.plugins(), path@, 0) == self.plugins().len(),
            found matches Some(p) ==> *p == self.plugins()[first_handler(self.plugins(), path@, 0)],
            // The plugin found handles the path, and no plugin registered before it does.
            found matches Some(p) ==> p.handles(path@) && !self.handled_before(
                first_handler(self.plugins(), path@, 0),
                path@,
            ),
            found is None ==> !self.handled_before(self.plugins().len() as int, path@),
    {
        proof {
            lemma_first_handler(self.plugins@, path@, 0);
        }
        let mut i: usize = 0;
        while i < self.plugins.len()
            invariant
                i <= self.plugins@.len(),
                first_handler(self.plugins@, path@, 0) == first_handler(self.plugins@, path@, i as int),
            decreases self.plugins.len() - i,
        {
            if self.plugins[i].matches_path(path) {
                proof {
                    lemma_first_handler(self.plugins@, path@, 0);
                    assert(first_handler(self.plugins@, path@, i as int) == i);
                    assert forall|k: int| 0 <= k < i implies !(#[trigger] self.plugins()[k]).handles(path@) by {
                        assert(!self.plugins@[k].handles(path@));
                    }
                }
                return Some(&self.plugins[i]);
            }
            i += 1;
        }
        proof {
            assert forall|k: int| 0 <= k < self.plugins@.len() implies !(#[trigger] self.plugins()[k]).handles(path@) by {
                assert(!self.plugins@[k].handles(path@));
            }
        }
        None
    }
}

} // verus!
