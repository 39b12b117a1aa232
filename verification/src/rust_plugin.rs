//! The Rust language plugin: the top-level symbols of Rust source files and
//! the names they import or mention, read from the syntax tree that
//! `tree-sitter-rust` builds.
use vstd::prelude::*;

use crate::codeintel::{CodeRelation, CodeRelationView, CodeSymbol, CodeSymbolView, LanguagePlugin, RelationKind, SymbolKind};
use crate::paths::path_extension;
use crate::text::chars_of;

verus! {

#[verifier::external_type_specification]
#[verifier::external_body]
pub struct ExTree(tree_sitter::Tree);

/// A child of a top-level syntax node: its node kind and its source text
/// (none where that text is not valid UTF-8).
pub struct SyntaxChild {
    pub kind: String,
    pub text: Option<String>,
}

/// A top-level node of a Rust syntax tree, as plain values: its node kind,
/// its first and last rows, the text of its `name` field, its `type` field
/// (absent, or present with or without readable text), and its children.
pub struct SyntaxItem {
    pub kind: String,
    pub start_row: usize,
    pub end_row: usize,
    pub name: Option<String>,
    pub type_field: Option<Option<String>>,
    pub children: Vec<SyntaxChild>,
}

/// The mathematical value of a top-level syntax node.
pub struct SyntaxItemView {
    pub kind: Seq<char>,
    pub start_row: nat,
    pub end_row: nat,
    pub name: Option<Seq<char>>,
    pub type_field: Option<Option<Seq<char>>>,
    pub children: Seq<(Seq<char>, Option<Seq<char>>)>,
}

pub open spec fn opt_view(o: Option<String>) -> Option<Seq<char>> {
    match o {
        Some(s) => Some(s@),
        None => None,
    }
}

impl View for SyntaxItem {
    type V = SyntaxItemView;

    open spec fn view(&self) -> SyntaxItemView {
        SyntaxItemView {
            kind: self.kind@,
            start_row: self.start_row as nat,
            end_row: self.end_row as nat,
            name: opt_view(self.name),
            type_field: match self.type_field {
                Some(t) => Some(opt_view(t)),
                None => None,
            },
            children: self.children@.map_values(|c: SyntaxChild| (c.kind@, opt_view(c.text))),
        }
    }
}

/// A node of a Rust syntax tree, as plain values: its node kind, the field
/// of its parent that it fills, its parent's node kind, its first row, and
/// the number of nodes in its subtree, itself included.
pub struct SyntaxNode {
    pub kind: String,
    pub field: Option<String>,
    pub parent_kind: Option<String>,
    pub row: usize,
    pub size: usize,
}

/// The mathematical value of a node, with its source text (none where that
/// text is not valid UTF-8).
pub struct SyntaxNodeView {
    pub kind: Seq<char>,
    pub field: Option<Seq<char>>,
    pub parent_kind: Option<Seq<char>>,
    pub row: nat,
    pub size: nat,
    pub text: Option<Seq<char>>,
}

impl SyntaxNode {
    /// Whether this node holds the plain values of `v` (all but its text).
    pub open spec fn reads(&self, v: SyntaxNodeView) -> bool {
        &&& self.kind@ == v.kind
        &&& opt_view(self.field) == v.field
        &&& opt_view(self.parent_kind) == v.parent_kind
        &&& self.row == v.row
        &&& self.size == v.size
    }
}

/// A syntax tree as plain values: its top-level nodes in source order, and
/// all its nodes, the root first, in the order in which
/// `TreeCursor::goto_descendant` numbers them.
pub struct RustSyntaxView {
    pub items: Seq<SyntaxItemView>,
    pub nodes: Seq<SyntaxNodeView>,
}

/// The syntax tree that `tree-sitter-rust` builds for `source`; none if the
/// parser gives no tree.
pub uninterp spec fn rust_syntax(source: Seq<char>) -> Option<RustSyntaxView>;

/// A parsed Rust source file.
pub struct RustTree {
    tree: tree_sitter::Tree,
    source: String,
}

impl RustTree {
    /// The source this tree was parsed from.
    pub closed spec fn source(&self) -> Seq<char> {
        self.source@
    }
}

/// `Parser::parse` with the `tree-sitter-rust` grammar: the syntax tree of
/// `source`, if the parser gives one. Where the grammar cannot be loaded
/// there is no tree.
#[verifier::external_body]
fn parse_rust(source: &str) -> (tree: Option<RustTree>)
    ensures
        tree is Some <==> rust_syntax(source@) is Some,
        tree matches Some(t) ==> t.source() == source@,
{
    let mut parser = tree_sitter::Parser::new();
    parser.set_language(&tree_sitter_rust::LANGUAGE.into()).ok()?;
    let tree = parser.parse(source, None)?;
    Some(RustTree { tree, source: source.to_string() })
}

/// `Node::child_count` of the root: the number of top-level nodes.
#[verifier::external_body]
fn top_level_count(t: &RustTree) -> (n: usize)
    requires
        rust_syntax(t.source()) is Some,
    ensures
        n == rust_syntax(t.source())->0.items.len(),
{
    t.tree.root_node().child_count() as usize
}

/// The top-level node at position `i` (`Node::child`), read into plain
/// values by `Node::kind`, `Node::start_position`, `Node::end_position`,
/// `Node::child_by_field_name`, `Node::children` and `Node::utf8_text`. Its
/// rows count the lines of a source held in memory, so they are below
/// `usize::MAX`.
#[verifier::external_body]
fn top_level_item(t: &RustTree, i: usize) -> (item: SyntaxItem)
    requires
        rust_syntax(t.source()) is Some,
        i < rust_syntax(t.source())->0.items.len(),
    ensures
        item@ == rust_syntax(t.source())->0.items[i as int],
        item.start_row < usize::MAX,
        item.end_row < usize::MAX,
{
    let node = t.tree.root_node().child(i as u32).unwrap();
    let text = |n: tree_sitter::Node| n.utf8_text(t.source.as_bytes()).ok().map(str::to_string);
    let mut cursor = node.walk();
    let children = node.children(&mut cursor).map(|c| SyntaxChild { kind: c.kind().to_string(), text: text(c) });
    SyntaxItem {
        kind: node.kind().to_string(),
        start_row: node.start_position().row,
        end_row: node.end_position().row,
        name: node.child_by_field_name("name").and_then(text),
        type_field: node.child_by_field_name("type").map(text),
        children: children.collect(),
    }
}

/// `Node::descendant_count` of the root: the number of nodes in the tree.
#[verifier::external_body]
fn node_count(t: &RustTree) -> (n: usize)
    requires
        rust_syntax(t.source()) is Some,
    ensures
        n == rust_syntax(t.source())->0.nodes.len(),
{
    t.tree.root_node().descendant_count()
}

/// The node at position `i` (`TreeCursor::goto_descendant` on a cursor at
/// the root), read by `TreeCursor::field_name`, `Node::kind`, `Node::parent`,
/// `Node::start_position` and `Node::descendant_count`, which counts the node
/// itself. Its row counts the lines of a source held in memory, so it is
/// below `usize::MAX`.
#[verifier::external_body]
fn node_at(t: &RustTree, i: usize) -> (node: SyntaxNode)
    requires
        rust_syntax(t.source()) is Some,
        i < rust_syntax(t.source())->0.nodes.len(),
    ensures
        node.reads(rust_syntax(t.source())->0.nodes[i as int]),
        node.size >= 1,
        node.row < usize::MAX,
{
    let mut cursor = t.tree.root_node().walk();
    cursor.goto_descendant(i);
    let node = cursor.node();
    SyntaxNode {
        kind: node.kind().to_string(),
        field: cursor.field_name().map(str::to_string),
        parent_kind: node.parent().map(|p| p.kind().to_string()),
        row: node.start_position().row,
        size: node.descendant_count(),
    }
}

/// The source text of the node at position `i` (`Node::utf8_text`), if it
/// is valid UTF-8.
#[verifier::external_body]
fn node_text(t: &RustTree, i: usize) -> (text: Option<String>)
    requires
        rust_syntax(t.source()) is Some,
        i < rust_syntax(t.source())->0.nodes.len(),
    ensures
        opt_view(text) == rust_syntax(t.source())->0.nodes[i as int].text,
{
    let mut cursor = t.tree.root_node().walk();
    cursor.goto_descendant(i);
    cursor.node().utf8_text(t.source.as_bytes()).ok().map(str::to_string)
}

/// The symbol kind of a top-level node kind, if it defines a symbol.
pub open spec fn symbol_kind_of(node_kind: Seq<char>) -> Option<SymbolKind> {
    if node_kind == "function_item"@ {
        Some(SymbolKind::Function)
    } else if node_kind == "struct_item"@ {
        Some(SymbolKind::Struct)
    } else if node_kind == "enum_item"@ {
        Some(SymbolKind::Enum)
    } else if node_kind == "trait_item"@ {
        Some(SymbolKind::Trait)
    } else if node_kind == "impl_item"@ {
        Some(SymbolKind::Impl)
    } else if node_kind == "const_item"@ {
        Some(SymbolKind::Constant)
    } else if node_kind == "type_item"@ {
        Some(SymbolKind::TypeAlias)
    } else if node_kind == "mod_item"@ {
        Some(SymbolKind::Module)
    } else {
        None
    }
}

/// The position of the first child of kind `type_identifier`, or the number
/// of children.
pub open spec fn first_type_identifier(children: Seq<(Seq<char>, Option<Seq<char>>)>, i: int) -> int
    decreases children.len() - i,
{
    if i < 0 || i >= children.len() {
        children.len() as int
    } else if children[i].0 == "type_identifier"@ {
        i
    } else {
        first_type_identifier(children, i + 1)
    }
}

/// The name of an `impl` block: the text of its `type` field; without that
/// field, the text of its first `type_identifier` child.
pub open spec fn impl_name_of(item: SyntaxItemView) -> Option<Seq<char>> {
    match item.type_field {
        Some(t) => t,
        None => {
            let k = first_type_identifier(item.children, 0);
            if k < item.children.len() {
                item.children[k].1
            } else {
                None
            }
        },
    }
}

/// The symbol a top-level node defines, if any: its kind from the node kind,
/// its name from the `name` field (for an `impl`, from the implemented type),
/// its lines 1-based.
pub open spec fn symbol_of(item: SyntaxItemView) -> Option<CodeSymbolView> {
    match symbol_kind_of(item.kind) {
        None => None,
        Some(kind) => {
            let name = if kind == SymbolKind::Impl { impl_name_of(item) } else { item.name };
            match name {
                None => None,
                Some(n) => Some(
                    CodeSymbolView {
                        name: n,
                        kind: kind,
                        line_start: item.start_row + 1,
                        line_end: item.end_row + 1,
                        scope: None,
                    },
                ),
            }
        },
    }
}

/// The symbols of the first `n` top-level nodes, in order.
pub open spec fn symbols_of_items(items: Seq<SyntaxItemView>, n: int) -> Seq<CodeSymbolView>
    decreases n,
{
    if n <= 0 {
        Seq::empty()
    } else {
        let before = symbols_of_items(items, n - 1);
        match symbol_of(items[n - 1]) {
            Some(s) => before.push(s),
            None => before,
        }
    }
}

/// The symbols a Rust source file defines at top level.
pub open spec fn rust_symbols(source: Seq<char>) -> Seq<CodeSymbolView> {
    match rust_syntax(source) {
        Some(syntax) => symbols_of_items(syntax.items, syntax.items.len() as int),
        None => Seq::empty(),
    }
}

/// Whether a node kind is an identifier.
pub open spec fn is_identifier(kind: Seq<char>) -> bool {
    kind == "identifier"@ || kind == "type_identifier"@
}

/// Whether a node is the name that its parent defines: the `name` field of
/// a node that defines a symbol.
pub open spec fn is_definition_name(node: SyntaxNodeView) -> bool {
    &&& node.field == Some("name"@)
    &&& match node.parent_kind {
        Some(k) => symbol_kind_of(k) is Some,
        None => false,
    }
}

/// How far the subtrees of the `use` declarations among the first `i` nodes
/// reach: the largest position past such a subtree (at most the number of
/// nodes), or 0.
pub open spec fn use_end(nodes: Seq<SyntaxNodeView>, i: int) -> int
    decreases i,
{
    if i <= 0 || i > nodes.len() {
        0
    } else {
        let before = use_end(nodes, i - 1);
        let node = nodes[i - 1];
        let end = if node.size >= nodes.len() - (i - 1) {
            nodes.len() as int
        } else {
            i - 1 + node.size
        };
        if node.kind == "use_declaration"@ && end > before {
            end
        } else {
            before
        }
    }
}

/// The relation the node at position `i` records: an identifier inside a
/// `use` declaration imports its name; any other identifier mentions it,
/// except where it names a definition.
pub open spec fn relation_at(nodes: Seq<SyntaxNodeView>, i: int) -> Option<CodeRelationView> {
    let node = nodes[i];
    if is_identifier(node.kind) && !is_definition_name(node) {
        match node.text {
            Some(t) => Some(
                CodeRelationView {
                    name: t,
                    kind: if i < use_end(nodes, i) {
                        RelationKind::Import
                    } else {
                        RelationKind::Mention
                    },
                    line_start: node.row + 1,
                    line_end: node.row + 1,
                },
            ),
            None => None,
        }
    } else {
        None
    }
}

/// The relations of the first `n` nodes, in order.
pub open spec fn relations_of(nodes: Seq<SyntaxNodeView>, n: int) -> Seq<CodeRelationView>
    decreases n,
{
    if n <= 0 {
        Seq::empty()
    } else {
        let before = relations_of(nodes, n - 1);
        match relation_at(nodes, n - 1) {
            Some(r) => before.push(r),
            None => before,
        }
    }
}

/// The names a Rust source file imports or mentions.
pub open spec fn rust_relations(source: Seq<char>) -> Seq<CodeRelationView> {
    match rust_syntax(source) {
        Some(syntax) => relations_of(syntax.nodes, syntax.nodes.len() as int),
        None => Seq::empty(),
    }
}

/// Whether the symbol `s` is defined by the top-level node `item`: it has
/// the node's symbol kind, the text of the node's `name` field as its name
/// (unless it is an `impl`), and runs from the node's first row to its
/// last, counted from 1.
pub open spec fn spans_item(s: CodeSymbolView, item: SyntaxItemView) -> bool {
    &&& symbol_kind_of(item.kind) == Some(s.kind)
    &&& (s.kind != SymbolKind::Impl ==> item.name == Some(s.name))
    &&& s.line_start == item.start_row + 1
    &&& s.line_end == item.end_row + 1
}

proof fn lemma_symbols_span_items(items: Seq<SyntaxItemView>, n: int)
    requires
        0 <= n <= items.len(),
    ensures
        forall|k: int| 0 <= k < symbols_of_items(items, n).len() ==> exists|i: int|
            0 <= i < n && spans_item(#[trigger] symbols_of_items(items, n)[k], items[i]),
    decreases n,
{
    if n > 0 {
        lemma_symbols_span_items(items, n - 1);
        let before = symbols_of_items(items, n - 1);
        let after = symbols_of_items(items, n);
        assert forall|k: int| 0 <= k < after.len() implies exists|i: int|
            0 <= i < n && spans_item(#[trigger] after[k], items[i]) by {
            if k < before.len() {
                assert(after[k] == before[k]);
                let i = choose|i: int| 0 <= i < n - 1 && spans_item(before[k], items[i]);
                assert(spans_item(after[k], items[i]));
            } else {
                assert(spans_item(after[k], items[n - 1]));
            }
        }
    }
}

/// Every symbol the Rust plugin finds is defined by a top-level node of the
/// syntax tree and covers that node's lines, from its first row to its last.
pub proof fn law_symbols_span_their_items(source: Seq<char>)
    requires
        rust_syntax(source) is Some,
    ensures
        forall|k: int| 0 <= k < rust_symbols(source).len() ==> exists|i: int|
            0 <= i < rust_syntax(source)->0.items.len() && spans_item(
                #[trigger] rust_symbols(source)[k],
                rust_syntax(source)->0.items[i],
            ),
{
    let items = rust_syntax(source)->0.items;
    lemma_symbols_span_items(items, items.len() as int);
}

fn eq_str(a: &str, b: &str) -> (r: bool)
    ensures
        r == (a@ == b@),
{
    let x = chars_of(a);
    let y = chars_of(b);
    if x.len() != y.len() {
        return false;
    }
    let r = crate::text::starts_with(&x, &y);
    proof {
        assert(x@.subrange(0, y@.len() as int) == x@);
    }
    r
}

fn kind_of_node(node_kind: &str) -> (k: Option<SymbolKind>)
    ensures
        k == symbol_kind_of(node_kind@),
{
    if eq_str(node_kind, "function_item") {
        Some(SymbolKind::Function)
    } else if eq_str(node_kind, "struct_item") {
        Some(SymbolKind::Struct)
    } else if eq_str(node_kind, "enum_item") {
        Some(SymbolKind::Enum)
    } else if eq_str(node_kind, "trait_item") {
        Some(SymbolKind::Trait)
    } else if eq_str(node_kind, "impl_item") {
        Some(SymbolKind::Impl)
    } else if eq_str(node_kind, "const_item") {
        Some(SymbolKind::Constant)
    } else if eq_str(node_kind, "type_item") {
        Some(SymbolKind::TypeAlias)
    } else if eq_str(node_kind, "mod_item") {
        Some(SymbolKind::Module)
    } else {
        None
    }
}

fn clone_opt(o: &Option<String>) -> (r: Option<String>)
    ensures
        opt_view(r) == opt_view(*o),
{
    match o {
        Some(s) => Some(s.clone()),
        None => None,
    }
}

/// The name of an `impl` block.
fn impl_name(item: &SyntaxItem) -> (name: Option<String>)
    ensures
        opt_view(name) == impl_name_of(item@),
{
    match &item.type_field {
        Some(t) => clone_opt(t),
        None => {
            let ghost cs = item@.children;
            let mut i: usize = 0;
            while i < item.children.len()
                invariant
                    i <= item.children@.len(),
                    cs == item@.children,
                    item.type_field is None,
                    first_type_identifier(cs, 0) == first_type_identifier(cs, i as int),
                decreases item.children.len() - i,
            {
                assert(cs[i as int] == (item.children@[i as int].kind@, opt_view(item.children@[i as int].text)));
                if eq_str(item.children[i].kind.as_str(), "type_identifier") {
                    return clone_opt(&item.children[i].text);
                }
                i += 1;
            }
            None
        },
    }
}

/// The symbol a top-level node defines, if any.
pub fn extract_symbol(item: &SyntaxItem) -> (symbol: Option<CodeSymbol>)
    requires
        item.start_row < usize::MAX,
        item.end_row < usize::MAX,
    ensures
        symbol matches Some(s) ==> symbol_of(item@) == Some(s@),
        symbol is None ==> symbol_of(item@) is None,
{
    let kind = match kind_of_node(item.kind.as_str()) {
        Some(k) => k,
        None => {
            return None;
        },
    };
    let name = match kind {
        SymbolKind::Impl => impl_name(item),
        _ => clone_opt(&item.name),
    };
    match name {
        Some(n) => Some(
            CodeSymbol { name: n, kind, line_start: item.start_row + 1, line_end: item.end_row + 1, scope: None },
        ),
        None => None,
    }
}

/// Whether a node kind is an identifier.
fn identifier_kind(kind: &str) -> (r: bool)
    ensures
        r == is_identifier(kind@),
{
    eq_str(kind, "identifier") || eq_str(kind, "type_identifier")
}

/// Whether `node` is the name that its parent defines.
fn names_definition(node: &SyntaxNode, v: Ghost<SyntaxNodeView>) -> (r: bool)
    requires
        node.reads(v@),
    ensures
        r == is_definition_name(v@),
{
    let named = match &node.field {
        Some(f) => eq_str(f.as_str(), "name"),
        None => false,
    };
    let defining = match &node.parent_kind {
        Some(k) => kind_of_node(k.as_str()).is_some(),
        None => false,
    };
    named && defining
}

/// The Rust language: `.rs` files, symbols read from `tree-sitter-rust`
/// syntax trees.
pub struct RustPlugin;

impl LanguagePlugin for RustPlugin {
    open spec fn handles(&self, path: Seq<char>) -> bool {
        path_extension(path) == Some("rs"@)
    }

    open spec fn name(&self) -> Seq<char> {
        "rust"@
    }

    open spec fn symbols(&self, source: Seq<char>, path: Seq<char>) -> Seq<CodeSymbolView> {
        rust_symbols(source)
    }

    open spec fn relations(&self, source: Seq<char>, path: Seq<char>) -> Seq<CodeRelationView> {
        rust_relations(source)
    }

    fn language_name(&self) -> (name: &'static str) {
        "rust"
    }

    fn matches_path(&self, path: &str) -> (r: bool) {
        match crate::paths::extension(path) {
            Some(e) => eq_str(e.as_str(), "rs"),
            None => false,
        }
    }

    fn extract_symbols(&self, source: &str, path: &str) -> (symbols: Vec<CodeSymbol>) {
        let mut symbols: Vec<CodeSymbol> = Vec::new();
        let tree = match parse_rust(source) {
            Some(t) => t,
            None => {
                proof {
                    assert(symbols@.map_values(|s: CodeSymbol| s@) =~= Seq::<CodeSymbolView>::empty());
                }
                return symbols;
            },
        };
        let ghost items = rust_syntax(source@)->0.items;
        let count = top_level_count(&tree);
        let mut i: usize = 0;
        while i < count
            invariant
                i <= count,
                tree.source() == source@,
                rust_syntax(source@) is Some,
                rust_syntax(source@)->0.items == items,
                count == items.len(),
                symbols@.map_values(|s: CodeSymbol| s@) == symbols_of_items(items, i as int),
            decreases count - i,
        {
            let item = top_level_item(&tree, i);
            let ghost before = symbols@.map_values(|s: CodeSymbol| s@);
            match extract_symbol(&item) {
                Some(s) => {
                    symbols.push(s);
                    proof {
                        assert(symbols@.map_values(|s: CodeSymbol| s@) =~= before.push(s@));
                    }
                },
                None => {},
            }
            i += 1;
        }
        symbols
    }
    fn extract_relations(&self, source: &str, path: &str) -> (relations: Vec<CodeRelation>) {
        let mut relations: Vec<CodeRelation> = Vec::new();
        let tree = match parse_rust(source) {
            Some(t) => t,
            None => {
                proof {
                    assert(relations@.map_values(|r: CodeRelation| r@) =~= Seq::<CodeRelationView>::empty());
                }
                return relations;
            },
        };
        let ghost nodes = rust_syntax(source@)->0.nodes;
        let count = node_count(&tree);
        let mut reach: usize = 0;
        let mut i: usize = 0;
        while i < count
            invariant
                i <= count,
                tree.source() == source@,
                rust_syntax(source@) is Some,
                rust_syntax(source@)->0.nodes == nodes,
                count == nodes.len(),
                reach == use_end(nodes, i as int),
                reach <= count,
                relations@.map_values(|r: CodeRelation| r@) == relations_of(nodes, i as int),
            decreases count - i,
        {
            let node = node_at(&tree, i);
            let ghost before = relations@.map_values(|r: CodeRelation| r@);
            if identifier_kind(node.kind.as_str()) && !names_definition(&node, Ghost(nodes[i as int])) {
                match node_text(&tree, i) {
                    Some(name) => {
                        let kind = if i < reach {
                            RelationKind::Import
                        } else {
                            RelationKind::Mention
                        };
                        let r = CodeRelation { name, kind, line_start: node.row + 1, line_end: node.row + 1 };
                        relations.push(r);
                        proof {
                            assert(relation_at(nodes, i as int) == Some(r@));
                            assert(relations@.map_values(|r: CodeRelation| r@) =~= before.push(r@));
                        }
                    },
                    None => {},
                }
            }
            if eq_str(node.kind.as_str(), "use_declaration") {
                let end = if node.size >= count - i {
                    count
                } else {
                    i + node.size
                };
                if end > reach {
                    reach = end;
                }
            }
            i += 1;
        }
        relations
    }
}

} // verus!
