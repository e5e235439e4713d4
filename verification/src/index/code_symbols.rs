//! Code symbols as extra chunks: functions, types, classes and constants found in a parsed
//! syntax tree, each indexed with its name, signature, doc comment, container and the
//! identifiers used in its body.
//!
//! The syntax tree comes from tree-sitter. The library reads it through a handful of trusted
//! accessors, one per tree-sitter call, that address a node by its position in a pre-order
//! walk of the tree; everything decided from the nodes is verified here.
use vstd::prelude::*;

use crate::paths::{file_name, file_name_of};
use crate::index::chunking::{extension_of, file_extension, IndexedChunk};
use crate::index::util::{forward_slashes, hash_text, stable_text_hash};
use crate::{normalize_query, normalized_text};
use crate::text::{
    chars_of, join, join_chars, lines_of, push_chars, push_str, skip_chars, split_lines,
    starts_with, starts_with_chars, string_of, trim, trim_chars, views,
};

verus! {

/// The languages whose symbols are extracted.
#[derive(Clone, Copy, Debug, PartialEq, Eq, Structural)]
pub enum CodeLanguage {
    Rust,
    Python,
    JavaScript,
    TypeScript,
    Tsx,
}

/// The language's name as recorded with its chunks.
pub open spec fn language_name(language: CodeLanguage) -> Seq<char> {
    match language {
        CodeLanguage::Rust => "rust"@,
        CodeLanguage::Python => "python"@,
        CodeLanguage::JavaScript => "javascript"@,
        CodeLanguage::TypeScript => "typescript"@,
        CodeLanguage::Tsx => "tsx"@,
    }
}

/// The language of a file extension: `rs`, `py`, `js`/`mjs`/`cjs`/`jsx`, `ts`, `tsx`.
pub open spec fn language_of_extension(ext: Seq<char>) -> Option<CodeLanguage> {
    if ext == "rs"@ {
        Some(CodeLanguage::Rust)
    } else if ext == "py"@ {
        Some(CodeLanguage::Python)
    } else if ext == "js"@ || ext == "mjs"@ || ext == "cjs"@ || ext == "jsx"@ {
        Some(CodeLanguage::JavaScript)
    } else if ext == "ts"@ {
        Some(CodeLanguage::TypeScript)
    } else if ext == "tsx"@ {
        Some(CodeLanguage::Tsx)
    } else {
        None
    }
}

/// The language of a path, from the extension of its file name.
pub open spec fn language_of_path(path: Seq<char>) -> Option<CodeLanguage> {
    match file_name_of(path) {
        Some(name) => match file_extension(name) {
            Some(ext) => language_of_extension(ext),
            None => None,
        },
        None => None,
    }
}

fn chars_equal(a: &[char], b: &str) -> (r: bool)
    ensures
        r == (a@ == b@),
{
    let bv = crate::text::chars_of(b);
    if a.len() != bv.len() {
        return false;
    }
    let mut i: usize = 0;
    while i < a.len()
        invariant
            i <= a@.len(),
            a@.len() == bv@.len(),
            bv@ == b@,
            forall|j: int| 0 <= j < i ==> a@[j] == bv@[j],
        decreases a@.len() - i,
    {
        if a[i] != bv[i] {
            return false;
        }
        i = i + 1;
    }
    assert(a@ =~= bv@);
    true
}

impl CodeLanguage {
    /// The language of a path, if its extension names a supported one.
    pub fn detect(path: &str) -> (r: Option<CodeLanguage>)
        ensures
            r == language_of_path(path@),
    {
        let name = match file_name(path) {
            Some(name) => name,
            None => return None,
        };
        let ext = match extension_of(name.as_slice()) {
            Some(ext) => ext,
            None => return None,
        };
        let e = ext.as_slice();
        if chars_equal(e, "rs") {
            Some(CodeLanguage::Rust)
        } else if chars_equal(e, "py") {
            Some(CodeLanguage::Python)
        } else if chars_equal(e, "js") || chars_equal(e, "mjs") || chars_equal(e, "cjs")
            || chars_equal(e, "jsx") {
            Some(CodeLanguage::JavaScript)
        } else if chars_equal(e, "ts") {
            Some(CodeLanguage::TypeScript)
        } else if chars_equal(e, "tsx") {
            Some(CodeLanguage::Tsx)
        } else {
            None
        }
    }

    /// The language's name as recorded with its chunks.
    pub fn as_str(self) -> (r: &'static str)
        ensures
            r@ == language_name(self),
    {
        match self {
            CodeLanguage::Rust => "rust",
            CodeLanguage::Python => "python",
            CodeLanguage::JavaScript => "javascript",
            CodeLanguage::TypeScript => "typescript",
            CodeLanguage::Tsx => "tsx",
        }
    }
}

/// Whether symbols are extracted from the file at `path`.
pub fn supports_code_symbol_indexing(path: &str) -> (r: bool)
    ensures
        r == (language_of_path(path@) is Some),
{
    CodeLanguage::detect(path).is_some()
}

#[verifier::external_type_specification]
#[verifier::external_body]
pub struct ExTree(tree_sitter::Tree);

/// A parsed source file: the tree-sitter tree, the text it was parsed from, and the language
/// it was parsed as.
pub struct SyntaxTree {
    tree: tree_sitter::Tree,
    source: String,
    language: CodeLanguage,
}

impl View for SyntaxTree {
    type V = (Seq<char>, Seq<char>);

    /// The language name and the source text the tree was parsed from.
    closed spec fn view(&self) -> (Seq<char>, Seq<char>) {
        (language_name(self.language), self.source@)
    }
}

/// How many nodes the tree-sitter tree of a (language, source) pair has, the root included.
pub uninterp spec fn ts_node_count(tree: (Seq<char>, Seq<char>)) -> nat;

/// The kind of node number `index` in the pre-order walk of the tree.
pub uninterp spec fn ts_kind(tree: (Seq<char>, Seq<char>), index: int) -> Seq<char>;

/// Whether node number `index` is a named node.
pub uninterp spec fn ts_named(tree: (Seq<char>, Seq<char>), index: int) -> bool;

/// The field name under which node number `index` hangs from its parent, if any.
pub uninterp spec fn ts_field(tree: (Seq<char>, Seq<char>), index: int) -> Option<Seq<char>>;

/// The number of the parent of node number `index`; the root has none.
pub uninterp spec fn ts_parent(tree: (Seq<char>, Seq<char>), index: int) -> Option<int>;

/// The zero-based row on which node number `index` starts.
pub uninterp spec fn ts_start_row(tree: (Seq<char>, Seq<char>), index: int) -> int;

/// The zero-based row on which node number `index` ends.
pub uninterp spec fn ts_end_row(tree: (Seq<char>, Seq<char>), index: int) -> int;

/// The source text that node number `index` spans, when it is well-formed UTF-8.
pub uninterp spec fn ts_text(tree: (Seq<char>, Seq<char>), index: int) -> Option<Seq<char>>;

/// `tree_sitter::Parser::parse`, after `Parser::set_language` with the grammar of
/// `language`: whether a tree comes back is named by `ts_parses`, and a tree that comes back
/// is tied to the language and the text it was parsed from.
#[verifier::external_body]
fn parse_syntax(language: CodeLanguage, body: &str) -> (r: Option<SyntaxTree>)
    ensures
        r is Some <==> ts_parses(language_name(language), body@),
        r matches Some(t) ==> t@ == (language_name(language), body@),
{
    let grammar: tree_sitter::Language = match language {
        CodeLanguage::Rust => tree_sitter_rust::LANGUAGE.into(),
        CodeLanguage::Python => tree_sitter_python::LANGUAGE.into(),
        CodeLanguage::JavaScript => tree_sitter_javascript::LANGUAGE.into(),
        CodeLanguage::TypeScript => tree_sitter_typescript::LANGUAGE_TYPESCRIPT.into(),
        CodeLanguage::Tsx => tree_sitter_typescript::LANGUAGE_TSX.into(),
    };
    let mut parser = tree_sitter::Parser::new();
    if parser.set_language(&grammar).is_err() {
        return None;
    }
    let tree = parser.parse(body, None)?;
    Some(SyntaxTree { tree, source: body.to_owned(), language })
}

/// `Node::descendant_count` of the root: the number of nodes, the root included.
#[verifier::external_body]
fn node_count(t: &SyntaxTree) -> (r: usize)
    ensures
        r == ts_node_count(t@),
{
    t.tree.root_node().descendant_count()
}

/// `Node::kind` of node number `index` (reached with `TreeCursor::goto_descendant`).
#[verifier::external_body]
fn node_kind(t: &SyntaxTree, index: usize) -> (r: String)
    requires
        index < ts_node_count(t@),
    ensures
        r@ == ts_kind(t@, index as int),
{
    let mut cursor = t.tree.walk();
    cursor.goto_descendant(index);
    cursor.node().kind().to_owned()
}

/// `Node::is_named` of node number `index`.
#[verifier::external_body]
fn node_is_named(t: &SyntaxTree, index: usize) -> (r: bool)
    requires
        index < ts_node_count(t@),
    ensures
        r == ts_named(t@, index as int),
{
    let mut cursor = t.tree.walk();
    cursor.goto_descendant(index);
    cursor.node().is_named()
}

/// `TreeCursor::field_name` at node number `index`.
#[verifier::external_body]
fn node_field(t: &SyntaxTree, index: usize) -> (r: Option<String>)
    requires
        index < ts_node_count(t@),
    ensures
        crate::text::opt_text(r) == ts_field(t@, index as int),
{
    let mut cursor = t.tree.walk();
    cursor.goto_descendant(index);
    cursor.field_name().map(|name| name.to_owned())
}

/// `TreeCursor::goto_parent` from node number `index`, read back with
/// `TreeCursor::descendant_index`: the number of its parent, or `None` at the root.
#[verifier::external_body]
fn node_parent(t: &SyntaxTree, index: usize) -> (r: Option<usize>)
    requires
        index < ts_node_count(t@),
    ensures
        r matches Some(p) ==> ts_parent(t@, index as int) == Some(p as int),
        r is None ==> ts_parent(t@, index as int) is None,
{
    let mut cursor = t.tree.walk();
    cursor.goto_descendant(index);
    if cursor.goto_parent() {
        Some(cursor.descendant_index())
    } else {
        None
    }
}

/// `Node::start_position().row` of node number `index`.
#[verifier::external_body]
fn node_start_row(t: &SyntaxTree, index: usize) -> (r: usize)
    requires
        index < ts_node_count(t@),
    ensures
        r == ts_start_row(t@, index as int),
{
    let mut cursor = t.tree.walk();
    cursor.goto_descendant(index);
    cursor.node().start_position().row
}

/// `Node::end_position().row` of node number `index`.
#[verifier::external_body]
fn node_end_row(t: &SyntaxTree, index: usize) -> (r: usize)
    requires
        index < ts_node_count(t@),
    ensures
        r == ts_end_row(t@, index as int),
{
    let mut cursor = t.tree.walk();
    cursor.goto_descendant(index);
    cursor.node().end_position().row
}

/// `Node::utf8_text` of node number `index` over the parsed source; `None` when its bytes
/// are not well-formed UTF-8.
#[verifier::external_body]
fn node_text(t: &SyntaxTree, index: usize) -> (r: Option<String>)
    requires
        index < ts_node_count(t@),
    ensures
        crate::text::opt_text(r) == ts_text(t@, index as int),
{
    let mut cursor = t.tree.walk();
    cursor.goto_descendant(index);
    cursor.node().utf8_text(t.source.as_bytes()).ok().map(|text| text.to_owned())
}

/// One syntax-tree node as the symbol extraction reads it.
#[derive(Clone, Debug)]
pub struct SyntaxNode {
    pub kind: String,
    pub named: bool,
    pub field: Option<String>,
    pub parent: Option<usize>,
    pub start_row: usize,
    pub end_row: usize,
    pub text: Option<String>,
}

/// The spec-level content of a node.
pub struct NodeView {
    pub kind: Seq<char>,
    pub named: bool,
    pub field: Option<Seq<char>>,
    pub parent: Option<int>,
    pub start_row: int,
    pub end_row: int,
    pub text: Option<Seq<char>>,
}

/// The spec-level content of a node.
pub open spec fn node_view(n: SyntaxNode) -> NodeView {
    NodeView {
        kind: n.kind@,
        named: n.named,
        field: crate::text::opt_text(n.field),
        parent: match n.parent {
            Some(p) => Some(p as int),
            None => None,
        },
        start_row: n.start_row as int,
        end_row: n.end_row as int,
        text: crate::text::opt_text(n.text),
    }
}

/// The spec-level content of a node table.
pub open spec fn node_views(v: Seq<SyntaxNode>) -> Seq<NodeView> {
    v.map_values(|n: SyntaxNode| node_view(n))
}

/// The nodes of the tree of a (language, source) pair, in pre-order.
pub open spec fn tree_nodes(tree: (Seq<char>, Seq<char>)) -> Seq<NodeView> {
    Seq::new(
        ts_node_count(tree),
        |i: int|
            NodeView {
                kind: ts_kind(tree, i),
                named: ts_named(tree, i),
                field: ts_field(tree, i),
                parent: ts_parent(tree, i),
                start_row: ts_start_row(tree, i),
                end_row: ts_end_row(tree, i),
                text: ts_text(tree, i),
            },
    )
}

/// Reads every node of a parsed tree into a table indexed by pre-order position.
fn load_nodes(t: &SyntaxTree) -> (r: Vec<SyntaxNode>)
    ensures
        node_views(r@) == tree_nodes(t@),
{
    let n = node_count(t);
    let mut out: Vec<SyntaxNode> = Vec::new();
    let mut i: usize = 0;
    while i < n
        invariant
            i <= n,
            n == ts_node_count(t@),
            node_views(out@) == tree_nodes(t@).take(i as int),
        decreases n - i,
    {
        let node = SyntaxNode {
            kind: node_kind(t, i),
            named: node_is_named(t, i),
            field: node_field(t, i),
            parent: node_parent(t, i),
            start_row: node_start_row(t, i),
            end_row: node_end_row(t, i),
            text: node_text(t, i),
        };
        let ghost before = node_views(out@);
        let ghost nv = node_view(node);
        out.push(node);
        assert(node_views(out@) =~= before.push(nv));
        assert(tree_nodes(t@).take(i + 1) =~= tree_nodes(t@).take(i as int).push(tree_nodes(t@)[i as int]));
        i = i + 1;
    }
    assert(tree_nodes(t@).take(n as int) =~= tree_nodes(t@));
    out
}

/// The first `n` nodes whose parent is node `p`, in order.
pub open spec fn child_list(nodes: Seq<NodeView>, p: int, n: int) -> Seq<int>
    decreases n,
{
    if n <= 0 {
        Seq::empty()
    } else if nodes[n - 1].parent == Some(p) {
        child_list(nodes, p, n - 1).push(n - 1)
    } else {
        child_list(nodes, p, n - 1)
    }
}

/// The children of node `p`, in order.
pub open spec fn children_of(nodes: Seq<NodeView>, p: int) -> Seq<int> {
    child_list(nodes, p, nodes.len() as int)
}

/// Whether `children` lists, for each node, its children in order.
pub open spec fn is_child_table(nodes: Seq<NodeView>, children: Seq<Vec<usize>>) -> bool {
    &&& children.len() == nodes.len()
    &&& forall|p: int| 0 <= p < nodes.len() ==> (#[trigger] children[p])@.map_values(|j: usize| j as int) == children_of(nodes, p)
}

proof fn lemma_child_list_bound(nodes: Seq<NodeView>, p: int, n: int)
    requires
        n <= nodes.len(),
    ensures
        forall|k: int| 0 <= k < child_list(nodes, p, n).len() ==> 0 <= #[trigger] child_list(nodes, p, n)[k] < n
            && nodes[child_list(nodes, p, n)[k]].parent == Some(p),
    decreases n,
{
    if n > 0 {
        lemma_child_list_bound(nodes, p, n - 1);
    }
}

/// Lists the children of every node.
fn child_table(nodes: &Vec<SyntaxNode>) -> (r: Vec<Vec<usize>>)
    ensures
        is_child_table(node_views(nodes@), r@),
{
    let ghost nv = node_views(nodes@);
    let n = nodes.len();
    let mut table: Vec<Vec<usize>> = Vec::new();
    let mut k: usize = 0;
    while k < n
        invariant
            k <= n,
            n == nodes@.len(),
            table@.len() == k,
            forall|p: int| 0 <= p < k ==> (#[trigger] table@[p])@.len() == 0,
        decreases n - k,
    {
        table.push(Vec::new());
        k = k + 1;
    }
    let mut j: usize = 0;
    while j < n
        invariant
            j <= n,
            n == nodes@.len(),
            nv == node_views(nodes@),
            table@.len() == n,
            forall|p: int| 0 <= p < n ==> (#[trigger] table@[p])@.map_values(|x: usize| x as int) == child_list(nv, p, j as int),
        decreases n - j,
    {
        match nodes[j].parent {
            Some(p) => {
                if p < n {
                    let mut list = table[p].clone();
                    let ghost before = list@.map_values(|x: usize| x as int);
                    assert(before == child_list(nv, p as int, j as int));
                    list.push(j);
                    assert(list@.map_values(|x: usize| x as int) =~= before.push(j as int));
                    table.set(p, list);
                    assert forall|q: int| 0 <= q < n implies (#[trigger] table@[q])@.map_values(|x: usize| x as int) == child_list(nv, q, j + 1) by {
                        assert(nv[j as int].parent == Some(p as int));
                    }
                } else {
                    assert forall|q: int| 0 <= q < n implies (#[trigger] table@[q])@.map_values(|x: usize| x as int) == child_list(nv, q, j + 1) by {
                        assert(nv[j as int].parent == Some(p as int));
                    }
                }
            },
            None => {
                assert forall|q: int| 0 <= q < n implies (#[trigger] table@[q])@.map_values(|x: usize| x as int) == child_list(nv, q, j + 1) by {
                    assert(nv[j as int].parent is None);
                }
            },
        }
        j = j + 1;
    }
    table
}

/// The first child of `p` that hangs from it under the field `field`.
pub open spec fn field_child_in(nodes: Seq<NodeView>, kids: Seq<int>, field: Seq<char>, k: int) -> Option<int>
    decreases kids.len() - k,
{
    if k >= kids.len() || k < 0 {
        None
    } else if nodes[kids[k]].field == Some(field) {
        Some(kids[k])
    } else {
        field_child_in(nodes, kids, field, k + 1)
    }
}

/// `Node::child_by_field_name`: the first child of `p` under the field `field`.
pub open spec fn field_child(nodes: Seq<NodeView>, p: int, field: Seq<char>) -> Option<int> {
    field_child_in(nodes, children_of(nodes, p), field, 0)
}

/// The first named child of `p`.
pub open spec fn first_named_in(nodes: Seq<NodeView>, kids: Seq<int>, k: int) -> Option<int>
    decreases kids.len() - k,
{
    if k >= kids.len() || k < 0 {
        None
    } else if nodes[kids[k]].named {
        Some(kids[k])
    } else {
        first_named_in(nodes, kids, k + 1)
    }
}

/// The first named child of `p`.
pub open spec fn first_named_child(nodes: Seq<NodeView>, p: int) -> Option<int> {
    first_named_in(nodes, children_of(nodes, p), 0)
}

/// The nodes and the child table that the extraction reads.
pub struct NodeTable {
    pub nodes: Vec<SyntaxNode>,
    pub children: Vec<Vec<usize>>,
}

/// Whether a table is well formed: its child table lists each node's children.
pub open spec fn table_ok(t: &NodeTable) -> bool {
    is_child_table(node_views(t.nodes@), t.children@)
}

fn find_field_child(t: &NodeTable, p: usize, field: &str) -> (r: Option<usize>)
    requires
        table_ok(t),
        p < t.nodes@.len(),
    ensures
        r matches Some(c) ==> field_child(node_views(t.nodes@), p as int, field@) == Some(c as int) && c < t.nodes@.len(),
        r is None ==> field_child(node_views(t.nodes@), p as int, field@) is None,
{
    let ghost nv = node_views(t.nodes@);
    let kids = &t.children[p];
    let ghost kv = kids@.map_values(|x: usize| x as int);
    assert(kv == children_of(nv, p as int));
    proof {
        lemma_child_list_bound(nv, p as int, nv.len() as int);
    }
    let mut k: usize = 0;
    while k < kids.len()
        invariant
            k <= kids@.len(),
            kv == kids@.map_values(|x: usize| x as int),
            kv == children_of(nv, p as int),
            nv == node_views(t.nodes@),
            forall|z: int| 0 <= z < kv.len() ==> 0 <= #[trigger] kv[z] < nv.len(),
            field_child_in(nv, kv, field@, 0) == field_child_in(nv, kv, field@, k as int),
        decreases kids@.len() - k,
    {
        let c = kids[k];
        assert(kv[k as int] == c as int);
        let matches = match &t.nodes[c].field {
            Some(f) => crate::text::same_text(f.as_str(), field),
            None => false,
        };
        if matches {
            return Some(c);
        }
        k = k + 1;
    }
    None
}

fn find_first_named_child(t: &NodeTable, p: usize) -> (r: Option<usize>)
    requires
        table_ok(t),
        p < t.nodes@.len(),
    ensures
        r matches Some(c) ==> first_named_child(node_views(t.nodes@), p as int) == Some(c as int) && c < t.nodes@.len(),
        r is None ==> first_named_child(node_views(t.nodes@), p as int) is None,
{
    let ghost nv = node_views(t.nodes@);
    let kids = &t.children[p];
    let ghost kv = kids@.map_values(|x: usize| x as int);
    assert(kv == children_of(nv, p as int));
    proof {
        lemma_child_list_bound(nv, p as int, nv.len() as int);
    }
    let mut k: usize = 0;
    while k < kids.len()
        invariant
            k <= kids@.len(),
            kv == kids@.map_values(|x: usize| x as int),
            kv == children_of(nv, p as int),
            nv == node_views(t.nodes@),
            forall|z: int| 0 <= z < kv.len() ==> 0 <= #[trigger] kv[z] < nv.len(),
            first_named_in(nv, kv, 0) == first_named_in(nv, kv, k as int),
        decreases kids@.len() - k,
    {
        let c = kids[k];
        assert(kv[k as int] == c as int);
        if t.nodes[c].named {
            return Some(c);
        }
        k = k + 1;
    }
    None
}

/// The parent of node `i`, when it is a node of the table.
pub open spec fn parent_in(nodes: Seq<NodeView>, i: int) -> Option<int> {
    match nodes[i].parent {
        Some(p) => if 0 <= p < nodes.len() {
            Some(p)
        } else {
            None
        },
        None => None,
    }
}

/// Whether node `i` has kind `kind`.
pub open spec fn kind_is(nodes: Seq<NodeView>, i: int, kind: Seq<char>) -> bool {
    nodes[i].kind == kind
}

/// A Python assignment at module level to a plain identifier.
pub open spec fn python_module_assignment(nodes: Seq<NodeView>, i: int) -> bool {
    match field_child(nodes, i, "left"@) {
        Some(left) => kind_is(nodes, left, "identifier"@) && match parent_in(nodes, i) {
            Some(p) => kind_is(nodes, p, "expression_statement"@) && match parent_in(nodes, p) {
                Some(g) => kind_is(nodes, g, "module"@),
                None => false,
            },
            None => false,
        },
        None => false,
    }
}

/// A JavaScript or TypeScript declarator of a plain identifier in a top-level (or exported)
/// `const`/`let`/`var` declaration.
pub open spec fn js_top_level_binding(nodes: Seq<NodeView>, i: int) -> bool {
    match field_child(nodes, i, "name"@) {
        Some(name) => kind_is(nodes, name, "identifier"@) && match parent_in(nodes, i) {
            Some(p) => (kind_is(nodes, p, "lexical_declaration"@) || kind_is(nodes, p, "variable_declaration"@))
                && match parent_in(nodes, p) {
                Some(g) => kind_is(nodes, g, "program"@) || kind_is(nodes, g, "export_statement"@),
                None => false,
            },
            None => false,
        },
        None => false,
    }
}

/// A top-level binding whose value is an arrow function, function expression or generator.
pub open spec fn js_function_binding(nodes: Seq<NodeView>, i: int) -> bool {
    js_top_level_binding(nodes, i) && match field_child(nodes, i, "value"@) {
        Some(v) => kind_is(nodes, v, "arrow_function"@) || kind_is(nodes, v, "function_expression"@)
            || kind_is(nodes, v, "generator_function"@),
        None => false,
    }
}

/// The symbol kind that node `i` declares in `language`, if it declares one.
pub open spec fn symbol_kind(language: CodeLanguage, nodes: Seq<NodeView>, i: int) -> Option<Seq<char>> {
    let k = nodes[i].kind;
    match language {
        CodeLanguage::Rust => if k == "function_item"@ {
            Some("function"@)
        } else if k == "struct_item"@ {
            Some("struct"@)
        } else if k == "enum_item"@ {
            Some("enum"@)
        } else if k == "trait_item"@ {
            Some("trait"@)
        } else if k == "type_item"@ {
            Some("type"@)
        } else if k == "mod_item"@ {
            Some("module"@)
        } else if k == "const_item"@ || k == "static_item"@ {
            Some("constant"@)
        } else {
            None
        },
        CodeLanguage::Python => if k == "function_definition"@ {
            Some("function"@)
        } else if k == "class_definition"@ {
            Some("class"@)
        } else if k == "assignment"@ && python_module_assignment(nodes, i) {
            Some("constant"@)
        } else {
            None
        },
        _ => if k == "function_declaration"@ || k == "function_signature"@ {
            Some("function"@)
        } else if k == "method_definition"@ || k == "method_signature"@ || k
            == "abstract_method_signature"@ {
            Some("method"@)
        } else if k == "class_declaration"@ || k == "class"@ || k == "abstract_class_declaration"@ {
            Some("class"@)
        } else if k == "interface_declaration"@ {
            Some("interface"@)
        } else if k == "module"@ {
            Some("module"@)
        } else if k == "variable_declarator"@ && js_function_binding(nodes, i) {
            Some("function"@)
        } else if k == "variable_declarator"@ && js_top_level_binding(nodes, i) {
            Some("constant"@)
        } else {
            None
        },
    }
}

/// In Rust, functions, structs, enums, traits, type aliases, modules, and constants and
/// statics declare symbols, of the kinds named after them, and no other node does.
pub proof fn lemma_rust_symbol_kinds(nodes: Seq<NodeView>, i: int)
    requires
        0 <= i < nodes.len(),
    ensures
        nodes[i].kind == "function_item"@ ==> symbol_kind(CodeLanguage::Rust, nodes, i) == Some("function"@),
        nodes[i].kind == "struct_item"@ ==> symbol_kind(CodeLanguage::Rust, nodes, i) == Some("struct"@),
        nodes[i].kind == "enum_item"@ ==> symbol_kind(CodeLanguage::Rust, nodes, i) == Some("enum"@),
        nodes[i].kind == "trait_item"@ ==> symbol_kind(CodeLanguage::Rust, nodes, i) == Some("trait"@),
        nodes[i].kind == "type_item"@ ==> symbol_kind(CodeLanguage::Rust, nodes, i) == Some("type"@),
        nodes[i].kind == "mod_item"@ ==> symbol_kind(CodeLanguage::Rust, nodes, i) == Some("module"@),
        nodes[i].kind == "const_item"@ ==> symbol_kind(CodeLanguage::Rust, nodes, i) == Some("constant"@),
        nodes[i].kind == "static_item"@ ==> symbol_kind(CodeLanguage::Rust, nodes, i) == Some("constant"@),
        symbol_kind(CodeLanguage::Rust, nodes, i) is Some ==> (nodes[i].kind == "function_item"@ || nodes[i].kind == "struct_item"@ || nodes[i].kind == "enum_item"@ || nodes[i].kind == "trait_item"@ || nodes[i].kind == "type_item"@ || nodes[i].kind == "mod_item"@ || nodes[i].kind == "const_item"@ || nodes[i].kind == "static_item"@),
{
    reveal_strlit("const_item");
    reveal_strlit("constant");
    reveal_strlit("enum");
    reveal_strlit("enum_item");
    reveal_strlit("function");
    reveal_strlit("function_item");
    reveal_strlit("mod_item");
    reveal_strlit("module");
    reveal_strlit("static_item");
    reveal_strlit("struct");
    reveal_strlit("struct_item");
    reveal_strlit("trait");
    reveal_strlit("trait_item");
    reveal_strlit("type");
    reveal_strlit("type_item");
    assert("const_item"@.len() != "enum_item"@.len());
    assert("const_item"@.len() != "function_item"@.len());
    assert("const_item"@.len() != "mod_item"@.len());
    assert("const_item"@.len() != "static_item"@.len());
    assert("const_item"@.len() != "struct_item"@.len());
    assert("const_item"@[0] != "trait_item"@[0]);
    assert("const_item"@.len() != "type_item"@.len());
    assert("enum_item"@.len() != "function_item"@.len());
    assert("enum_item"@.len() != "mod_item"@.len());
    assert("enum_item"@.len() != "static_item"@.len());
    assert("enum_item"@.len() != "struct_item"@.len());
    assert("enum_item"@.len() != "trait_item"@.len());
    assert("enum_item"@[0] != "type_item"@[0]);
    assert("function_item"@.len() != "mod_item"@.len());
    assert("function_item"@.len() != "static_item"@.len());
    assert("function_item"@.len() != "struct_item"@.len());
    assert("function_item"@.len() != "trait_item"@.len());
    assert("function_item"@.len() != "type_item"@.len());
    assert("mod_item"@.len() != "static_item"@.len());
    assert("mod_item"@.len() != "struct_item"@.len());
    assert("mod_item"@.len() != "trait_item"@.len());
    assert("mod_item"@.len() != "type_item"@.len());
    assert("static_item"@[2] != "struct_item"@[2]);
    assert("static_item"@.len() != "trait_item"@.len());
    assert("static_item"@.len() != "type_item"@.len());
    assert("struct_item"@.len() != "trait_item"@.len());
    assert("struct_item"@.len() != "type_item"@.len());
    assert("trait_item"@.len() != "type_item"@.len());
}

/// In Python, function and class definitions declare function and class symbols.
pub proof fn lemma_python_symbol_kinds(nodes: Seq<NodeView>, i: int)
    requires
        0 <= i < nodes.len(),
    ensures
        nodes[i].kind == "function_definition"@ ==> symbol_kind(CodeLanguage::Python, nodes, i) == Some("function"@),
        nodes[i].kind == "class_definition"@ ==> symbol_kind(CodeLanguage::Python, nodes, i) == Some("class"@),
{
    reveal_strlit("assignment");
    reveal_strlit("class");
    reveal_strlit("class_definition");
    reveal_strlit("function");
    reveal_strlit("function_definition");
    assert("assignment"@.len() != "class_definition"@.len());
    assert("assignment"@.len() != "function_definition"@.len());
    assert("class_definition"@.len() != "function_definition"@.len());
}

/// In JavaScript and TypeScript, function, method, class, interface and module declarations
/// declare symbols of those kinds.
pub proof fn lemma_script_symbol_kinds(nodes: Seq<NodeView>, i: int)
    requires
        0 <= i < nodes.len(),
    ensures
        nodes[i].kind == "function_declaration"@ ==> symbol_kind(CodeLanguage::JavaScript, nodes, i) == Some("function"@),
        nodes[i].kind == "function_signature"@ ==> symbol_kind(CodeLanguage::JavaScript, nodes, i) == Some("function"@),
        nodes[i].kind == "method_definition"@ ==> symbol_kind(CodeLanguage::JavaScript, nodes, i) == Some("method"@),
        nodes[i].kind == "method_signature"@ ==> symbol_kind(CodeLanguage::JavaScript, nodes, i) == Some("method"@),
        nodes[i].kind == "abstract_method_signature"@ ==> symbol_kind(CodeLanguage::JavaScript, nodes, i) == Some("method"@),
        nodes[i].kind == "class_declaration"@ ==> symbol_kind(CodeLanguage::JavaScript, nodes, i) == Some("class"@),
        nodes[i].kind == "class"@ ==> symbol_kind(CodeLanguage::JavaScript, nodes, i) == Some("class"@),
        nodes[i].kind == "abstract_class_declaration"@ ==> symbol_kind(CodeLanguage::JavaScript, nodes, i) == Some("class"@),
        nodes[i].kind == "interface_declaration"@ ==> symbol_kind(CodeLanguage::JavaScript, nodes, i) == Some("interface"@),
        nodes[i].kind == "module"@ ==> symbol_kind(CodeLanguage::JavaScript, nodes, i) == Some("module"@),
        nodes[i].kind == "function_declaration"@ ==> symbol_kind(CodeLanguage::TypeScript, nodes, i) == Some("function"@),
        nodes[i].kind == "function_signature"@ ==> symbol_kind(CodeLanguage::TypeScript, nodes, i) == Some("function"@),
        nodes[i].kind == "method_definition"@ ==> symbol_kind(CodeLanguage::TypeScript, nodes, i) == Some("method"@),
        nodes[i].kind == "method_signature"@ ==> symbol_kind(CodeLanguage::TypeScript, nodes, i) == Some("method"@),
        nodes[i].kind == "abstract_method_signature"@ ==> symbol_kind(CodeLanguage::TypeScript, nodes, i) == Some("method"@),
        nodes[i].kind == "class_declaration"@ ==> symbol_kind(CodeLanguage::TypeScript, nodes, i) == Some("class"@),
        nodes[i].kind == "class"@ ==> symbol_kind(CodeLanguage::TypeScript, nodes, i) == Some("class"@),
        nodes[i].kind == "abstract_class_declaration"@ ==> symbol_kind(CodeLanguage::TypeScript, nodes, i) == Some("class"@),
        nodes[i].kind == "interface_declaration"@ ==> symbol_kind(CodeLanguage::TypeScript, nodes, i) == Some("interface"@),
        nodes[i].kind == "module"@ ==> symbol_kind(CodeLanguage::TypeScript, nodes, i) == Some("module"@),
        nodes[i].kind == "function_declaration"@ ==> symbol_kind(CodeLanguage::Tsx, nodes, i) == Some("function"@),
        nodes[i].kind == "function_signature"@ ==> symbol_kind(CodeLanguage::Tsx, nodes, i) == Some("function"@),
        nodes[i].kind == "method_definition"@ ==> symbol_kind(CodeLanguage::Tsx, nodes, i) == Some("method"@),
        nodes[i].kind == "method_signature"@ ==> symbol_kind(CodeLanguage::Tsx, nodes, i) == Some("method"@),
        nodes[i].kind == "abstract_method_signature"@ ==> symbol_kind(CodeLanguage::Tsx, nodes, i) == Some("method"@),
        nodes[i].kind == "class_declaration"@ ==> symbol_kind(CodeLanguage::Tsx, nodes, i) == Some("class"@),
        nodes[i].kind == "class"@ ==> symbol_kind(CodeLanguage::Tsx, nodes, i) == Some("class"@),
        nodes[i].kind == "abstract_class_declaration"@ ==> symbol_kind(CodeLanguage::Tsx, nodes, i) == Some("class"@),
        nodes[i].kind == "interface_declaration"@ ==> symbol_kind(CodeLanguage::Tsx, nodes, i) == Some("interface"@),
        nodes[i].kind == "module"@ ==> symbol_kind(CodeLanguage::Tsx, nodes, i) == Some("module"@),
{
    reveal_strlit("abstract_class_declaration");
    reveal_strlit("abstract_method_signature");
    reveal_strlit("class");
    reveal_strlit("class_declaration");
    reveal_strlit("function");
    reveal_strlit("function_declaration");
    reveal_strlit("function_signature");
    reveal_strlit("interface");
    reveal_strlit("interface_declaration");
    reveal_strlit("method");
    reveal_strlit("method_definition");
    reveal_strlit("method_signature");
    reveal_strlit("module");
    reveal_strlit("variable_declarator");
    assert("abstract_class_declaration"@.len() != "abstract_method_signature"@.len());
    assert("abstract_class_declaration"@.len() != "class"@.len());
    assert("abstract_class_declaration"@.len() != "class_declaration"@.len());
    assert("abstract_class_declaration"@.len() != "function_declaration"@.len());
    assert("abstract_class_declaration"@.len() != "function_signature"@.len());
    assert("abstract_class_declaration"@.len() != "interface_declaration"@.len());
    assert("abstract_class_declaration"@.len() != "method_definition"@.len());
    assert("abstract_class_declaration"@.len() != "method_signature"@.len());
    assert("abstract_class_declaration"@.len() != "module"@.len());
    assert("abstract_class_declaration"@.len() != "variable_declarator"@.len());
    assert("abstract_method_signature"@.len() != "class"@.len());
    assert("abstract_method_signature"@.len() != "class_declaration"@.len());
    assert("abstract_method_signature"@.len() != "function_declaration"@.len());
    assert("abstract_method_signature"@.len() != "function_signature"@.len());
    assert("abstract_method_signature"@.len() != "interface_declaration"@.len());
    assert("abstract_method_signature"@.len() != "method_definition"@.len());
    assert("abstract_method_signature"@.len() != "method_signature"@.len());
    assert("abstract_method_signature"@.len() != "module"@.len());
    assert("abstract_method_signature"@.len() != "variable_declarator"@.len());
    assert("class"@.len() != "class_declaration"@.len());
    assert("class"@.len() != "function_declaration"@.len());
    assert("class"@.len() != "function_signature"@.len());
    assert("class"@.len() != "interface_declaration"@.len());
    assert("class"@.len() != "method_definition"@.len());
    assert("class"@.len() != "method_signature"@.len());
    assert("class"@.len() != "module"@.len());
    assert("class"@.len() != "variable_declarator"@.len());
    assert("class_declaration"@.len() != "function_declaration"@.len());
    assert("class_declaration"@.len() != "function_signature"@.len());
    assert("class_declaration"@.len() != "interface_declaration"@.len());
    assert("class_declaration"@[0] != "method_definition"@[0]);
    assert("class_declaration"@.len() != "method_signature"@.len());
    assert("class_declaration"@.len() != "module"@.len());
    assert("class_declaration"@.len() != "variable_declarator"@.len());
    assert("function_declaration"@.len() != "function_signature"@.len());
    assert("function_declaration"@.len() != "interface_declaration"@.len());
    assert("function_declaration"@.len() != "method_definition"@.len());
    assert("function_declaration"@.len() != "method_signature"@.len());
    assert("function_declaration"@.len() != "module"@.len());
    assert("function_declaration"@.len() != "variable_declarator"@.len());
    assert("function_signature"@.len() != "interface_declaration"@.len());
    assert("function_signature"@.len() != "method_definition"@.len());
    assert("function_signature"@.len() != "method_signature"@.len());
    assert("function_signature"@.len() != "module"@.len());
    assert("function_signature"@.len() != "variable_declarator"@.len());
    assert("interface_declaration"@.len() != "method_definition"@.len());
    assert("interface_declaration"@.len() != "method_signature"@.len());
    assert("interface_declaration"@.len() != "module"@.len());
    assert("interface_declaration"@.len() != "variable_declarator"@.len());
    assert("method_definition"@.len() != "method_signature"@.len());
    assert("method_definition"@.len() != "module"@.len());
    assert("method_definition"@.len() != "variable_declarator"@.len());
    assert("method_signature"@.len() != "module"@.len());
    assert("method_signature"@.len() != "variable_declarator"@.len());
    assert("module"@.len() != "variable_declarator"@.len());
}

fn is_kind(t: &NodeTable, i: usize, kind: &str) -> (r: bool)
    requires
        i < t.nodes@.len(),
    ensures
        r == kind_is(node_views(t.nodes@), i as int, kind@),
{
    crate::text::same_text(t.nodes[i].kind.as_str(), kind)
}

fn parent_index(t: &NodeTable, i: usize) -> (r: Option<usize>)
    requires
        i < t.nodes@.len(),
    ensures
        r matches Some(p) ==> parent_in(node_views(t.nodes@), i as int) == Some(p as int) && p < t.nodes@.len(),
        r is None ==> parent_in(node_views(t.nodes@), i as int) is None,
{
    match t.nodes[i].parent {
        Some(p) => if p < t.nodes.len() {
            Some(p)
        } else {
            None
        },
        None => None,
    }
}

fn is_python_module_assignment(t: &NodeTable, i: usize) -> (r: bool)
    requires
        table_ok(t),
        i < t.nodes@.len(),
    ensures
        r == python_module_assignment(node_views(t.nodes@), i as int),
{
    let left = match find_field_child(t, i, "left") {
        Some(left) => left,
        None => return false,
    };
    if !is_kind(t, left, "identifier") {
        return false;
    }
    let p = match parent_index(t, i) {
        Some(p) => p,
        None => return false,
    };
    if !is_kind(t, p, "expression_statement") {
        return false;
    }
    match parent_index(t, p) {
        Some(g) => is_kind(t, g, "module"),
        None => false,
    }
}

fn is_js_top_level_binding(t: &NodeTable, i: usize) -> (r: bool)
    requires
        table_ok(t),
        i < t.nodes@.len(),
    ensures
        r == js_top_level_binding(node_views(t.nodes@), i as int),
{
    let name = match find_field_child(t, i, "name") {
        Some(name) => name,
        None => return false,
    };
    if !is_kind(t, name, "identifier") {
        return false;
    }
    let p = match parent_index(t, i) {
        Some(p) => p,
        None => return false,
    };
    if !(is_kind(t, p, "lexical_declaration") || is_kind(t, p, "variable_declaration")) {
        return false;
    }
    match parent_index(t, p) {
        Some(g) => is_kind(t, g, "program") || is_kind(t, g, "export_statement"),
        None => false,
    }
}

fn is_js_function_binding(t: &NodeTable, i: usize) -> (r: bool)
    requires
        table_ok(t),
        i < t.nodes@.len(),
    ensures
        r == js_function_binding(node_views(t.nodes@), i as int),
{
    if !is_js_top_level_binding(t, i) {
        return false;
    }
    match find_field_child(t, i, "value") {
        Some(v) => is_kind(t, v, "arrow_function") || is_kind(t, v, "function_expression")
            || is_kind(t, v, "generator_function"),
        None => false,
    }
}

/// The symbol kind that node `i` declares, if it declares one.
fn symbol_kind_of(language: CodeLanguage, t: &NodeTable, i: usize) -> (r: Option<&'static str>)
    requires
        table_ok(t),
        i < t.nodes@.len(),
    ensures
        r matches Some(k) ==> symbol_kind(language, node_views(t.nodes@), i as int) == Some(k@),
        r is None ==> symbol_kind(language, node_views(t.nodes@), i as int) is None,
{
    match language {
        CodeLanguage::Rust => {
            if is_kind(t, i, "function_item") {
                Some("function")
            } else if is_kind(t, i, "struct_item") {
                Some("struct")
            } else if is_kind(t, i, "enum_item") {
                Some("enum")
            } else if is_kind(t, i, "trait_item") {
                Some("trait")
            } else if is_kind(t, i, "type_item") {
                Some("type")
            } else if is_kind(t, i, "mod_item") {
                Some("module")
            } else if is_kind(t, i, "const_item") || is_kind(t, i, "static_item") {
                Some("constant")
            } else {
                None
            }
        },
        CodeLanguage::Python => {
            if is_kind(t, i, "function_definition") {
                Some("function")
            } else if is_kind(t, i, "class_definition") {
                Some("class")
            } else if is_kind(t, i, "assignment") && is_python_module_assignment(t, i) {
                Some("constant")
            } else {
                None
            }
        },
        _ => {
            if is_kind(t, i, "function_declaration") || is_kind(t, i, "function_signature") {
                Some("function")
            } else if is_kind(t, i, "method_definition") || is_kind(t, i, "method_signature")
                || is_kind(t, i, "abstract_method_signature") {
                Some("method")
            } else if is_kind(t, i, "class_declaration") || is_kind(t, i, "class") || is_kind(
                t,
                i,
                "abstract_class_declaration",
            ) {
                Some("class")
            } else if is_kind(t, i, "interface_declaration") {
                Some("interface")
            } else if is_kind(t, i, "module") {
                Some("module")
            } else if is_kind(t, i, "variable_declarator") && is_js_function_binding(t, i) {
                Some("function")
            } else if is_kind(t, i, "variable_declarator") && is_js_top_level_binding(t, i) {
                Some("constant")
            } else {
                None
            }
        },
    }
}

/// The node that names the symbol declared by node `i`: the assigned target of a Python
/// assignment, else the child under the field `name`.
pub open spec fn symbol_name_node(language: CodeLanguage, nodes: Seq<NodeView>, i: int) -> Option<int> {
    if language == CodeLanguage::Python && nodes[i].kind == "assignment"@ {
        field_child(nodes, i, "left"@)
    } else {
        field_child(nodes, i, "name"@)
    }
}

/// The trimmed text of node `c`, if it has one.
pub open spec fn trimmed_text(nodes: Seq<NodeView>, c: Option<int>) -> Option<Seq<char>> {
    match c {
        Some(c) => match nodes[c].text {
            Some(t) => Some(trim(t)),
            None => None,
        },
        None => None,
    }
}

/// The name that node `j` contributes to the container path of the symbols inside it.
pub open spec fn container_name(language: CodeLanguage, nodes: Seq<NodeView>, j: int) -> Option<Seq<char>> {
    let k = nodes[j].kind;
    match language {
        CodeLanguage::Rust => if k == "mod_item"@ || k == "trait_item"@ || k == "struct_item"@ || k
            == "enum_item"@ || k == "type_item"@ {
            trimmed_text(nodes, field_child(nodes, j, "name"@))
        } else if k == "impl_item"@ {
            trimmed_text(nodes, field_child(nodes, j, "type"@))
        } else {
            None
        },
        CodeLanguage::Python => if k == "class_definition"@ || k == "function_definition"@ {
            trimmed_text(nodes, field_child(nodes, j, "name"@))
        } else {
            None
        },
        _ => if k == "class_declaration"@ || k == "class"@ || k == "abstract_class_declaration"@ || k
            == "interface_declaration"@ || k == "function_declaration"@ || k == "function_signature"@
            || k == "module"@ {
            trimmed_text(nodes, field_child(nodes, j, "name"@))
        } else {
            None
        },
    }
}

/// The container names of `a` and its ancestors, outermost first, following at most `fuel`
/// parent links.
pub open spec fn container_parts(language: CodeLanguage, nodes: Seq<NodeView>, a: Option<int>, fuel: nat) -> Seq<Seq<char>>
    decreases fuel,
{
    match a {
        None => Seq::empty(),
        Some(j) => if fuel == 0 {
            Seq::empty()
        } else {
            container_parts(language, nodes, parent_in(nodes, j), (fuel - 1) as nat) + match container_name(
                language,
                nodes,
                j,
            ) {
                Some(name) => seq![name],
                None => Seq::empty(),
            }
        },
    }
}

/// The container path of node `i`: the names of the enclosing containers joined by `::`.
pub open spec fn container_of(language: CodeLanguage, nodes: Seq<NodeView>, i: int) -> Option<Seq<char>> {
    let parts = container_parts(language, nodes, parent_in(nodes, i), nodes.len());
    if parts.len() == 0 {
        None
    } else {
        Some(join(parts, "::"@))
    }
}

fn node_trimmed_text(t: &NodeTable, c: Option<usize>) -> (r: Option<Vec<char>>)
    requires
        c matches Some(c) ==> c < t.nodes@.len(),
    ensures
        r matches Some(v) ==> trimmed_text(node_views(t.nodes@), match c { Some(c) => Some(c as int), None => None }) == Some(v@),
        r is None ==> trimmed_text(node_views(t.nodes@), match c { Some(c) => Some(c as int), None => None }) is None,
{
    match c {
        Some(c) => match &t.nodes[c].text {
            Some(text) => {
                let v = chars_of(text.as_str());
                Some(trim_chars(v.as_slice()))
            },
            None => None,
        },
        None => None,
    }
}

fn container_name_for_node(language: CodeLanguage, t: &NodeTable, j: usize) -> (r: Option<Vec<char>>)
    requires
        table_ok(t),
        j < t.nodes@.len(),
    ensures
        r matches Some(v) ==> container_name(language, node_views(t.nodes@), j as int) == Some(v@),
        r is None ==> container_name(language, node_views(t.nodes@), j as int) is None,
{
    match language {
        CodeLanguage::Rust => {
            if is_kind(t, j, "mod_item") || is_kind(t, j, "trait_item") || is_kind(t, j, "struct_item")
                || is_kind(t, j, "enum_item") || is_kind(t, j, "type_item") {
                node_trimmed_text(t, find_field_child(t, j, "name"))
            } else if is_kind(t, j, "impl_item") {
                node_trimmed_text(t, find_field_child(t, j, "type"))
            } else {
                None
            }
        },
        CodeLanguage::Python => {
            if is_kind(t, j, "class_definition") || is_kind(t, j, "function_definition") {
                node_trimmed_text(t, find_field_child(t, j, "name"))
            } else {
                None
            }
        },
        _ => {
            if is_kind(t, j, "class_declaration") || is_kind(t, j, "class") || is_kind(
                t,
                j,
                "abstract_class_declaration",
            ) || is_kind(t, j, "interface_declaration") || is_kind(t, j, "function_declaration")
                || is_kind(t, j, "function_signature") || is_kind(t, j, "module") {
                node_trimmed_text(t, find_field_child(t, j, "name"))
            } else {
                None
            }
        },
    }
}

fn container_parts_exec(language: CodeLanguage, t: &NodeTable, a: Option<usize>, fuel: usize) -> (r: Vec<Vec<char>>)
    requires
        table_ok(t),
        a matches Some(j) ==> j < t.nodes@.len(),
    ensures
        views(r@) == container_parts(language, node_views(t.nodes@), match a { Some(j) => Some(j as int), None => None }, fuel as nat),
    decreases fuel,
{
    match a {
        None => Vec::new(),
        Some(j) => {
            if fuel == 0 {
                return Vec::new();
            }
            let mut parts = container_parts_exec(language, t, parent_index(t, j), fuel - 1);
            match container_name_for_node(language, t, j) {
                Some(name) => {
                    let ghost before = views(parts@);
                    let ghost nv = name@;
                    parts.push(name);
                    assert(views(parts@) =~= before + seq![nv]);
                },
                None => {
                    assert(views(parts@) =~= views(parts@) + Seq::<Seq<char>>::empty());
                },
            }
            parts
        },
    }
}

/// The container path of node `i`.
fn container_for_node(language: CodeLanguage, t: &NodeTable, i: usize) -> (r: Option<String>)
    requires
        table_ok(t),
        i < t.nodes@.len(),
    ensures
        crate::text::opt_text(r) == container_of(language, node_views(t.nodes@), i as int),
{
    let parts = container_parts_exec(language, t, parent_index(t, i), t.nodes.len());
    if parts.len() == 0 {
        return None;
    }
    let sep = chars_of("::");
    let joined = join_chars(&parts, sep.as_slice());
    Some(string_of(joined.as_slice()))
}

/// The comment text of a trimmed line, for the comment syntax of `language`, or `None` when
/// the line is not a comment.
pub open spec fn comment_text(language: CodeLanguage, line: Seq<char>) -> Option<Seq<char>> {
    if language == CodeLanguage::Python {
        if starts_with(line, "#"@) {
            Some(trim(line.skip(1)))
        } else {
            None
        }
    } else if starts_with(line, "///"@) {
        Some(trim(line.skip(3)))
    } else if starts_with(line, "//!"@) {
        Some(trim(line.skip(3)))
    } else if starts_with(line, "//"@) {
        Some(trim(line.skip(2)))
    } else if starts_with(line, "/**"@) {
        Some(trim(line.skip(3)))
    } else if starts_with(line, "/*"@) {
        Some(trim(line.skip(2)))
    } else if starts_with(line, "*"@) {
        Some(trim(line.skip(1)))
    } else {
        None
    }
}

fn clean_comment_prefix(language: CodeLanguage, line: &[char]) -> (r: Option<Vec<char>>)
    ensures
        r matches Some(v) ==> comment_text(language, line@) == Some(v@),
        r is None ==> comment_text(language, line@) is None,
{
    proof {
        reveal_strlit("#");
        reveal_strlit("///");
        reveal_strlit("//!");
        reveal_strlit("//");
        reveal_strlit("/**");
        reveal_strlit("/*");
        reveal_strlit("*");
    }
    if language == CodeLanguage::Python {
        let hash = chars_of("#");
        if starts_with_chars(line, hash.as_slice()) {
            let rest = skip_chars(line, 1);
            return Some(trim_chars(rest.as_slice()));
        }
        return None;
    }
    let p0 = chars_of("///");
    if starts_with_chars(line, p0.as_slice()) {
        return Some(trim_chars(skip_chars(line, 3).as_slice()));
    }
    let p1 = chars_of("//!");
    if starts_with_chars(line, p1.as_slice()) {
        return Some(trim_chars(skip_chars(line, 3).as_slice()));
    }
    let p2 = chars_of("//");
    if starts_with_chars(line, p2.as_slice()) {
        return Some(trim_chars(skip_chars(line, 2).as_slice()));
    }
    let p3 = chars_of("/**");
    if starts_with_chars(line, p3.as_slice()) {
        return Some(trim_chars(skip_chars(line, 3).as_slice()));
    }
    let p4 = chars_of("/*");
    if starts_with_chars(line, p4.as_slice()) {
        return Some(trim_chars(skip_chars(line, 2).as_slice()));
    }
    let p5 = chars_of("*");
    if starts_with_chars(line, p5.as_slice()) {
        return Some(trim_chars(skip_chars(line, 1).as_slice()));
    }
    None
}

/// The comment lines right above row `row` (nearest first), skipping blank lines until the
/// first comment and stopping at the next blank line or non-comment line.
pub open spec fn preceding_comments(
    language: CodeLanguage,
    lines: Seq<Seq<char>>,
    row: int,
    started: bool,
) -> Seq<Seq<char>>
    decreases row,
{
    if row <= 0 || row > lines.len() {
        Seq::empty()
    } else {
        let line = trim(lines[row - 1]);
        if line.len() == 0 {
            if started {
                Seq::empty()
            } else {
                preceding_comments(language, lines, row - 1, false)
            }
        } else {
            match comment_text(language, line) {
                Some(c) => seq![c] + preceding_comments(language, lines, row - 1, true),
                None => Seq::empty(),
            }
        }
    }
}

/// The doc comment written above a symbol that starts on row `start_row`.
pub open spec fn doc_above(language: CodeLanguage, body: Seq<char>, start_row: int) -> Seq<char> {
    let lines = lines_of(body);
    if start_row == 0 || start_row > lines.len() {
        Seq::empty()
    } else {
        trim(join(preceding_comments(language, lines, start_row, false).reverse(), "\n"@))
    }
}

fn extract_preceding_doc_text(language: CodeLanguage, body: &str, start_row: usize) -> (r: Vec<char>)
    ensures
        r@ == doc_above(language, body@, start_row as int),
{
    let chars = chars_of(body);
    let lines = split_lines(chars.as_slice());
    let ghost lv = views(lines@);
    if start_row == 0 || start_row > lines.len() {
        return Vec::new();
    }
    let mut out: Vec<Vec<char>> = Vec::new();
    let mut row: usize = start_row;
    let mut started = false;
    assert(views(out@) + preceding_comments(language, lv, row as int, started) =~= preceding_comments(language, lv, start_row as int, false));
    while row > 0
        invariant
            row <= start_row <= lines@.len(),
            lv == views(lines@),
            views(out@) + preceding_comments(language, lv, row as int, started) == preceding_comments(language, lv, start_row as int, false),
        ensures
            views(out@) == preceding_comments(language, lv, start_row as int, false),
        decreases row,
    {
        let line = trim_chars(lines[row - 1].as_slice());
        assert(line@ == trim(lv[row - 1]));
        if line.len() == 0 {
            if started {
                assert(views(out@) =~= views(out@) + Seq::<Seq<char>>::empty());
                break;
            }
            row = row - 1;
            continue;
        }
        match clean_comment_prefix(language, line.as_slice()) {
            Some(c) => {
                let ghost before = views(out@);
                let ghost cv = c@;
                out.push(c);
                assert(views(out@) =~= before.push(cv));
                assert(before + (seq![cv] + preceding_comments(language, lv, row - 1, true)) =~= before.push(cv) + preceding_comments(language, lv, row - 1, true));
                started = true;
                row = row - 1;
            },
            None => {
                assert(views(out@) =~= views(out@) + Seq::<Seq<char>>::empty());
                break;
            },
        }
    }
    let ghost found = views(out@);
    let mut reversed: Vec<Vec<char>> = Vec::new();
    let mut k: usize = out.len();
    while k > 0
        invariant
            k <= out@.len(),
            found == views(out@),
            views(reversed@) == found.reverse().take((found.len() - k) as int),
        decreases k,
    {
        k = k - 1;
        let piece = out[k].clone();
        let ghost before = views(reversed@);
        let ghost pv = piece@;
        assert(pv == found[k as int]);
        reversed.push(piece);
        assert(views(reversed@) =~= before.push(pv));
        assert(views(reversed@) =~= found.reverse().take((found.len() - k) as int));
    }
    assert(found.reverse().take(found.len() as int) =~= found.reverse());
    let sep = chars_of("\n");
    let joined = join_chars(&reversed, sep.as_slice());
    trim_chars(joined.as_slice())
}

/// The number of leading copies of `c` in `s`.
pub open spec fn lead_count(s: Seq<char>, c: char) -> nat
    decreases s.len(),
{
    if s.len() > 0 && s[0] == c {
        1 + lead_count(s.drop_first(), c)
    } else {
        0
    }
}

/// The number of trailing copies of `c` in `s`.
pub open spec fn trail_count(s: Seq<char>, c: char) -> nat
    decreases s.len(),
{
    if s.len() > 0 && s.last() == c {
        1 + trail_count(s.drop_last(), c)
    } else {
        0
    }
}

/// `s` without leading and trailing copies of `c` (`str::trim_matches`).
pub open spec fn strip_char(s: Seq<char>, c: char) -> Seq<char> {
    let a = s.skip(lead_count(s, c) as int);
    a.take(a.len() - trail_count(a, c))
}

proof fn lemma_lead_count_bound(s: Seq<char>, c: char)
    ensures
        lead_count(s, c) <= s.len(),
    decreases s.len(),
{
    if s.len() > 0 && s[0] == c {
        lemma_lead_count_bound(s.drop_first(), c);
    }
}

proof fn lemma_trail_count_bound(s: Seq<char>, c: char)
    ensures
        trail_count(s, c) <= s.len(),
    decreases s.len(),
{
    if s.len() > 0 && s.last() == c {
        lemma_trail_count_bound(s.drop_last(), c);
    }
}

fn strip_char_exec(s: &[char], c: char) -> (r: Vec<char>)
    ensures
        r@ == strip_char(s@, c),
{
    let mut i: usize = 0;
    proof {
        lemma_lead_count_bound(s@, c);
    }
    assert(s@.skip(0) =~= s@);
    while i < s.len() && s[i] == c
        invariant
            i <= s@.len(),
            lead_count(s@, c) == i + lead_count(s@.skip(i as int), c),
        decreases s@.len() - i,
    {
        assert(s@.skip(i as int).drop_first() =~= s@.skip(i + 1));
        i = i + 1;
    }
    assert(lead_count(s@.skip(i as int), c) == 0);
    let a = skip_chars(s, i);
    let mut n: usize = a.len();
    proof {
        lemma_trail_count_bound(a@, c);
    }
    assert(a@.take(n as int) =~= a@);
    while n > 0 && a[n - 1] == c
        invariant
            n <= a@.len(),
            trail_count(a@, c) == (a@.len() - n) + trail_count(a@.take(n as int), c),
        decreases n,
    {
        assert(a@.take(n as int).drop_last() =~= a@.take(n - 1));
        n = n - 1;
    }
    assert(trail_count(a@.take(n as int), c) == 0);
    let mut out: Vec<char> = Vec::new();
    let mut j: usize = 0;
    while j < n
        invariant
            j <= n <= a@.len(),
            out@ == a@.take(j as int),
        decreases n - j,
    {
        out.push(a[j]);
        j = j + 1;
        assert(out@ =~= a@.take(j as int));
    }
    out
}

/// The docstring of a Python definition: the string that opens its body, trimmed and
/// without its quotes.
pub open spec fn python_docstring(nodes: Seq<NodeView>, i: int) -> Option<Seq<char>> {
    match field_child(nodes, i, "body"@) {
        Some(b) => match first_named_child(nodes, b) {
            Some(f) => if kind_is(nodes, f, "expression_statement"@) {
                match first_named_child(nodes, f) {
                    Some(inner) => if kind_is(nodes, inner, "string"@) {
                        match nodes[inner].text {
                            Some(t) => Some(trim(strip_char(strip_char(trim(t), '"'), '\''))),
                            None => None,
                        }
                    } else {
                        None
                    },
                    None => None,
                }
            } else {
                None
            },
            None => None,
        },
        None => None,
    }
}

fn extract_python_docstring(t: &NodeTable, i: usize) -> (r: Option<Vec<char>>)
    requires
        table_ok(t),
        i < t.nodes@.len(),
    ensures
        r matches Some(v) ==> python_docstring(node_views(t.nodes@), i as int) == Some(v@),
        r is None ==> python_docstring(node_views(t.nodes@), i as int) is None,
{
    let b = find_field_child(t, i, "body")?;
    let f = find_first_named_child(t, b)?;
    if !is_kind(t, f, "expression_statement") {
        return None;
    }
    let inner = find_first_named_child(t, f)?;
    if !is_kind(t, inner, "string") {
        return None;
    }
    match &t.nodes[inner].text {
        Some(text) => {
            let v = chars_of(text.as_str());
            let a = trim_chars(v.as_slice());
            let b2 = strip_char_exec(a.as_slice(), '"');
            let c = strip_char_exec(b2.as_slice(), '\'');
            Some(trim_chars(c.as_slice()))
        },
        None => None,
    }
}

/// The doc text of the symbol at node `i`: the comment above it, or for Python the
/// docstring when there is no such comment.
pub open spec fn doc_text(language: CodeLanguage, nodes: Seq<NodeView>, body: Seq<char>, i: int) -> Seq<char> {
    let leading = doc_above(language, body, nodes[i].start_row);
    if leading.len() > 0 {
        leading
    } else if language == CodeLanguage::Python {
        match python_docstring(nodes, i) {
            Some(d) => d,
            None => Seq::empty(),
        }
    } else {
        Seq::empty()
    }
}

fn extract_doc_text(language: CodeLanguage, t: &NodeTable, body: &str, i: usize) -> (r: Vec<char>)
    requires
        table_ok(t),
        i < t.nodes@.len(),
    ensures
        r@ == doc_text(language, node_views(t.nodes@), body@, i as int),
{
    let leading = extract_preceding_doc_text(language, body, t.nodes[i].start_row);
    if leading.len() > 0 {
        return leading;
    }
    if language == CodeLanguage::Python {
        match extract_python_docstring(t, i) {
            Some(d) => d,
            None => Vec::new(),
        }
    } else {
        Vec::new()
    }
}

/// Whether `c` is alphabetic or numeric in Unicode (`char::is_alphanumeric`).
pub uninterp spec fn char_alphanumeric(c: char) -> bool;

/// Whether `c` has the Unicode `Uppercase` property (`char::is_uppercase`).
pub uninterp spec fn char_uppercase(c: char) -> bool;

/// Whether `c` has the Unicode `Lowercase` property (`char::is_lowercase`).
pub uninterp spec fn char_lowercase(c: char) -> bool;

/// `char::is_alphanumeric`: alphabetic or numeric; for an ASCII character that is exactly a
/// digit or a letter.
#[verifier::external_body]
fn alphanumeric(c: char) -> (r: bool)
    ensures
        r == char_alphanumeric(c),
        (c as u32) < 128 ==> (r <==> ('0' <= c && c <= '9') || ('A' <= c && c <= 'Z') || ('a' <= c
            && c <= 'z')),
{
    c.is_alphanumeric()
}

/// `char::is_uppercase`: the Unicode `Uppercase` property; for an ASCII character that is
/// exactly `A`-`Z`.
#[verifier::external_body]
fn uppercase(c: char) -> (r: bool)
    ensures
        r == char_uppercase(c),
        (c as u32) < 128 ==> r == ('A' <= c && c <= 'Z'),
{
    c.is_uppercase()
}

/// `char::is_lowercase`: the Unicode `Lowercase` property; for an ASCII character that is
/// exactly `a`-`z`.
#[verifier::external_body]
fn lowercase_char(c: char) -> (r: bool)
    ensures
        r == char_lowercase(c),
        (c as u32) < 128 ==> r == ('a' <= c && c <= 'z'),
{
    c.is_lowercase()
}

/// `c` with an ASCII upper-case letter mapped to lower case.
pub open spec fn ascii_lower(c: char) -> char {
    if 'A' <= c && c <= 'Z' {
        ((c as u32) + 32) as char
    } else {
        c
    }
}

fn ascii_lower_exec(c: char) -> (r: char)
    ensures
        r == ascii_lower(c),
{
    if 'A' <= c && c <= 'Z' {
        let code = (c as u32 + 32) as u8;
        code as char
    } else {
        c
    }
}

/// Whether `c` is an ASCII digit.
pub open spec fn ascii_digit(c: char) -> bool {
    '0' <= c && c <= '9'
}

/// `parts` with `cur` appended when it is not empty.
pub open spec fn flush(parts: Seq<Seq<char>>, cur: Seq<char>) -> Seq<Seq<char>> {
    if cur.len() == 0 {
        parts
    } else {
        parts.push(cur)
    }
}

/// One step of splitting an identifier into words: a non-alphanumeric character ends the
/// current word; an upper-case letter after a lower-case letter or digit starts a new one;
/// letters are kept in ASCII lower case.
pub open spec fn split_step(st: (Seq<Seq<char>>, Seq<char>, bool), ch: char) -> (Seq<Seq<char>>, Seq<char>, bool) {
    if !char_alphanumeric(ch) {
        (flush(st.0, st.1), Seq::empty(), false)
    } else {
        let parts = if char_uppercase(ch) && st.2 && st.1.len() > 0 {
            flush(st.0, st.1)
        } else {
            st.0
        };
        let cur = if char_uppercase(ch) && st.2 && st.1.len() > 0 {
            Seq::empty()
        } else {
            st.1
        };
        (parts, cur.push(ascii_lower(ch)), char_lowercase(ch) || ascii_digit(ch))
    }
}

/// The splitting state after reading `s`.
pub open spec fn split_scan(s: Seq<char>) -> (Seq<Seq<char>>, Seq<char>, bool)
    decreases s.len(),
{
    if s.len() == 0 {
        (Seq::empty(), Seq::empty(), false)
    } else {
        split_step(split_scan(s.drop_last()), s.last())
    }
}

/// The words of an identifier: `snake_case`, `kebab-case` and `camelCase` pieces.
pub open spec fn identifier_parts(s: Seq<char>) -> Seq<Seq<char>> {
    let st = split_scan(s);
    flush(st.0, st.1)
}

/// `terms` without empty and repeated entries, first appearances kept in order.
pub open spec fn dedupe_nonempty(terms: Seq<Seq<char>>) -> Seq<Seq<char>>
    decreases terms.len(),
{
    if terms.len() == 0 {
        Seq::empty()
    } else {
        let prev = dedupe_nonempty(terms.drop_last());
        if terms.last().len() == 0 || prev.contains(terms.last()) {
            prev
        } else {
            prev.push(terms.last())
        }
    }
}

/// The search terms of one identifier: the whole identifier lower-cased, then its words.
pub open spec fn identifier_terms(text: Seq<char>) -> Seq<Seq<char>> {
    let t = trim(text);
    if t.len() == 0 {
        Seq::empty()
    } else {
        dedupe_nonempty(seq![crate::text::lowercase(t)] + identifier_parts(t))
    }
}

fn contains_chars_vec(v: &Vec<Vec<char>>, x: &Vec<char>) -> (r: bool)
    ensures
        r == views(v@).contains(x@),
{
    let mut i: usize = 0;
    while i < v.len()
        invariant
            i <= v@.len(),
            forall|j: int| 0 <= j < i ==> views(v@)[j] != x@,
        decreases v@.len() - i,
    {
        if crate::text::same_chars(v[i].as_slice(), x.as_slice()) {
            assert(views(v@)[i as int] == x@);
            return true;
        }
        i = i + 1;
    }
    false
}

/// Splits an identifier into its search terms.
pub fn expand_identifier_terms(text: &str) -> (r: Vec<Vec<char>>)
    ensures
        views(r@) == identifier_terms(text@),
{
    let chars = chars_of(text);
    let t = trim_chars(chars.as_slice());
    if t.len() == 0 {
        return Vec::new();
    }
    let whole = crate::text::to_lowercase(string_of(t.as_slice()).as_str());
    let mut parts: Vec<Vec<char>> = Vec::new();
    let mut cur: Vec<char> = Vec::new();
    let mut prev = false;
    let mut i: usize = 0;
    assert(t@.take(0) =~= Seq::<char>::empty());
    while i < t.len()
        invariant
            i <= t@.len(),
            split_scan(t@.take(i as int)) == (views(parts@), cur@, prev),
        decreases t@.len() - i,
    {
        let ch = t[i];
        assert(t@.take(i + 1).drop_last() =~= t@.take(i as int));
        if !alphanumeric(ch) {
            if cur.len() > 0 {
                let ghost before = views(parts@);
                let ghost cv = cur@;
                parts.push(cur);
                assert(views(parts@) =~= before.push(cv));
            }
            cur = Vec::new();
            prev = false;
        } else {
            if uppercase(ch) && prev && cur.len() > 0 {
                let ghost before = views(parts@);
                let ghost cv = cur@;
                parts.push(cur);
                assert(views(parts@) =~= before.push(cv));
                cur = Vec::new();
            }
            cur.push(ascii_lower_exec(ch));
            prev = lowercase_char(ch) || ('0' <= ch && ch <= '9');
        }
        i = i + 1;
    }
    assert(t@.take(t@.len() as int) =~= t@);
    if cur.len() > 0 {
        let ghost before = views(parts@);
        let ghost cv = cur@;
        parts.push(cur);
        assert(views(parts@) =~= before.push(cv));
    }
    let mut all: Vec<Vec<char>> = Vec::new();
    all.push(chars_of(whole.as_str()));
    let mut k: usize = 0;
    let ghost head = views(all@);
    assert(head =~= seq![crate::text::lowercase(t@)]);
    while k < parts.len()
        invariant
            k <= parts@.len(),
            views(all@) == head + views(parts@).take(k as int),
        decreases parts@.len() - k,
    {
        let ghost before = views(all@);
        let piece = parts[k].clone();
        let ghost pv = piece@;
        assert(pv == views(parts@)[k as int]);
        all.push(piece);
        assert(views(all@) =~= before.push(pv));
        assert(head + views(parts@).take(k + 1) =~= (head + views(parts@).take(k as int)).push(pv));
        k = k + 1;
    }
    assert(views(parts@).take(parts@.len() as int) =~= views(parts@));
    let ghost everything = views(all@);
    let mut out: Vec<Vec<char>> = Vec::new();
    let mut j: usize = 0;
    assert(everything.take(0) =~= Seq::<Seq<char>>::empty());
    while j < all.len()
        invariant
            j <= all@.len(),
            everything == views(all@),
            views(out@) == dedupe_nonempty(everything.take(j as int)),
        decreases all@.len() - j,
    {
        assert(everything.take(j + 1).drop_last() =~= everything.take(j as int));
        assert(everything.take(j + 1).last() == everything[j as int]);
        let item = all[j].clone();
        assert(item@ == everything[j as int]);
        if item.len() > 0 && !contains_chars_vec(&out, &item) {
            let ghost before = views(out@);
            let ghost iv = item@;
            out.push(item);
            assert(views(out@) =~= before.push(iv));
        }
        j = j + 1;
    }
    assert(everything.take(everything.len() as int) =~= everything);
    out
}

/// The most identifier terms one symbol chunk collects.
pub const MAX_SYMBOL_TERMS: usize = 64;

/// Whether a node kind is an identifier of some sort.
pub open spec fn identifier_like(kind: Seq<char>) -> bool {
    kind == "identifier"@ || kind == "type_identifier"@ || kind == "field_identifier"@ || kind
        == "property_identifier"@ || kind == "shorthand_property_identifier"@
}

/// The terms that node `j` itself contributes: those of its text, if it is an identifier.
pub open spec fn own_terms(nodes: Seq<NodeView>, j: int) -> Seq<Seq<char>> {
    if identifier_like(nodes[j].kind) {
        match nodes[j].text {
            Some(t) => identifier_terms(t),
            None => Seq::empty(),
        }
    } else {
        Seq::empty()
    }
}

/// `acc` with `t` added, unless it is full or already holds `t`.
pub open spec fn add_term(acc: Seq<Seq<char>>, t: Seq<char>) -> Seq<Seq<char>> {
    if acc.len() >= MAX_SYMBOL_TERMS || acc.contains(t) {
        acc
    } else {
        acc.push(t)
    }
}

/// `acc` with the terms of `ts` added in order.
pub open spec fn add_terms(acc: Seq<Seq<char>>, ts: Seq<Seq<char>>) -> Seq<Seq<char>>
    decreases ts.len(),
{
    if ts.len() == 0 {
        acc
    } else {
        add_term(add_terms(acc, ts.drop_last()), ts.last())
    }
}

/// The terms collected from the subtree of `node` inside the symbol at `root`, after `acc`:
/// a nested symbol's subtree is skipped, and collection stops once it is full.
pub open spec fn dfs_terms(
    language: CodeLanguage,
    nodes: Seq<NodeView>,
    root: int,
    node: int,
    acc: Seq<Seq<char>>,
    fuel: nat,
) -> Seq<Seq<char>>
    decreases fuel, 0nat,
{
    if fuel == 0 {
        acc
    } else if node != root && symbol_kind(language, nodes, node) is Some {
        acc
    } else {
        let acc2 = add_terms(acc, own_terms(nodes, node));
        if acc2.len() >= MAX_SYMBOL_TERMS {
            acc2
        } else {
            kids_terms(language, nodes, root, children_of(nodes, node), 0, acc2, (fuel - 1) as nat)
        }
    }
}

/// The terms collected from the subtrees of `kids[k..]`, after `acc`.
pub open spec fn kids_terms(
    language: CodeLanguage,
    nodes: Seq<NodeView>,
    root: int,
    kids: Seq<int>,
    k: int,
    acc: Seq<Seq<char>>,
    fuel: nat,
) -> Seq<Seq<char>>
    decreases fuel, kids.len() - k + 1,
{
    if k >= kids.len() || k < 0 {
        acc
    } else if acc.len() >= MAX_SYMBOL_TERMS {
        acc
    } else {
        kids_terms(
            language,
            nodes,
            root,
            kids,
            k + 1,
            dfs_terms(language, nodes, root, kids[k], acc, fuel),
            fuel,
        )
    }
}

/// The identifier terms of the symbol at node `i`.
pub open spec fn symbol_terms(language: CodeLanguage, nodes: Seq<NodeView>, i: int) -> Seq<Seq<char>> {
    dfs_terms(language, nodes, i, i, Seq::empty(), nodes.len())
}

fn add_terms_exec(acc: &mut Vec<Vec<char>>, ts: &Vec<Vec<char>>)
    ensures
        views(final(acc)@) == add_terms(views(old(acc)@), views(ts@)),
{
    let ghost start = views(acc@);
    let mut k: usize = 0;
    assert(views(ts@).take(0) =~= Seq::<Seq<char>>::empty());
    while k < ts.len()
        invariant
            k <= ts@.len(),
            views(acc@) == add_terms(start, views(ts@).take(k as int)),
        decreases ts@.len() - k,
    {
        assert(views(ts@).take(k + 1).drop_last() =~= views(ts@).take(k as int));
        assert(views(ts@).take(k + 1).last() == ts@[k as int]@);
        if acc.len() < MAX_SYMBOL_TERMS && !contains_chars_vec(acc, &ts[k]) {
            let ghost before = views(acc@);
            let item = ts[k].clone();
            let ghost iv = item@;
            acc.push(item);
            assert(views(acc@) =~= before.push(iv));
        }
        k = k + 1;
    }
    assert(views(ts@).take(ts@.len() as int) =~= views(ts@));
}

fn is_identifier_like(t: &NodeTable, j: usize) -> (r: bool)
    requires
        j < t.nodes@.len(),
    ensures
        r == identifier_like(node_views(t.nodes@)[j as int].kind),
{
    is_kind(t, j, "identifier") || is_kind(t, j, "type_identifier") || is_kind(t, j, "field_identifier")
        || is_kind(t, j, "property_identifier") || is_kind(t, j, "shorthand_property_identifier")
}

fn collect_identifier_terms(
    language: CodeLanguage,
    t: &NodeTable,
    root: usize,
    node: usize,
    acc: &mut Vec<Vec<char>>,
    fuel: usize,
)
    requires
        table_ok(t),
        node < t.nodes@.len(),
        root < t.nodes@.len(),
    ensures
        views(final(acc)@) == dfs_terms(language, node_views(t.nodes@), root as int, node as int, views(old(acc)@), fuel as nat),
    decreases fuel,
{
    let ghost nv = node_views(t.nodes@);
    if fuel == 0 {
        return;
    }
    if node != root && symbol_kind_of(language, t, node).is_some() {
        return;
    }
    let own: Vec<Vec<char>> = if is_identifier_like(t, node) {
        match &t.nodes[node].text {
            Some(text) => expand_identifier_terms(text.as_str()),
            None => Vec::new(),
        }
    } else {
        Vec::new()
    };
    assert(views(own@) == own_terms(nv, node as int));
    add_terms_exec(acc, &own);
    if acc.len() >= MAX_SYMBOL_TERMS {
        return;
    }
    let kids = &t.children[node];
    let ghost kv = kids@.map_values(|x: usize| x as int);
    assert(kv == children_of(nv, node as int));
    proof {
        lemma_child_list_bound(nv, node as int, nv.len() as int);
    }
    let ghost acc2 = views(acc@);
    let mut k: usize = 0;
    while k < kids.len()
        invariant
            table_ok(t),
            root < t.nodes@.len(),
            fuel > 0,
            nv == node_views(t.nodes@),
            k <= kids@.len(),
            kv == kids@.map_values(|x: usize| x as int),
            forall|z: int| 0 <= z < kv.len() ==> 0 <= #[trigger] kv[z] < nv.len(),
            kids_terms(language, nv, root as int, kv, 0, acc2, (fuel - 1) as nat) == kids_terms(
                language,
                nv,
                root as int,
                kv,
                k as int,
                views(acc@),
                (fuel - 1) as nat,
            ),
        ensures
            views(acc@) == kids_terms(language, nv, root as int, kv, 0, acc2, (fuel - 1) as nat),
        decreases kids@.len() - k,
    {
        if acc.len() >= MAX_SYMBOL_TERMS {
            break;
        }
        let kid = kids[k];
        assert(kv[k as int] == kid as int);
        collect_identifier_terms(language, t, root, kid, acc, fuel - 1);
        k = k + 1;
    }
}

/// The first line of a text, trimmed.
pub open spec fn first_line(text: Seq<char>) -> Seq<char> {
    if lines_of(text).len() > 0 {
        trim(lines_of(text)[0])
    } else {
        Seq::empty()
    }
}

/// The identifier line of a symbol's search text; absent when it has no terms.
pub open spec fn identifier_line(terms: Seq<Seq<char>>) -> Seq<char> {
    if terms.len() == 0 {
        Seq::empty()
    } else {
        "\nidentifiers: "@ + join(terms, " "@)
    }
}

/// The text a symbol chunk is searched by, before normalization.
pub open spec fn search_source(
    name: Seq<char>,
    signature: Seq<char>,
    doc: Seq<char>,
    container: Option<Seq<char>>,
    rel_path: Seq<char>,
    terms: Seq<Seq<char>>,
) -> Seq<char> {
    "name: "@ + name + "\nsignature: "@ + signature + "\ndoc: "@ + doc + "\ncontainer: "@ + match container {
        Some(c) => c,
        None => Seq::empty(),
    } + "\npath: "@ + rel_path + identifier_line(terms)
}

/// The spec-level content of a symbol chunk.
pub struct SymbolChunkView {
    pub line_start: int,
    pub line_end: int,
    pub raw_text: Seq<char>,
    pub normalized_text: Seq<char>,
    pub shared_text: Seq<char>,
    pub symbol_kind: Seq<char>,
    pub container: Option<Seq<char>>,
}

/// The symbol chunk that node `i` yields, if it declares a named symbol whose search text
/// and identifier terms are not empty.
pub open spec fn symbol_chunk_view(
    language: CodeLanguage,
    nodes: Seq<NodeView>,
    body: Seq<char>,
    path: Seq<char>,
    i: int,
) -> Option<SymbolChunkView> {
    match symbol_kind(language, nodes, i) {
        None => None,
        Some(kind) => match trimmed_text(nodes, symbol_name_node(language, nodes, i)) {
            None => None,
            Some(name) => match nodes[i].text {
                None => None,
                Some(full) => {
                    let rel = forward_slashes(path);
                    let container = container_of(language, nodes, i);
                    let terms = symbol_terms(language, nodes, i);
                    let search = normalized_text(
                        search_source(
                            name,
                            first_line(full),
                            doc_text(language, nodes, body, i),
                            container,
                            rel,
                            terms,
                        ),
                    );
                    let shared = normalized_text(join(terms, " "@));
                    if name.len() == 0 || search.len() == 0 || shared.len() == 0 || nodes[i].start_row
                        >= usize::MAX || nodes[i].end_row >= usize::MAX {
                        None
                    } else {
                        Some(
                            SymbolChunkView {
                                line_start: nodes[i].start_row + 1,
                                line_end: nodes[i].end_row + 1,
                                raw_text: kind + " "@ + name + " in "@ + rel,
                                normalized_text: search,
                                shared_text: shared,
                                symbol_kind: kind,
                                container,
                            },
                        )
                    }
                },
            },
        },
    }
}

/// Whether `c` is symbol chunk number `k` with content `v`.
pub open spec fn is_symbol_chunk(c: IndexedChunk, v: SymbolChunkView, language: CodeLanguage, k: int) -> bool {
    &&& c.chunk_index == k
    &&& c.line_start == v.line_start
    &&& c.line_end == v.line_end
    &&& c.raw_text@ == v.raw_text
    &&& c.normalized_text@ == v.normalized_text
    &&& c.shared_normalized_text@ == v.shared_text
    &&& c.shared_normalized_text_hash@ == hash_text(vstd::utf8::encode_utf8(v.shared_text))
    &&& c.chunk_kind@ == "symbol"@
    &&& crate::text::opt_text(c.language) == Some(language_name(language))
    &&& crate::text::opt_text(c.symbol_kind) == Some(v.symbol_kind)
    &&& crate::text::opt_text(c.container) == v.container
}

fn first_line_exec(text: &str) -> (r: Vec<char>)
    ensures
        r@ == first_line(text@),
{
    let chars = chars_of(text);
    let lines = split_lines(chars.as_slice());
    if lines.len() > 0 {
        trim_chars(lines[0].as_slice())
    } else {
        Vec::new()
    }
}

fn symbol_chunk_for_node(
    language: CodeLanguage,
    t: &NodeTable,
    body: &str,
    path: &str,
    i: usize,
    chunk_index: usize,
) -> (r: Option<IndexedChunk>)
    requires
        table_ok(t),
        i < t.nodes@.len(),
    ensures
        r matches Some(c) ==> symbol_chunk_view(language, node_views(t.nodes@), body@, path@, i as int) matches Some(v)
            && is_symbol_chunk(c, v, language, chunk_index as int),
        r is None ==> symbol_chunk_view(language, node_views(t.nodes@), body@, path@, i as int) is None,
{
    let ghost nv = node_views(t.nodes@);
    let kind = symbol_kind_of(language, t, i)?;
    let name_node = if language == CodeLanguage::Python && is_kind(t, i, "assignment") {
        find_field_child(t, i, "left")
    } else {
        find_field_child(t, i, "name")
    };
    proof {
        reveal_strlit("assignment");
    }
    let name = node_trimmed_text(t, name_node)?;
    if name.len() == 0 {
        return None;
    }
    let full = match &t.nodes[i].text {
        Some(full) => full,
        None => return None,
    };
    let signature = first_line_exec(full.as_str());
    let doc = extract_doc_text(language, t, body, i);
    let rel = crate::index::util::to_forward_slashes(path);
    let container = container_for_node(language, t, i);
    let mut terms: Vec<Vec<char>> = Vec::new();
    assert(views(terms@) =~= Seq::<Seq<char>>::empty());
    collect_identifier_terms(language, t, i, i, &mut terms, t.nodes.len());
    assert(views(terms@) == symbol_terms(language, nv, i as int));
    let space = chars_of(" ");
    let joined_terms = join_chars(&terms, space.as_slice());
    let mut source = String::new();
    push_str(&mut source, "name: ");
    push_chars(&mut source, name.as_slice());
    push_str(&mut source, "\nsignature: ");
    push_chars(&mut source, signature.as_slice());
    push_str(&mut source, "\ndoc: ");
    push_chars(&mut source, doc.as_slice());
    push_str(&mut source, "\ncontainer: ");
    match &container {
        Some(c) => push_str(&mut source, c.as_str()),
        None => {},
    }
    push_str(&mut source, "\npath: ");
    push_str(&mut source, rel.as_str());
    if terms.len() > 0 {
        push_str(&mut source, "\nidentifiers: ");
        push_chars(&mut source, joined_terms.as_slice());
    }
    assert(source@ =~= search_source(name@, signature@, doc@, crate::text::opt_text(container), rel@, views(terms@)));
    let search = normalize_query(source.as_str());
    let shared_source = string_of(joined_terms.as_slice());
    let shared = normalize_query(shared_source.as_str());
    if search.as_str().is_empty() || shared.as_str().is_empty() {
        return None;
    }
    let start_row = t.nodes[i].start_row;
    let end_row = t.nodes[i].end_row;
    if start_row == usize::MAX || end_row == usize::MAX {
        return None;
    }
    let mut raw = String::new();
    push_str(&mut raw, kind);
    push_str(&mut raw, " ");
    push_chars(&mut raw, name.as_slice());
    push_str(&mut raw, " in ");
    push_str(&mut raw, rel.as_str());
    let hash = stable_text_hash(shared.as_str());
    Some(IndexedChunk {
        chunk_index,
        line_start: start_row + 1,
        line_end: end_row + 1,
        raw_text: raw,
        normalized_text: search,
        shared_normalized_text: shared,
        shared_normalized_text_hash: hash,
        chunk_kind: "symbol".to_owned(),
        language: Some(language.as_str().to_owned()),
        symbol_kind: Some(kind.to_owned()),
        container,
    })
}

/// The nodes, among the first `n`, that yield a symbol chunk, in order.
pub open spec fn symbol_nodes(
    language: CodeLanguage,
    nodes: Seq<NodeView>,
    body: Seq<char>,
    path: Seq<char>,
    n: int,
) -> Seq<int>
    decreases n,
{
    if n <= 0 {
        Seq::empty()
    } else if symbol_chunk_view(language, nodes, body, path, n - 1) is Some {
        symbol_nodes(language, nodes, body, path, n - 1).push(n - 1)
    } else {
        symbol_nodes(language, nodes, body, path, n - 1)
    }
}

/// Whether `chunks` are exactly the symbol chunks of a tree's nodes, in pre-order, numbered
/// from `first`.
pub open spec fn are_symbol_chunks(
    chunks: Seq<IndexedChunk>,
    language: CodeLanguage,
    nodes: Seq<NodeView>,
    body: Seq<char>,
    path: Seq<char>,
    first: int,
) -> bool {
    let found = symbol_nodes(language, nodes, body, path, nodes.len() as int);
    &&& chunks.len() == found.len()
    &&& forall|k: int|
        0 <= k < chunks.len() ==> is_symbol_chunk(
            #[trigger] chunks[k],
            symbol_chunk_view(language, nodes, body, path, found[k])->Some_0,
            language,
            first + k,
        )
}

/// The symbol chunks of the file at `path`, when its language is supported and its text
/// parses: the language and the syntax-tree nodes they come from.
pub open spec fn symbol_source(path: Seq<char>, body: Seq<char>) -> Option<(CodeLanguage, Seq<NodeView>)> {
    match language_of_path(path) {
        Some(language) => if ts_parses(language_name(language), body) {
            Some((language, tree_nodes((language_name(language), body))))
        } else {
            None
        },
        None => None,
    }
}

/// The number of symbol chunks of the file at `path`.
pub open spec fn symbol_count(path: Seq<char>, body: Seq<char>) -> int {
    match symbol_source(path, body) {
        Some(src) => symbol_nodes(src.0, src.1, body, path, src.1.len() as int).len() as int,
        None => 0,
    }
}

/// Whether `chunks` are the symbol chunks of the file at `path`, numbered from `first`.
pub open spec fn are_file_symbol_chunks(chunks: Seq<IndexedChunk>, path: Seq<char>, body: Seq<char>, first: int) -> bool {
    match symbol_source(path, body) {
        Some(src) => are_symbol_chunks(chunks, src.0, src.1, body, path, first),
        None => chunks.len() == 0,
    }
}

/// Renumbers chunks to start at `first`; `None` when the numbers would not fit.
pub fn renumber_chunks(chunks: Vec<IndexedChunk>, first: usize) -> (r: Option<Vec<IndexedChunk>>)
    ensures
        r is Some <==> first + chunks@.len() <= usize::MAX + 1,
        r matches Some(v) ==> v@.len() == chunks@.len() && forall|k: int|
            0 <= k < v@.len() ==> (#[trigger] v@[k]) == (IndexedChunk { chunk_index: (first + k) as usize, ..chunks@[k] }),
{
    if chunks.len() > 0 && first > usize::MAX - (chunks.len() - 1) {
        return None;
    }
    let ghost original = chunks@;
    let total = chunks.len();
    let mut rest = chunks;
    let mut out: Vec<IndexedChunk> = Vec::new();
    let mut k: usize = 0;
    assert(rest@ =~= original.skip(0));
    while rest.len() > 0
        invariant
            k + rest@.len() == original.len(),
            original.len() == total,
            rest@ == original.skip(k as int),
            out@.len() == k,
            original.len() == 0 || first <= usize::MAX - (original.len() - 1),
            forall|j: int| 0 <= j < k ==> (#[trigger] out@[j]) == (IndexedChunk { chunk_index: (first + j) as usize, ..original[j] }),
        decreases rest@.len(),
    {
        let mut c = rest.remove(0);
        assert(c == original[k as int]);
        assert(rest@ =~= original.skip(k + 1));
        c.chunk_index = first + k;
        out.push(c);
        k = k + 1;
    }
    Some(out)
}

/// Extracts the symbol chunks of a file from its syntax-tree nodes (in pre-order, each with
/// its parent's position), the file's text and its path.
pub fn symbol_chunks_from_nodes(
    language: CodeLanguage,
    nodes: Vec<SyntaxNode>,
    body: &str,
    path: &str,
) -> (r: Vec<IndexedChunk>)
    ensures
        are_symbol_chunks(r@, language, node_views(nodes@), body@, path@, 0),
{
    let children = child_table(&nodes);
    let t = NodeTable { nodes, children };
    let ghost nv = node_views(t.nodes@);
    let mut out: Vec<IndexedChunk> = Vec::new();
    let mut i: usize = 0;
    while i < t.nodes.len()
        invariant
            table_ok(&t),
            nv == node_views(t.nodes@),
            i <= t.nodes@.len(),
            out@.len() == symbol_nodes(language, nv, body@, path@, i as int).len(),
            forall|k: int|
                0 <= k < out@.len() ==> is_symbol_chunk(
                    #[trigger] out@[k],
                    symbol_chunk_view(language, nv, body@, path@, symbol_nodes(language, nv, body@, path@, i as int)[k])->Some_0,
                    language,
                    k,
                ),
        decreases t.nodes@.len() - i,
    {
        let k = out.len();
        match symbol_chunk_for_node(language, &t, body, path, i, k) {
            Some(c) => {
                out.push(c);
            },
            None => {},
        }
        i = i + 1;
    }
    out
}

/// Whether tree-sitter parses a text in a language at all.
pub uninterp spec fn ts_parses(language: Seq<char>, body: Seq<char>) -> bool;

/// Extracts the symbol chunks of the file at `path`: none when its extension names no
/// supported language or the text does not parse, else those of its syntax tree.
pub fn build_symbol_chunks(path: &str, body: &str) -> (r: Vec<IndexedChunk>)
    ensures
        are_file_symbol_chunks(r@, path@, body@, 0),
{
    let language = match CodeLanguage::detect(path) {
        Some(language) => language,
        None => return Vec::new(),
    };
    let tree = match parse_syntax(language, body) {
        Some(tree) => tree,
        None => return Vec::new(),
    };
    let nodes = load_nodes(&tree);
    symbol_chunks_from_nodes(language, nodes, body, path)
}

} // verus!
