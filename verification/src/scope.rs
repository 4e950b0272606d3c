//! Semantic scopes: the definition an annotation is attached to.
use vstd::prelude::*;
use crate::text::{append_chars, chars_eq, chars_of, string_of};
use crate::treesitter::{
    TsLanguage, TsNode, TsTree, c_language, go_language, haskell_language, javascript_language,
    nix_language, node_child, node_child_by_field_name, node_child_count, node_end_byte,
    node_end_row, node_is_named, node_kind, node_same, node_start_byte, node_start_row,
    parser_new, parser_parse, parser_set_language, python_language, rust_language, ts_accepts,
    ts_child_count, ts_end_byte, ts_end_row, ts_has_child, ts_has_field, ts_kind, ts_named, ts_same,
    ts_start_byte, ts_start_row, tree_root, tsx_language, typescript_language,
};
use vstd::string::StringSliceAdditionalSpecFns;
use vstd::utf8::{
    encode_utf8, encode_utf8_valid_utf8, is_char_boundary, is_char_boundary_iff_not_is_continuation_byte,
    is_char_boundary_start_end_of_seq, valid_utf8, valid_utf8_split,
};

verus! {

/// A line range (1-based, inclusive) representing the scope an annotation covers,
/// along with a human-readable label like "fn parse_token" or "class Foo".
#[derive(Debug, Clone, PartialEq, Eq)]
pub struct Scope {
    pub start: usize,
    pub end: usize,
    pub label: Option<String>,
}

/// Abstract scope.
pub struct ScopeView {
    pub start: int,
    pub end: int,
    pub label: Option<Seq<char>>,
}

impl View for Scope {
    type V = ScopeView;

    open spec fn view(&self) -> ScopeView {
        ScopeView {
            start: self.start as int,
            end: self.end as int,
            label: match self.label {
                Some(l) => Some(l@),
                None => None,
            },
        }
    }
}

} // verus!

verus! {

/// A node of a parsed syntax tree, as plain values.
#[derive(Debug, Clone)]
pub struct SyntaxNode {
    /// The grammar's name for the node kind, e.g. `function_item`.
    pub kind: String,
    /// Whether the node is a named node of the grammar.
    pub is_named: bool,
    /// 0-based row where the node starts.
    pub start_row: usize,
    /// 0-based row where the node ends.
    pub end_row: usize,
    /// Index of the parent node, if any.
    pub parent: Option<usize>,
    /// Position of this node among its parent's children.
    pub pos_in_parent: usize,
    /// Indices of the child nodes, in order.
    pub children: Vec<usize>,
    /// Position among the children of the child in the grammar's `name` field.
    pub name_child: Option<usize>,
    /// The node's source text, if it is valid UTF-8.
    pub text: Option<String>,
}

/// A parsed syntax tree: its nodes in pre-order, the root first.
#[derive(Debug, Clone)]
pub struct SyntaxTree {
    pub nodes: Vec<SyntaxNode>,
}

impl SyntaxTree {
    /// Node `i` is consistent with its parent and children.
    pub open spec fn node_wf(&self, i: int) -> bool {
        &&& self.links_wf(i)
        &&& (self.nodes@[i].name_child matches Some(q) ==> q < self.nodes@[i].children@.len())
    }

    /// Node `i` has rows that can be made 1-based and is linked consistently
    /// with its parent and children.
    pub open spec fn links_wf(&self, i: int) -> bool {
        let n = self.nodes@.len();
        let nd = self.nodes@[i];
        &&& nd.start_row < usize::MAX
        &&& nd.end_row < usize::MAX
        &&& (nd.parent matches Some(p) ==> {
            &&& p < i
            &&& nd.pos_in_parent < self.nodes@[p as int].children@.len()
            &&& self.nodes@[p as int].children@[nd.pos_in_parent as int] == i
        })
        &&& forall|k: int| 0 <= k < nd.children@.len() ==> {
            &&& i < #[trigger] nd.children@[k] < n
            &&& self.nodes@[nd.children@[k] as int].parent == Some(i as usize)
            &&& self.nodes@[nd.children@[k] as int].pos_in_parent == k
        }
        &&& forall|k1: int, k2: int| 0 <= k1 < k2 < nd.children@.len() ==> #[trigger] nd.children@[k1] < #[trigger] nd.children@[k2]
    }

    /// The tree is non-empty and every node is consistent.
    pub open spec fn wf(&self) -> bool {
        &&& self.nodes@.len() > 0
        &&& forall|i: int| 0 <= i < self.nodes@.len() ==> #[trigger] self.node_wf(i)
    }

    pub open spec fn kind_of(&self, i: int) -> Seq<char> {
        self.nodes@[i].kind@
    }

    pub open spec fn start_of(&self, i: int) -> int {
        self.nodes@[i].start_row as int
    }

    pub open spec fn end_of(&self, i: int) -> int {
        self.nodes@[i].end_row as int
    }

    pub open spec fn children_of(&self, i: int) -> Seq<usize> {
        self.nodes@[i].children@
    }

    /// The first named child of `p` at position `k` or later.
    pub open spec fn first_named_from(&self, p: int, k: int) -> Option<int>
        decreases self.children_of(p).len() - k,
    {
        if k < 0 || k >= self.children_of(p).len() {
            None
        } else if self.nodes@[self.children_of(p)[k] as int].is_named {
            Some(self.children_of(p)[k] as int)
        } else {
            self.first_named_from(p, k + 1)
        }
    }

    /// The next named sibling of node `i`.
    pub open spec fn next_named_sibling(&self, i: int) -> Option<int> {
        match self.nodes@[i].parent {
            None => None,
            Some(p) => self.first_named_from(p as int, self.nodes@[i].pos_in_parent + 1),
        }
    }

    /// The named children of node `i`, in order.
    pub open spec fn named_children(&self, i: int) -> Seq<usize> {
        self.children_of(i).filter(|c: usize| self.nodes@[c as int].is_named)
    }

    /// Node `i` spans row `row`.
    pub open spec fn contains_row(&self, i: int, row: int) -> bool {
        self.start_of(i) <= row <= self.end_of(i)
    }

    /// The first named child of `i` at position `k` or later that spans `row`.
    pub open spec fn first_child_at_row(&self, i: int, k: int, row: int) -> Option<int>
        decreases self.children_of(i).len() - k,
    {
        if k < 0 || k >= self.children_of(i).len() {
            None
        } else {
            let c = self.children_of(i)[k] as int;
            if self.nodes@[c].is_named && self.contains_row(c, row) {
                Some(c)
            } else {
                self.first_child_at_row(i, k + 1, row)
            }
        }
    }
}

pub proof fn lemma_first_named_from(t: SyntaxTree, p: int, k: int)
    requires
        t.wf(),
        0 <= p < t.nodes@.len(),
    ensures
        t.first_named_from(p, k) matches Some(c) ==> {
            &&& p < c < t.nodes@.len()
            &&& exists|m: int| k <= m < t.children_of(p).len() && t.children_of(p)[m] == c
            &&& t.nodes@[c].is_named
        },
    decreases t.children_of(p).len() - k,
{
    assert(t.node_wf(p));
    if 0 <= k < t.children_of(p).len() {
        if !t.nodes@[t.children_of(p)[k] as int].is_named {
            lemma_first_named_from(t, p, k + 1);
        }
    }
}

pub proof fn lemma_next_named_sibling(t: SyntaxTree, i: int)
    requires
        t.wf(),
        0 <= i < t.nodes@.len(),
    ensures
        t.next_named_sibling(i) matches Some(s) ==> i < s < t.nodes@.len() && t.nodes@[s].is_named,
{
    assert(t.node_wf(i));
    if let Some(p) = t.nodes@[i].parent {
        let pos = t.nodes@[i].pos_in_parent as int;
        lemma_first_named_from(t, p as int, pos + 1);
        assert(t.node_wf(p as int));
        if let Some(s) = t.first_named_from(p as int, pos + 1) {
            let m = choose|m: int| pos + 1 <= m < t.children_of(p as int).len() && t.children_of(p as int)[m] == s;
            assert(t.children_of(p as int)[pos] < t.children_of(p as int)[m]);
        }
    }
}

pub proof fn lemma_first_child_at_row(t: SyntaxTree, i: int, k: int, row: int)
    requires
        t.wf(),
        0 <= i < t.nodes@.len(),
    ensures
        t.first_child_at_row(i, k, row) matches Some(c) ==> i < c < t.nodes@.len(),
    decreases t.children_of(i).len() - k,
{
    assert(t.node_wf(i));
    if 0 <= k < t.children_of(i).len() {
        let c = t.children_of(i)[k] as int;
        if !(t.nodes@[c].is_named && t.contains_row(c, row)) {
            lemma_first_child_at_row(t, i, k + 1, row);
        }
    }
}

/// The smallest named node under `i` (or `i` itself) whose rows span `row`,
/// descending through the first named child that spans it.
pub open spec fn node_at_row(t: SyntaxTree, i: int, row: int) -> Option<int>
    decreases t.nodes@.len() - i,
{
    if !(t.wf() && 0 <= i < t.nodes@.len()) {
        None
    } else {
        match t.first_child_at_row(i, 0, row) {
            Some(c) => {
                proof {
                    lemma_first_child_at_row(t, i, 0, row);
                }
                node_at_row(t, c, row)
            },
            None => if t.contains_row(i, row) {
                Some(i)
            } else {
                None
            },
        }
    }
}

} // verus!

verus! {

/// Whether `k` is the kind of a definition-level construct (function,
/// method, class, struct, impl, module, declaration, ...) in one of the
/// supported grammars.
pub open spec fn is_scope_kind(k: Seq<char>) -> bool {
    ||| k == "function_item"@
    ||| k == "impl_item"@
    ||| k == "struct_item"@
    ||| k == "enum_item"@
    ||| k == "trait_item"@
    ||| k == "mod_item"@
    ||| k == "static_item"@
    ||| k == "const_item"@
    ||| k == "type_item"@
    ||| k == "function_definition"@
    ||| k == "class_definition"@
    ||| k == "function_declaration"@
    ||| k == "method_declaration"@
    ||| k == "type_declaration"@
    ||| k == "class_declaration"@
    ||| k == "method_definition"@
    ||| k == "arrow_function"@
    ||| k == "lexical_declaration"@
    ||| k == "export_statement"@
    ||| k == "struct_specifier"@
    ||| k == "enum_specifier"@
    ||| k == "declaration"@
    ||| k == "function"@
    ||| k == "signature"@
    ||| k == "data_type"@
    ||| k == "newtype"@
    ||| k == "type_alias"@
    ||| k == "class"@
    ||| k == "instance"@
    ||| k == "binding"@
    ||| k == "inherit"@
}

/// Short human-readable prefix for a node kind; empty for other kinds.
pub open spec fn kind_prefix_text(k: Seq<char>) -> Seq<char> {
    if k == "function_item"@ {
        "fn"@
    } else if k == "function_definition"@ {
        "fn"@
    } else if k == "function_declaration"@ {
        "fn"@
    } else if k == "function"@ {
        "fn"@
    } else if k == "method_declaration"@ {
        "method"@
    } else if k == "method_definition"@ {
        "method"@
    } else if k == "impl_item"@ {
        "impl"@
    } else if k == "struct_item"@ {
        "struct"@
    } else if k == "struct_specifier"@ {
        "struct"@
    } else if k == "enum_item"@ {
        "enum"@
    } else if k == "enum_specifier"@ {
        "enum"@
    } else if k == "trait_item"@ {
        "trait"@
    } else if k == "mod_item"@ {
        "mod"@
    } else if k == "static_item"@ {
        "static"@
    } else if k == "const_item"@ {
        "const"@
    } else if k == "type_item"@ {
        "type"@
    } else if k == "type_declaration"@ {
        "type"@
    } else if k == "type_alias"@ {
        "type"@
    } else if k == "class_definition"@ {
        "class"@
    } else if k == "class_declaration"@ {
        "class"@
    } else if k == "class"@ {
        "class"@
    } else if k == "instance"@ {
        "instance"@
    } else if k == "arrow_function"@ {
        "fn"@
    } else if k == "lexical_declaration"@ {
        "let"@
    } else if k == "declaration"@ {
        "let"@
    } else if k == "export_statement"@ {
        "export"@
    } else if k == "signature"@ {
        "sig"@
    } else if k == "data_type"@ {
        "data"@
    } else if k == "newtype"@ {
        "newtype"@
    } else if k == "binding"@ {
        "binding"@
    } else if k == "inherit"@ {
        "inherit"@
    } else {
        ""@
    }
}

/// A node kind gets a label prefix exactly when it is a scope kind: what
/// `kind_prefix` returns is non-empty exactly when `is_scope_node` holds.
pub proof fn law_prefix_iff_scope_kind(k: Seq<char>)
    ensures
        kind_prefix_text(k).len() > 0 <==> is_scope_kind(k),
{
    reveal_strlit("fn");
    reveal_strlit("method");
    reveal_strlit("impl");
    reveal_strlit("struct");
    reveal_strlit("enum");
    reveal_strlit("trait");
    reveal_strlit("mod");
    reveal_strlit("static");
    reveal_strlit("const");
    reveal_strlit("type");
    reveal_strlit("class");
    reveal_strlit("instance");
    reveal_strlit("let");
    reveal_strlit("export");
    reveal_strlit("sig");
    reveal_strlit("data");
    reveal_strlit("newtype");
    reveal_strlit("binding");
    reveal_strlit("inherit");
    reveal_strlit("");
}

/// Whether `k` is the kind of a node holding a name.
pub open spec fn is_name_kind(k: Seq<char>) -> bool {
    k == "name"@ || k == "identifier"@ || k == "variable"@ || k == "type_identifier"@
}

fn eq_lit(k: &Vec<char>, s: &str) -> (r: bool)
    ensures
        r == (k@ == s@),
{
    let l = chars_of(s);
    chars_eq(k, &l)
}

fn is_scope_chars(k: &Vec<char>) -> (r: bool)
    ensures
        r == is_scope_kind(k@),
{
    eq_lit(k, "function_item")
        || eq_lit(k, "impl_item")
        || eq_lit(k, "struct_item")
        || eq_lit(k, "enum_item")
        || eq_lit(k, "trait_item")
        || eq_lit(k, "mod_item")
        || eq_lit(k, "static_item")
        || eq_lit(k, "const_item")
        || eq_lit(k, "type_item")
        || eq_lit(k, "function_definition")
        || eq_lit(k, "class_definition")
        || eq_lit(k, "function_declaration")
        || eq_lit(k, "method_declaration")
        || eq_lit(k, "type_declaration")
        || eq_lit(k, "class_declaration")
        || eq_lit(k, "method_definition")
        || eq_lit(k, "arrow_function")
        || eq_lit(k, "lexical_declaration")
        || eq_lit(k, "export_statement")
        || eq_lit(k, "struct_specifier")
        || eq_lit(k, "enum_specifier")
        || eq_lit(k, "declaration")
        || eq_lit(k, "function")
        || eq_lit(k, "signature")
        || eq_lit(k, "data_type")
        || eq_lit(k, "newtype")
        || eq_lit(k, "type_alias")
        || eq_lit(k, "class")
        || eq_lit(k, "instance")
        || eq_lit(k, "binding")
        || eq_lit(k, "inherit")
}

fn prefix_of_chars(k: &Vec<char>) -> (r: &'static str)
    ensures
        r@ == kind_prefix_text(k@),
{
    if eq_lit(k, "function_item") {
        "fn"
    } else if eq_lit(k, "function_definition") {
        "fn"
    } else if eq_lit(k, "function_declaration") {
        "fn"
    } else if eq_lit(k, "function") {
        "fn"
    } else if eq_lit(k, "method_declaration") {
        "method"
    } else if eq_lit(k, "method_definition") {
        "method"
    } else if eq_lit(k, "impl_item") {
        "impl"
    } else if eq_lit(k, "struct_item") {
        "struct"
    } else if eq_lit(k, "struct_specifier") {
        "struct"
    } else if eq_lit(k, "enum_item") {
        "enum"
    } else if eq_lit(k, "enum_specifier") {
        "enum"
    } else if eq_lit(k, "trait_item") {
        "trait"
    } else if eq_lit(k, "mod_item") {
        "mod"
    } else if eq_lit(k, "static_item") {
        "static"
    } else if eq_lit(k, "const_item") {
        "const"
    } else if eq_lit(k, "type_item") {
        "type"
    } else if eq_lit(k, "type_declaration") {
        "type"
    } else if eq_lit(k, "type_alias") {
        "type"
    } else if eq_lit(k, "class_definition") {
        "class"
    } else if eq_lit(k, "class_declaration") {
        "class"
    } else if eq_lit(k, "class") {
        "class"
    } else if eq_lit(k, "instance") {
        "instance"
    } else if eq_lit(k, "arrow_function") {
        "fn"
    } else if eq_lit(k, "lexical_declaration") {
        "let"
    } else if eq_lit(k, "declaration") {
        "let"
    } else if eq_lit(k, "export_statement") {
        "export"
    } else if eq_lit(k, "signature") {
        "sig"
    } else if eq_lit(k, "data_type") {
        "data"
    } else if eq_lit(k, "newtype") {
        "newtype"
    } else if eq_lit(k, "binding") {
        "binding"
    } else if eq_lit(k, "inherit") {
        "inherit"
    } else {
        ""
    }
}

/// Whether `kind` is the kind of a definition-level node: a function,
/// method, class, struct, impl, module, declaration and the like in one of
/// the supported grammars.
pub fn is_scope_node(kind: &str) -> (r: bool)
    ensures
        r == is_scope_kind(kind@),
{
    is_scope_chars(&chars_of(kind))
}

/// Short human-readable prefix for a node kind, such as `fn` for a Rust
/// `function_item`; empty for a kind that is no scope.
pub fn kind_prefix(kind: &str) -> (r: &'static str)
    ensures
        r@ == kind_prefix_text(kind@),
{
    prefix_of_chars(&chars_of(kind))
}

fn is_name_node(k: &Vec<char>) -> (r: bool)
    ensures
        r == is_name_kind(k@),
{
    eq_lit(k, "name") || eq_lit(k, "identifier") || eq_lit(k, "variable") || eq_lit(k, "type_identifier")
}

} // verus!

verus! {

/// The text of node `c`, if it is valid UTF-8.
pub open spec fn text_of(t: SyntaxTree, c: int) -> Option<Seq<char>> {
    match t.nodes@[c].text {
        Some(s) => Some(s@),
        None => None,
    }
}

/// The first child of `i` at position `k` or later that is a named node of a
/// name kind.
pub open spec fn first_name_child_from(t: SyntaxTree, i: int, k: int) -> Option<int>
    decreases t.children_of(i).len() - k,
{
    if k < 0 || k >= t.children_of(i).len() {
        None
    } else {
        let c = t.children_of(i)[k] as int;
        if t.nodes@[c].is_named && is_name_kind(t.kind_of(c)) {
            Some(c)
        } else {
            first_name_child_from(t, i, k + 1)
        }
    }
}

/// The name of node `i`: the text of its `name` field, else the text of its
/// first named child of a name kind.
pub open spec fn name_text(t: SyntaxTree, i: int) -> Option<Seq<char>> {
    match t.nodes@[i].name_child {
        Some(q) => text_of(t, t.children_of(i)[q as int] as int),
        None => match first_name_child_from(t, i, 0) {
            Some(c) => text_of(t, c),
            None => None,
        },
    }
}

/// A label like `fn parse_token`, or just the prefix when the node has no
/// name; none for kinds without a prefix.
pub open spec fn node_label(t: SyntaxTree, i: int) -> Option<Seq<char>> {
    let prefix = kind_prefix_text(t.kind_of(i));
    if prefix.len() == 0 {
        None
    } else {
        match name_text(t, i) {
            Some(name) => Some(prefix.push(' ') + name),
            None => Some(prefix),
        }
    }
}

/// The 1-based rows of node `i`, with its label.
pub open spec fn node_scope(t: SyntaxTree, i: int) -> ScopeView {
    ScopeView { start: t.start_of(i) + 1, end: t.end_of(i) + 1, label: node_label(t, i) }
}

/// The 1-based end row after extending node `s` through the following named
/// siblings that are scope nodes starting at most one row after the previous.
pub open spec fn extend_end(t: SyntaxTree, s: int) -> int
    decreases t.nodes@.len() - s,
{
    if !(t.wf() && 0 <= s < t.nodes@.len()) {
        t.end_of(s) + 1
    } else {
        match t.next_named_sibling(s) {
            Some(n) => {
                proof {
                    lemma_next_named_sibling(t, s);
                }
                if t.start_of(n) <= t.end_of(s) + 1 && is_scope_kind(t.kind_of(n)) {
                    extend_end(t, n)
                } else {
                    t.end_of(s) + 1
                }
            },
            None => t.end_of(s) + 1,
        }
    }
}

/// The scope of node `n` extended through its consecutive scope siblings,
/// labelled after `n`.
pub open spec fn extended_scope(t: SyntaxTree, n: int) -> ScopeView {
    ScopeView { start: t.start_of(n) + 1, end: extend_end(t, n), label: node_label(t, n) }
}

/// The first child of `n` at position `k` or later that is a named scope node.
pub open spec fn first_scope_child_from(t: SyntaxTree, n: int, k: int) -> Option<int>
    decreases t.children_of(n).len() - k,
{
    if k < 0 || k >= t.children_of(n).len() {
        None
    } else {
        let c = t.children_of(n)[k] as int;
        if t.nodes@[c].is_named && is_scope_kind(t.kind_of(c)) {
            Some(c)
        } else {
            first_scope_child_from(t, n, k + 1)
        }
    }
}

/// The scope found among the named children of `n`, if any.
pub open spec fn scope_in_children(t: SyntaxTree, n: int) -> Option<ScopeView> {
    match first_scope_child_from(t, n, 0) {
        Some(c) => Some(extended_scope(t, c)),
        None => None,
    }
}

/// The scope found among the named siblings following `s`: the first that is
/// a scope node, or that has one among its named children; the scan stops
/// after a sibling starting more than five rows below `row`.
pub open spec fn scan_siblings(t: SyntaxTree, s: int, row: int) -> Option<ScopeView>
    decreases t.nodes@.len() - s,
{
    if !(t.wf() && 0 <= s < t.nodes@.len()) {
        None
    } else {
        match t.next_named_sibling(s) {
            None => None,
            Some(n) => {
                proof {
                    lemma_next_named_sibling(t, s);
                }
                if is_scope_kind(t.kind_of(n)) {
                    Some(extended_scope(t, n))
                } else {
                    match scope_in_children(t, n) {
                        Some(sc) => Some(sc),
                        None => if t.start_of(n) > row + 5 {
                            None
                        } else {
                            scan_siblings(t, n, row)
                        },
                    }
                }
            },
        }
    }
}

/// Scans the siblings after `c`, then moves to the parent: a parent that is a
/// scope node is the scope; otherwise the search continues from it.
pub open spec fn walk_up(t: SyntaxTree, c: int, row: int) -> Option<ScopeView>
    decreases c,
{
    if !(t.wf() && 0 <= c < t.nodes@.len()) {
        None
    } else {
        match scan_siblings(t, c, row) {
            Some(sc) => Some(sc),
            None => match t.nodes@[c].parent {
                None => None,
                Some(p) => {
                    proof {
                        assert(t.node_wf(c));
                    }
                    if is_scope_kind(t.kind_of(p as int)) {
                        Some(node_scope(t, p as int))
                    } else {
                        walk_up(t, p as int, row)
                    }
                },
            },
        }
    }
}

/// The scope of a comment on 1-based line `comment_line`: starting from the
/// smallest named node spanning that line, the first scope node that follows
/// it (or its ancestors), or the nearest enclosing scope node.
pub open spec fn spec_find_scope(t: SyntaxTree, comment_line: int) -> Option<ScopeView> {
    let row = if comment_line >= 1 { comment_line - 1 } else { 0 };
    match node_at_row(t, 0, row) {
        None => None,
        Some(n) => walk_up(t, n, row),
    }
}


/// Node `s` is a named sibling after `c` that the search for a following
/// scope reaches from `c`: every named sibling between them starts at most
/// five rows below `row`.
pub open spec fn reached_sibling(t: SyntaxTree, c: int, row: int, s: int) -> bool
    decreases t.nodes@.len() - c,
{
    if !(t.wf() && 0 <= c < t.nodes@.len()) {
        false
    } else {
        match t.next_named_sibling(c) {
            None => false,
            Some(n) => {
                proof {
                    lemma_next_named_sibling(t, c);
                }
                n == s || (t.start_of(n) <= row + 5 && reached_sibling(t, n, row, s))
            },
        }
    }
}

/// Node `s` is of a scope kind, or one of its named children is.
pub open spec fn is_or_holds_scope(t: SyntaxTree, s: int) -> bool {
    ||| is_scope_kind(t.kind_of(s))
    ||| exists|k: int| 0 <= k < t.children_of(s).len()
        && t.nodes@[t.children_of(s)[k] as int].is_named && #[trigger] is_scope_kind(t.kind_of(t.children_of(s)[k] as int))
}

/// No sibling that the search reaches after `c` is or holds a scope.
pub open spec fn quiet_after(t: SyntaxTree, c: int, row: int) -> bool {
    forall|s: int| #[trigger] reached_sibling(t, c, row, s) ==> !is_or_holds_scope(t, s)
}

/// The nearest proper ancestor of `c` that is of a scope kind.
pub open spec fn enclosing_scope(t: SyntaxTree, c: int) -> Option<int>
    decreases c,
{
    if !(t.wf() && 0 <= c < t.nodes@.len()) {
        None
    } else {
        match t.nodes@[c].parent {
            None => None,
            Some(p) => {
                proof {
                    assert(t.node_wf(c));
                }
                if is_scope_kind(t.kind_of(p as int)) {
                    Some(p as int)
                } else {
                    enclosing_scope(t, p as int)
                }
            },
        }
    }
}

/// No sibling reached after `c`, nor after any ancestor of `c` below its
/// enclosing scope, is or holds a scope.
pub open spec fn quiet_up(t: SyntaxTree, c: int, row: int) -> bool
    decreases c,
{
    if !(t.wf() && 0 <= c < t.nodes@.len()) {
        true
    } else {
        &&& quiet_after(t, c, row)
        &&& match t.nodes@[c].parent {
            None => true,
            Some(p) => {
                proof {
                    assert(t.node_wf(c));
                }
                is_scope_kind(t.kind_of(p as int)) || quiet_up(t, p as int, row)
            },
        }
    }
}

/// Every node's rows lie within its parent's, as in any parsed tree.
pub open spec fn rows_nest(t: SyntaxTree) -> bool {
    forall|i: int, k: int| 0 <= i < t.nodes@.len() && 0 <= k < t.children_of(i).len() ==> {
        &&& t.start_of(i) <= t.start_of(#[trigger] t.children_of(i)[k] as int)
        &&& t.end_of(t.children_of(i)[k] as int) <= t.end_of(i)
    }
}

proof fn lemma_first_scope_child_held(t: SyntaxTree, n: int, k: int)
    requires
        t.wf(),
        0 <= n < t.nodes@.len(),
        0 <= k,
        !is_or_holds_scope(t, n),
    ensures
        first_scope_child_from(t, n, k) is None,
    decreases t.children_of(n).len() - k,
{
    if k < t.children_of(n).len() {
        let c = t.children_of(n)[k] as int;
        if t.nodes@[c].is_named && is_scope_kind(t.kind_of(c)) {
            assert(is_scope_kind(t.kind_of(t.children_of(n)[k] as int)));
        }
        lemma_first_scope_child_held(t, n, k + 1);
    }
}

proof fn lemma_scan_quiet(t: SyntaxTree, c: int, row: int)
    requires
        quiet_after(t, c, row),
    ensures
        scan_siblings(t, c, row) is None,
    decreases t.nodes@.len() - c,
{
    if t.wf() && 0 <= c < t.nodes@.len() {
        if let Some(n) = t.next_named_sibling(c) {
            lemma_next_named_sibling(t, c);
            assert(reached_sibling(t, c, row, n));
            assert(!is_or_holds_scope(t, n));
            lemma_first_scope_child_held(t, n, 0);
            if t.start_of(n) <= row + 5 {
                assert forall|s: int| #[trigger] reached_sibling(t, n, row, s) implies !is_or_holds_scope(t, s) by {
                    assert(reached_sibling(t, c, row, s));
                }
                lemma_scan_quiet(t, n, row);
            }
        }
    }
}

proof fn lemma_walk_quiet(t: SyntaxTree, c: int, row: int)
    requires
        t.wf(),
        0 <= c < t.nodes@.len(),
        quiet_up(t, c, row),
    ensures
        walk_up(t, c, row) == (match enclosing_scope(t, c) {
            Some(p) => Some(node_scope(t, p)),
            None => None,
        }),
    decreases c,
{
    lemma_scan_quiet(t, c, row);
    assert(t.node_wf(c));
    if let Some(p) = t.nodes@[c].parent {
        if !is_scope_kind(t.kind_of(p as int)) {
            lemma_walk_quiet(t, p as int, row);
        }
    }
}

proof fn lemma_node_at_row_contains(t: SyntaxTree, i: int, row: int)
    ensures
        node_at_row(t, i, row) matches Some(n) ==> 0 <= n < t.nodes@.len() && t.contains_row(n, row),
    decreases t.nodes@.len() - i,
{
    if t.wf() && 0 <= i < t.nodes@.len() {
        if let Some(c) = t.first_child_at_row(i, 0, row) {
            lemma_first_child_at_row(t, i, 0, row);
            lemma_node_at_row_contains(t, c, row);
        }
    }
}

proof fn lemma_enclosing_contains(t: SyntaxTree, c: int)
    requires
        t.wf(),
        rows_nest(t),
        0 <= c < t.nodes@.len(),
    ensures
        enclosing_scope(t, c) matches Some(p) ==> 0 <= p < t.nodes@.len() && t.start_of(p) <= t.start_of(c) && t.end_of(c) <= t.end_of(p),
    decreases c,
{
    assert(t.node_wf(c));
    if let Some(p) = t.nodes@[c].parent {
        let k = t.nodes@[c].pos_in_parent as int;
        assert(t.children_of(p as int)[k] == c);
        assert(t.start_of(p as int) <= t.start_of(t.children_of(p as int)[k] as int));
        if !is_scope_kind(t.kind_of(p as int)) {
            lemma_enclosing_contains(t, p as int);
        }
    }
}

/// When no sibling the search reaches after the comment's node, nor after
/// one of its ancestors on the way up, is or directly holds a scope node,
/// the scope is that of the nearest enclosing scope node, and its lines
/// hold the comment's line. (A sibling starting more than five rows below
/// the comment is still looked at; the search stops after it.)
pub proof fn law_scope_falls_back_to_enclosing(t: SyntaxTree, comment_line: int)
    requires
        t.wf(),
        rows_nest(t),
        comment_line >= 1,
        node_at_row(t, 0, comment_line - 1) is Some,
        quiet_up(t, node_at_row(t, 0, comment_line - 1)->0, comment_line - 1),
    ensures
        spec_find_scope(t, comment_line) == (match enclosing_scope(t, node_at_row(t, 0, comment_line - 1)->0) {
            Some(p) => Some(node_scope(t, p)),
            None => None,
        }),
        enclosing_scope(t, node_at_row(t, 0, comment_line - 1)->0) matches Some(p)
            ==> node_scope(t, p).start <= comment_line <= node_scope(t, p).end,
{
    let row = comment_line - 1;
    let n = node_at_row(t, 0, row)->0;
    lemma_node_at_row_contains(t, 0, row);
    lemma_walk_quiet(t, n, row);
    lemma_enclosing_contains(t, n);
}

/// Node `s` is a named sibling after `c` that the search reaches before any
/// sibling that is or holds a scope: every named sibling between them
/// neither is nor holds one, and starts at most five rows below `row`.
pub open spec fn first_reached(t: SyntaxTree, c: int, row: int, s: int) -> bool
    decreases t.nodes@.len() - c,
{
    if !(t.wf() && 0 <= c < t.nodes@.len()) {
        false
    } else {
        match t.next_named_sibling(c) {
            None => false,
            Some(n) => {
                proof {
                    lemma_next_named_sibling(t, c);
                }
                n == s || (!is_or_holds_scope(t, n) && t.start_of(n) <= row + 5 && first_reached(t, n, row, s))
            },
        }
    }
}

proof fn lemma_scan_first_reached(t: SyntaxTree, c: int, row: int, s: int)
    requires
        first_reached(t, c, row, s),
        is_scope_kind(t.kind_of(s)),
    ensures
        scan_siblings(t, c, row) == Some(extended_scope(t, s)),
    decreases t.nodes@.len() - c,
{
    let n = t.next_named_sibling(c)->0;
    lemma_next_named_sibling(t, c);
    if n != s {
        lemma_first_scope_child_held(t, n, 0);
        lemma_scan_first_reached(t, n, row, s);
    }
}

/// When the search from the comment's node reaches a named sibling of a
/// scope kind before any other sibling that is or holds a scope, that
/// sibling, extended through its consecutive scope siblings, is the scope,
/// however far below the comment it starts.
pub proof fn law_scope_is_following_sibling(t: SyntaxTree, comment_line: int, s: int)
    requires
        comment_line >= 1,
        node_at_row(t, 0, comment_line - 1) is Some,
        first_reached(t, node_at_row(t, 0, comment_line - 1)->0, comment_line - 1, s),
        is_scope_kind(t.kind_of(s)),
    ensures
        spec_find_scope(t, comment_line) == Some(extended_scope(t, s)),
{
    let row = comment_line - 1;
    let n = node_at_row(t, 0, row)->0;
    lemma_scan_first_reached(t, n, row, s);
}

/// `s` is the scope of a definition: it starts on the first line of a node
/// of a scope kind and carries that node's label.
pub open spec fn is_definition_scope(t: SyntaxTree, s: ScopeView) -> bool {
    exists|n: int|
        0 <= n < t.nodes@.len() && is_scope_kind(t.kind_of(n)) && s.start == t.start_of(n) + 1 && #[trigger] node_label(t, n) == s.label
}

/// An annotation's scope is always that of a definition (a function, a
/// class, an impl, a binding, ...): it starts where such a node starts and
/// is labelled after it.
pub proof fn law_scope_is_definition(t: SyntaxTree, comment_line: int)
    requires
        t.wf(),
    ensures
        spec_find_scope(t, comment_line) matches Some(s) ==> is_definition_scope(t, s),
{
    let row = if comment_line >= 1 { comment_line - 1 } else { 0 };
    if let Some(n) = node_at_row(t, 0, row) {
        lemma_walk_up_definition(t, n, row);
    }
}

proof fn lemma_first_scope_child_definition(t: SyntaxTree, n: int, k: int)
    requires
        t.wf(),
        0 <= n < t.nodes@.len(),
    ensures
        first_scope_child_from(t, n, k) matches Some(c) ==> 0 <= c < t.nodes@.len() && is_scope_kind(t.kind_of(c)),
    decreases t.children_of(n).len() - k,
{
    if 0 <= k < t.children_of(n).len() {
        assert(t.node_wf(n));
        let c = t.children_of(n)[k] as int;
        assert(n < c < t.nodes@.len());
        if !(t.nodes@[c].is_named && is_scope_kind(t.kind_of(c))) {
            lemma_first_scope_child_definition(t, n, k + 1);
        }
    }
}

proof fn lemma_scan_siblings_definition(t: SyntaxTree, s: int, row: int)
    ensures
        scan_siblings(t, s, row) matches Some(sc) ==> is_definition_scope(t, sc),
    decreases t.nodes@.len() - s,
{
    if t.wf() && 0 <= s < t.nodes@.len() {
        if let Some(n) = t.next_named_sibling(s) {
            lemma_next_named_sibling(t, s);
            if is_scope_kind(t.kind_of(n)) {
                assert(node_label(t, n) == extended_scope(t, n).label);
            } else {
                lemma_first_scope_child_definition(t, n, 0);
                match first_scope_child_from(t, n, 0) {
                    Some(c) => {
                        assert(node_label(t, c) == extended_scope(t, c).label);
                    },
                    None => {
                        lemma_scan_siblings_definition(t, n, row);
                    },
                }
            }
        }
    }
}

proof fn lemma_walk_up_definition(t: SyntaxTree, c: int, row: int)
    ensures
        walk_up(t, c, row) matches Some(sc) ==> is_definition_scope(t, sc),
    decreases c,
{
    if t.wf() && 0 <= c < t.nodes@.len() {
        lemma_scan_siblings_definition(t, c, row);
        if scan_siblings(t, c, row) is None {
            if let Some(p) = t.nodes@[c].parent {
                assert(t.node_wf(c));
                if is_scope_kind(t.kind_of(p as int)) {
                    assert(node_label(t, p as int) == node_scope(t, p as int).label);
                } else {
                    lemma_walk_up_definition(t, p as int, row);
                }
            }
        }
    }
}

} // verus!

verus! {

fn next_named_sibling(t: &SyntaxTree, i: usize) -> (r: Option<usize>)
    requires
        t.wf(),
        i < t.nodes@.len(),
    ensures
        r matches Some(x) ==> t.next_named_sibling(i as int) == Some(x as int) && i < x < t.nodes@.len(),
        r is None ==> t.next_named_sibling(i as int) is None,
{
    proof {
        lemma_next_named_sibling(*t, i as int);
        assert(t.node_wf(i as int));
    }
    match t.nodes[i].parent {
        None => None,
        Some(p) => {
            let ghost tv = *t;
            proof {
                assert(t.node_wf(p as int));
            }
            let children = &t.nodes[p].children;
            let plen = children.len();
            let pos = t.nodes[i].pos_in_parent;
            assert(pos < plen);
            let mut k = pos + 1;
            while k < children.len()
                invariant
                    tv == *t,
                    t.wf(),
                    i < t.nodes@.len(),
                    p < t.nodes@.len(),
                    children@ == t.children_of(p as int),
                    t.next_named_sibling(i as int) == t.first_named_from(p as int, k as int),
                    t.next_named_sibling(i as int) matches Some(s) ==> i < s < t.nodes@.len(),
                decreases children.len() - k,
            {
                let c = children[k];
                proof {
                    assert(t.node_wf(p as int));
                }
                if t.nodes[c].is_named {
                    return Some(c);
                }
                k = k + 1;
            }
            None
        },
    }
}

fn find_named_node_at_line(t: &SyntaxTree, i: usize, row: usize) -> (r: Option<usize>)
    requires
        t.wf(),
        i < t.nodes@.len(),
    ensures
        r matches Some(x) ==> node_at_row(*t, i as int, row as int) == Some(x as int) && x < t.nodes@.len(),
        r is None ==> node_at_row(*t, i as int, row as int) is None,
    decreases t.nodes@.len() - i,
{
    proof {
        assert(t.node_wf(i as int));
    }
    let children = &t.nodes[i].children;
    let mut k: usize = 0;
    while k < children.len()
        invariant
            t.wf(),
            i < t.nodes@.len(),
            children@ == t.children_of(i as int),
            t.first_child_at_row(i as int, 0, row as int) == t.first_child_at_row(i as int, k as int, row as int),
        decreases children.len() - k,
    {
        let c = children[k];
        proof {
            assert(t.node_wf(i as int));
        }
        let child = &t.nodes[c];
        if child.is_named && child.start_row <= row && row <= child.end_row {
            return find_named_node_at_line(t, c, row);
        }
        k = k + 1;
    }
    let node = &t.nodes[i];
    if node.start_row <= row && row <= node.end_row {
        Some(i)
    } else {
        None
    }
}

fn copy_text(s: &Option<String>) -> (r: Option<Vec<char>>)
    ensures
        match s {
            Some(x) => r matches Some(y) && y@ == x@,
            None => r is None,
        },
{
    match s {
        Some(x) => Some(chars_of(x.as_str())),
        None => None,
    }
}

/// Find the name/identifier child of a node.
fn find_name_child(t: &SyntaxTree, i: usize) -> (r: Option<Vec<char>>)
    requires
        t.wf(),
        i < t.nodes@.len(),
    ensures
        match name_text(*t, i as int) {
            Some(n) => r matches Some(rn) && rn@ == n,
            None => r is None,
        },
{
    proof {
        assert(t.node_wf(i as int));
    }
    let node = &t.nodes[i];
    if let Some(q) = node.name_child {
        let c = node.children[q];
        return copy_text(&t.nodes[c].text);
    }
    let children = &node.children;
    let mut k: usize = 0;
    while k < children.len()
        invariant
            t.wf(),
            i < t.nodes@.len(),
            t.nodes@[i as int].name_child is None,
            children@ == t.children_of(i as int),
            first_name_child_from(*t, i as int, 0) == first_name_child_from(*t, i as int, k as int),
        decreases children.len() - k,
    {
        let c = children[k];
        proof {
            assert(t.node_wf(i as int));
        }
        let kind = chars_of(t.nodes[c].kind.as_str());
        if t.nodes[c].is_named && is_name_node(&kind) {
            return copy_text(&t.nodes[c].text);
        }
        k = k + 1;
    }
    None
}

/// Extract a human-readable label like "fn parse_token" from a scope node.
fn node_label_exec(t: &SyntaxTree, i: usize) -> (r: Option<String>)
    requires
        t.wf(),
        i < t.nodes@.len(),
    ensures
        match node_label(*t, i as int) {
            Some(l) => r matches Some(rl) && rl@ == l,
            None => r is None,
        },
{
    let kind = chars_of(t.nodes[i].kind.as_str());
    let prefix = prefix_of_chars(&kind);
    let p = chars_of(prefix);
    if p.len() == 0 {
        return None;
    }
    match find_name_child(t, i) {
        Some(name) => {
            let mut out = p;
            out.push(' ');
            append_chars(&mut out, &name);
            Some(string_of(&out))
        },
        None => Some(string_of(&p)),
    }
}

fn node_to_scope(t: &SyntaxTree, i: usize) -> (r: Scope)
    requires
        t.wf(),
        i < t.nodes@.len(),
    ensures
        r@ == node_scope(*t, i as int),
{
    proof {
        assert(t.node_wf(i as int));
    }
    let label = node_label_exec(t, i);
    Scope { start: t.nodes[i].start_row + 1, end: t.nodes[i].end_row + 1, label }
}

/// Extend a scope node forward through consecutive scope-node siblings.
/// This handles cases like Haskell's signature + function body being separate nodes.
fn extend_scope(t: &SyntaxTree, n: usize) -> (r: Scope)
    requires
        t.wf(),
        n < t.nodes@.len(),
    ensures
        r@ == extended_scope(*t, n as int),
{
    proof {
        assert(t.node_wf(n as int));
    }
    let start = t.nodes[n].start_row + 1;
    let mut sib = n;
    loop
        invariant
            t.wf(),
            sib < t.nodes@.len(),
            extend_end(*t, n as int) == extend_end(*t, sib as int),
        ensures
            sib < t.nodes@.len(),
            extend_end(*t, n as int) == t.end_of(sib as int) + 1,
        decreases t.nodes@.len() - sib,
    {
        proof {
            assert(t.node_wf(sib as int));
        }
        match next_named_sibling(t, sib) {
            Some(next) => {
                proof {
                    assert(t.node_wf(next as int));
                    assert(t.next_named_sibling(sib as int) == Some(next as int));
                }
                let kind = chars_of(t.nodes[next].kind.as_str());
                assert(kind@ == t.kind_of(next as int));
                if t.nodes[next].start_row <= t.nodes[sib].end_row + 1 && is_scope_chars(&kind) {
                    assert(extend_end(*t, sib as int) == extend_end(*t, next as int));
                    sib = next;
                } else {
                    assert(extend_end(*t, sib as int) == t.end_of(sib as int) + 1);
                    break;
                }
            },
            None => {
                break;
            },
        }
    }
    proof {
        assert(t.node_wf(sib as int));
    }
    let label = node_label_exec(t, n);
    Scope { start, end: t.nodes[sib].end_row + 1, label }
}

fn find_scope_in_children(t: &SyntaxTree, n: usize) -> (r: Option<Scope>)
    requires
        t.wf(),
        n < t.nodes@.len(),
    ensures
        match scope_in_children(*t, n as int) {
            Some(sc) => r matches Some(rs) && rs@ == sc,
            None => r is None,
        },
{
    proof {
        assert(t.node_wf(n as int));
    }
    let children = &t.nodes[n].children;
    let mut k: usize = 0;
    while k < children.len()
        invariant
            t.wf(),
            n < t.nodes@.len(),
            children@ == t.children_of(n as int),
            first_scope_child_from(*t, n as int, 0) == first_scope_child_from(*t, n as int, k as int),
        decreases children.len() - k,
    {
        let c = children[k];
        proof {
            assert(t.node_wf(n as int));
        }
        let kind = chars_of(t.nodes[c].kind.as_str());
        if t.nodes[c].is_named && is_scope_chars(&kind) {
            return Some(extend_scope(t, c));
        }
        k = k + 1;
    }
    None
}

/// Find the scope for a comment at the given line (1-based).
///
/// Strategy:
/// 1. Find the smallest named node that contains the comment's line
/// 2. Look at next siblings for a scope node (the annotation precedes what it's about)
/// 3. Walk up ancestors to find an enclosing scope node
///
/// Returns the scope node's line range, or None if no scope node is found.
pub fn find_scope(tree: &SyntaxTree, comment_line: usize) -> (r: Option<Scope>)
    requires
        tree.wf(),
        comment_line <= usize::MAX - 5,
    ensures
        match spec_find_scope(*tree, comment_line as int) {
            Some(sc) => r matches Some(rs) && rs@ == sc,
            None => r is None,
        },
{
    let row = if comment_line >= 1 { comment_line - 1 } else { 0 };
    let node = match find_named_node_at_line(tree, 0, row) {
        Some(n) => n,
        None => return None,
    };
    let mut cursor = node;
    loop
        invariant
            tree.wf(),
            cursor < tree.nodes@.len(),
            row + 5 <= usize::MAX,
            spec_find_scope(*tree, comment_line as int) == walk_up(*tree, node as int, row as int),
            walk_up(*tree, node as int, row as int) == walk_up(*tree, cursor as int, row as int),
        ensures
            spec_find_scope(*tree, comment_line as int) is None,
        decreases cursor,
    {
        let mut sib = cursor;
        loop
            invariant
                tree.wf(),
                sib < tree.nodes@.len(),
                cursor < tree.nodes@.len(),
                row + 5 <= usize::MAX,
                spec_find_scope(*tree, comment_line as int) == walk_up(*tree, node as int, row as int),
                walk_up(*tree, node as int, row as int) == walk_up(*tree, cursor as int, row as int),
                scan_siblings(*tree, cursor as int, row as int) == scan_siblings(*tree, sib as int, row as int),
            ensures
                scan_siblings(*tree, cursor as int, row as int) is None,
            decreases tree.nodes@.len() - sib,
        {
            match next_named_sibling(tree, sib) {
                None => break,
                Some(next) => {
                    let kind = chars_of(tree.nodes[next].kind.as_str());
                    if is_scope_chars(&kind) {
                        return Some(extend_scope(tree, next));
                    }
                    if let Some(scope) = find_scope_in_children(tree, next) {
                        return Some(scope);
                    }
                    if tree.nodes[next].start_row > row + 5 {
                        break;
                    }
                    sib = next;
                },
            }
        }
        proof {
            assert(tree.node_wf(cursor as int));
        }
        match tree.nodes[cursor].parent {
            Some(parent) => {
                let kind = chars_of(tree.nodes[parent].kind.as_str());
                if is_scope_chars(&kind) {
                    return Some(node_to_scope(tree, parent));
                }
                cursor = parent;
            },
            None => {
                break;
            },
        }
    }
    None
}

} // verus!

verus! {

/// A grammar this library can parse with.
#[derive(Debug, Clone, Copy, PartialEq, Eq, Structural)]
pub enum Grammar {
    Rust,
    Python,
    Go,
    JavaScript,
    TypeScript,
    Tsx,
    C,
    Haskell,
    Nix,
}

/// The grammar for a file extension (without the leading dot), if any.
pub open spec fn spec_grammar_for_extension(ext: Seq<char>) -> Option<Grammar> {
    if ext == "rs"@ {
        Some(Grammar::Rust)
    } else if ext == "py"@ || ext == "pyi"@ || ext == "pyw"@ {
        Some(Grammar::Python)
    } else if ext == "go"@ {
        Some(Grammar::Go)
    } else if ext == "js"@ || ext == "mjs"@ || ext == "cjs"@ || ext == "jsx"@ {
        Some(Grammar::JavaScript)
    } else if ext == "ts"@ || ext == "mts"@ || ext == "cts"@ {
        Some(Grammar::TypeScript)
    } else if ext == "tsx"@ {
        Some(Grammar::Tsx)
    } else if ext == "c"@ || ext == "h"@ {
        Some(Grammar::C)
    } else if ext == "hs"@ {
        Some(Grammar::Haskell)
    } else if ext == "nix"@ {
        Some(Grammar::Nix)
    } else {
        None
    }
}

/// The grammar for a file extension (without the leading dot), if we have one.
pub fn grammar_for_extension(ext: &str) -> (r: Option<Grammar>)
    ensures
        r == spec_grammar_for_extension(ext@),
{
    let e = chars_of(ext);
    if eq_lit(&e, "rs") {
        Some(Grammar::Rust)
    } else if eq_lit(&e, "py") || eq_lit(&e, "pyi") || eq_lit(&e, "pyw") {
        Some(Grammar::Python)
    } else if eq_lit(&e, "go") {
        Some(Grammar::Go)
    } else if eq_lit(&e, "js") || eq_lit(&e, "mjs") || eq_lit(&e, "cjs") || eq_lit(&e, "jsx") {
        Some(Grammar::JavaScript)
    } else if eq_lit(&e, "ts") || eq_lit(&e, "mts") || eq_lit(&e, "cts") {
        Some(Grammar::TypeScript)
    } else if eq_lit(&e, "tsx") {
        Some(Grammar::Tsx)
    } else if eq_lit(&e, "c") || eq_lit(&e, "h") {
        Some(Grammar::C)
    } else if eq_lit(&e, "hs") {
        Some(Grammar::Haskell)
    } else if eq_lit(&e, "nix") {
        Some(Grammar::Nix)
    } else {
        None
    }
}

/// The tree-sitter language of a grammar.
pub fn grammar_language(g: Grammar) -> (r: TsLanguage)
    ensures
        r.grammar() == g,
{
    match g {
        Grammar::Rust => rust_language(),
        Grammar::Python => python_language(),
        Grammar::Go => go_language(),
        Grammar::JavaScript => javascript_language(),
        Grammar::TypeScript => typescript_language(),
        Grammar::Tsx => tsx_language(),
        Grammar::C => c_language(),
        Grammar::Haskell => haskell_language(),
        Grammar::Nix => nix_language(),
    }
}

/// The grammar to parse files with extension `ext` (without the leading
/// dot), if we have one.
pub fn language_for_extension(ext: &str) -> (r: Option<Grammar>)
    ensures
        r == spec_grammar_for_extension(ext@),
{
    grammar_for_extension(ext)
}

/// Parse the source with the grammar and return the tree: none exactly when
/// tree-sitter refuses the grammar's language.
pub fn parse(source: &str, grammar: Grammar) -> (r: Option<TsTree>)
    ensures
        r is Some <==> ts_accepts(grammar),
        r matches Some(t) ==> t.source() == source@ && t.grammar() == grammar,
{
    let mut parser = parser_new();
    let language = grammar_language(grammar);
    if !parser_set_language(&mut parser, &language) {
        return None;
    }
    parser_parse(&mut parser, source)
}

/// Moving the start of valid UTF-8 to a character boundary `a` keeps the
/// boundaries after it: `b - a` is one in the rest exactly when `b` is one
/// in the whole.
proof fn lemma_boundary_after(bytes: Seq<u8>, a: int, b: int)
    requires
        valid_utf8(bytes),
        is_char_boundary(bytes, a),
        0 <= a <= b <= bytes.len(),
    ensures
        is_char_boundary(bytes.subrange(a, bytes.len() as int), b - a) == is_char_boundary(bytes, b),
{
    valid_utf8_split(bytes, a);
    let rest = bytes.subrange(a, bytes.len() as int);
    if b < bytes.len() {
        is_char_boundary_iff_not_is_continuation_byte(rest, b - a);
        is_char_boundary_iff_not_is_continuation_byte(bytes, b);
        assert(rest[b - a] == bytes[b]);
    } else {
        is_char_boundary_start_end_of_seq(rest);
        is_char_boundary_start_end_of_seq(bytes);
    }
}

/// The UTF-8 text of `s` between byte offsets `a` and `b`, if both are
/// character boundaries within `s`.
fn text_between(s: &str, a: usize, b: usize) -> (r: Option<String>)
    ensures
        r is Some <==> (a <= b <= s.spec_bytes().len() && is_char_boundary(s.spec_bytes(), a as int)
            && is_char_boundary(s.spec_bytes(), b as int)),
        r matches Some(t) ==> encode_utf8(t@) == s.spec_bytes().subrange(a as int, b as int),
{
    proof {
        encode_utf8_valid_utf8(s@);
    }
    if a > b || b > s.as_bytes().len() || !s.is_char_boundary(a) {
        return None;
    }
    let (_, right) = s.split_at(a);
    proof {
        lemma_boundary_after(s.spec_bytes(), a as int, b as int);
    }
    if !right.is_char_boundary(b - a) {
        return None;
    }
    let (mid, _) = right.split_at(b - a);
    assert(mid.spec_bytes() =~= s.spec_bytes().subrange(a as int, b as int));
    Some(mid.to_owned())
}

} // verus!

verus! {

/// Every node of `t` is linked consistently.
pub open spec fn all_links_wf(t: SyntaxTree) -> bool {
    forall|i: int| 0 <= i < t.nodes@.len() ==> #[trigger] t.links_wf(i)
}

/// Every pending entry of the work stack names an existing parent.
pub open spec fn pending_wf(stack: Seq<(TsNode, Option<usize>)>, n: int) -> bool {
    forall|j: int| 0 <= j < stack.len() ==> ((#[trigger] stack[j]).1 matches Some(p) ==> p < n)
}

proof fn lemma_push_leaf(t0: SyntaxTree, t1: SyntaxTree, nd: SyntaxNode)
    requires
        all_links_wf(t0),
        t1.nodes@ == t0.nodes@.push(nd),
        nd.children@.len() == 0,
        nd.parent is None,
        nd.start_row < usize::MAX,
        nd.end_row < usize::MAX,
    ensures
        all_links_wf(t1),
{
    assert forall|i: int| 0 <= i < t1.nodes@.len() implies #[trigger] t1.links_wf(i) by {
        if i < t0.nodes@.len() {
            assert(t0.links_wf(i));
        }
    }
}

proof fn lemma_push_child(t0: SyntaxTree, t1: SyntaxTree, nd: SyntaxNode, p: int)
    requires
        all_links_wf(t0),
        0 <= p < t0.nodes@.len(),
        t0.nodes@.len() < usize::MAX,
        nd.children@.len() == 0,
        nd.parent == Some(p as usize),
        nd.pos_in_parent == t0.nodes@[p].children@.len(),
        nd.start_row < usize::MAX,
        nd.end_row < usize::MAX,
        t1.nodes@.len() == t0.nodes@.len() + 1,
        t1.nodes@[t0.nodes@.len() as int] == nd,
        forall|x: int| 0 <= x < t0.nodes@.len() ==> {
            &&& (#[trigger] t1.nodes@[x]).parent == t0.nodes@[x].parent
            &&& t1.nodes@[x].pos_in_parent == t0.nodes@[x].pos_in_parent
            &&& t1.nodes@[x].start_row == t0.nodes@[x].start_row
            &&& t1.nodes@[x].end_row == t0.nodes@[x].end_row
            &&& (x != p ==> t1.nodes@[x].children@ == t0.nodes@[x].children@)
        },
        t1.nodes@[p].children@ == t0.nodes@[p].children@.push(t0.nodes@.len() as usize),
    ensures
        all_links_wf(t1),
{
    let n0 = t0.nodes@.len() as int;
    assert forall|i: int| 0 <= i < t1.nodes@.len() implies #[trigger] t1.links_wf(i) by {
        if i < n0 {
            assert(t0.links_wf(i));
            assert(t1.nodes@[i].parent == t0.nodes@[i].parent);
            if let Some(q) = t1.nodes@[i].parent {
                assert(t0.links_wf(q as int));
                assert(t1.nodes@[q as int].children@[t1.nodes@[i].pos_in_parent as int] == i);
            }
            let ch = t1.nodes@[i].children@;
            let ch0 = t0.nodes@[i].children@;
            assert forall|k: int| 0 <= k < ch.len() implies {
                &&& i < #[trigger] ch[k] < t1.nodes@.len()
                &&& t1.nodes@[ch[k] as int].parent == Some(i as usize)
                &&& t1.nodes@[ch[k] as int].pos_in_parent == k
            } by {
                if i == p && k == ch.len() - 1 {
                    assert(ch[k] == n0);
                } else {
                    assert(ch[k] == ch0[k]);
                    assert(t1.nodes@[ch0[k] as int].parent == t0.nodes@[ch0[k] as int].parent);
                }
            }
            assert forall|k1: int, k2: int| 0 <= k1 < k2 < ch.len() implies #[trigger] ch[k1] < #[trigger] ch[k2] by {
                assert(ch[k1] == ch0[k1]);
                if i == p && k2 == ch.len() - 1 {
                    assert(ch0[k1] < n0);
                } else {
                    assert(ch[k2] == ch0[k2]);
                    assert(ch0[k1] < ch0[k2]);
                }
            }
        } else {
            assert(i == n0);
            assert(t1.nodes@[p].children@[nd.pos_in_parent as int] == n0);
        }
    }
}

/// What tree-sitter reports of the text of a node spanning bytes `a..b` of
/// `source`: the text when both ends are character boundaries, else none.
pub open spec fn text_copies(text: Option<String>, source: Seq<char>, a: int, b: int) -> bool {
    let bytes = encode_utf8(source);
    &&& (text is Some <==> (a <= b <= bytes.len() && is_char_boundary(bytes, a) && is_char_boundary(bytes, b)))
    &&& (text matches Some(x) ==> encode_utf8(x@) == bytes.subrange(a, b))
}

/// Node `nd` copies what tree-sitter reports of the node at `path` in the
/// tree of `source` parsed with grammar `g`: its kind, whether it is named,
/// its rows and its text.
pub open spec fn node_copies(nd: SyntaxNode, source: Seq<char>, g: Grammar, path: Seq<usize>) -> bool {
    let f = None::<Seq<char>>;
    &&& nd.kind@ == ts_kind(source, g, path, f)
    &&& nd.is_named == ts_named(source, g, path, f)
    &&& nd.start_row == ts_start_row(source, g, path, f)
    &&& nd.end_row == ts_end_row(source, g, path, f)
    &&& text_copies(nd.text, source, ts_start_byte(source, g, path, f) as int, ts_end_byte(source, g, path, f) as int)
}

/// Path `c` leads to a child of the node at `parent`: it is the parent's
/// path extended by the index of a child tree-sitter reports, below the
/// parent's child count.
pub open spec fn child_path(source: Seq<char>, g: Grammar, parent: Seq<usize>, c: Seq<usize>) -> bool {
    &&& c.len() > 0
    &&& c == parent.push(c.last())
    &&& c.last() < ts_child_count(source, g, parent)
    &&& ts_has_child(source, g, parent, c.last())
}

/// The path `p` leads from the root to a node of the tree of `source`
/// parsed with grammar `g`: each step is to a child tree-sitter reports.
pub open spec fn reachable(source: Seq<char>, g: Grammar, p: Seq<usize>) -> bool
    decreases p.len(),
{
    if p.len() == 0 {
        true
    } else {
        &&& reachable(source, g, p.drop_last())
        &&& child_path(source, g, p.drop_last(), p)
    }
}

/// Some node of the tree of `source` parsed with `g` starts or ends on a
/// row that cannot be counted from 1 in a `usize`.
pub open spec fn row_overflows(source: Seq<char>, g: Grammar) -> bool {
    exists|p: Seq<usize>| #[trigger] reachable(source, g, p)
        && (ts_start_row(source, g, p, None) == usize::MAX || ts_end_row(source, g, p, None) == usize::MAX)
}

/// The paths `ps` lead to distinct nodes of the tree of `source` parsed
/// with `g`.
pub open spec fn distinct_nodes(source: Seq<char>, g: Grammar, ps: Seq<Seq<usize>>) -> bool {
    &&& forall|i: int| 0 <= i < ps.len() ==> reachable(source, g, #[trigger] ps[i])
    &&& forall|i: int, j: int| 0 <= i < j < ps.len() ==> ps[i] != ps[j]
}

/// The tree of `source` parsed with `g` has at least `usize::MAX` nodes,
/// more than a `Vec` indexed by `usize` can number.
pub open spec fn too_many_nodes(source: Seq<char>, g: Grammar) -> bool {
    exists|ps: Seq<Seq<usize>>| #[trigger] distinct_nodes(source, g, ps) && ps.len() == usize::MAX
}

/// Path `b` is `a` or leads below it.
pub open spec fn extends(a: Seq<usize>, b: Seq<usize>) -> bool {
    a.len() <= b.len() && b.subrange(0, a.len() as int) == a
}

/// The copied paths are distinct, and no pending path is at or above a
/// copied one or another pending one.
pub open spec fn apart(nodes: Seq<Seq<usize>>, pending: Seq<Seq<usize>>) -> bool {
    &&& forall|i: int, j: int| 0 <= i < j < nodes.len() ==> nodes[i] != nodes[j]
    &&& forall|w: int, i: int| 0 <= w < pending.len() && 0 <= i < nodes.len()
        ==> !(#[trigger] extends(pending[w], nodes[i]))
    &&& forall|w1: int, w2: int| 0 <= w1 < pending.len() && 0 <= w2 < pending.len() && w1 != w2
        ==> !(#[trigger] extends(pending[w1], pending[w2]))
}

/// The paths of the nodes waiting in the work stack.
pub open spec fn stack_paths(stack: Seq<(TsNode, Option<usize>)>) -> Seq<Seq<usize>> {
    stack.map_values(|e: (TsNode, Option<usize>)| e.0.path())
}

proof fn lemma_extends_push(a: Seq<usize>, x: usize, q: Seq<usize>)
    ensures
        extends(a, a),
        extends(a, a.push(x)),
        extends(a.push(x), q) ==> extends(a, q),
        extends(q, a.push(x)) ==> q == a.push(x) || extends(q, a),
{
    assert(a.subrange(0, a.len() as int) =~= a);
    assert(a.push(x).subrange(0, a.len() as int) =~= a);
    if extends(a.push(x), q) {
        assert(q.subrange(0, a.len() as int) =~= q.subrange(0, (a.len() + 1) as int).subrange(0, a.len() as int));
    }
    if extends(q, a.push(x)) {
        if q.len() == a.len() + 1 {
            assert(a.push(x).subrange(0, q.len() as int) =~= a.push(x));
        } else {
            assert(a.subrange(0, q.len() as int) =~= a.push(x).subrange(0, q.len() as int));
        }
    }
}

/// Moving the last pending path to the copied ones and its children to the
/// pending ones keeps the paths apart.
proof fn lemma_apart_step(nodes: Seq<Seq<usize>>, pending: Seq<Seq<usize>>, kids: Seq<Seq<usize>>)
    requires
        apart(nodes, pending),
        pending.len() > 0,
        forall|k: int| 0 <= k < kids.len() ==> (#[trigger] kids[k]) == pending.last().push(kids[k].last()),
        forall|k1: int, k2: int| 0 <= k1 < k2 < kids.len() ==> (#[trigger] kids[k1]).last() != (#[trigger] kids[k2]).last(),
    ensures
        apart(nodes.push(pending.last()), pending.drop_last() + kids),
{
    let top = pending.last();
    let b = pending.len() - 1;
    let n2 = nodes.push(top);
    let p2 = pending.drop_last() + kids;
    assert forall|i: int, j: int| 0 <= i < j < n2.len() implies n2[i] != n2[j] by {
        if j == nodes.len() {
            assert(!extends(pending[b], nodes[i]));
            lemma_extends_push(top, 0, top);
        }
    }
    assert forall|w: int, i: int| 0 <= w < p2.len() && 0 <= i < n2.len() implies !(#[trigger] extends(p2[w], n2[i])) by {
        if w < b {
            assert(p2[w] == pending[w]);
            if i < nodes.len() {
                assert(!extends(pending[w], nodes[i]));
            } else {
                assert(!extends(pending[w], pending[b]));
            }
        } else {
            let kid = kids[w - b];
            assert(p2[w] == kid);
            lemma_extends_push(top, kid.last(), n2[i]);
            if i < nodes.len() {
                assert(!extends(pending[b], nodes[i]));
            }
        }
    }
    assert forall|w1: int, w2: int| 0 <= w1 < p2.len() && 0 <= w2 < p2.len() && w1 != w2
        implies !(#[trigger] extends(p2[w1], p2[w2])) by {
        if w1 < b && w2 < b {
            assert(p2[w1] == pending[w1] && p2[w2] == pending[w2]);
            assert(!extends(pending[w1], pending[w2]));
        } else if w1 < b {
            let kid = kids[w2 - b];
            assert(p2[w1] == pending[w1] && p2[w2] == kid);
            lemma_extends_push(top, kid.last(), pending[w1]);
            assert(!extends(pending[w1], pending[b]));
            assert(!extends(pending[b], pending[w1]));
        } else if w2 < b {
            let kid = kids[w1 - b];
            assert(p2[w1] == kid && p2[w2] == pending[w2]);
            lemma_extends_push(top, kid.last(), pending[w2]);
            assert(!extends(pending[b], pending[w2]));
        } else {
            let k1 = kids[w1 - b];
            let k2 = kids[w2 - b];
            assert(p2[w1] == k1 && p2[w2] == k2);
            if w1 < w2 {
                assert(k1.last() != k2.last());
            } else {
                assert(k2.last() != k1.last());
            }
            if extends(k1, k2) {
                assert(k2.subrange(0, k2.len() as int) =~= k2);
                assert(k1 == k2);
            }
        }
    }
}

proof fn lemma_child_reachable(source: Seq<char>, g: Grammar, parent: Seq<usize>, c: Seq<usize>)
    requires
        reachable(source, g, parent),
        child_path(source, g, parent, c),
    ensures
        reachable(source, g, c),
{
    assert(c.drop_last() =~= parent);
}

/// The index among tree-sitter's children of the `k`-th child of node `m`
/// of `t`, node `c` being the one at `paths[c]`.
pub open spec fn child_index(t: SyntaxTree, paths: Seq<Seq<usize>>, m: int, k: int) -> usize {
    paths[t.nodes@[m].children@[k] as int].last()
}

/// The children of every node of `t` come in tree-sitter's order.
pub open spec fn children_ordered(t: SyntaxTree, paths: Seq<Seq<usize>>) -> bool {
    forall|m: int, k1: int, k2: int| 0 <= m < t.nodes@.len() && 0 <= k1 < k2 < t.nodes@[m].children@.len()
        ==> #[trigger] child_index(t, paths, m, k1) < #[trigger] child_index(t, paths, m, k2)
}

/// A child waiting in `stack` comes after every child its parent has.
pub open spec fn pending_after(t: SyntaxTree, paths: Seq<Seq<usize>>, stack: Seq<(TsNode, Option<usize>)>) -> bool {
    forall|m: int, k: int, w: int|
        0 <= m < t.nodes@.len() && 0 <= k < t.nodes@[m].children@.len() && 0 <= w < stack.len()
            && stack[w].1 == Some(m as usize)
            ==> #[trigger] child_index(t, paths, m, k) < (#[trigger] stack[w]).0.path().last()
}

/// Children of one parent waiting in `stack` are taken in tree-sitter's
/// order: the one nearer the top comes first.
pub open spec fn pending_ordered(stack: Seq<(TsNode, Option<usize>)>) -> bool {
    forall|w1: int, w2: int| 0 <= w1 < w2 < stack.len() && (#[trigger] stack[w1]).1 is Some
        && stack[w1].1 == (#[trigger] stack[w2]).1
        ==> stack[w2].0.path().last() < stack[w1].0.path().last()
}

/// Copying the top of the stack as a new node keeps the children in order.
proof fn lemma_order_step(
    t0: SyntaxTree,
    t: SyntaxTree,
    paths0: Seq<Seq<usize>>,
    st0: Seq<(TsNode, Option<usize>)>,
)
    requires
        all_links_wf(t0),
        t0.nodes@.len() < usize::MAX,
        paths0.len() == t0.nodes@.len(),
        children_ordered(t0, paths0),
        pending_after(t0, paths0, st0),
        pending_ordered(st0),
        st0.len() > 0,
        st0.last().1 matches Some(p) ==> p < t0.nodes@.len(),
        t.nodes@.len() == t0.nodes@.len() + 1,
        t.nodes@[t0.nodes@.len() as int].children@.len() == 0,
        forall|x: int| 0 <= x < t0.nodes@.len() && st0.last().1 != Some(x as usize)
            ==> (#[trigger] t.nodes@[x]).children@ == t0.nodes@[x].children@,
        st0.last().1 matches Some(p) ==> t.nodes@[p as int].children@ == t0.nodes@[p as int].children@.push(t0.nodes@.len() as usize),
    ensures
        children_ordered(t, paths0.push(st0.last().0.path())),
        pending_after(t, paths0.push(st0.last().0.path()), st0.drop_last()),
        pending_ordered(st0.drop_last()),
{
    let n0 = t0.nodes@.len() as int;
    let np = st0.last().0.path();
    let paths = paths0.push(np);
    let top = st0.len() - 1;
    let par = st0.last().1;
    // The children a node had keep their places and paths; the parent of
    // the new node gains it as its last child.
    assert forall|m: int, k: int| 0 <= m < n0 && 0 <= k < t.nodes@[m].children@.len()
        implies {
            &&& (k < t0.nodes@[m].children@.len() ==> #[trigger] child_index(t, paths, m, k) == child_index(t0, paths0, m, k))
            &&& (k >= t0.nodes@[m].children@.len() ==> par == Some(m as usize) && k == t0.nodes@[m].children@.len()
                && child_index(t, paths, m, k) == np.last())
        } by {
        assert(t0.links_wf(m));
        if par == Some(m as usize) {
            assert(par->0 as int == m);
            assert(t.nodes@[m].children@ == t0.nodes@[m].children@.push(n0 as usize));
            if k < t0.nodes@[m].children@.len() {
                assert(t.nodes@[m].children@[k] == t0.nodes@[m].children@[k]);
            } else {
                assert(t.nodes@[m].children@[k] == n0);
            }
        } else {
            assert(t.nodes@[m].children@ == t0.nodes@[m].children@);
        }
        if k < t0.nodes@[m].children@.len() {
            let c = t0.nodes@[m].children@[k];
            assert(c < n0);
            assert(paths[c as int] == paths0[c as int]);
        }
    }
    assert forall|m: int, k1: int, k2: int| 0 <= m < t.nodes@.len() && 0 <= k1 < k2 < t.nodes@[m].children@.len()
        implies #[trigger] child_index(t, paths, m, k1) < #[trigger] child_index(t, paths, m, k2) by {
        if m == n0 {
            assert(t.nodes@[m].children@.len() == 0);
        }
        assert(m < n0);
        assert(k2 < t0.nodes@[m].children@.len() || k2 == t0.nodes@[m].children@.len());
        assert(k1 < t0.nodes@[m].children@.len());
        if k2 < t0.nodes@[m].children@.len() {
            assert(child_index(t0, paths0, m, k1) < child_index(t0, paths0, m, k2));
        } else {
            assert(par == Some(m as usize));
            assert(st0[top].1 == Some(m as usize));
            assert(child_index(t0, paths0, m, k1) < st0[top].0.path().last());
        }
    }
    let st = st0.drop_last();
    assert forall|m: int, k: int, w: int|
        0 <= m < t.nodes@.len() && 0 <= k < t.nodes@[m].children@.len() && 0 <= w < st.len()
            && st[w].1 == Some(m as usize)
        implies #[trigger] child_index(t, paths, m, k) < (#[trigger] st[w]).0.path().last() by {
        assert(st[w] == st0[w]);
        if m == n0 {
            assert(t.nodes@[m].children@.len() == 0);
        }
        assert(m < n0);
        if k < t0.nodes@[m].children@.len() {
            assert(child_index(t0, paths0, m, k) < st0[w].0.path().last());
        } else {
            assert(par == Some(m as usize));
            assert(st0[top].1 == st0[w].1);
            assert(st0[top].0.path().last() < st0[w].0.path().last());
        }
    }
    assert forall|w1: int, w2: int| 0 <= w1 < w2 < st.len() && (#[trigger] st[w1]).1 is Some
        && st[w1].1 == (#[trigger] st[w2]).1
        implies st[w2].0.path().last() < st[w1].0.path().last() by {
        assert(st[w1] == st0[w1] && st[w2] == st0[w2]);
    }
}

/// `t` copies the tree of `source` parsed with grammar `g`, node `m` being
/// the one at `paths[m]`: the root is at the empty path, children come in
/// tree-sitter's order, every node copies its tree-sitter node, every child
/// sits at a child of its parent, every child tree-sitter reports is copied,
/// and the name child is the node in the parent's `name` field, when one of
/// the children is.
pub open spec fn copies_tree(t: SyntaxTree, source: Seq<char>, g: Grammar, paths: Seq<Seq<usize>>) -> bool {
    &&& paths.len() == t.nodes@.len()
    &&& paths[0] == Seq::<usize>::empty()
    &&& children_ordered(t, paths)
    &&& forall|m: int| 0 <= m < t.nodes@.len() ==> node_copies(#[trigger] t.nodes@[m], source, g, paths[m])
    &&& forall|m: int| 0 <= m < t.nodes@.len() ==> ((#[trigger] t.nodes@[m]).parent matches Some(p)
        ==> child_path(source, g, paths[p as int], paths[m]))
    &&& forall|m: int, j: usize|
        0 <= m < t.nodes@.len() && j < ts_child_count(source, g, paths[m]) && #[trigger] ts_has_child(source, g, paths[m], j)
            ==> child_copied(t, paths, m, j)
    &&& forall|m: int| 0 <= m < t.nodes@.len() ==> ((#[trigger] t.nodes@[m]).name_child matches Some(q)
        ==> ts_has_field(source, g, paths[m], "name"@)
            && ts_same(source, g, paths[t.nodes@[m].children@[q as int] as int], None, paths[m], Some("name"@)))
    &&& forall|m: int| 0 <= m < t.nodes@.len() ==> ((#[trigger] t.nodes@[m]).name_child is None
        ==> (ts_has_field(source, g, paths[m], "name"@) ==> forall|k: int| 0 <= k < t.nodes@[m].children@.len()
            ==> !ts_same(source, g, #[trigger] paths[t.nodes@[m].children@[k] as int], None, paths[m], Some("name"@))))
}

/// A copy of the parsed tree leaves no node out: every node tree-sitter
/// reports, at any depth, is the node of `t` at its path.
pub proof fn law_copy_complete(t: SyntaxTree, source: Seq<char>, g: Grammar, paths: Seq<Seq<usize>>, p: Seq<usize>)
    requires
        t.wf(),
        copies_tree(t, source, g, paths),
        reachable(source, g, p),
    ensures
        exists|m: int| 0 <= m < t.nodes@.len() && #[trigger] paths[m] == p,
    decreases p.len(),
{
    if p.len() == 0 {
        assert(paths[0] == p);
    } else {
        let q = p.drop_last();
        law_copy_complete(t, source, g, paths, q);
        let m = choose|m: int| 0 <= m < t.nodes@.len() && #[trigger] paths[m] == q;
        let j = p.last();
        assert(p == q.push(j));
        assert(ts_has_child(source, g, paths[m], j));
        assert(child_copied(t, paths, m, j));
        let k = choose|k: int| 0 <= k < t.nodes@[m].children@.len() && paths[t.nodes@[m].children@[k] as int] == paths[m].push(j);
        assert(t.node_wf(m));
        let c = t.nodes@[m].children@[k] as int;
        assert(paths[c] == p);
    }
}

/// Child `j` of node `m` is copied: some child of `m` sits at the path of
/// `m` extended by `j`.
pub open spec fn child_copied(t: SyntaxTree, paths: Seq<Seq<usize>>, m: int, j: usize) -> bool {
    exists|k: int| 0 <= k < t.nodes@[m].children@.len() && paths[t.nodes@[m].children@[k] as int] == paths[m].push(j)
}

/// Child `j` of node `m` waits in `stack` to be copied.
pub open spec fn child_pending(stack: Seq<(TsNode, Option<usize>)>, paths: Seq<Seq<usize>>, m: int, j: usize) -> bool {
    exists|w: int| 0 <= w < stack.len() && stack[w].1 == Some(m as usize) && stack[w].0.path() == paths[m].push(j)
}

/// The handles are all of one tree, the node `i` at `paths[i]`.
pub open spec fn handles_at(handles: Seq<TsNode>, source: Seq<char>, g: Grammar, id: int, paths: Seq<Seq<usize>>) -> bool {
    &&& handles.len() == paths.len()
    &&& forall|i: int| 0 <= i < handles.len() ==> {
        &&& (#[trigger] handles[i]).source() == source
        &&& handles[i].grammar() == g
        &&& handles[i].tree_id() == id
        &&& handles[i].path() == paths[i]
        &&& handles[i].field() is None
    }
}

/// The `name` field handles: the one of node `i`, when it has one, is the
/// `name` field of the node at `paths[i]`.
pub open spec fn fields_at(fields: Seq<Option<TsNode>>, source: Seq<char>, g: Grammar, id: int, paths: Seq<Seq<usize>>) -> bool {
    &&& fields.len() == paths.len()
    &&& forall|i: int| 0 <= i < fields.len() ==> ((#[trigger] fields[i]) matches Some(f) ==> {
        &&& f.source() == source
        &&& f.grammar() == g
        &&& f.tree_id() == id
        &&& f.path() == paths[i]
        &&& f.field() == Some("name"@)
        &&& ts_has_field(source, g, paths[i], "name"@)
    }) && (fields[i] is None ==> !ts_has_field(source, g, paths[i], "name"@))
}

/// Every entry of the work stack is a node of the tree, at the root when it
/// has no parent and at a child of its parent otherwise.
pub open spec fn stack_at(stack: Seq<(TsNode, Option<usize>)>, source: Seq<char>, g: Grammar, id: int, paths: Seq<Seq<usize>>) -> bool {
    forall|j: int| 0 <= j < stack.len() ==> {
        let e = #[trigger] stack[j];
        &&& e.0.source() == source
        &&& e.0.grammar() == g
        &&& e.0.tree_id() == id
        &&& e.0.field() is None
        &&& reachable(source, g, e.0.path())
        &&& (e.1 is None ==> e.0.path() == Seq::<usize>::empty())
        &&& (e.1 matches Some(p) ==> child_path(source, g, paths[p as int], e.0.path()))
    }
}

/// The position among `children` of the child that is the `field` node.
fn named_position(handles: &Vec<TsNode>, children: &Vec<usize>, field: &Option<TsNode>) -> (r: Option<usize>)
    requires
        forall|k: int| 0 <= k < children@.len() ==> (#[trigger] children@[k]) < handles@.len(),
        forall|k: int| 0 <= k < children@.len() ==> (*field matches Some(f) ==> {
            &&& f.tree_id() == (#[trigger] handles@[children@[k] as int]).tree_id()
            &&& f.source() == handles@[children@[k] as int].source()
            &&& f.grammar() == handles@[children@[k] as int].grammar()
        }),
    ensures
        *field is None ==> r is None,
        children.len() == 0 ==> r is None,
        r matches Some(q) ==> (q < children.len() && (*field matches Some(f) && {
            let h = handles@[children@[q as int] as int];
            ts_same(h.source(), h.grammar(), h.path(), h.field(), f.path(), f.field())
        })),
        r is None ==> (*field matches Some(f) ==> forall|k: int| 0 <= k < children@.len() ==> {
            let h = #[trigger] handles@[children@[k] as int];
            !ts_same(h.source(), h.grammar(), h.path(), h.field(), f.path(), f.field())
        }),
{
    match field {
        None => None,
        Some(f) => {
            let mut k: usize = 0;
            while k < children.len()
                invariant
                    *field == Some(*f),
                    forall|m: int| 0 <= m < children@.len() ==> (#[trigger] children@[m]) < handles@.len(),
                    forall|m: int| 0 <= m < children@.len() ==> {
                        &&& f.tree_id() == (#[trigger] handles@[children@[m] as int]).tree_id()
                        &&& f.source() == handles@[children@[m] as int].source()
                        &&& f.grammar() == handles@[children@[m] as int].grammar()
                    },
                    forall|m: int| 0 <= m < k ==> {
                        let h = #[trigger] handles@[children@[m] as int];
                        !ts_same(h.source(), h.grammar(), h.path(), h.field(), f.path(), f.field())
                    },
                decreases children.len() - k,
            {
                let c = children[k];
                assert(c < handles@.len());
                if node_same(&handles[c], f) {
                    return Some(k);
                }
                k = k + 1;
            }
            None
        },
    }
}

/// The syntax tree of `tree` as plain values: its nodes in pre-order with
/// their kinds, rows, texts and links, each copying what tree-sitter reports
/// of one node of the tree. None only when the tree is too large for the
/// machine: a node's row cannot be counted from 1 in a `usize`, or there are
/// `usize::MAX` nodes or more; never for a tree whose rows all fit.
#[verifier::rlimit(50)]
pub fn syntax_tree(tree: &TsTree) -> (r: Option<SyntaxTree>)
    ensures
        r matches Some(t) ==> t.wf(),
        r is Some ==> exists|paths: Seq<Seq<usize>>| copies_tree(r->0, tree.source(), tree.grammar(), paths),
        r is None ==> row_overflows(tree.source(), tree.grammar()) || too_many_nodes(tree.source(), tree.grammar()),
        r is Some ==> !row_overflows(tree.source(), tree.grammar()),
{
    let ghost src = tree.source();
    let ghost g = tree.grammar();
    let ghost tid = tree.tree_id();
    let source = tree.text();
    let mut t = SyntaxTree { nodes: Vec::new() };
    let mut stack: Vec<(TsNode, Option<usize>)> = Vec::new();
    stack.push((tree_root(tree), None));
    let mut fuel: usize = usize::MAX;
    let mut handles: Vec<TsNode> = Vec::new();
    let mut fields: Vec<Option<TsNode>> = Vec::new();
    let ghost mut paths: Seq<Seq<usize>> = Seq::empty();
    proof {
        assert(reachable(src, g, stack@[0].0.path()));
        assert(stack_paths(stack@).len() == 1);
    }
    while stack.len() > 0
        invariant
            src == tree.source(),
            g == tree.grammar(),
            fuel == usize::MAX - t.nodes@.len(),
            all_links_wf(t),
            pending_wf(stack@, t.nodes@.len() as int),
            source@ == src,
            paths.len() == t.nodes@.len(),
            handles_at(handles@, src, g, tid, paths),
            fields_at(fields@, src, g, tid, paths),
            stack_at(stack@, src, g, tid, paths),
            apart(paths, stack_paths(stack@)),
            children_ordered(t, paths),
            pending_after(t, paths, stack@),
            pending_ordered(stack@),
            forall|i: int| 0 <= i < paths.len() ==> reachable(src, g, #[trigger] paths[i]),
            forall|i: int| 0 <= i < t.nodes@.len() ==> (#[trigger] t.nodes@[i]).name_child is None,
            stack.len() == 0 ==> t.nodes@.len() > 0,
            forall|i: int| 0 <= i < t.nodes@.len() ==> node_copies(#[trigger] t.nodes@[i], src, g, paths[i]),
            forall|i: int| 0 <= i < t.nodes@.len() ==> (#[trigger] t.nodes@[i]).parent is None ==> paths[i] == Seq::<usize>::empty(),
            forall|i: int| 0 <= i < t.nodes@.len() ==> ((#[trigger] t.nodes@[i]).parent matches Some(p)
                ==> child_path(src, g, paths[p as int], paths[i])),
            forall|m: int, j: usize|
                0 <= m < t.nodes@.len() && j < ts_child_count(src, g, paths[m]) && #[trigger] ts_has_child(src, g, paths[m], j)
                    ==> child_copied(t, paths, m, j) || child_pending(stack@, paths, m, j),
        decreases fuel,
    {
        if fuel == 0 {
            proof {
                assert(distinct_nodes(src, g, paths));
                assert(too_many_nodes(src, g));
            }
            return None;
        }
        fuel = fuel - 1;
        let ghost st0 = stack@;
        let ghost top = stack@[stack@.len() - 1];
        proof {
            assert(stack_at(st0, src, g, tid, paths));
            let e = stack@[stack@.len() - 1];
            assert(e.1 matches Some(p) ==> child_path(src, g, paths[p as int], e.0.path()));
            assert(e.1 is None ==> e.0.path() == Seq::<usize>::empty());
            assert(e.0.source() == src && e.0.grammar() == g && e.0.field() is None && e.0.tree_id() == tid);
            assert(reachable(src, g, e.0.path()));
        }
        let (node, parent) = stack.pop().unwrap();
        assert(node == top.0 && parent == top.1);
        assert(stack@ =~= st0.drop_last());
        let idx = t.nodes.len();
        let start_row = node_start_row(&node);
        let end_row = node_end_row(&node);
        if start_row == usize::MAX || end_row == usize::MAX {
            proof {
                assert(reachable(src, g, node.path()));
                assert(start_row == ts_start_row(src, g, node.path(), None));
                assert(row_overflows(src, g));
            }
            return None;
        }
        let field = node_child_by_field_name(&node, "name");
        let text = text_between(source, node_start_byte(&node), node_end_byte(&node));
        let ghost t0 = t;
        let ghost np = node.path();
        match parent {
            None => {
                let nd = SyntaxNode {
                    kind: node_kind(&node),
                    is_named: node_is_named(&node),
                    start_row,
                    end_row,
                    parent: None,
                    pos_in_parent: 0,
                    children: Vec::new(),
                    name_child: None,
                    text,
                };
                t.nodes.push(nd);
                proof {
                    lemma_push_leaf(t0, t, nd);
                    lemma_order_step(t0, t, paths, st0);
                }
            },
            Some(p) => {
                let pos = t.nodes[p].children.len();
                let nd = SyntaxNode {
                    kind: node_kind(&node),
                    is_named: node_is_named(&node),
                    start_row,
                    end_row,
                    parent: Some(p),
                    pos_in_parent: pos,
                    children: Vec::new(),
                    name_child: None,
                    text,
                };
                t.nodes[p].children.push(idx);
                t.nodes.push(nd);
                proof {
                    lemma_push_child(t0, t, nd, p as int);
                    lemma_order_step(t0, t, paths, st0);
                }
            },
        }
        let ghost old_paths = paths;
        proof {
            paths = paths.push(np);
            assert(t.nodes@[idx as int].parent == parent);
            assert forall|i: int| 0 <= i < t.nodes@.len() implies ((#[trigger] t.nodes@[i]).parent matches Some(p)
                ==> child_path(src, g, paths[p as int], paths[i])) by {
                if i < t0.nodes@.len() {
                    assert(t.nodes@[i].parent == t0.nodes@[i].parent);
                    if let Some(p) = t0.nodes@[i].parent {
                        assert(t0.links_wf(i));
                        assert(child_path(src, g, old_paths[p as int], old_paths[i]));
                        assert(old_paths[p as int] == paths[p as int]);
                        assert(old_paths[i] == paths[i]);
                    }
                } else {
                    if let Some(p) = parent {
                        assert(child_path(src, g, old_paths[p as int], top.0.path()));
                        assert(old_paths[p as int] == paths[p as int]);
                    }
                }
            }
            assert forall|i: int| 0 <= i < t.nodes@.len() implies ((#[trigger] t.nodes@[i]).parent is None ==> paths[i] == Seq::<usize>::empty()) by {
                if i < t0.nodes@.len() {
                    assert(t.nodes@[i].parent == t0.nodes@[i].parent);
                }
            }
            assert forall|i: int| 0 <= i < t.nodes@.len() implies node_copies(#[trigger] t.nodes@[i], src, g, paths[i]) by {
                if i < t0.nodes@.len() {
                    assert(t.nodes@[i].kind == t0.nodes@[i].kind);
                    assert(node_copies(t0.nodes@[i], src, g, paths[i]));
                }
            }
            assert forall|i: int| 0 <= i < paths.len() implies reachable(src, g, #[trigger] paths[i]) by {
                if i < old_paths.len() {
                    assert(reachable(src, g, old_paths[i]));
                }
            }
            assert forall|m: int, j: usize|
                0 <= m < t0.nodes@.len() && j < ts_child_count(src, g, paths[m]) && #[trigger] ts_has_child(src, g, paths[m], j)
                implies child_copied(t, paths, m, j) || child_pending(stack@, paths, m, j) by {
                assert(old_paths[m] == paths[m]);
                assert(ts_has_child(src, g, old_paths[m], j));
                if child_copied(t0, old_paths, m, j) {
                    let k = choose|k: int| 0 <= k < t0.nodes@[m].children@.len()
                        && old_paths[t0.nodes@[m].children@[k] as int] == old_paths[m].push(j);
                    let c = t0.nodes@[m].children@[k];
                    assert(t0.links_wf(m));
                    assert(t.nodes@[m].children@[k] == c);
                    assert(paths[c as int] == old_paths[c as int]);
                } else {
                    assert(child_pending(st0, old_paths, m, j));
                    let w = choose|w: int| 0 <= w < st0.len() && st0[w].1 == Some(m as usize) && st0[w].0.path() == old_paths[m].push(j);
                    if w == st0.len() - 1 {
                        assert(parent == Some(m as usize));
                        let k = t0.nodes@[m].children@.len() as int;
                        assert(t.nodes@[m].children@[k] == idx);
                        assert(paths[idx as int] == np);
                    } else {
                        assert(stack@[w] == st0[w]);
                    }
                }
            }
        }
        let count = node_child_count(&node);
        let ghost st_base = stack@;
        assert(st_base =~= st0.drop_last());
        let mut i: usize = count;
        while i > 0
            invariant
                st0.len() == st_base.len() + 1,
                st_base == st0.drop_last(),
                i <= count,
                node.field() is None,
                node.source() == src,
                node.grammar() == g,
                node.tree_id() == tid,
                node.path() == np,
                count == ts_child_count(src, g, np),
                stack@.len() >= st_base.len(),
                forall|w: int| 0 <= w < st_base.len() ==> stack@[w] == st_base[w],
                forall|w: int| st_base.len() <= w < stack@.len() ==> {
                    let e = #[trigger] stack@[w];
                    &&& e.1 == Some(idx)
                    &&& e.0.source() == src
                    &&& e.0.grammar() == g
                    &&& e.0.tree_id() == tid
                    &&& e.0.field() is None
                    &&& child_path(src, g, np, e.0.path())
                    &&& i <= e.0.path().last()
                },
                forall|w1: int, w2: int| st_base.len() <= w1 < w2 < stack@.len()
                    ==> (#[trigger] stack@[w2]).0.path().last() < (#[trigger] stack@[w1]).0.path().last(),
                forall|j: usize| i <= j < count && #[trigger] ts_has_child(src, g, np, j)
                    ==> exists|w: int| st_base.len() <= w < stack@.len() && stack@[w].0.path() == np.push(j),
            decreases i,
        {
            i = i - 1;
            let ghost s1 = stack@;
            match node_child(&node, i) {
                Some(c) => {
                    stack.push((c, Some(idx)));
                    proof {
                        assert(stack@[s1.len() as int] == (c, Some(idx)));
                        assert(c.path() == np.push(i));
                        assert(c.path().last() == i);
                        assert forall|j: usize| i <= j < count && #[trigger] ts_has_child(src, g, np, j)
                            implies exists|w: int| st_base.len() <= w < stack@.len() && stack@[w].0.path() == np.push(j) by {
                            if j == i {
                                assert(stack@[s1.len() as int].0.path() == np.push(j));
                            } else {
                                let w = choose|w: int| st_base.len() <= w < s1.len() && s1[w].0.path() == np.push(j);
                                assert(stack@[w] == s1[w]);
                            }
                        }
                    }
                },
                None => {},
            }
        }
        proof {
            let sp0 = stack_paths(st0);
            let kidp = stack_paths(stack@).subrange(st_base.len() as int, stack@.len() as int);
            assert(stack_paths(st_base) =~= sp0.drop_last());
            assert(stack_paths(stack@) =~= stack_paths(st_base) + kidp);
            assert(sp0.last() == np);
            assert forall|k: int| 0 <= k < kidp.len() implies (#[trigger] kidp[k]) == sp0.last().push(kidp[k].last()) by {
                assert(kidp[k] == stack@[st_base.len() + k].0.path());
            }
            assert forall|k1: int, k2: int| 0 <= k1 < k2 < kidp.len() implies (#[trigger] kidp[k1]).last() != (#[trigger] kidp[k2]).last() by {
                assert(kidp[k1] == stack@[st_base.len() + k1].0.path());
                assert(kidp[k2] == stack@[st_base.len() + k2].0.path());
            }
            lemma_apart_step(old_paths, sp0, kidp);
            assert(paths == old_paths.push(sp0.last()));
            assert(stack_at(st0, src, g, tid, old_paths));
            assert forall|j: int| 0 <= j < stack@.len() implies {
                let e = #[trigger] stack@[j];
                &&& e.0.source() == src
                &&& e.0.grammar() == g
                &&& e.0.tree_id() == tid
                &&& e.0.field() is None
                &&& reachable(src, g, e.0.path())
                &&& (e.1 is None ==> e.0.path() == Seq::<usize>::empty())
                &&& (e.1 matches Some(p) ==> child_path(src, g, paths[p as int], e.0.path()))
            } by {
                if j < st_base.len() {
                    assert(stack@[j] == st_base[j]);
                    assert(st_base[j] == st0[j]);
                    let e = st0[j];
                    if let Some(p) = e.1 {
                        assert(p < old_paths.len());
                        assert(paths[p as int] == old_paths[p as int]);
                    }
                } else {
                    lemma_child_reachable(src, g, np, stack@[j].0.path());
                }
            }
            assert forall|j: int| 0 <= j < stack@.len() implies ((#[trigger] stack@[j]).1 matches Some(p) ==> p < t.nodes@.len()) by {
                if j < st_base.len() {
                    assert(stack@[j] == st_base[j]);
                    assert(st_base[j] == st0[j]);
                }
            }
            assert forall|m: int, j: usize|
                0 <= m < t.nodes@.len() && j < ts_child_count(src, g, paths[m]) && #[trigger] ts_has_child(src, g, paths[m], j)
                implies child_copied(t, paths, m, j) || child_pending(stack@, paths, m, j) by {
                if m < idx {
                    if !child_copied(t, paths, m, j) {
                        assert(child_pending(st_base, paths, m, j));
                        let w = choose|w: int| 0 <= w < st_base.len() && st_base[w].1 == Some(m as usize) && st_base[w].0.path() == paths[m].push(j);
                        assert(stack@[w] == st_base[w]);
                    }
                } else {
                    assert(m == idx);
                    assert(paths[m] == np);
                    let w = choose|w: int| st_base.len() <= w < stack@.len() && stack@[w].0.path() == np.push(j);
                    assert(stack@[w].1 == Some(idx));
                }
            }
        }
        proof {
            assert(pending_after(t, paths, st_base));
            assert(pending_ordered(st_base));
            assert(t.nodes@[idx as int].children@.len() == 0);
            assert forall|m: int, k: int, w: int|
                0 <= m < t.nodes@.len() && 0 <= k < t.nodes@[m].children@.len() && 0 <= w < stack@.len()
                    && stack@[w].1 == Some(m as usize)
                implies #[trigger] child_index(t, paths, m, k) < (#[trigger] stack@[w]).0.path().last() by {
                if w < st_base.len() {
                    assert(stack@[w] == st_base[w]);
                }
            }
            assert forall|w1: int, w2: int| 0 <= w1 < w2 < stack@.len() && (#[trigger] stack@[w1]).1 is Some
                && stack@[w1].1 == (#[trigger] stack@[w2]).1
                implies stack@[w2].0.path().last() < stack@[w1].0.path().last() by {
                if w2 < st_base.len() {
                    assert(stack@[w1] == st_base[w1] && stack@[w2] == st_base[w2]);
                } else if w1 < st_base.len() {
                    assert(stack@[w1] == st_base[w1]);
                    assert(stack@[w1] == st0[w1]);
                }
            }
        }
        handles.push(node);
        fields.push(field);
    }
    let mut result = SyntaxTree { nodes: Vec::new() };
    let mut i: usize = 0;
    while i < t.nodes.len()
        invariant
            all_links_wf(t),
            i <= t.nodes.len(),
            paths.len() == t.nodes@.len(),
            t.nodes@.len() > 0,
            handles_at(handles@, src, g, tid, paths),
            fields_at(fields@, src, g, tid, paths),
            children_ordered(t, paths),
            result.nodes@.len() == i,
            forall|m: int| 0 <= m < i ==> {
                &&& (#[trigger] result.nodes@[m]).children@ == t.nodes@[m].children@
                &&& result.nodes@[m].start_row == t.nodes@[m].start_row
                &&& result.nodes@[m].end_row == t.nodes@[m].end_row
                &&& result.nodes@[m].parent == t.nodes@[m].parent
                &&& result.nodes@[m].pos_in_parent == t.nodes@[m].pos_in_parent
                &&& result.nodes@[m].is_named == t.nodes@[m].is_named
                &&& result.nodes@[m].kind@ == t.nodes@[m].kind@
                &&& result.nodes@[m].text == t.nodes@[m].text
                &&& (result.nodes@[m].name_child matches Some(q) ==> q < t.nodes@[m].children@.len()
                    && ts_has_field(src, g, paths[m], "name"@)
                    && ts_same(src, g, paths[t.nodes@[m].children@[q as int] as int], None, paths[m], Some("name"@)))
                &&& (result.nodes@[m].name_child is None ==> (ts_has_field(src, g, paths[m], "name"@) ==>
                    forall|k: int| 0 <= k < t.nodes@[m].children@.len()
                        ==> !ts_same(src, g, #[trigger] paths[t.nodes@[m].children@[k] as int], None, paths[m], Some("name"@))))
            },
        decreases t.nodes.len() - i,
    {
        let src_node = &t.nodes[i];
        assert(t.links_wf(i as int));
        let name_child = named_position(&handles, &src_node.children, &fields[i]);
        proof {
            if name_child is None && ts_has_field(src, g, paths[i as int], "name"@) {
                let f = fields@[i as int]->0;
                assert forall|k: int| 0 <= k < t.nodes@[i as int].children@.len()
                    implies !ts_same(src, g, #[trigger] paths[t.nodes@[i as int].children@[k] as int], None, paths[i as int], Some("name"@)) by {
                    let h = handles@[src_node.children@[k] as int];
                    assert(h.path() == paths[t.nodes@[i as int].children@[k] as int]);
                }
            }
        }
        let mut children: Vec<usize> = Vec::new();
        let mut k: usize = 0;
        while k < src_node.children.len()
            invariant
                k <= src_node.children.len(),
                children@ == src_node.children@.take(k as int),
            decreases src_node.children.len() - k,
        {
            children.push(src_node.children[k]);
            k = k + 1;
            assert(children@ =~= src_node.children@.take(k as int));
        }
        assert(children@ =~= src_node.children@);
        result.nodes.push(SyntaxNode {
            kind: copy_kind_text(&src_node.kind),
            is_named: src_node.is_named,
            start_row: src_node.start_row,
            end_row: src_node.end_row,
            parent: src_node.parent,
            pos_in_parent: src_node.pos_in_parent,
            children,
            name_child,
            text: copy_opt_text(&src_node.text),
        });
        i = i + 1;
    }
    proof {
        assert forall|m: int| 0 <= m < result.nodes@.len() implies #[trigger] result.node_wf(m) by {
            assert(t.links_wf(m));
            if let Some(q) = result.nodes@[m].parent {
                assert(t.links_wf(q as int));
            }
            let ch = result.nodes@[m].children@;
            assert forall|k: int| 0 <= k < ch.len() implies {
                &&& m < #[trigger] ch[k] < result.nodes@.len()
                &&& result.nodes@[ch[k] as int].parent == Some(m as usize)
                &&& result.nodes@[ch[k] as int].pos_in_parent == k
            } by {
                assert(ch[k] == t.nodes@[m].children@[k]);
            }
        }
        assert(t.links_wf(0));
        assert forall|m: int, k1: int, k2: int| 0 <= m < result.nodes@.len() && 0 <= k1 < k2 < result.nodes@[m].children@.len()
            implies #[trigger] child_index(result, paths, m, k1) < #[trigger] child_index(result, paths, m, k2) by {
            assert(child_index(t, paths, m, k1) < child_index(t, paths, m, k2));
        }
        assert(copies_tree(result, src, g, paths));
        assert forall|p: Seq<usize>| #[trigger] reachable(src, g, p)
            implies !(ts_start_row(src, g, p, None) == usize::MAX || ts_end_row(src, g, p, None) == usize::MAX) by {
            law_copy_complete(result, src, g, paths, p);
            let m = choose|m: int| 0 <= m < result.nodes@.len() && #[trigger] paths[m] == p;
            assert(result.node_wf(m));
            assert(node_copies(result.nodes@[m], src, g, paths[m]));
        }
    }
    let ret = Some(result);
    assert(copies_tree(ret->0, tree.source(), tree.grammar(), paths));
    ret
}

fn copy_kind_text(s: &String) -> (r: String)
    ensures
        r@ == s@,
{
    s.clone()
}

fn copy_opt_text(s: &Option<String>) -> (r: Option<String>)
    ensures
        r == *s,
{
    match s {
        Some(x) => Some(x.clone()),
        None => None,
    }
}

} // verus!
