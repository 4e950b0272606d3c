//! The tree-sitter parser: declarations of its types and the calls the
//! library makes into it.
//!
//! The handles below pair each tree-sitter value with what it stands for:
//! a language with its grammar, a tree with the source and grammar it was
//! parsed from, and a node with its address in that tree (the child indices
//! leading to it from the root, and the field it was reached through). What
//! tree-sitter reports about a node is a function of the source, the grammar
//! and that address; the `ts_*` names stand for those functions.
use vstd::prelude::*;
use crate::scope::Grammar;

verus! {

#[verifier::external_type_specification]
#[verifier::external_body]
pub struct ExLanguage(tree_sitter::Language);

#[verifier::external_type_specification]
#[verifier::external_body]
pub struct ExParser(tree_sitter::Parser);

#[verifier::external_type_specification]
#[verifier::external_body]
pub struct ExTree(tree_sitter::Tree);

#[verifier::external_type_specification]
#[verifier::external_body]
pub struct ExNode<'tree>(tree_sitter::Node<'tree>);

/// Whether `Parser::set_language` accepts the language of grammar `g` (its
/// ABI version is one this tree-sitter supports).
pub uninterp spec fn ts_accepts(g: Grammar) -> bool;

/// `Node::kind` of the node at `path` (through `field`) in the tree of
/// `source` parsed with grammar `g`.
pub uninterp spec fn ts_kind(source: Seq<char>, g: Grammar, path: Seq<usize>, field: Option<Seq<char>>) -> Seq<char>;

/// `Node::is_named` of that node.
pub uninterp spec fn ts_named(source: Seq<char>, g: Grammar, path: Seq<usize>, field: Option<Seq<char>>) -> bool;

/// The row of `Node::start_position` of that node.
pub uninterp spec fn ts_start_row(source: Seq<char>, g: Grammar, path: Seq<usize>, field: Option<Seq<char>>) -> usize;

/// The row of `Node::end_position` of that node.
pub uninterp spec fn ts_end_row(source: Seq<char>, g: Grammar, path: Seq<usize>, field: Option<Seq<char>>) -> usize;

/// `Node::start_byte` of that node.
pub uninterp spec fn ts_start_byte(source: Seq<char>, g: Grammar, path: Seq<usize>, field: Option<Seq<char>>) -> usize;

/// `Node::end_byte` of that node.
pub uninterp spec fn ts_end_byte(source: Seq<char>, g: Grammar, path: Seq<usize>, field: Option<Seq<char>>) -> usize;

/// `Node::child_count` of the node at `path`.
pub uninterp spec fn ts_child_count(source: Seq<char>, g: Grammar, path: Seq<usize>) -> usize;

/// Whether `Node::child(i)` of the node at `path` is some node.
pub uninterp spec fn ts_has_child(source: Seq<char>, g: Grammar, path: Seq<usize>, i: usize) -> bool;

/// Whether `Node::child_by_field_name(field)` of the node at `path` is some node.
pub uninterp spec fn ts_has_field(source: Seq<char>, g: Grammar, path: Seq<usize>, field: Seq<char>) -> bool;

/// Whether the nodes at two addresses of one tree of `source` parsed with
/// grammar `g` are the same node (`Node`'s `==` on two nodes of that one
/// tree; it compares the nodes' subtrees by address, so nodes of two
/// different trees are never the same).
pub uninterp spec fn ts_same(
    source: Seq<char>,
    g: Grammar,
    path_a: Seq<usize>,
    field_a: Option<Seq<char>>,
    path_b: Seq<usize>,
    field_b: Option<Seq<char>>,
) -> bool;

/// A tree-sitter language together with the grammar it is.
pub struct TsLanguage {
    language: tree_sitter::Language,
    grammar: Ghost<Grammar>,
}

impl TsLanguage {
    pub closed spec fn grammar(&self) -> Grammar {
        self.grammar@
    }
}

/// A tree-sitter parser together with the grammar its language is, if set.
pub struct TsParser {
    parser: tree_sitter::Parser,
    grammar: Ghost<Option<Grammar>>,
}

impl TsParser {
    pub closed spec fn grammar(&self) -> Option<Grammar> {
        self.grammar@
    }
}

/// A tree-sitter tree together with the source and grammar it was parsed
/// from, and an identity that tells it apart from every other tree.
pub struct TsTree {
    tree: tree_sitter::Tree,
    text: String,
    grammar: Ghost<Grammar>,
    id: Ghost<int>,
}

impl TsTree {
    pub closed spec fn source(&self) -> Seq<char> {
        self.text@
    }

    pub closed spec fn grammar(&self) -> Grammar {
        self.grammar@
    }

    /// The identity of the tree: nodes with the same identity belong to the
    /// same tree.
    pub closed spec fn tree_id(&self) -> int {
        self.id@
    }

    /// The source the tree was parsed from.
    pub fn text(&self) -> (r: &str)
        ensures
            r@ == self.source(),
    {
        self.text.as_str()
    }
}

/// A node of a tree-sitter tree together with its address in the tree: the
/// child indices from the root, then the field it was reached through, if any.
pub struct TsNode<'t> {
    node: tree_sitter::Node<'t>,
    tree: Ghost<int>,
    source: Ghost<Seq<char>>,
    grammar: Ghost<Grammar>,
    path: Ghost<Seq<usize>>,
    field: Ghost<Option<Seq<char>>>,
}

impl<'t> TsNode<'t> {
    /// The identity of the tree the node belongs to.
    pub closed spec fn tree_id(&self) -> int {
        self.tree@
    }

    pub closed spec fn source(&self) -> Seq<char> {
        self.source@
    }

    pub closed spec fn grammar(&self) -> Grammar {
        self.grammar@
    }

    pub closed spec fn path(&self) -> Seq<usize> {
        self.path@
    }

    pub closed spec fn field(&self) -> Option<Seq<char>> {
        self.field@
    }
}


/// `tree_sitter_rust::LANGUAGE`, as a `Language`: the Rust grammar.
#[verifier::external_body]
pub(crate) fn rust_language() -> (r: TsLanguage)
    ensures
        r.grammar() == Grammar::Rust,
{
    TsLanguage { language: tree_sitter_rust::LANGUAGE.into(), grammar: Ghost(Grammar::Rust) }
}

/// `tree_sitter_python::LANGUAGE`, as a `Language`: the Python grammar.
#[verifier::external_body]
pub(crate) fn python_language() -> (r: TsLanguage)
    ensures
        r.grammar() == Grammar::Python,
{
    TsLanguage { language: tree_sitter_python::LANGUAGE.into(), grammar: Ghost(Grammar::Python) }
}

/// `tree_sitter_go::LANGUAGE`, as a `Language`: the Go grammar.
#[verifier::external_body]
pub(crate) fn go_language() -> (r: TsLanguage)
    ensures
        r.grammar() == Grammar::Go,
{
    TsLanguage { language: tree_sitter_go::LANGUAGE.into(), grammar: Ghost(Grammar::Go) }
}

/// `tree_sitter_javascript::LANGUAGE`, as a `Language`: the JavaScript grammar.
#[verifier::external_body]
pub(crate) fn javascript_language() -> (r: TsLanguage)
    ensures
        r.grammar() == Grammar::JavaScript,
{
    TsLanguage { language: tree_sitter_javascript::LANGUAGE.into(), grammar: Ghost(Grammar::JavaScript) }
}

/// `tree_sitter_typescript::LANGUAGE_TYPESCRIPT`, as a `Language`: the TypeScript grammar.
#[verifier::external_body]
pub(crate) fn typescript_language() -> (r: TsLanguage)
    ensures
        r.grammar() == Grammar::TypeScript,
{
    TsLanguage { language: tree_sitter_typescript::LANGUAGE_TYPESCRIPT.into(), grammar: Ghost(Grammar::TypeScript) }
}

/// `tree_sitter_typescript::LANGUAGE_TSX`, as a `Language`: the Tsx grammar.
#[verifier::external_body]
pub(crate) fn tsx_language() -> (r: TsLanguage)
    ensures
        r.grammar() == Grammar::Tsx,
{
    TsLanguage { language: tree_sitter_typescript::LANGUAGE_TSX.into(), grammar: Ghost(Grammar::Tsx) }
}

/// `tree_sitter_c::LANGUAGE`, as a `Language`: the C grammar.
#[verifier::external_body]
pub(crate) fn c_language() -> (r: TsLanguage)
    ensures
        r.grammar() == Grammar::C,
{
    TsLanguage { language: tree_sitter_c::LANGUAGE.into(), grammar: Ghost(Grammar::C) }
}

/// `tree_sitter_haskell::LANGUAGE`, as a `Language`: the Haskell grammar.
#[verifier::external_body]
pub(crate) fn haskell_language() -> (r: TsLanguage)
    ensures
        r.grammar() == Grammar::Haskell,
{
    TsLanguage { language: tree_sitter_haskell::LANGUAGE.into(), grammar: Ghost(Grammar::Haskell) }
}

/// `tree_sitter_nix::LANGUAGE`, as a `Language`: the Nix grammar.
#[verifier::external_body]
pub(crate) fn nix_language() -> (r: TsLanguage)
    ensures
        r.grammar() == Grammar::Nix,
{
    TsLanguage { language: tree_sitter_nix::LANGUAGE.into(), grammar: Ghost(Grammar::Nix) }
}

/// `Parser::new`: a parser with no language set.
#[verifier::external_body]
pub(crate) fn parser_new() -> (r: TsParser)
    ensures
        r.grammar() is None,
{
    TsParser { parser: tree_sitter::Parser::new(), grammar: Ghost(None) }
}

/// `Parser::set_language`: whether the language was accepted (its ABI
/// version is one this tree-sitter supports), in which case the parser
/// parses with it from now on; otherwise the parser is left as it was.
#[verifier::external_body]
pub(crate) fn parser_set_language(parser: &mut TsParser, language: &TsLanguage) -> (r: bool)
    ensures
        r == ts_accepts(language.grammar()),
        r ==> final(parser).grammar() == Some(language.grammar()),
        !r ==> final(parser).grammar() == old(parser).grammar(),
{
    let ok = parser.parser.set_language(&language.language).is_ok();
    if ok {
        parser.grammar = Ghost(Some(language.grammar@));
    }
    ok
}

/// `Parser::parse` of `source` with no previous tree: the syntax tree, or
/// none when the parser has no language (no timeout or cancellation flag is
/// ever set here, the other two reasons for none). Nothing is said of the
/// new tree's identity, so no two trees can be shown to share one.
#[verifier::external_body]
pub(crate) fn parser_parse(parser: &mut TsParser, source: &str) -> (r: Option<TsTree>)
    ensures
        r is Some <==> old(parser).grammar() is Some,
        r matches Some(t) ==> t.source() == source@ && Some(t.grammar()) == old(parser).grammar(),
        final(parser).grammar() == old(parser).grammar(),
{
    match parser.parser.parse(source, None) {
        Some(tree) => Some(TsTree {
            tree,
            text: source.to_string(),
            grammar: Ghost(parser.grammar@.unwrap()),
            id: Ghost(arbitrary()),
        }),
        None => None,
    }
}

/// `Tree::root_node`: the node at the empty path.
#[verifier::external_body]
pub(crate) fn tree_root<'t>(tree: &'t TsTree) -> (r: TsNode<'t>)
    ensures
        r.tree_id() == tree.tree_id(),
        r.source() == tree.source(),
        r.grammar() == tree.grammar(),
        r.path() == Seq::<usize>::empty(),
        r.field() is None,
{
    TsNode {
        node: tree.tree.root_node(),
        tree: Ghost(tree.id@),
        source: Ghost(tree.text@),
        grammar: Ghost(tree.grammar@),
        path: Ghost(Seq::empty()),
        field: Ghost(None),
    }
}

/// `Node::kind`: the grammar's name for the node's type.
#[verifier::external_body]
pub(crate) fn node_kind(node: &TsNode) -> (r: String)
    ensures
        r@ == ts_kind(node.source(), node.grammar(), node.path(), node.field()),
{
    node.node.kind().to_string()
}

/// `Node::is_named`.
#[verifier::external_body]
pub(crate) fn node_is_named(node: &TsNode) -> (r: bool)
    ensures
        r == ts_named(node.source(), node.grammar(), node.path(), node.field()),
{
    node.node.is_named()
}

/// `Node::start_position`: its row (0-based).
#[verifier::external_body]
pub(crate) fn node_start_row(node: &TsNode) -> (r: usize)
    ensures
        r == ts_start_row(node.source(), node.grammar(), node.path(), node.field()),
{
    node.node.start_position().row
}

/// `Node::end_position`: its row (0-based).
#[verifier::external_body]
pub(crate) fn node_end_row(node: &TsNode) -> (r: usize)
    ensures
        r == ts_end_row(node.source(), node.grammar(), node.path(), node.field()),
{
    node.node.end_position().row
}

/// `Node::start_byte`.
#[verifier::external_body]
pub(crate) fn node_start_byte(node: &TsNode) -> (r: usize)
    ensures
        r == ts_start_byte(node.source(), node.grammar(), node.path(), node.field()),
{
    node.node.start_byte()
}

/// `Node::end_byte`.
#[verifier::external_body]
pub(crate) fn node_end_byte(node: &TsNode) -> (r: usize)
    ensures
        r == ts_end_byte(node.source(), node.grammar(), node.path(), node.field()),
{
    node.node.end_byte()
}

/// `Node::child_count`.
#[verifier::external_body]
pub(crate) fn node_child_count(node: &TsNode) -> (r: usize)
    requires
        node.field() is None,
    ensures
        r == ts_child_count(node.source(), node.grammar(), node.path()),
{
    node.node.child_count()
}

/// `Node::child`: the child at index `i`, if any, at the path extended by `i`.
#[verifier::external_body]
pub(crate) fn node_child<'t>(node: &TsNode<'t>, i: usize) -> (r: Option<TsNode<'t>>)
    requires
        node.field() is None,
    ensures
        r is Some <==> ts_has_child(node.source(), node.grammar(), node.path(), i),
        r matches Some(c) ==> c.tree_id() == node.tree_id() && c.source() == node.source() && c.grammar() == node.grammar()
            && c.path() == node.path().push(i) && c.field() is None,
{
    match node.node.child(i) {
        Some(c) => Some(TsNode {
            node: c,
            tree: Ghost(node.tree@),
            source: Ghost(node.source@),
            grammar: Ghost(node.grammar@),
            path: Ghost(node.path@.push(i)),
            field: Ghost(None),
        }),
        None => None,
    }
}

/// `Node::child_by_field_name`: the first child in the field `field`.
#[verifier::external_body]
pub(crate) fn node_child_by_field_name<'t>(node: &TsNode<'t>, field: &str) -> (r: Option<TsNode<'t>>)
    requires
        node.field() is None,
    ensures
        r is Some <==> ts_has_field(node.source(), node.grammar(), node.path(), field@),
        r matches Some(c) ==> c.tree_id() == node.tree_id() && c.source() == node.source() && c.grammar() == node.grammar()
            && c.path() == node.path() && c.field() == Some(field@),
{
    match node.node.child_by_field_name(field) {
        Some(c) => Some(TsNode {
            node: c,
            tree: Ghost(node.tree@),
            source: Ghost(node.source@),
            grammar: Ghost(node.grammar@),
            path: Ghost(node.path@),
            field: Ghost(Some(field@)),
        }),
        None => None,
    }
}

/// `Node`'s `==` on two nodes of one tree: whether they are the same node.
#[verifier::external_body]
pub(crate) fn node_same(a: &TsNode, b: &TsNode) -> (r: bool)
    requires
        a.tree_id() == b.tree_id(),
        a.source() == b.source(),
        a.grammar() == b.grammar(),
    ensures
        r == ts_same(a.source(), a.grammar(), a.path(), a.field(), b.path(), b.field()),
{
    a.node == b.node
}

} // verus!
