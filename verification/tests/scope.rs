use marginalia::scope::Grammar;
use marginalia::scope::{find_scope, is_scope_node, kind_prefix, language_for_extension, parse, syntax_tree, Scope};

fn scope_of(source: &str, ext: &str, line: usize) -> Option<Scope> {
    let lang = language_for_extension(ext).unwrap();
    let tree = parse(source, lang).unwrap();
    let st = syntax_tree(&tree).unwrap();
    find_scope(&st, line)
}

#[test]
fn rust_function_scope() {
    let source = "\
// [check] Verify bounds
fn process(x: usize) -> usize {
    x + 1
}

fn other() {}
";
    let scope = scope_of(source, "rs", 1).unwrap();
    // The function_item spans lines 2-4
    assert_eq!(scope.start, 2);
    assert_eq!(scope.end, 4);
}

#[test]
fn rust_impl_block_scope() {
    let source = "\
struct Foo;

// [check] Verify all trait methods
impl Foo {
    fn bar(&self) {}
    fn baz(&self) {}
}
";
    let scope = scope_of(source, "rs", 3).unwrap();
    assert_eq!(scope.start, 4);
    assert_eq!(scope.end, 7);
}

#[test]
fn python_function_scope() {
    let source = "\
# [check] Ensure rate limiting
def call_service(payload):
    for attempt in range(3):
        try_call(payload)
";
    let scope = scope_of(source, "py", 1).unwrap();
    assert_eq!(scope.start, 2);
    assert_eq!(scope.end, 4);
}

#[test]
fn python_class_scope() {
    let source = "\
# [check:file] Check all validators
class UserValidator:
    def validate_email(self):
        pass
    def validate_name(self):
        pass
";
    let scope = scope_of(source, "py", 1).unwrap();
    assert_eq!(scope.start, 2);
    assert_eq!(scope.end, 6);
}

#[test]
fn go_function_scope() {
    let source = "\
// [check] Verify error handling
func Process(x int) (int, error) {
\treturn x + 1, nil
}
";
    let scope = scope_of(source, "go", 1).unwrap();
    assert_eq!(scope.start, 2);
    assert_eq!(scope.end, 4);
}

#[test]
fn comment_inside_function() {
    let source = "\
fn outer() {
    // [check] Verify this inner logic
    let x = dangerous_call();
    let y = x + 1;
}
";
    let scope = scope_of(source, "rs", 2).unwrap();
    // Should find the enclosing function
    assert_eq!(scope.start, 1);
    assert_eq!(scope.end, 5);
}

#[test]
fn no_grammar_returns_none() {
    assert!(language_for_extension("xyz").is_none());
}

#[test]
fn haskell_function_scope() {
    let source = "\
-- [check] Verify purity
process :: Int -> Int
process x = x + 1
";
    let scope = scope_of(source, "hs", 1).unwrap();
    // Should cover at least the function signature and body
    assert!(scope.start <= 2);
    assert!(scope.end >= 3);
}

// ---------------------------------------------------------------------
// Further cases.
// ---------------------------------------------------------------------

#[test]
fn rust_function_label() {
    let source = "\
// [check] Verify bounds
fn process(x: usize) -> usize {
    x + 1
}
";
    let scope = scope_of(source, "rs", 1).unwrap();
    assert_eq!(scope.label, Some("fn process".to_string()));
}

#[test]
fn python_class_label() {
    let source = "\
# [check] Check all validators
class UserValidator:
    pass
";
    let scope = scope_of(source, "py", 1).unwrap();
    assert_eq!(scope.label, Some("class UserValidator".to_string()));
}

#[test]
fn consecutive_items_extend_the_scope() {
    // A [check] above a run of adjacent consts covers all of them.
    let source = "\
// [check] Keep these in sync
const A: u32 = 1;
const B: u32 = 2;

fn later() {}
";
    let scope = scope_of(source, "rs", 1).unwrap();
    assert_eq!(scope.start, 2);
    assert_eq!(scope.end, 3);
    assert_eq!(scope.label, Some("const A".to_string()));
}

#[test]
fn known_grammars() {
    for ext in ["rs", "py", "pyi", "pyw", "go", "js", "mjs", "cjs", "jsx", "ts", "mts", "cts", "tsx", "c", "h", "hs", "nix"] {
        assert!(language_for_extension(ext).is_some(), "{}", ext);
    }
    for ext in ["", "RS", "md", "cpp", "java"] {
        assert!(language_for_extension(ext).is_none(), "{}", ext);
    }
}

#[test]
fn c_function_scope() {
    let source = "\
/* [check] Verify the buffer size */
int copy(char *dst, const char *src) {
    return 0;
}
";
    let scope = scope_of(source, "c", 1).unwrap();
    assert_eq!(scope.start, 2);
    assert_eq!(scope.end, 4);
}

#[test]
fn every_grammar_parses() {
    let samples = [
        ("rs", "fn f() {}\n"),
        ("py", "def f():\n    pass\n"),
        ("go", "package p\nfunc F() {}\n"),
        ("js", "function f() {}\n"),
        ("ts", "function f(): void {}\n"),
        ("tsx", "const x = <div />;\n"),
        ("c", "int f(void) { return 0; }\n"),
        ("hs", "f x = x\n"),
        ("nix", "{ a = 1; }\n"),
    ];
    for (ext, source) in samples {
        let lang = language_for_extension(ext).unwrap();
        let tree = parse(source, lang);
        assert!(tree.is_some(), "{}", ext);
        assert!(syntax_tree(&tree.unwrap()).is_some(), "{}", ext);
    }
}

#[test]
fn nix_binding_scope() {
    let source = "\
{
  # [check] Keep the version in sync
  version = \"1.0\";
  other = 2;
}
";
    let scope = scope_of(source, "nix", 2).unwrap();
    assert_eq!(scope.start, 3);
}

#[test]
fn javascript_function_scope() {
    let source = "\
// [check] Pull up /settings in the browser after changing this.
function renderSettingsForm(user) {
  return user;
}
";
    let scope = scope_of(source, "js", 1).unwrap();
    assert_eq!(scope.start, 2);
    assert_eq!(scope.end, 4);
    assert_eq!(scope.label, Some("fn renderSettingsForm".to_string()));
}

#[test]
fn extensions_pick_their_grammar() {
    assert_eq!(language_for_extension("rs"), Some(Grammar::Rust));
    assert_eq!(language_for_extension("pyi"), Some(Grammar::Python));
    assert_eq!(language_for_extension("mjs"), Some(Grammar::JavaScript));
    assert_eq!(language_for_extension("cts"), Some(Grammar::TypeScript));
    assert_eq!(language_for_extension("tsx"), Some(Grammar::Tsx));
    assert_eq!(language_for_extension("h"), Some(Grammar::C));
    assert_eq!(language_for_extension("hs"), Some(Grammar::Haskell));
    assert_eq!(language_for_extension("nix"), Some(Grammar::Nix));
    assert_eq!(language_for_extension("go"), Some(Grammar::Go));
}

#[test]
fn copied_tree_mirrors_the_source() {
    let source = "fn a() {}\nfn b() {}\n";
    let tree = parse(source, language_for_extension("rs").unwrap()).unwrap();
    let st = syntax_tree(&tree).unwrap();
    assert_eq!(st.nodes[0].kind, "source_file");
    assert_eq!(st.nodes[0].parent, None);
    let roots: Vec<&str> = st.nodes[0]
        .children
        .iter()
        .map(|&c| st.nodes[c].kind.as_str())
        .collect();
    assert_eq!(roots, vec!["function_item", "function_item"]);
    let second = st.nodes[0].children[1];
    assert_eq!(st.nodes[second].start_row, 1);
    assert_eq!(st.nodes[second].text.as_deref(), Some("fn b() {}"));
}

#[test]
fn prefixes_exactly_for_scope_kinds() {
    assert_eq!(kind_prefix("function_item"), "fn");
    assert_eq!(kind_prefix("const_item"), "const");
    assert_eq!(kind_prefix("class_definition"), "class");
    assert_eq!(kind_prefix("comment"), "");
    for kind in ["function_item", "const_item", "class_definition", "binding", "comment", "identifier", ""] {
        assert_eq!(kind_prefix(kind).is_empty(), !is_scope_node(kind));
    }
}

#[test]
fn name_child_is_the_name_field() {
    let source = "fn process(x: usize) -> usize {\n    x + 1\n}\n";
    let tree = parse(source, language_for_extension("rs").unwrap()).unwrap();
    let st = syntax_tree(&tree).unwrap();
    let f = st.nodes[0].children[0];
    assert_eq!(st.nodes[f].kind, "function_item");
    let q = st.nodes[f].name_child.unwrap();
    let name = st.nodes[f].children[q];
    assert_eq!(st.nodes[name].text.as_deref(), Some("process"));
}
