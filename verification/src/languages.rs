//! Comment syntax by file extension.
//!
//! The table follows the `line_comment`, `multi_line_comments` and
//! `extensions` entries of tokei's `languages.json` for the languages listed
//! here (the first language that lists an extension gives its syntax), with
//! one addition: Markdown files, which tokei lists without comments, use
//! HTML comments. Extensions not listed have no comment syntax here.
use vstd::prelude::*;
use crate::comments::{CommentTokens, TokensView};
use crate::text::{chars_eq, chars_of, string_of};

verus! {

broadcast use crate::text::lemma_char_vec_deep_view;

/// A family of languages that share their comment syntax.
pub enum CommentStyle {
    /// `//` lines and `/* */` blocks (C, C++, Rust, Go, Java, JavaScript, TypeScript, ...).
    CLike,
    /// `//` lines only (Zig, Protocol Buffers).
    SlashLine,
    /// `#` lines only (Python, shells, TOML, YAML, R, Elixir, Makefiles, ...).
    Hash,
    /// `#` lines and `/* */` blocks (Nix).
    Nix,
    /// `#` lines and `=begin`/`=end` blocks (Ruby).
    Ruby,
    /// `#` lines and `=pod`/`=cut` blocks (Perl).
    Perl,
    /// `#` lines and `#= =#` blocks (Julia).
    Julia,
    /// `#` lines and `<# #>` blocks (PowerShell).
    PowerShell,
    /// `#` and `//` lines and `/* */` blocks (PHP, HCL).
    HashSlash,
    /// `--` lines and `{- -}` blocks (Haskell, Elm, PureScript).
    Haskell,
    /// `--` lines and `/* */` blocks (SQL).
    Sql,
    /// `--` lines and `--[[ ]]` blocks (Lua).
    Lua,
    /// `<!-- -->` blocks (HTML, XML, SVG, Markdown).
    Markup,
    /// `/* */` blocks only (CSS).
    CssBlock,
    /// `(* *)` blocks only (OCaml, Standard ML).
    MlBlock,
    /// `;` lines only (Clojure, Emacs Lisp, assembly).
    Semicolon,
    /// `;` lines and `#| |#` blocks (Common Lisp, Scheme, Racket).
    Lisp,
    /// `%` lines only (TeX, Erlang).
    Percent,
    /// `"` lines only (Vim script).
    Vim,
    /// `;` and `#` lines (INI).
    Ini,
    /// no comment syntax (JSON, plain text).
    NoComments,
}

/// The comment tokens of a style.
pub open spec fn style_tokens(style: CommentStyle) -> TokensView {
    match style {
        CommentStyle::CLike => TokensView { line: seq![seq!['/', '/']], block: seq![(seq!['/', '*'], seq!['*', '/'])] },
        CommentStyle::SlashLine => TokensView { line: seq![seq!['/', '/']], block: Seq::empty() },
        CommentStyle::Hash => TokensView { line: seq![seq!['#']], block: Seq::empty() },
        CommentStyle::Nix => TokensView { line: seq![seq!['#']], block: seq![(seq!['/', '*'], seq!['*', '/'])] },
        CommentStyle::Ruby => TokensView { line: seq![seq!['#']], block: seq![(seq!['=', 'b', 'e', 'g', 'i', 'n'], seq!['=', 'e', 'n', 'd'])] },
        CommentStyle::Perl => TokensView { line: seq![seq!['#']], block: seq![(seq!['=', 'p', 'o', 'd'], seq!['=', 'c', 'u', 't'])] },
        CommentStyle::Julia => TokensView { line: seq![seq!['#']], block: seq![(seq!['#', '='], seq!['=', '#'])] },
        CommentStyle::PowerShell => TokensView { line: seq![seq!['#']], block: seq![(seq!['<', '#'], seq!['#', '>'])] },
        CommentStyle::HashSlash => TokensView { line: seq![seq!['#'], seq!['/', '/']], block: seq![(seq!['/', '*'], seq!['*', '/'])] },
        CommentStyle::Haskell => TokensView { line: seq![seq!['-', '-']], block: seq![(seq!['{', '-'], seq!['-', '}'])] },
        CommentStyle::Sql => TokensView { line: seq![seq!['-', '-']], block: seq![(seq!['/', '*'], seq!['*', '/'])] },
        CommentStyle::Lua => TokensView { line: seq![seq!['-', '-']], block: seq![(seq!['-', '-', '[', '['], seq![']', ']'])] },
        CommentStyle::Markup => TokensView { line: Seq::empty(), block: seq![(seq!['<', '!', '-', '-'], seq!['-', '-', '>'])] },
        CommentStyle::CssBlock => TokensView { line: Seq::empty(), block: seq![(seq!['/', '*'], seq!['*', '/'])] },
        CommentStyle::MlBlock => TokensView { line: Seq::empty(), block: seq![(seq!['(', '*'], seq!['*', ')'])] },
        CommentStyle::Semicolon => TokensView { line: seq![seq![';']], block: Seq::empty() },
        CommentStyle::Lisp => TokensView { line: seq![seq![';']], block: seq![(seq!['#', '|'], seq!['|', '#'])] },
        CommentStyle::Percent => TokensView { line: seq![seq!['%']], block: Seq::empty() },
        CommentStyle::Vim => TokensView { line: seq![seq!['"']], block: Seq::empty() },
        CommentStyle::Ini => TokensView { line: seq![seq![';'], seq!['#']], block: Seq::empty() },
        CommentStyle::NoComments => TokensView { line: Seq::empty(), block: Seq::empty() },
    }
}

/// The comment style of files with extension `ext` (without the dot),
/// matched exactly, case included.
pub open spec fn extension_style(ext: Seq<char>) -> Option<CommentStyle> {
    if ext == seq!['r', 's']
        || ext == seq!['c']
        || ext == seq!['h']
        || ext == seq!['c', 'c']
        || ext == seq!['c', 'p', 'p']
        || ext == seq!['c', 'x', 'x']
        || ext == seq!['h', 'h']
        || ext == seq!['h', 'p', 'p']
        || ext == seq!['h', 'x', 'x']
        || ext == seq!['g', 'o']
        || ext == seq!['j', 'a', 'v', 'a']
        || ext == seq!['j', 's']
        || ext == seq!['m', 'j', 's']
        || ext == seq!['c', 'j', 's']
        || ext == seq!['j', 's', 'x']
        || ext == seq!['t', 's']
        || ext == seq!['m', 't', 's']
        || ext == seq!['c', 't', 's']
        || ext == seq!['t', 's', 'x']
        || ext == seq!['k', 't']
        || ext == seq!['k', 't', 's']
        || ext == seq!['s', 'c', 'a', 'l', 'a']
        || ext == seq!['s', 'w', 'i', 'f', 't']
        || ext == seq!['c', 's']
        || ext == seq!['d', 'a', 'r', 't']
        || ext == seq!['g', 'r', 'o', 'o', 'v', 'y']
        || ext == seq!['s', 'o', 'l']
        || ext == seq!['s', 'c', 's', 's']
        || ext == seq!['s', 'a', 's', 's']
        || ext == seq!['l', 'e', 's', 's'] {
        Some(CommentStyle::CLike)
    } else if ext == seq!['z', 'i', 'g']
        || ext == seq!['p', 'r', 'o', 't', 'o'] {
        Some(CommentStyle::SlashLine)
    } else if ext == seq!['p', 'y']
        || ext == seq!['p', 'y', 'w']
        || ext == seq!['p', 'y', 'i']
        || ext == seq!['s', 'h']
        || ext == seq!['b', 'a', 's', 'h']
        || ext == seq!['z', 's', 'h']
        || ext == seq!['f', 'i', 's', 'h']
        || ext == seq!['t', 'o', 'm', 'l']
        || ext == seq!['y', 'a', 'm', 'l']
        || ext == seq!['y', 'm', 'l']
        || ext == seq!['r']
        || ext == seq!['e', 'x']
        || ext == seq!['e', 'x', 's']
        || ext == seq!['m', 'k']
        || ext == seq!['m', 'a', 'k']
        || ext == seq!['c', 'm', 'a', 'k', 'e']
        || ext == seq!['d', 'o', 'c', 'k', 'e', 'r', 'f', 'i', 'l', 'e'] {
        Some(CommentStyle::Hash)
    } else if ext == seq!['n', 'i', 'x'] {
        Some(CommentStyle::Nix)
    } else if ext == seq!['r', 'b'] {
        Some(CommentStyle::Ruby)
    } else if ext == seq!['p', 'l']
        || ext == seq!['p', 'm'] {
        Some(CommentStyle::Perl)
    } else if ext == seq!['j', 'l'] {
        Some(CommentStyle::Julia)
    } else if ext == seq!['p', 's', '1']
        || ext == seq!['p', 's', 'm', '1']
        || ext == seq!['p', 's', 'd', '1'] {
        Some(CommentStyle::PowerShell)
    } else if ext == seq!['p', 'h', 'p']
        || ext == seq!['t', 'f']
        || ext == seq!['h', 'c', 'l'] {
        Some(CommentStyle::HashSlash)
    } else if ext == seq!['h', 's']
        || ext == seq!['e', 'l', 'm']
        || ext == seq!['p', 'u', 'r', 's'] {
        Some(CommentStyle::Haskell)
    } else if ext == seq!['s', 'q', 'l'] {
        Some(CommentStyle::Sql)
    } else if ext == seq!['l', 'u', 'a'] {
        Some(CommentStyle::Lua)
    } else if ext == seq!['h', 't', 'm', 'l']
        || ext == seq!['h', 't', 'm']
        || ext == seq!['x', 'h', 't', 'm', 'l']
        || ext == seq!['x', 'm', 'l']
        || ext == seq!['s', 'v', 'g']
        || ext == seq!['m', 'd']
        || ext == seq!['m', 'a', 'r', 'k', 'd', 'o', 'w', 'n'] {
        Some(CommentStyle::Markup)
    } else if ext == seq!['c', 's', 's'] {
        Some(CommentStyle::CssBlock)
    } else if ext == seq!['m', 'l']
        || ext == seq!['m', 'l', 'i']
        || ext == seq!['s', 'm', 'l'] {
        Some(CommentStyle::MlBlock)
    } else if ext == seq!['c', 'l', 'j']
        || ext == seq!['c', 'l', 'j', 's']
        || ext == seq!['c', 'l', 'j', 'c']
        || ext == seq!['e', 'd', 'n']
        || ext == seq!['e', 'l']
        || ext == seq!['a', 's', 'm'] {
        Some(CommentStyle::Semicolon)
    } else if ext == seq!['l', 'i', 's', 'p']
        || ext == seq!['l', 's', 'p']
        || ext == seq!['s', 'c', 'm']
        || ext == seq!['s', 's']
        || ext == seq!['r', 'k', 't'] {
        Some(CommentStyle::Lisp)
    } else if ext == seq!['t', 'e', 'x']
        || ext == seq!['s', 't', 'y']
        || ext == seq!['e', 'r', 'l']
        || ext == seq!['h', 'r', 'l'] {
        Some(CommentStyle::Percent)
    } else if ext == seq!['v', 'i', 'm'] {
        Some(CommentStyle::Vim)
    } else if ext == seq!['i', 'n', 'i'] {
        Some(CommentStyle::Ini)
    } else if ext == seq!['j', 's', 'o', 'n']
        || ext == seq!['t', 'x', 't']
        || ext == seq!['t', 'e', 'x', 't'] {
        Some(CommentStyle::NoComments)
    } else {
        None
    }
}

/// Comment tokens for files with extension `ext`.
pub open spec fn spec_comment_tokens(ext: Seq<char>) -> Option<TokensView> {
    match extension_style(ext) {
        Some(s) => Some(style_tokens(s)),
        None => None,
    }
}

fn slice_to_vec(lit: &[char]) -> (r: Vec<char>)
    ensures
        r@ == lit@,
{
    let mut r: Vec<char> = Vec::new();
    let mut k: usize = 0;
    while k < lit.len()
        invariant
            k <= lit.len(),
            r@ == lit@.take(k as int),
        decreases lit.len() - k,
    {
        r.push(lit[k]);
        k = k + 1;
        assert(r@ =~= lit@.take(k as int));
    }
    assert(lit@.take(lit.len() as int) =~= lit@);
    r
}

/// Whether `e` holds exactly the characters of `lit`.
fn is(e: &Vec<char>, lit: &[char]) -> (r: bool)
    ensures
        r == (e@ == lit@),
{
    let v = slice_to_vec(lit);
    chars_eq(e, &v)
}

/// A `String` of the characters of `lit`.
fn text(lit: &[char]) -> (r: String)
    ensures
        r@ == lit@,
{
    string_of(&slice_to_vec(lit))
}

fn style_of(e: &Vec<char>) -> (r: Option<CommentStyle>)
    ensures
        r == extension_style(e@),
{
    proof {
        assert(['r', 's']@ =~= seq!['r', 's']);
        assert(['c']@ =~= seq!['c']);
        assert(['h']@ =~= seq!['h']);
        assert(['c', 'c']@ =~= seq!['c', 'c']);
        assert(['c', 'p', 'p']@ =~= seq!['c', 'p', 'p']);
        assert(['c', 'x', 'x']@ =~= seq!['c', 'x', 'x']);
        assert(['h', 'h']@ =~= seq!['h', 'h']);
        assert(['h', 'p', 'p']@ =~= seq!['h', 'p', 'p']);
        assert(['h', 'x', 'x']@ =~= seq!['h', 'x', 'x']);
        assert(['g', 'o']@ =~= seq!['g', 'o']);
        assert(['j', 'a', 'v', 'a']@ =~= seq!['j', 'a', 'v', 'a']);
        assert(['j', 's']@ =~= seq!['j', 's']);
        assert(['m', 'j', 's']@ =~= seq!['m', 'j', 's']);
        assert(['c', 'j', 's']@ =~= seq!['c', 'j', 's']);
        assert(['j', 's', 'x']@ =~= seq!['j', 's', 'x']);
        assert(['t', 's']@ =~= seq!['t', 's']);
        assert(['m', 't', 's']@ =~= seq!['m', 't', 's']);
        assert(['c', 't', 's']@ =~= seq!['c', 't', 's']);
        assert(['t', 's', 'x']@ =~= seq!['t', 's', 'x']);
        assert(['k', 't']@ =~= seq!['k', 't']);
        assert(['k', 't', 's']@ =~= seq!['k', 't', 's']);
        assert(['s', 'c', 'a', 'l', 'a']@ =~= seq!['s', 'c', 'a', 'l', 'a']);
        assert(['s', 'w', 'i', 'f', 't']@ =~= seq!['s', 'w', 'i', 'f', 't']);
        assert(['c', 's']@ =~= seq!['c', 's']);
        assert(['d', 'a', 'r', 't']@ =~= seq!['d', 'a', 'r', 't']);
        assert(['g', 'r', 'o', 'o', 'v', 'y']@ =~= seq!['g', 'r', 'o', 'o', 'v', 'y']);
        assert(['s', 'o', 'l']@ =~= seq!['s', 'o', 'l']);
        assert(['s', 'c', 's', 's']@ =~= seq!['s', 'c', 's', 's']);
        assert(['s', 'a', 's', 's']@ =~= seq!['s', 'a', 's', 's']);
        assert(['l', 'e', 's', 's']@ =~= seq!['l', 'e', 's', 's']);
    }
    if is(e, &['r', 's'])
        || is(e, &['c'])
        || is(e, &['h'])
        || is(e, &['c', 'c'])
        || is(e, &['c', 'p', 'p'])
        || is(e, &['c', 'x', 'x'])
        || is(e, &['h', 'h'])
        || is(e, &['h', 'p', 'p'])
        || is(e, &['h', 'x', 'x'])
        || is(e, &['g', 'o'])
        || is(e, &['j', 'a', 'v', 'a'])
        || is(e, &['j', 's'])
        || is(e, &['m', 'j', 's'])
        || is(e, &['c', 'j', 's'])
        || is(e, &['j', 's', 'x'])
        || is(e, &['t', 's'])
        || is(e, &['m', 't', 's'])
        || is(e, &['c', 't', 's'])
        || is(e, &['t', 's', 'x'])
        || is(e, &['k', 't'])
        || is(e, &['k', 't', 's'])
        || is(e, &['s', 'c', 'a', 'l', 'a'])
        || is(e, &['s', 'w', 'i', 'f', 't'])
        || is(e, &['c', 's'])
        || is(e, &['d', 'a', 'r', 't'])
        || is(e, &['g', 'r', 'o', 'o', 'v', 'y'])
        || is(e, &['s', 'o', 'l'])
        || is(e, &['s', 'c', 's', 's'])
        || is(e, &['s', 'a', 's', 's'])
        || is(e, &['l', 'e', 's', 's']) {
        return Some(CommentStyle::CLike);
    }
    proof {
        assert(['z', 'i', 'g']@ =~= seq!['z', 'i', 'g']);
        assert(['p', 'r', 'o', 't', 'o']@ =~= seq!['p', 'r', 'o', 't', 'o']);
    }
    if is(e, &['z', 'i', 'g'])
        || is(e, &['p', 'r', 'o', 't', 'o']) {
        return Some(CommentStyle::SlashLine);
    }
    proof {
        assert(['p', 'y']@ =~= seq!['p', 'y']);
        assert(['p', 'y', 'w']@ =~= seq!['p', 'y', 'w']);
        assert(['p', 'y', 'i']@ =~= seq!['p', 'y', 'i']);
        assert(['s', 'h']@ =~= seq!['s', 'h']);
        assert(['b', 'a', 's', 'h']@ =~= seq!['b', 'a', 's', 'h']);
        assert(['z', 's', 'h']@ =~= seq!['z', 's', 'h']);
        assert(['f', 'i', 's', 'h']@ =~= seq!['f', 'i', 's', 'h']);
        assert(['t', 'o', 'm', 'l']@ =~= seq!['t', 'o', 'm', 'l']);
        assert(['y', 'a', 'm', 'l']@ =~= seq!['y', 'a', 'm', 'l']);
        assert(['y', 'm', 'l']@ =~= seq!['y', 'm', 'l']);
        assert(['r']@ =~= seq!['r']);
        assert(['e', 'x']@ =~= seq!['e', 'x']);
        assert(['e', 'x', 's']@ =~= seq!['e', 'x', 's']);
        assert(['m', 'k']@ =~= seq!['m', 'k']);
        assert(['m', 'a', 'k']@ =~= seq!['m', 'a', 'k']);
        assert(['c', 'm', 'a', 'k', 'e']@ =~= seq!['c', 'm', 'a', 'k', 'e']);
        assert(['d', 'o', 'c', 'k', 'e', 'r', 'f', 'i', 'l', 'e']@ =~= seq!['d', 'o', 'c', 'k', 'e', 'r', 'f', 'i', 'l', 'e']);
    }
    if is(e, &['p', 'y'])
        || is(e, &['p', 'y', 'w'])
        || is(e, &['p', 'y', 'i'])
        || is(e, &['s', 'h'])
        || is(e, &['b', 'a', 's', 'h'])
        || is(e, &['z', 's', 'h'])
        || is(e, &['f', 'i', 's', 'h'])
        || is(e, &['t', 'o', 'm', 'l'])
        || is(e, &['y', 'a', 'm', 'l'])
        || is(e, &['y', 'm', 'l'])
        || is(e, &['r'])
        || is(e, &['e', 'x'])
        || is(e, &['e', 'x', 's'])
        || is(e, &['m', 'k'])
        || is(e, &['m', 'a', 'k'])
        || is(e, &['c', 'm', 'a', 'k', 'e'])
        || is(e, &['d', 'o', 'c', 'k', 'e', 'r', 'f', 'i', 'l', 'e']) {
        return Some(CommentStyle::Hash);
    }
    proof {
        assert(['n', 'i', 'x']@ =~= seq!['n', 'i', 'x']);
    }
    if is(e, &['n', 'i', 'x']) {
        return Some(CommentStyle::Nix);
    }
    proof {
        assert(['r', 'b']@ =~= seq!['r', 'b']);
    }
    if is(e, &['r', 'b']) {
        return Some(CommentStyle::Ruby);
    }
    proof {
        assert(['p', 'l']@ =~= seq!['p', 'l']);
        assert(['p', 'm']@ =~= seq!['p', 'm']);
    }
    if is(e, &['p', 'l'])
        || is(e, &['p', 'm']) {
        return Some(CommentStyle::Perl);
    }
    proof {
        assert(['j', 'l']@ =~= seq!['j', 'l']);
    }
    if is(e, &['j', 'l']) {
        return Some(CommentStyle::Julia);
    }
    proof {
        assert(['p', 's', '1']@ =~= seq!['p', 's', '1']);
        assert(['p', 's', 'm', '1']@ =~= seq!['p', 's', 'm', '1']);
        assert(['p', 's', 'd', '1']@ =~= seq!['p', 's', 'd', '1']);
    }
    if is(e, &['p', 's', '1'])
        || is(e, &['p', 's', 'm', '1'])
        || is(e, &['p', 's', 'd', '1']) {
        return Some(CommentStyle::PowerShell);
    }
    proof {
        assert(['p', 'h', 'p']@ =~= seq!['p', 'h', 'p']);
        assert(['t', 'f']@ =~= seq!['t', 'f']);
        assert(['h', 'c', 'l']@ =~= seq!['h', 'c', 'l']);
    }
    if is(e, &['p', 'h', 'p'])
        || is(e, &['t', 'f'])
        || is(e, &['h', 'c', 'l']) {
        return Some(CommentStyle::HashSlash);
    }
    proof {
        assert(['h', 's']@ =~= seq!['h', 's']);
        assert(['e', 'l', 'm']@ =~= seq!['e', 'l', 'm']);
        assert(['p', 'u', 'r', 's']@ =~= seq!['p', 'u', 'r', 's']);
    }
    if is(e, &['h', 's'])
        || is(e, &['e', 'l', 'm'])
        || is(e, &['p', 'u', 'r', 's']) {
        return Some(CommentStyle::Haskell);
    }
    proof {
        assert(['s', 'q', 'l']@ =~= seq!['s', 'q', 'l']);
    }
    if is(e, &['s', 'q', 'l']) {
        return Some(CommentStyle::Sql);
    }
    proof {
        assert(['l', 'u', 'a']@ =~= seq!['l', 'u', 'a']);
    }
    if is(e, &['l', 'u', 'a']) {
        return Some(CommentStyle::Lua);
    }
    proof {
        assert(['h', 't', 'm', 'l']@ =~= seq!['h', 't', 'm', 'l']);
        assert(['h', 't', 'm']@ =~= seq!['h', 't', 'm']);
        assert(['x', 'h', 't', 'm', 'l']@ =~= seq!['x', 'h', 't', 'm', 'l']);
        assert(['x', 'm', 'l']@ =~= seq!['x', 'm', 'l']);
        assert(['s', 'v', 'g']@ =~= seq!['s', 'v', 'g']);
        assert(['m', 'd']@ =~= seq!['m', 'd']);
        assert(['m', 'a', 'r', 'k', 'd', 'o', 'w', 'n']@ =~= seq!['m', 'a', 'r', 'k', 'd', 'o', 'w', 'n']);
    }
    if is(e, &['h', 't', 'm', 'l'])
        || is(e, &['h', 't', 'm'])
        || is(e, &['x', 'h', 't', 'm', 'l'])
        || is(e, &['x', 'm', 'l'])
        || is(e, &['s', 'v', 'g'])
        || is(e, &['m', 'd'])
        || is(e, &['m', 'a', 'r', 'k', 'd', 'o', 'w', 'n']) {
        return Some(CommentStyle::Markup);
    }
    proof {
        assert(['c', 's', 's']@ =~= seq!['c', 's', 's']);
    }
    if is(e, &['c', 's', 's']) {
        return Some(CommentStyle::CssBlock);
    }
    proof {
        assert(['m', 'l']@ =~= seq!['m', 'l']);
        assert(['m', 'l', 'i']@ =~= seq!['m', 'l', 'i']);
        assert(['s', 'm', 'l']@ =~= seq!['s', 'm', 'l']);
    }
    if is(e, &['m', 'l'])
        || is(e, &['m', 'l', 'i'])
        || is(e, &['s', 'm', 'l']) {
        return Some(CommentStyle::MlBlock);
    }
    proof {
        assert(['c', 'l', 'j']@ =~= seq!['c', 'l', 'j']);
        assert(['c', 'l', 'j', 's']@ =~= seq!['c', 'l', 'j', 's']);
        assert(['c', 'l', 'j', 'c']@ =~= seq!['c', 'l', 'j', 'c']);
        assert(['e', 'd', 'n']@ =~= seq!['e', 'd', 'n']);
        assert(['e', 'l']@ =~= seq!['e', 'l']);
        assert(['a', 's', 'm']@ =~= seq!['a', 's', 'm']);
    }
    if is(e, &['c', 'l', 'j'])
        || is(e, &['c', 'l', 'j', 's'])
        || is(e, &['c', 'l', 'j', 'c'])
        || is(e, &['e', 'd', 'n'])
        || is(e, &['e', 'l'])
        || is(e, &['a', 's', 'm']) {
        return Some(CommentStyle::Semicolon);
    }
    proof {
        assert(['l', 'i', 's', 'p']@ =~= seq!['l', 'i', 's', 'p']);
        assert(['l', 's', 'p']@ =~= seq!['l', 's', 'p']);
        assert(['s', 'c', 'm']@ =~= seq!['s', 'c', 'm']);
        assert(['s', 's']@ =~= seq!['s', 's']);
        assert(['r', 'k', 't']@ =~= seq!['r', 'k', 't']);
    }
    if is(e, &['l', 'i', 's', 'p'])
        || is(e, &['l', 's', 'p'])
        || is(e, &['s', 'c', 'm'])
        || is(e, &['s', 's'])
        || is(e, &['r', 'k', 't']) {
        return Some(CommentStyle::Lisp);
    }
    proof {
        assert(['t', 'e', 'x']@ =~= seq!['t', 'e', 'x']);
        assert(['s', 't', 'y']@ =~= seq!['s', 't', 'y']);
        assert(['e', 'r', 'l']@ =~= seq!['e', 'r', 'l']);
        assert(['h', 'r', 'l']@ =~= seq!['h', 'r', 'l']);
    }
    if is(e, &['t', 'e', 'x'])
        || is(e, &['s', 't', 'y'])
        || is(e, &['e', 'r', 'l'])
        || is(e, &['h', 'r', 'l']) {
        return Some(CommentStyle::Percent);
    }
    proof {
        assert(['v', 'i', 'm']@ =~= seq!['v', 'i', 'm']);
    }
    if is(e, &['v', 'i', 'm']) {
        return Some(CommentStyle::Vim);
    }
    proof {
        assert(['i', 'n', 'i']@ =~= seq!['i', 'n', 'i']);
    }
    if is(e, &['i', 'n', 'i']) {
        return Some(CommentStyle::Ini);
    }
    proof {
        assert(['j', 's', 'o', 'n']@ =~= seq!['j', 's', 'o', 'n']);
        assert(['t', 'x', 't']@ =~= seq!['t', 'x', 't']);
        assert(['t', 'e', 'x', 't']@ =~= seq!['t', 'e', 'x', 't']);
    }
    if is(e, &['j', 's', 'o', 'n'])
        || is(e, &['t', 'x', 't'])
        || is(e, &['t', 'e', 'x', 't']) {
        return Some(CommentStyle::NoComments);
    }
    None
}

fn tokens_of(style: CommentStyle) -> (r: CommentTokens)
    ensures
        r@ == style_tokens(style),
{
    let mut line: Vec<String> = Vec::new();
    let mut block: Vec<(String, String)> = Vec::new();
    match style {
        CommentStyle::CLike => {
            assert(['/', '/']@ =~= seq!['/', '/']);
            line.push(text(&['/', '/']));
            assert(['/', '*']@ =~= seq!['/', '*']);
            assert(['*', '/']@ =~= seq!['*', '/']);
            block.push((text(&['/', '*']), text(&['*', '/'])));
            assert(line.deep_view() =~= style_tokens(style).line);
            assert(block.deep_view() =~= style_tokens(style).block);
        },
        CommentStyle::SlashLine => {
            assert(['/', '/']@ =~= seq!['/', '/']);
            line.push(text(&['/', '/']));
            assert(line.deep_view() =~= style_tokens(style).line);
            assert(block.deep_view() =~= style_tokens(style).block);
        },
        CommentStyle::Hash => {
            assert(['#']@ =~= seq!['#']);
            line.push(text(&['#']));
            assert(line.deep_view() =~= style_tokens(style).line);
            assert(block.deep_view() =~= style_tokens(style).block);
        },
        CommentStyle::Nix => {
            assert(['#']@ =~= seq!['#']);
            line.push(text(&['#']));
            assert(['/', '*']@ =~= seq!['/', '*']);
            assert(['*', '/']@ =~= seq!['*', '/']);
            block.push((text(&['/', '*']), text(&['*', '/'])));
            assert(line.deep_view() =~= style_tokens(style).line);
            assert(block.deep_view() =~= style_tokens(style).block);
        },
        CommentStyle::Ruby => {
            assert(['#']@ =~= seq!['#']);
            line.push(text(&['#']));
            assert(['=', 'b', 'e', 'g', 'i', 'n']@ =~= seq!['=', 'b', 'e', 'g', 'i', 'n']);
            assert(['=', 'e', 'n', 'd']@ =~= seq!['=', 'e', 'n', 'd']);
            block.push((text(&['=', 'b', 'e', 'g', 'i', 'n']), text(&['=', 'e', 'n', 'd'])));
            assert(line.deep_view() =~= style_tokens(style).line);
            assert(block.deep_view() =~= style_tokens(style).block);
        },
        CommentStyle::Perl => {
            assert(['#']@ =~= seq!['#']);
            line.push(text(&['#']));
            assert(['=', 'p', 'o', 'd']@ =~= seq!['=', 'p', 'o', 'd']);
            assert(['=', 'c', 'u', 't']@ =~= seq!['=', 'c', 'u', 't']);
            block.push((text(&['=', 'p', 'o', 'd']), text(&['=', 'c', 'u', 't'])));
            assert(line.deep_view() =~= style_tokens(style).line);
            assert(block.deep_view() =~= style_tokens(style).block);
        },
        CommentStyle::Julia => {
            assert(['#']@ =~= seq!['#']);
            line.push(text(&['#']));
            assert(['#', '=']@ =~= seq!['#', '=']);
            assert(['=', '#']@ =~= seq!['=', '#']);
            block.push((text(&['#', '=']), text(&['=', '#'])));
            assert(line.deep_view() =~= style_tokens(style).line);
            assert(block.deep_view() =~= style_tokens(style).block);
        },
        CommentStyle::PowerShell => {
            assert(['#']@ =~= seq!['#']);
            line.push(text(&['#']));
            assert(['<', '#']@ =~= seq!['<', '#']);
            assert(['#', '>']@ =~= seq!['#', '>']);
            block.push((text(&['<', '#']), text(&['#', '>'])));
            assert(line.deep_view() =~= style_tokens(style).line);
            assert(block.deep_view() =~= style_tokens(style).block);
        },
        CommentStyle::HashSlash => {
            assert(['#']@ =~= seq!['#']);
            line.push(text(&['#']));
            assert(['/', '/']@ =~= seq!['/', '/']);
            line.push(text(&['/', '/']));
            assert(['/', '*']@ =~= seq!['/', '*']);
            assert(['*', '/']@ =~= seq!['*', '/']);
            block.push((text(&['/', '*']), text(&['*', '/'])));
            assert(line.deep_view() =~= style_tokens(style).line);
            assert(block.deep_view() =~= style_tokens(style).block);
        },
        CommentStyle::Haskell => {
            assert(['-', '-']@ =~= seq!['-', '-']);
            line.push(text(&['-', '-']));
            assert(['{', '-']@ =~= seq!['{', '-']);
            assert(['-', '}']@ =~= seq!['-', '}']);
            block.push((text(&['{', '-']), text(&['-', '}'])));
            assert(line.deep_view() =~= style_tokens(style).line);
            assert(block.deep_view() =~= style_tokens(style).block);
        },
        CommentStyle::Sql => {
            assert(['-', '-']@ =~= seq!['-', '-']);
            line.push(text(&['-', '-']));
            assert(['/', '*']@ =~= seq!['/', '*']);
            assert(['*', '/']@ =~= seq!['*', '/']);
            block.push((text(&['/', '*']), text(&['*', '/'])));
            assert(line.deep_view() =~= style_tokens(style).line);
            assert(block.deep_view() =~= style_tokens(style).block);
        },
        CommentStyle::Lua => {
            assert(['-', '-']@ =~= seq!['-', '-']);
            line.push(text(&['-', '-']));
            assert(['-', '-', '[', '[']@ =~= seq!['-', '-', '[', '[']);
            assert([']', ']']@ =~= seq![']', ']']);
            block.push((text(&['-', '-', '[', '[']), text(&[']', ']'])));
            assert(line.deep_view() =~= style_tokens(style).line);
            assert(block.deep_view() =~= style_tokens(style).block);
        },
        CommentStyle::Markup => {
            assert(['<', '!', '-', '-']@ =~= seq!['<', '!', '-', '-']);
            assert(['-', '-', '>']@ =~= seq!['-', '-', '>']);
            block.push((text(&['<', '!', '-', '-']), text(&['-', '-', '>'])));
            assert(line.deep_view() =~= style_tokens(style).line);
            assert(block.deep_view() =~= style_tokens(style).block);
        },
        CommentStyle::CssBlock => {
            assert(['/', '*']@ =~= seq!['/', '*']);
            assert(['*', '/']@ =~= seq!['*', '/']);
            block.push((text(&['/', '*']), text(&['*', '/'])));
            assert(line.deep_view() =~= style_tokens(style).line);
            assert(block.deep_view() =~= style_tokens(style).block);
        },
        CommentStyle::MlBlock => {
            assert(['(', '*']@ =~= seq!['(', '*']);
            assert(['*', ')']@ =~= seq!['*', ')']);
            block.push((text(&['(', '*']), text(&['*', ')'])));
            assert(line.deep_view() =~= style_tokens(style).line);
            assert(block.deep_view() =~= style_tokens(style).block);
        },
        CommentStyle::Semicolon => {
            assert([';']@ =~= seq![';']);
            line.push(text(&[';']));
            assert(line.deep_view() =~= style_tokens(style).line);
            assert(block.deep_view() =~= style_tokens(style).block);
        },
        CommentStyle::Lisp => {
            assert([';']@ =~= seq![';']);
            line.push(text(&[';']));
            assert(['#', '|']@ =~= seq!['#', '|']);
            assert(['|', '#']@ =~= seq!['|', '#']);
            block.push((text(&['#', '|']), text(&['|', '#'])));
            assert(line.deep_view() =~= style_tokens(style).line);
            assert(block.deep_view() =~= style_tokens(style).block);
        },
        CommentStyle::Percent => {
            assert(['%']@ =~= seq!['%']);
            line.push(text(&['%']));
            assert(line.deep_view() =~= style_tokens(style).line);
            assert(block.deep_view() =~= style_tokens(style).block);
        },
        CommentStyle::Vim => {
            assert(['"']@ =~= seq!['"']);
            line.push(text(&['"']));
            assert(line.deep_view() =~= style_tokens(style).line);
            assert(block.deep_view() =~= style_tokens(style).block);
        },
        CommentStyle::Ini => {
            assert([';']@ =~= seq![';']);
            line.push(text(&[';']));
            assert(['#']@ =~= seq!['#']);
            line.push(text(&['#']));
            assert(line.deep_view() =~= style_tokens(style).line);
            assert(block.deep_view() =~= style_tokens(style).block);
        },
        CommentStyle::NoComments => {
            assert(line.deep_view() =~= style_tokens(style).line);
            assert(block.deep_view() =~= style_tokens(style).block);
        },
    }
    let r = CommentTokens { line, block };
    r
}

/// Look up comment tokens by file extension (without the leading dot).
pub fn comment_tokens(extension: &str) -> (r: Option<CommentTokens>)
    ensures
        match r {
            Some(t) => spec_comment_tokens(extension@) == Some(t@),
            None => spec_comment_tokens(extension@) is None,
        },
{
    let e = chars_of(extension);
    match style_of(&e) {
        Some(s) => Some(tokens_of(s)),
        None => None,
    }
}

} // verus!
