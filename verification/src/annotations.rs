//! `[check]` annotations: the annotation grammar and its extraction from comments.
use vstd::prelude::*;
use crate::comments::{Comment, CommentView, comments_view};
use crate::text::{
    index_of_from, is_whitespace_char, is_ws, join_nonempty, lemma_char_vec_deep_view, slice_chars,
    string_of, chars_of, trim, trim_chars, until_newline, lemma_index_of_absent,
    lemma_index_of_found,
};

verus! {

broadcast use lemma_char_vec_deep_view;

/// Whether `c` is a Unicode word character (the regex class `\w`).
pub uninterp spec fn word_char(c: char) -> bool;

/// Whether `c` is a word character (the regex class `\w`): among ASCII
/// characters exactly the letters, digits and `_`; beyond ASCII, the
/// Unicode word characters.
pub open spec fn is_word(c: char) -> bool {
    if (c as u32) < 128 {
        ('a' <= c <= 'z') || ('A' <= c <= 'Z') || ('0' <= c <= '9') || c == '_'
    } else {
        word_char(c)
    }
}

/// `regex_syntax::is_word_character`: whether `c` is a Unicode word
/// character in the sense of UTS#18 Annex C (the class `\w` of the `regex`
/// crate). Claimed: the answer is `word_char(c)`, and among ASCII characters
/// exactly the letters, digits and `_` are word characters. It panics only without the crate's
/// `unicode-perl` feature, which its default features enable.
#[verifier::external_body]
fn is_word_character(c: char) -> (r: bool)
    ensures
        r == word_char(c),
        (c as u32) < 128 ==> (r <==> ('a' <= c <= 'z' || 'A' <= c <= 'Z' || '0' <= c <= '9' || c == '_')),
{
    regex_syntax::is_word_character(c)
}

/// The kind of check annotation.
#[derive(Debug, Clone, PartialEq, Eq)]
pub enum CheckKind {
    /// A check scoped to the nearby code (function, block, etc.).
    Check,
    /// A file-level check — applies whenever the file has any changes.
    File,
    /// An all-files check — activates when files matching the glob pattern change.
    All { pattern: String },
    /// A tagged check — activates when any other [check:tag] with the same name activates.
    Tag { name: String },
    /// A tag reference — like Tag but carries no description of its own.
    Ref { name: String },
}

/// Abstract kind of an annotation.
pub enum KindView {
    Check,
    File,
    All { pattern: Seq<char> },
    Tag { name: Seq<char> },
    Ref { name: Seq<char> },
}

impl View for CheckKind {
    type V = KindView;

    open spec fn view(&self) -> KindView {
        match self {
            CheckKind::Check => KindView::Check,
            CheckKind::File => KindView::File,
            CheckKind::All { pattern } => KindView::All { pattern: pattern@ },
            CheckKind::Tag { name } => KindView::Tag { name: name@ },
            CheckKind::Ref { name } => KindView::Ref { name: name@ },
        }
    }
}

/// A parsed [check] annotation.
#[derive(Debug, Clone)]
pub struct Annotation {
    /// The file this annotation was found in.
    pub file_path: String,
    /// 1-based line number.
    pub line: usize,
    /// What kind of check this is.
    pub kind: CheckKind,
    /// The check description.
    pub description: String,
}

/// Abstract annotation.
pub struct AnnotationView {
    pub file_path: Seq<char>,
    pub line: int,
    pub kind: KindView,
    pub description: Seq<char>,
}

impl View for Annotation {
    type V = AnnotationView;

    open spec fn view(&self) -> AnnotationView {
        AnnotationView {
            file_path: self.file_path@,
            line: self.line as int,
            kind: self.kind@,
            description: self.description@,
        }
    }
}

/// The views of a sequence of annotations.
pub open spec fn annotations_view(anns: Seq<Annotation>) -> Seq<AnnotationView> {
    anns.map_values(|a: Annotation| a@)
}

/// A copy of `s` with the same characters.
pub fn copy_string(s: &String) -> (r: String)
    ensures
        r@ == s@,
{
    s.clone()
}

/// A copy of `k` with the same view.
pub fn copy_kind(k: &CheckKind) -> (r: CheckKind)
    ensures
        r@ == k@,
{
    match k {
        CheckKind::Check => CheckKind::Check,
        CheckKind::File => CheckKind::File,
        CheckKind::All { pattern } => CheckKind::All { pattern: copy_string(pattern) },
        CheckKind::Tag { name } => CheckKind::Tag { name: copy_string(name) },
        CheckKind::Ref { name } => CheckKind::Ref { name: copy_string(name) },
    }
}

/// A copy of `a` with the same view.
pub fn copy_annotation(a: &Annotation) -> (r: Annotation)
    ensures
        r@ == a@,
{
    Annotation {
        file_path: copy_string(&a.file_path),
        line: a.line,
        kind: copy_kind(&a.kind),
        description: copy_string(&a.description),
    }
}

// ---------------------------------------------------------------------
// The annotation grammar, character by character.
// ---------------------------------------------------------------------

/// `t` begins with `p`.
pub open spec fn starts_with(t: Seq<char>, p: Seq<char>) -> bool {
    p.len() <= t.len() && forall|k: int| 0 <= k < p.len() ==> #[trigger] t[k] == p[k]
}

/// `[check`
pub open spec fn check_open() -> Seq<char> {
    seq!['[', 'c', 'h', 'e', 'c', 'k']
}

/// `[check:all`
pub open spec fn all_open() -> Seq<char> {
    check_open() + seq![':', 'a', 'l', 'l']
}

/// `[check:tag`
pub open spec fn tag_open() -> Seq<char> {
    check_open() + seq![':', 't', 'a', 'g']
}

/// `[check:ref`
pub open spec fn ref_open() -> Seq<char> {
    check_open() + seq![':', 'r', 'e', 'f']
}

/// `file`
pub open spec fn file_word() -> Seq<char> {
    seq!['f', 'i', 'l', 'e']
}

/// End of the run of whitespace in `t` starting at `i`.
pub open spec fn ws_end(t: Seq<char>, i: int) -> int
    decreases t.len() - i,
{
    if 0 <= i < t.len() && is_ws(t[i]) {
        ws_end(t, i + 1)
    } else {
        i
    }
}

/// End of the run of non-whitespace in `t` starting at `i`.
pub open spec fn nonws_end(t: Seq<char>, i: int) -> int
    decreases t.len() - i,
{
    if 0 <= i < t.len() && !is_ws(t[i]) {
        nonws_end(t, i + 1)
    } else {
        i
    }
}

/// End of the run of word characters in `t` starting at `i`.
pub open spec fn word_end(t: Seq<char>, i: int) -> int
    decreases t.len() - i,
{
    if 0 <= i < t.len() && is_word(t[i]) {
        word_end(t, i + 1)
    } else {
        i
    }
}

/// The last position `q` with `lo <= q < hi` holding `c`.
pub open spec fn last_index_in(t: Seq<char>, c: char, lo: int, hi: int) -> Option<int>
    decreases hi - lo,
{
    if hi <= lo {
        None
    } else if t[hi - 1] == c {
        Some(hi - 1)
    } else {
        last_index_in(t, c, lo, hi - 1)
    }
}

/// The trailing description that follows a closing `]` ending right before
/// position `i`: the rest of that line after any whitespace, trimmed
/// (the regex tail `\s*(.*)`, trimmed).
pub open spec fn desc_after(t: Seq<char>, i: int) -> Seq<char> {
    trim(until_newline(t.skip(ws_end(t, i))))
}

/// `^\[check(?::(\w+))?\]\s*(.*)`: the optional variant word and the
/// trimmed description.
pub open spec fn check_re(t: Seq<char>) -> Option<(Option<Seq<char>>, Seq<char>)> {
    if !starts_with(t, check_open()) || t.len() <= 6 {
        None
    } else if t[6] == ':' && word_end(t, 7) > 7 && word_end(t, 7) < t.len() && t[word_end(t, 7)] == ']' {
        Some((Some(t.subrange(7, word_end(t, 7))), desc_after(t, word_end(t, 7) + 1)))
    } else if t[6] == ']' {
        Some((None, desc_after(t, 7)))
    } else {
        None
    }
}

/// `^\[check:all\s+([^\]]+)\]\s*(.*)`: the trimmed pattern and the trimmed
/// description.
pub open spec fn all_re(t: Seq<char>) -> Option<(Seq<char>, Seq<char>)> {
    if !starts_with(t, all_open()) || t.len() <= 10 || !is_ws(t[10]) {
        None
    } else {
        match index_of_from(t, ']', 10) {
            Some(c) => if c - 10 >= 2 {
                Some((trim(t.subrange(10, c)), desc_after(t, c + 1)))
            } else {
                None
            },
            None => None,
        }
    }
}

/// The tag name of `^\[check:(tag|ref)\s+(\S+)\]` for the given opener, and
/// the position right after its closing `]`.
pub open spec fn named_re(t: Seq<char>, open: Seq<char>) -> Option<(Seq<char>, int)> {
    if !starts_with(t, open) || t.len() <= 10 || !is_ws(t[10]) {
        None
    } else {
        let s = ws_end(t, 10);
        match last_index_in(t, ']', s + 1, nonws_end(t, s)) {
            Some(q) => Some((t.subrange(s, q), q + 1)),
            None => None,
        }
    }
}

/// `^\[check:tag\s+(\S+)\]\s*(.*)`: the tag name and the trimmed description.
pub open spec fn tag_re(t: Seq<char>) -> Option<(Seq<char>, Seq<char>)> {
    match named_re(t, tag_open()) {
        Some((name, after)) => Some((name, desc_after(t, after))),
        None => None,
    }
}

/// `^\[check:ref\s+(\S+)\]`: the referenced tag name.
pub open spec fn ref_re(t: Seq<char>) -> Option<Seq<char>> {
    match named_re(t, ref_open()) {
        Some((name, after)) => Some(name),
        None => None,
    }
}

/// `t` starts a new annotation (any of the four forms matches it).
pub open spec fn is_marker(t: Seq<char>) -> bool {
    check_re(t) is Some || all_re(t) is Some || tag_re(t) is Some || ref_re(t) is Some
}

// ---------------------------------------------------------------------
// Executable matchers.
// ---------------------------------------------------------------------

pub(crate) fn starts_with_exec(t: &Vec<char>, p: &Vec<char>) -> (r: bool)
    ensures
        r == starts_with(t@, p@),
{
    if p.len() > t.len() {
        return false;
    }
    let mut k: usize = 0;
    while k < p.len()
        invariant
            p.len() <= t.len(),
            k <= p.len(),
            forall|m: int| 0 <= m < k ==> #[trigger] t@[m] == p@[m],
        decreases p.len() - k,
    {
        if t[k] != p[k] {
            return false;
        }
        k = k + 1;
    }
    true
}

fn check_open_exec() -> (r: Vec<char>)
    ensures
        r@ == check_open(),
{
    let r = vec!['[', 'c', 'h', 'e', 'c', 'k'];
    assert(r@ =~= check_open());
    r
}

fn opener_exec(a: char, b: char, c: char) -> (r: Vec<char>)
    ensures
        r@ == check_open() + seq![':', a, b, c],
{
    let r = vec!['[', 'c', 'h', 'e', 'c', 'k', ':', a, b, c];
    assert(r@ =~= check_open() + seq![':', a, b, c]);
    r
}

pub(crate) fn ws_end_exec(t: &Vec<char>, i: usize) -> (r: usize)
    requires
        i <= t.len(),
    ensures
        r as int == ws_end(t@, i as int),
        i <= r <= t.len(),
{
    let mut j = i;
    while j < t.len() && is_whitespace_char(t[j])
        invariant
            i <= j <= t.len(),
            ws_end(t@, i as int) == ws_end(t@, j as int),
        decreases t.len() - j,
    {
        j = j + 1;
    }
    j
}

fn nonws_end_exec(t: &Vec<char>, i: usize) -> (r: usize)
    requires
        i <= t.len(),
    ensures
        r as int == nonws_end(t@, i as int),
        i <= r <= t.len(),
{
    let mut j = i;
    while j < t.len() && !is_whitespace_char(t[j])
        invariant
            i <= j <= t.len(),
            nonws_end(t@, i as int) == nonws_end(t@, j as int),
        decreases t.len() - j,
    {
        j = j + 1;
    }
    j
}

fn word_end_exec(t: &Vec<char>, i: usize) -> (r: usize)
    requires
        i <= t.len(),
    ensures
        r as int == word_end(t@, i as int),
        i <= r <= t.len(),
{
    let mut j = i;
    while j < t.len() && is_word_character(t[j])
        invariant
            i <= j <= t.len(),
            word_end(t@, i as int) == word_end(t@, j as int),
        decreases t.len() - j,
    {
        j = j + 1;
    }
    j
}

fn last_index_in_exec(t: &Vec<char>, c: char, lo: usize, hi: usize) -> (r: Option<usize>)
    requires
        hi <= t.len(),
    ensures
        match last_index_in(t@, c, lo as int, hi as int) {
            Some(q) => r == Some(q as usize) && lo <= q < hi,
            None => r is None,
        },
{
    let mut h = hi;
    while h > lo
        invariant
            h <= hi <= t.len(),
            last_index_in(t@, c, lo as int, hi as int) == last_index_in(t@, c, lo as int, h as int),
        decreases h,
    {
        if t[h - 1] == c {
            return Some(h - 1);
        }
        h = h - 1;
    }
    None
}

fn first_index_exec(t: &Vec<char>, c: char, from: usize) -> (r: Option<usize>)
    requires
        from <= t.len(),
    ensures
        match index_of_from(t@, c, from as int) {
            Some(q) => r == Some(q as usize) && from <= q < t.len(),
            None => r is None,
        },
{
    let mut j = from;
    while j < t.len()
        invariant
            from <= j <= t.len(),
            index_of_from(t@, c, from as int) == index_of_from(t@, c, j as int),
        decreases t.len() - j,
    {
        if t[j] == c {
            return Some(j);
        }
        j = j + 1;
    }
    None
}

fn desc_after_exec(t: &Vec<char>, i: usize) -> (r: Vec<char>)
    requires
        i <= t.len(),
    ensures
        r@ == desc_after(t@, i as int),
{
    let s = ws_end_exec(t, i);
    let rest = slice_chars(t, s, t.len());
    assert(rest@ =~= t@.skip(s as int));
    let line = match first_index_exec(&rest, '\n', 0) {
        Some(k) => slice_chars(&rest, 0, k),
        None => rest,
    };
    trim_chars(&line)
}

fn check_re_exec(t: &Vec<char>) -> (r: Option<(Option<Vec<char>>, Vec<char>)>)
    ensures
        match check_re(t@) {
            None => r is None,
            Some((None, d)) => r matches Some((None, rd)) && rd@ == d,
            Some((Some(w), d)) => r matches Some((Some(rw), rd)) && rw@ == w && rd@ == d,
        },
{
    let open = check_open_exec();
    if !starts_with_exec(t, &open) || t.len() <= 6 {
        return None;
    }
    if t[6] == ':' {
        let w = word_end_exec(t, 7);
        if w > 7 && w < t.len() && t[w] == ']' {
            let word = slice_chars(t, 7, w);
            let d = desc_after_exec(t, w + 1);
            return Some((Some(word), d));
        }
    }
    if t[6] == ']' {
        let d = desc_after_exec(t, 7);
        return Some((None, d));
    }
    None
}

fn all_re_exec(t: &Vec<char>) -> (r: Option<(Vec<char>, Vec<char>)>)
    ensures
        match all_re(t@) {
            None => r is None,
            Some((p, d)) => r matches Some((rp, rd)) && rp@ == p && rd@ == d,
        },
{
    let open = opener_exec('a', 'l', 'l');
    if !starts_with_exec(t, &open) || t.len() <= 10 || !is_whitespace_char(t[10]) {
        return None;
    }
    match first_index_exec(t, ']', 10) {
        Some(c) => {
            if c - 10 >= 2 {
                let seg = slice_chars(t, 10, c);
                let pattern = trim_chars(&seg);
                let d = desc_after_exec(t, c + 1);
                Some((pattern, d))
            } else {
                None
            }
        },
        None => None,
    }
}

fn named_re_exec(t: &Vec<char>, open: &Vec<char>) -> (r: Option<(Vec<char>, usize)>)
    ensures
        match named_re(t@, open@) {
            None => r is None,
            Some((n, after)) => r matches Some((rn, ra)) && rn@ == n && ra == after && ra <= t.len(),
        },
{
    if !starts_with_exec(t, open) || t.len() <= 10 || !is_whitespace_char(t[10]) {
        return None;
    }
    let s = ws_end_exec(t, 10);
    let e = nonws_end_exec(t, s);
    if s >= e {
        return None;
    }
    match last_index_in_exec(t, ']', s + 1, e) {
        Some(q) => Some((slice_chars(t, s, q), q + 1)),
        None => None,
    }
}

fn tag_re_exec(t: &Vec<char>) -> (r: Option<(Vec<char>, Vec<char>)>)
    ensures
        match tag_re(t@) {
            None => r is None,
            Some((n, d)) => r matches Some((rn, rd)) && rn@ == n && rd@ == d,
        },
{
    let open = opener_exec('t', 'a', 'g');
    match named_re_exec(t, &open) {
        Some((name, after)) => {
            let d = desc_after_exec(t, after);
            Some((name, d))
        },
        None => None,
    }
}

fn ref_re_exec(t: &Vec<char>) -> (r: Option<Vec<char>>)
    ensures
        match ref_re(t@) {
            None => r is None,
            Some(n) => r matches Some(rn) && rn@ == n,
        },
{
    let open = opener_exec('r', 'e', 'f');
    match named_re_exec(t, &open) {
        Some((name, _after)) => Some(name),
        None => None,
    }
}

fn is_marker_exec(t: &Vec<char>) -> (r: bool)
    ensures
        r == is_marker(t@),
{
    check_re_exec(t).is_some() || all_re_exec(t).is_some() || tag_re_exec(t).is_some()
        || ref_re_exec(t).is_some()
}


// ---------------------------------------------------------------------
// Extraction.
// ---------------------------------------------------------------------

/// Extends `desc` with the comments from index `j` on that continue it: each
/// on the line right after the previous one and not itself an annotation.
/// Returns the description and the index of the first comment not consumed.
pub open spec fn continuation(cs: Seq<CommentView>, j: int, prev: int, desc: Seq<char>) -> (Seq<char>, int)
    decreases cs.len() - j,
{
    if j < 0 || j >= cs.len() || cs[j].line != prev + 1 || is_marker(cs[j].text) {
        (desc, j)
    } else {
        continuation(cs, j + 1, cs[j].line, join_nonempty(desc, '\n', cs[j].text))
    }
}

pub proof fn lemma_continuation_next(cs: Seq<CommentView>, j: int, prev: int, desc: Seq<char>)
    requires
        0 <= j <= cs.len(),
    ensures
        j <= continuation(cs, j, prev, desc).1 <= cs.len(),
    decreases cs.len() - j,
{
    if !(j >= cs.len() || cs[j].line != prev + 1 || is_marker(cs[j].text)) {
        lemma_continuation_next(cs, j + 1, cs[j].line, join_nonempty(desc, '\n', cs[j].text));
    }
}

/// The annotation made of comment `i`, of kind `kind`, with the description
/// `d` extended by its continuation lines, followed by the annotations after
/// them.
pub open spec fn with_continuation(cs: Seq<CommentView>, i: int, file: Seq<char>, kind: KindView, d: Seq<char>) -> (AnnotationView, int) {
    let (desc, next) = continuation(cs, i + 1, cs[i].line, d);
    (AnnotationView { file_path: file, line: cs[i].line, kind, description: desc }, next)
}

/// The annotation that comment `i` starts, if any, and the index of the
/// first comment after it. The forms are tried in the order `[check:all]`,
/// `[check:tag]`, `[check:ref]`, then `[check]` / `[check:file]`; any other
/// `[check:...]` variant is skipped.
pub open spec fn annotation_at(cs: Seq<CommentView>, i: int, file: Seq<char>) -> Option<(AnnotationView, int)> {
    let t = cs[i].text;
    match all_re(t) {
        Some((p, d)) => Some(with_continuation(cs, i, file, KindView::All { pattern: p }, d)),
        None => match tag_re(t) {
            Some((n, d)) => Some(with_continuation(cs, i, file, KindView::Tag { name: n }, d)),
            None => match ref_re(t) {
                Some(n) => Some((AnnotationView { file_path: file, line: cs[i].line, kind: KindView::Ref { name: n }, description: seq![] }, i + 1)),
                None => match check_re(t) {
                    Some((None, d)) => Some(with_continuation(cs, i, file, KindView::Check, d)),
                    Some((Some(w), d)) => if w == file_word() {
                        Some(with_continuation(cs, i, file, KindView::File, d))
                    } else {
                        None
                    },
                    None => None,
                },
            },
        },
    }
}

pub proof fn lemma_annotation_next(cs: Seq<CommentView>, i: int, file: Seq<char>)
    requires
        0 <= i < cs.len(),
    ensures
        annotation_at(cs, i, file) matches Some((a, n)) ==> i < n <= cs.len(),
{
    let t = cs[i].text;
    lemma_continuation_next(cs, i + 1, cs[i].line, seq![]);
    if let Some((p, d)) = all_re(t) {
        lemma_continuation_next(cs, i + 1, cs[i].line, d);
    } else if let Some((n, d)) = tag_re(t) {
        lemma_continuation_next(cs, i + 1, cs[i].line, d);
    } else if ref_re(t) is None {
        if let Some((w, d)) = check_re(t) {
            lemma_continuation_next(cs, i + 1, cs[i].line, d);
        }
    }
}

/// The annotations found in the comments from index `i` on.
pub open spec fn annotations_from(cs: Seq<CommentView>, i: int, file: Seq<char>) -> Seq<AnnotationView>
    decreases cs.len() - i,
{
    if i < 0 || i >= cs.len() {
        seq![]
    } else {
        match annotation_at(cs, i, file) {
            Some((a, next)) => {
                proof {
                    lemma_annotation_next(cs, i, file);
                }
                seq![a] + annotations_from(cs, next, file)
            },
            None => annotations_from(cs, i + 1, file),
        }
    }
}

fn consume_continuation(
    comments: &[Comment],
    texts: &Vec<Vec<char>>,
    i: &mut usize,
    prev_line: &mut usize,
    description: &mut Vec<char>,
)
    requires
        texts.len() == comments.len(),
        forall|k: int| 0 <= k < comments.len() ==> (#[trigger] texts@[k])@ == comments@[k].text@,
        forall|k: int| 0 <= k < comments.len() ==> (#[trigger] comments@[k]).line < usize::MAX,
        *old(i) <= comments.len(),
        *old(prev_line) < usize::MAX,
    ensures
        (final(description)@, *final(i) as int) == continuation(comments_view(comments@), *old(i) as int, *old(prev_line) as int, old(description)@),
{
    let ghost cs = comments_view(comments@);
    while *i < comments.len()
        invariant
            texts.len() == comments.len(),
            forall|k: int| 0 <= k < comments.len() ==> (#[trigger] texts@[k])@ == comments@[k].text@,
            forall|k: int| 0 <= k < comments.len() ==> (#[trigger] comments@[k]).line < usize::MAX,
            cs == comments_view(comments@),
            *i <= comments.len(),
            *prev_line < usize::MAX,
            continuation(cs, *old(i) as int, *old(prev_line) as int, old(description)@)
                == continuation(cs, *i as int, *prev_line as int, description@),
        ensures
            continuation(cs, *old(i) as int, *old(prev_line) as int, old(description)@)
                == (description@, *i as int),
        decreases comments.len() - *i,
    {
        let next = &comments[*i];
        assert(cs[*i as int] == next@);
        if next.line != *prev_line + 1 {
            break;
        }
        if is_marker_exec(&texts[*i]) {
            break;
        }
        let ghost d0 = description@;
        if description.len() > 0 {
            description.push('\n');
        }
        let text = &texts[*i];
        proof {
            if d0.len() > 0 {
                assert(description@ =~= d0.push('\n') + text@.take(0));
            } else {
                assert(description@ =~= text@.take(0));
            }
        }
        let mut k: usize = 0;
        while k < text.len()
            invariant
                k <= text.len(),
                d0.len() > 0 ==> description@ == d0.push('\n') + text@.take(k as int),
                d0.len() == 0 ==> description@ == text@.take(k as int),
            decreases text.len() - k,
        {
            description.push(text[k]);
            k = k + 1;
            proof {
                if d0.len() > 0 {
                    assert(description@ =~= d0.push('\n') + text@.take(k as int));
                } else {
                    assert(description@ =~= text@.take(k as int));
                }
            }
        }
        proof {
            assert(text@.take(text.len() as int) =~= text@);
            assert(description@ =~= join_nonempty(d0, '\n', cs[*i as int].text));
        }
        *prev_line = next.line;
        *i = *i + 1;
    }
}

fn is_file_word(w: &Vec<char>) -> (r: bool)
    ensures
        r == (w@ == file_word()),
{
    let r = w.len() == 4 && w[0] == 'f' && w[1] == 'i' && w[2] == 'l' && w[3] == 'e';
    proof {
        if r {
            assert(w@ =~= file_word());
        }
    }
    r
}

/// Extract annotations from a list of comments.
///
/// Consecutive comments immediately following a `[check]` line are treated as
/// continuation lines and appended to the description. A blank comment line
/// is preserved as a newline. The annotation ends when the next comment is
/// non-consecutive (gap in line numbers), contains a new `[check]`, or when
/// a non-comment line intervenes (which means the comments are
/// non-consecutive).
pub fn extract_annotations(comments: &[Comment], file_path: &str) -> (r: Vec<Annotation>)
    requires
        forall|k: int| 0 <= k < comments.len() ==> (#[trigger] comments@[k]).line < usize::MAX,
    ensures
        annotations_view(r@) == annotations_from(comments_view(comments@), 0, file_path@),
{
    let ghost cs = comments_view(comments@);
    let mut texts: Vec<Vec<char>> = Vec::new();
    let mut k: usize = 0;
    while k < comments.len()
        invariant
            k <= comments.len(),
            texts.len() == k,
            forall|m: int| 0 <= m < k ==> (#[trigger] texts@[m])@ == comments@[m].text@,
        decreases comments.len() - k,
    {
        texts.push(chars_of(comments[k].text.as_str()));
        k = k + 1;
    }
    let mut annotations: Vec<Annotation> = Vec::new();
    let mut i: usize = 0;
    while i < comments.len()
        invariant
            i <= comments.len(),
            texts.len() == comments.len(),
            forall|m: int| 0 <= m < comments.len() ==> (#[trigger] texts@[m])@ == comments@[m].text@,
            forall|m: int| 0 <= m < comments.len() ==> (#[trigger] comments@[m]).line < usize::MAX,
            cs == comments_view(comments@),
            annotations_from(cs, 0, file_path@) == annotations_view(annotations@) + annotations_from(cs, i as int, file_path@),
        decreases comments.len() - i,
    {
        let comment = &comments[i];
        let text = &texts[i];
        assert(cs[i as int] == comment@);
        let ghost old_a = annotations@;
        let ghost old_i = i;
        proof {
            lemma_annotation_next(cs, i as int, file_path@);
        }
        let found: Option<(CheckKind, Vec<char>, bool)> = if let Some((pattern, d)) = all_re_exec(text) {
            Some((CheckKind::All { pattern: string_of(&pattern) }, d, true))
        } else if let Some((name, d)) = tag_re_exec(text) {
            Some((CheckKind::Tag { name: string_of(&name) }, d, true))
        } else if let Some(name) = ref_re_exec(text) {
            Some((CheckKind::Ref { name: string_of(&name) }, Vec::new(), false))
        } else if let Some((word, d)) = check_re_exec(text) {
            match word {
                None => Some((CheckKind::Check, d, true)),
                Some(w) => if is_file_word(&w) {
                    Some((CheckKind::File, d, true))
                } else {
                    None
                },
            }
        } else {
            None
        };
        match found {
            Some((kind, d, continues)) => {
                let mut description = d;
                let mut prev_line = comment.line;
                i = i + 1;
                if continues {
                    consume_continuation(comments, &texts, &mut i, &mut prev_line, &mut description);
                }
                let ann = Annotation {
                    file_path: string_of(&chars_of(file_path)),
                    line: comment.line,
                    kind,
                    description: string_of(&description),
                };
                annotations.push(ann);
                proof {
                    assert(annotation_at(cs, old_i as int, file_path@) == Some((ann@, i as int)));
                    assert(annotations_view(annotations@) =~= annotations_view(old_a).push(ann@));
                    assert(annotations_view(old_a).push(ann@) + annotations_from(cs, i as int, file_path@)
                        =~= annotations_view(old_a) + (seq![ann@] + annotations_from(cs, i as int, file_path@)));
                }
            },
            None => {
                assert(annotation_at(cs, i as int, file_path@) is None);
                i = i + 1;
            },
        }
    }
    proof {
        assert(annotations_view(annotations@) + annotations_from(cs, i as int, file_path@) =~= annotations_view(annotations@));
    }
    annotations
}


/// Every annotation found in comments belongs to the file it was found in
/// and starts on the line of one of those comments.
pub proof fn law_annotations_on_comment_lines(cs: Seq<CommentView>, file: Seq<char>)
    ensures
        forall|k: int| 0 <= k < annotations_from(cs, 0, file).len() ==> {
            let a = #[trigger] annotations_from(cs, 0, file)[k];
            &&& a.file_path == file
            &&& exists|j: int| 0 <= j < cs.len() && cs[j].line == a.line
        },
{
    lemma_annotations_from_lines(cs, 0, file);
}

proof fn lemma_annotations_from_lines(cs: Seq<CommentView>, i: int, file: Seq<char>)
    requires
        0 <= i,
    ensures
        forall|k: int| 0 <= k < annotations_from(cs, i, file).len() ==> {
            let a = #[trigger] annotations_from(cs, i, file)[k];
            &&& a.file_path == file
            &&& exists|j: int| 0 <= j < cs.len() && cs[j].line == a.line
        },
    decreases cs.len() - i,
{
    if i < cs.len() {
        lemma_annotation_next(cs, i, file);
        match annotation_at(cs, i, file) {
            Some((a, next)) => {
                lemma_annotations_from_lines(cs, next, file);
                let rest = annotations_from(cs, next, file);
                assert(a.file_path == file && a.line == cs[i].line);
                assert forall|k: int| 0 <= k < annotations_from(cs, i, file).len() implies {
                    let b = #[trigger] annotations_from(cs, i, file)[k];
                    &&& b.file_path == file
                    &&& exists|j: int| 0 <= j < cs.len() && cs[j].line == b.line
                } by {
                    if k > 0 {
                        assert(annotations_from(cs, i, file)[k] == rest[k - 1]);
                    }
                }
            },
            None => lemma_annotations_from_lines(cs, i + 1, file),
        }
    }
}

/// The variant of a `[check:<word>]` opener that is none of the known forms,
/// if the text starts with one: `all` stands for a `[check:all]` without a
/// pattern, any other word other than `file` for an unknown variant.
pub open spec fn unknown_variant(t: Seq<char>) -> Option<Seq<char>> {
    if all_re(t) is Some || tag_re(t) is Some || ref_re(t) is Some {
        None
    } else {
        match check_re(t) {
            Some((Some(w), _)) => if w == file_word() {
                None
            } else {
                Some(w)
            },
            _ => None,
        }
    }
}

/// The (line, variant) of each comment of `cs` with an unknown variant, in
/// order.
pub open spec fn variant_warnings(cs: Seq<CommentView>) -> Seq<(int, Seq<char>)>
    decreases cs.len(),
{
    if cs.len() == 0 {
        seq![]
    } else {
        let prev = variant_warnings(cs.drop_last());
        match unknown_variant(cs.last().text) {
            Some(w) => prev.push((cs.last().line, w)),
            None => prev,
        }
    }
}

/// The views of (line, text) pairs.
pub open spec fn line_texts_view(v: Seq<(usize, String)>) -> Seq<(int, Seq<char>)> {
    v.map_values(|p: (usize, String)| (p.0 as int, p.1@))
}

/// The comments that `extract_annotations` skips with a warning: those
/// opening a `[check:<word>]` variant it does not know (or `[check:all]`
/// without a pattern), each as its line and the variant's word.
pub fn unknown_variants(comments: &[Comment]) -> (r: Vec<(usize, String)>)
    ensures
        line_texts_view(r@) == variant_warnings(comments_view(comments@)),
{
    let ghost cs = comments_view(comments@);
    let mut r: Vec<(usize, String)> = Vec::new();
    let mut k: usize = 0;
    while k < comments.len()
        invariant
            k <= comments.len(),
            cs == comments_view(comments@),
            line_texts_view(r@) == variant_warnings(cs.take(k as int)),
        decreases comments.len() - k,
    {
        let c = &comments[k];
        proof {
            let t = cs.take(k + 1);
            assert(t.drop_last() =~= cs.take(k as int));
            assert(t.last() == c@);
        }
        let t = chars_of(c.text.as_str());
        let known = all_re_exec(&t).is_some() || tag_re_exec(&t).is_some() || ref_re_exec(&t).is_some();
        if !known {
            if let Some((Some(w), _)) = check_re_exec(&t) {
                if !is_file_word(&w) {
                    let ghost old_r = r@;
                    let e = (c.line, string_of(&w));
                    r.push(e);
                    assert(line_texts_view(r@) =~= line_texts_view(old_r).push((c.line as int, w@)));
                }
            }
        }
        k = k + 1;
    }
    assert(cs.take(comments.len() as int) =~= cs);
    r
}

/// A comment with an unknown variant starts no annotation and ends any
/// description before it.
pub proof fn law_unknown_variant_skipped(cs: Seq<CommentView>, i: int, file: Seq<char>)
    requires
        0 <= i < cs.len(),
        unknown_variant(cs[i].text) is Some,
    ensures
        annotation_at(cs, i, file) is None,
        is_marker(cs[i].text),
{
}

} // verus!
