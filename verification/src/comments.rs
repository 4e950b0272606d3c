//! Comment extraction: finds line and block comments in source text.
use vstd::prelude::*;
use crate::text::{
    chars_of, find, find_chars, is_ws, join_nonempty, lemma_find_from_match, lines, slice_chars,
    split_lines, string_of, trim, trim_chars,
};

verus! {

broadcast use crate::text::lemma_char_vec_deep_view;

/// A comment extracted from a source file.
#[derive(Debug, Clone)]
pub struct Comment {
    /// 1-based line number where the comment starts.
    pub line: usize,
    /// The comment text with delimiters stripped and trimmed.
    pub text: String,
}

/// Abstract comment: its 1-based start line and its text.
pub struct CommentView {
    pub line: int,
    pub text: Seq<char>,
}

impl View for Comment {
    type V = CommentView;

    open spec fn view(&self) -> CommentView {
        CommentView { line: self.line as int, text: self.text@ }
    }
}

/// Comment syntax tokens for a language.
#[derive(Debug, Clone)]
pub struct CommentTokens {
    /// Line comment prefixes, tried in order.
    pub line: Vec<String>,
    /// Block comment (open, close) pairs, tried in order.
    pub block: Vec<(String, String)>,
}

/// Abstract comment tokens.
pub struct TokensView {
    pub line: Seq<Seq<char>>,
    pub block: Seq<(Seq<char>, Seq<char>)>,
}

impl View for CommentTokens {
    type V = TokensView;

    open spec fn view(&self) -> TokensView {
        TokensView { line: self.line.deep_view(), block: self.block.deep_view() }
    }
}

/// The views of a sequence of comments.
pub open spec fn comments_view(cs: Seq<Comment>) -> Seq<CommentView> {
    cs.map_values(|c: Comment| c@)
}

/// The text of a line comment in the trimmed line `trimmed`: the rest of the
/// line after the first occurrence of the first prefix (from index `k` on)
/// that occurs in it.
pub open spec fn line_comment_text(trimmed: Seq<char>, prefixes: Seq<Seq<char>>, k: int) -> Option<Seq<char>>
    decreases prefixes.len() - k,
{
    if k < 0 || k >= prefixes.len() {
        None
    } else {
        match find(trimmed, prefixes[k]) {
            Some(pos) => Some(trim(trimmed.skip(pos + prefixes[k].len()))),
            None => line_comment_text(trimmed, prefixes, k + 1),
        }
    }
}

/// The first block pair (from index `k` on) whose opener occurs in `line`:
/// the pair's index and the position just after the opener.
pub open spec fn block_open(line: Seq<char>, blocks: Seq<(Seq<char>, Seq<char>)>, k: int) -> Option<(int, int)>
    decreases blocks.len() - k,
{
    if k < 0 || k >= blocks.len() {
        None
    } else {
        match find(line, blocks[k].0) {
            Some(op) => Some((k, op + blocks[k].0.len())),
            None => block_open(line, blocks, k + 1),
        }
    }
}

/// `s` without one leading `*`.
pub open spec fn strip_star(s: Seq<char>) -> Seq<char> {
    if s.len() > 0 && s[0] == '*' {
        s.drop_first()
    } else {
        s
    }
}

/// `text` extended by `part`, separated by a space, unless `part` is empty.
pub open spec fn append_part(text: Seq<char>, part: Seq<char>) -> Seq<char> {
    if part.len() > 0 {
        join_nonempty(text, ' ', part)
    } else {
        text
    }
}

/// Continues a block comment from line `j`: the collected text and the
/// index of the first line after the comment.
pub open spec fn block_rest(ls: Seq<Seq<char>>, j: int, close: Seq<char>, text: Seq<char>) -> (Seq<char>, int)
    decreases ls.len() - j,
{
    if j < 0 || j >= ls.len() {
        (text, ls.len() as int)
    } else {
        let cur = trim(ls[j]);
        match find(cur, close) {
            Some(cp) => (append_part(text, trim(cur.take(cp))), j + 1),
            None => block_rest(ls, j + 1, close, append_part(text, trim(strip_star(cur)))),
        }
    }
}

/// Some line-comment prefix occurs in `line` before position `op`: a block
/// opener there is part of a line comment's text, not a block's start.
pub open spec fn prefix_before(line: Seq<char>, prefixes: Seq<Seq<char>>, op: int) -> bool {
    exists|j: int| 0 <= j < prefixes.len() && (#[trigger] find(line, prefixes[j]) matches Some(p) && p < op)
}

/// The block comment starting on line `i` (0-based), if any, and the index
/// of the first line after it. An opener that a line-comment prefix
/// precedes on the line starts no block.
pub open spec fn block_comment_at(ls: Seq<Seq<char>>, i: int, prefixes: Seq<Seq<char>>, blocks: Seq<(Seq<char>, Seq<char>)>) -> Option<(CommentView, int)> {
    let line = trim(ls[i]);
    match block_open(line, blocks, 0) {
        None => None,
        Some((k, after)) => if prefix_before(line, prefixes, after - blocks[k].0.len()) {
            None
        } else {
            let after_open = line.skip(after);
            let close = blocks[k].1;
            match find(after_open, close) {
                Some(cp) => Some((CommentView { line: i + 1, text: trim(after_open.take(cp)) }, i + 1)),
                None => {
                    let (text, next) = block_rest(ls, i + 1, close, trim(after_open));
                    Some((CommentView { line: i + 1, text }, next))
                },
            }
        },
    }
}

pub proof fn lemma_block_rest_next(ls: Seq<Seq<char>>, j: int, close: Seq<char>, text: Seq<char>)
    requires
        0 <= j <= ls.len(),
    ensures
        j <= block_rest(ls, j, close, text).1 <= ls.len(),
    decreases ls.len() - j,
{
    if j < ls.len() {
        let cur = trim(ls[j]);
        if find(cur, close) is None {
            lemma_block_rest_next(ls, j + 1, close, append_part(text, trim(strip_star(cur))));
        }
    }
}

pub proof fn lemma_block_comment_next(ls: Seq<Seq<char>>, i: int, prefixes: Seq<Seq<char>>, blocks: Seq<(Seq<char>, Seq<char>)>)
    requires
        0 <= i < ls.len(),
    ensures
        block_comment_at(ls, i, prefixes, blocks) matches Some((c, n)) ==> i < n <= ls.len(),
{
    let line = trim(ls[i]);
    if let Some((k, after)) = block_open(line, blocks, 0) {
        let after_open = line.skip(after);
        let close = blocks[k].1;
        if find(after_open, close) is None {
            lemma_block_rest_next(ls, i + 1, close, trim(after_open));
        }
    }
}

/// The comments found from line `i` (0-based) on.
pub open spec fn comments_from(ls: Seq<Seq<char>>, i: int, tokens: TokensView) -> Seq<CommentView>
    decreases ls.len() - i,
{
    if i < 0 || i >= ls.len() {
        seq![]
    } else {
        match block_comment_at(ls, i, tokens.line, tokens.block) {
            Some((c, next)) => {
                proof {
                    lemma_block_comment_next(ls, i, tokens.line, tokens.block);
                }
                seq![c] + comments_from(ls, next, tokens)
            },
            None => match line_comment_text(trim(ls[i]), tokens.line, 0) {
                Some(text) => seq![CommentView { line: i + 1, text }] + comments_from(ls, i + 1, tokens),
                None => comments_from(ls, i + 1, tokens),
            },
        }
    }
}

/// The comments of `source`, scanning its lines in order: a block comment
/// opened on a line takes precedence over a line comment there, unless a
/// line-comment prefix comes before its opener.
pub open spec fn spec_extract_comments(source: Seq<char>, tokens: TokensView) -> Seq<CommentView> {
    comments_from(lines(source), 0, tokens)
}

fn chars_of_all(v: &Vec<String>) -> (r: Vec<Vec<char>>)
    ensures
        r.deep_view() == v.deep_view(),
{
    let mut r: Vec<Vec<char>> = Vec::new();
    let mut k: usize = 0;
    while k < v.len()
        invariant
            k <= v.len(),
            r.len() == k,
            forall|m: int| 0 <= m < k ==> #[trigger] r@[m]@ == v@[m]@,
        decreases v.len() - k,
    {
        r.push(chars_of(v[k].as_str()));
        k = k + 1;
    }
    assert(r.deep_view() =~= v.deep_view());
    r
}

fn chars_of_pairs(v: &Vec<(String, String)>) -> (r: Vec<(Vec<char>, Vec<char>)>)
    ensures
        r.len() == v.len(),
        forall|m: int| 0 <= m < v.len() ==> (#[trigger] r@[m]).0@ == v@[m].0@ && r@[m].1@ == v@[m].1@,
{
    let mut r: Vec<(Vec<char>, Vec<char>)> = Vec::new();
    let mut k: usize = 0;
    while k < v.len()
        invariant
            k <= v.len(),
            r.len() == k,
            forall|m: int| 0 <= m < k ==> (#[trigger] r@[m]).0@ == v@[m].0@ && r@[m].1@ == v@[m].1@,
        decreases v.len() - k,
    {
        let a = chars_of(v[k].0.as_str());
        let b = chars_of(v[k].1.as_str());
        r.push((a, b));
        k = k + 1;
    }
    r
}

/// The pairs' views.
pub open spec fn pairs_view(r: Seq<(Vec<char>, Vec<char>)>) -> Seq<(Seq<char>, Seq<char>)> {
    r.map_values(|p: (Vec<char>, Vec<char>)| (p.0@, p.1@))
}

fn try_line_comment(trimmed: &Vec<char>, line_idx: usize, prefixes: &Vec<Vec<char>>) -> (r: Option<Comment>)
    requires
        line_idx < usize::MAX,
    ensures
        match line_comment_text(trimmed@, prefixes.deep_view(), 0) {
            Some(text) => r matches Some(c) && c@ == (CommentView { line: line_idx + 1, text }),
            None => r is None,
        },
{
    let mut k: usize = 0;
    while k < prefixes.len()
        invariant
            k <= prefixes.len(),
            line_idx < usize::MAX,
            line_comment_text(trimmed@, prefixes.deep_view(), 0) == line_comment_text(trimmed@, prefixes.deep_view(), k as int),
        decreases prefixes.len() - k,
    {
        let prefix = &prefixes[k];
        assert(prefixes.deep_view()[k as int] == prefix@);
        match find_chars(trimmed, prefix) {
            Some(pos) => {
                proof {
                    lemma_find_from_match(trimmed@, prefix@, 0);
                }
                let rest = slice_chars(trimmed, pos + prefix.len(), trimmed.len());
                let text = trim_chars(&rest);
                proof {
                    assert(rest@ =~= trimmed@.skip(pos + prefix.len()));
                }
                return Some(Comment { line: line_idx + 1, text: string_of(&text) });
            },
            None => {},
        }
        k = k + 1;
    }
    None
}

fn find_block_open(line: &Vec<char>, blocks: &Vec<(Vec<char>, Vec<char>)>) -> (r: Option<(usize, usize)>)
    ensures
        match block_open(line@, pairs_view(blocks@), 0) {
            Some((k, after)) => r == Some((k as usize, after as usize)) && 0 <= k < blocks.len() && 0 <= after <= line.len(),
            None => r is None,
        },
        r matches Some((k, a)) ==> k < blocks.len() && a <= line.len() && block_open(line@, pairs_view(blocks@), 0) == Some((k as int, a as int)),
        r matches Some((k, a)) ==> a >= blocks@[k as int].0.len(),
{
    let ghost bv = pairs_view(blocks@);
    let mut k: usize = 0;
    while k < blocks.len()
        invariant
            k <= blocks.len(),
            bv == pairs_view(blocks@),
            block_open(line@, bv, 0) == block_open(line@, bv, k as int),
        decreases blocks.len() - k,
    {
        let open = &blocks[k].0;
        assert(bv[k as int].0 == open@);
        match find_chars(line, open) {
            Some(op) => {
                proof {
                    lemma_find_from_match(line@, open@, 0);
                }
                return Some((k, op + open.len()));
            },
            None => {},
        }
        k = k + 1;
    }
    None
}

fn append_part_exec(text: &mut Vec<char>, part: &Vec<char>)
    ensures
        final(text)@ == append_part(old(text)@, part@),
{
    if part.len() > 0 {
        if text.len() > 0 {
            text.push(' ');
        }
        let mut k: usize = 0;
        let ghost base = text@;
        while k < part.len()
            invariant
                k <= part.len(),
                text@ == base + part@.take(k as int),
            decreases part.len() - k,
        {
            text.push(part[k]);
            k = k + 1;
            assert(text@ =~= base + part@.take(k as int));
        }
        assert(part@.take(part.len() as int) =~= part@);
    }
}

/// Whether a line-comment prefix occurs in `line` before position `op`.
fn prefix_before_exec(line: &Vec<char>, prefixes: &Vec<Vec<char>>, op: usize) -> (r: bool)
    ensures
        r == prefix_before(line@, prefixes.deep_view(), op as int),
{
    let ghost pv = prefixes.deep_view();
    let mut j: usize = 0;
    while j < prefixes.len()
        invariant
            j <= prefixes.len(),
            pv == prefixes.deep_view(),
            forall|m: int| 0 <= m < j ==> !(#[trigger] find(line@, pv[m]) matches Some(p) && p < op),
        decreases prefixes.len() - j,
    {
        assert(pv[j as int] == prefixes[j as int]@);
        match find_chars(line, &prefixes[j]) {
            Some(p) => {
                if p < op {
                    return true;
                }
            },
            None => {},
        }
        j = j + 1;
    }
    false
}

fn try_block_comment(lines: &Vec<Vec<char>>, i: &mut usize, prefixes: &Vec<Vec<char>>, blocks: &Vec<(Vec<char>, Vec<char>)>) -> (r: Option<Comment>)
    requires
        *old(i) < lines.len(),
    ensures
        match block_comment_at(lines.deep_view(), *old(i) as int, prefixes.deep_view(), pairs_view(blocks@)) {
            Some((c, next)) => r matches Some(rc) && rc@ == c && *final(i) == next,
            None => r is None && *final(i) == *old(i),
        },
{
    let ghost ls = lines.deep_view();
    let ghost bv = pairs_view(blocks@);
    let ghost pv = prefixes.deep_view();
    let start = *i;
    let line = trim_chars(&lines[start]);
    assert(ls[start as int] == lines@[start as int]@);
    match find_block_open(&line, blocks) {
        None => None,
        Some((k, after)) => {
            assert(bv[k as int].0 == blocks@[k as int].0@);
            if prefix_before_exec(&line, prefixes, after - blocks[k].0.len()) {
                return None;
            }
            let after_open = slice_chars(&line, after, line.len());
            assert(after_open@ =~= line@.skip(after as int));
            let close = &blocks[k].1;
            assert(bv[k as int].1 == close@);
            match find_chars(&after_open, close) {
                Some(cp) => {
                    proof {
                        lemma_find_from_match(after_open@, close@, 0);
                    }
                    let body = slice_chars(&after_open, 0, cp);
                    let text = trim_chars(&body);
                    assert(body@ =~= after_open@.take(cp as int));
                    *i = start + 1;
                    Some(Comment { line: start + 1, text: string_of(&text) })
                },
                None => {
                    let mut text = trim_chars(&after_open);
                    let mut j = start + 1;
                    let ghost rest = block_rest(ls, start + 1, close@, trim(after_open@));
                    assert(block_comment_at(ls, start as int, pv, bv) == Some((CommentView { line: start + 1, text: rest.0 }, rest.1)));
                    while j < lines.len()
                        invariant
                            start < j <= lines.len(),
                            start == *old(i),
                            bv == pairs_view(blocks@),
                            pv == prefixes.deep_view(),
                            rest == block_rest(ls, start + 1, close@, trim(after_open@)),
                            block_comment_at(ls, start as int, pv, bv) == Some((CommentView { line: start + 1, text: rest.0 }, rest.1)),
                            ls == lines.deep_view(),
                            block_rest(ls, start + 1, close@, trim(after_open@)) == block_rest(ls, j as int, close@, text@),
                        decreases lines.len() - j,
                    {
                        let current = trim_chars(&lines[j]);
                        assert(ls[j as int] == lines@[j as int]@);
                        match find_chars(&current, close) {
                            Some(cp) => {
                                proof {
                                    lemma_find_from_match(current@, close@, 0);
                                }
                                let before = slice_chars(&current, 0, cp);
                                let before_close = trim_chars(&before);
                                assert(before@ =~= current@.take(cp as int));
                                let ghost t0 = text@;
                                assert(block_rest(ls, j as int, close@, t0) == (append_part(t0, before_close@), j + 1));
                                append_part_exec(&mut text, &before_close);
                                *i = j + 1;
                                return Some(Comment { line: start + 1, text: string_of(&text) });
                            },
                            None => {},
                        }
                        let stripped = if current.len() > 0 && current[0] == '*' {
                            slice_chars(&current, 1, current.len())
                        } else {
                            current
                        };
                        assert(stripped@ =~= strip_star(trim(ls[j as int])));
                        let cleaned = trim_chars(&stripped);
                        append_part_exec(&mut text, &cleaned);
                        j = j + 1;
                    }
                    *i = lines.len();
                    Some(Comment { line: start + 1, text: string_of(&text) })
                },
            }
        },
    }
}

/// Extract all comments from the given source text using the provided comment tokens.
pub fn extract_comments(source: &str, tokens: &CommentTokens) -> (r: Vec<Comment>)
    ensures
        comments_view(r@) == spec_extract_comments(source@, tokens@),
{
    let chars = chars_of(source);
    let source_lines = split_lines(&chars);
    let prefixes = chars_of_all(&tokens.line);
    let blocks = chars_of_pairs(&tokens.block);
    let ghost ls = source_lines.deep_view();
    let ghost tv = tokens@;
    proof {
        assert(pairs_view(blocks@) =~= tv.block);
    }
    let mut comments: Vec<Comment> = Vec::new();
    let mut i: usize = 0;
    while i < source_lines.len()
        invariant
            i <= source_lines.len(),
            ls == source_lines.deep_view(),
            ls == lines(source@),
            prefixes.deep_view() == tv.line,
            pairs_view(blocks@) == tv.block,
            spec_extract_comments(source@, tv) == comments_view(comments@) + comments_from(ls, i as int, tv),
        decreases source_lines.len() - i,
    {
        let ghost old_c = comments@;
        let ghost old_i = i;
        proof {
            lemma_block_comment_next(ls, i as int, tv.line, tv.block);
        }
        if let Some(comment) = try_block_comment(&source_lines, &mut i, &prefixes, &blocks) {
            comments.push(comment);
            proof {
                assert(comments_view(comments@) =~= comments_view(old_c).push(comment@));
                assert(comments_view(old_c).push(comment@) + comments_from(ls, i as int, tv)
                    =~= comments_view(old_c) + (seq![comment@] + comments_from(ls, i as int, tv)));
            }
            continue;
        }
        let trimmed = trim_chars(&source_lines[i]);
        assert(ls[i as int] == source_lines@[i as int]@);
        if let Some(comment) = try_line_comment(&trimmed, i, &prefixes) {
            comments.push(comment);
            proof {
                assert(comments_view(comments@) =~= comments_view(old_c).push(comment@));
                assert(comments_view(old_c).push(comment@) + comments_from(ls, i + 1, tv)
                    =~= comments_view(old_c) + (seq![comment@] + comments_from(ls, i + 1, tv)));
            }
        }
        i = i + 1;
    }
    proof {
        assert(comments_view(comments@) + comments_from(ls, i as int, tv) =~= comments_view(comments@));
    }
    comments
}


/// The comments of a source come in the order of their lines, at most one
/// starting on any line, each on a line of the source (1-based).
pub proof fn law_comments_in_line_order(source: Seq<char>, tokens: TokensView)
    ensures
        forall|k: int| 0 <= k < spec_extract_comments(source, tokens).len()
            ==> 1 <= (#[trigger] spec_extract_comments(source, tokens)[k]).line <= lines(source).len(),
        forall|j: int, k: int| 0 <= j < k < spec_extract_comments(source, tokens).len()
            ==> (#[trigger] spec_extract_comments(source, tokens)[j]).line < (#[trigger] spec_extract_comments(source, tokens)[k]).line,
{
    lemma_comments_from_order(lines(source), 0, tokens);
}

proof fn lemma_comments_from_order(ls: Seq<Seq<char>>, i: int, tokens: TokensView)
    requires
        0 <= i,
    ensures
        forall|k: int| 0 <= k < comments_from(ls, i, tokens).len()
            ==> i + 1 <= (#[trigger] comments_from(ls, i, tokens)[k]).line <= ls.len(),
        forall|j: int, k: int| 0 <= j < k < comments_from(ls, i, tokens).len()
            ==> (#[trigger] comments_from(ls, i, tokens)[j]).line < (#[trigger] comments_from(ls, i, tokens)[k]).line,
    decreases ls.len() - i,
{
    if i < ls.len() {
        let cur = comments_from(ls, i, tokens);
        match block_comment_at(ls, i, tokens.line, tokens.block) {
            Some((c, next)) => {
                lemma_block_comment_next(ls, i, tokens.line, tokens.block);
                lemma_comments_from_order(ls, next, tokens);
                let rest = comments_from(ls, next, tokens);
                assert(c.line == i + 1);
                assert forall|k: int| 0 <= k < cur.len() implies i + 1 <= (#[trigger] cur[k]).line <= ls.len() by {
                    if k > 0 {
                        assert(cur[k] == rest[k - 1]);
                    }
                }
                assert forall|j: int, k: int| 0 <= j < k < cur.len() implies (#[trigger] cur[j]).line < (#[trigger] cur[k]).line by {
                    assert(cur[k] == rest[k - 1]);
                    if j > 0 {
                        assert(cur[j] == rest[j - 1]);
                    }
                }
            },
            None => {
                lemma_comments_from_order(ls, i + 1, tokens);
                let rest = comments_from(ls, i + 1, tokens);
                if line_comment_text(trim(ls[i]), tokens.line, 0) is Some {
                    assert forall|k: int| 0 <= k < cur.len() implies i + 1 <= (#[trigger] cur[k]).line <= ls.len() by {
                        if k > 0 {
                            assert(cur[k] == rest[k - 1]);
                        }
                    }
                    assert forall|j: int, k: int| 0 <= j < k < cur.len() implies (#[trigger] cur[j]).line < (#[trigger] cur[k]).line by {
                        assert(cur[k] == rest[k - 1]);
                        if j > 0 {
                            assert(cur[j] == rest[j - 1]);
                        }
                    }
                }
            },
        }
    }
}

/// `t` ends with `part`.
pub open spec fn ends_with(t: Seq<char>, part: Seq<char>) -> bool {
    part.len() <= t.len() && t.subrange(t.len() - part.len(), t.len() as int) == part
}

/// A comment found from line `i0` on is the block comment that starts on its
/// line, whenever a block comment starts there.
proof fn lemma_comment_is_block_at(ls: Seq<Seq<char>>, i0: int, tokens: TokensView, k: int)
    requires
        0 <= i0,
        0 <= k < comments_from(ls, i0, tokens).len(),
    ensures
        0 <= comments_from(ls, i0, tokens)[k].line - 1 < ls.len(),
        block_comment_at(ls, comments_from(ls, i0, tokens)[k].line - 1, tokens.line, tokens.block) matches Some((c, _))
            ==> comments_from(ls, i0, tokens)[k] == c,
    decreases ls.len() - i0,
{
    let cur = comments_from(ls, i0, tokens);
    lemma_comments_from_order(ls, i0, tokens);
    assert(i0 + 1 <= cur[k].line <= ls.len());
    match block_comment_at(ls, i0, tokens.line, tokens.block) {
        Some((c, next)) => {
            lemma_block_comment_next(ls, i0, tokens.line, tokens.block);
            if k > 0 {
                assert(cur[k] == comments_from(ls, next, tokens)[k - 1]);
                lemma_comment_is_block_at(ls, next, tokens, k - 1);
            }
        },
        None => {
            if line_comment_text(trim(ls[i0]), tokens.line, 0) is Some {
                if k > 0 {
                    assert(cur[k] == comments_from(ls, i0 + 1, tokens)[k - 1]);
                    lemma_comment_is_block_at(ls, i0 + 1, tokens, k - 1);
                }
            } else {
                lemma_comment_is_block_at(ls, i0 + 1, tokens, k);
            }
        },
    }
}

/// Continuing a block comment up to its closing line `m` ends the text with
/// what stands before the closer on that line, when anything does.
proof fn lemma_block_rest_ends(ls: Seq<Seq<char>>, j: int, close: Seq<char>, text: Seq<char>, m: int, cp: int)
    requires
        0 <= j <= m < ls.len(),
        find(trim(ls[m]), close) == Some(cp),
        forall|x: int| j <= x < m ==> #[trigger] find(trim(ls[x]), close) is None,
        trim(trim(ls[m]).take(cp)).len() > 0,
    ensures
        ends_with(block_rest(ls, j, close, text).0, trim(trim(ls[m]).take(cp))),
    decreases m - j,
{
    let cur = trim(ls[j]);
    if j < m {
        assert(find(trim(ls[j]), close) is None);
        lemma_block_rest_ends(ls, j + 1, close, append_part(text, trim(strip_star(cur))), m, cp);
    } else {
        let part = trim(cur.take(cp));
        let r = append_part(text, part);
        assert(block_rest(ls, j, close, text).0 == r);
        if text.len() == 0 {
            assert(r == part);
        } else {
            assert(r == text.push(' ') + part);
        }
        assert(r.subrange(r.len() - part.len(), r.len() as int) =~= part);
    }
}

/// A block comment that closes on a later line keeps, at the end of its
/// text, whatever stands before the closing token on that line: no line of
/// a multi-line block comment is dropped at its close.
pub proof fn law_block_keeps_closing_text(
    source: Seq<char>,
    tokens: TokensView,
    k: int,
    b: int,
    after: int,
    m: int,
    cp: int,
)
    requires
        0 <= k < spec_extract_comments(source, tokens).len(),
        ({
            let ls = lines(source);
            let i = spec_extract_comments(source, tokens)[k].line - 1;
            let line = trim(ls[i]);
            let close = tokens.block[b].1;
            &&& block_open(line, tokens.block, 0) == Some((b, after))
            &&& !prefix_before(line, tokens.line, after - tokens.block[b].0.len())
            &&& find(line.skip(after), close) is None
            &&& i < m < ls.len()
            &&& find(trim(ls[m]), close) == Some(cp)
            &&& forall|x: int| i < x < m ==> #[trigger] find(trim(ls[x]), close) is None
            &&& trim(trim(ls[m]).take(cp)).len() > 0
        }),
    ensures
        ends_with(spec_extract_comments(source, tokens)[k].text, trim(trim(lines(source)[m]).take(cp))),
{
    let ls = lines(source);
    let cs = spec_extract_comments(source, tokens);
    lemma_comment_is_block_at(ls, 0, tokens, k);
    let i = cs[k].line - 1;
    let line = trim(ls[i]);
    let close = tokens.block[b].1;
    let (text, next) = block_rest(ls, i + 1, close, trim(line.skip(after)));
    assert(block_comment_at(ls, i, tokens.line, tokens.block) == Some((CommentView { line: i + 1, text }, next)));
    assert(cs[k].text == text);
    lemma_block_rest_ends(ls, i + 1, close, trim(line.skip(after)), m, cp);
}

/// `t` starts with `part`.
pub open spec fn starts_with(t: Seq<char>, part: Seq<char>) -> bool {
    part.len() <= t.len() && t.subrange(0, part.len() as int) == part
}

/// `part` stands in `t` at position `off`.
pub open spec fn text_at(t: Seq<char>, off: int, part: Seq<char>) -> bool {
    0 <= off && off + part.len() <= t.len() && t.subrange(off, off + part.len()) == part
}

proof fn lemma_append_part_extends(text: Seq<char>, part: Seq<char>)
    ensures
        starts_with(append_part(text, part), text),
        part.len() > 0 ==> ends_with(append_part(text, part), part),
{
    let r = append_part(text, part);
    if part.len() > 0 {
        if text.len() == 0 {
            assert(r == part);
        } else {
            assert(r == text.push(' ') + part);
        }
        assert(r.subrange(r.len() - part.len(), r.len() as int) =~= part);
    }
    assert(r.subrange(0, text.len() as int) =~= text);
}

proof fn lemma_block_rest_prefix(ls: Seq<Seq<char>>, j: int, close: Seq<char>, text: Seq<char>)
    ensures
        starts_with(block_rest(ls, j, close, text).0, text),
    decreases ls.len() - j,
{
    if j < 0 || j >= ls.len() {
        assert(text.subrange(0, text.len() as int) =~= text);
    } else {
        let cur = trim(ls[j]);
        match find(cur, close) {
            Some(cp) => lemma_append_part_extends(text, trim(cur.take(cp))),
            None => {
                let t1 = append_part(text, trim(strip_star(cur)));
                lemma_append_part_extends(text, trim(strip_star(cur)));
                lemma_block_rest_prefix(ls, j + 1, close, t1);
                let r = block_rest(ls, j + 1, close, t1).0;
                assert(r.subrange(0, text.len() as int) =~= r.subrange(0, t1.len() as int).subrange(0, text.len() as int));
            },
        }
    }
}

proof fn lemma_block_rest_middle(ls: Seq<Seq<char>>, j: int, close: Seq<char>, text: Seq<char>, x: int)
    requires
        0 <= j <= x < ls.len(),
        forall|y: int| j <= y <= x ==> #[trigger] find(trim(ls[y]), close) is None,
        trim(strip_star(trim(ls[x]))).len() > 0,
    ensures
        exists|off: int| #[trigger] text_at(block_rest(ls, j, close, text).0, off, trim(strip_star(trim(ls[x])))),
    decreases x - j,
{
    let cur = trim(ls[j]);
    assert(find(trim(ls[j]), close) is None);
    let t1 = append_part(text, trim(strip_star(cur)));
    assert(block_rest(ls, j, close, text) == block_rest(ls, j + 1, close, t1));
    if j < x {
        lemma_block_rest_middle(ls, j + 1, close, t1, x);
    } else {
        let part = trim(strip_star(cur));
        lemma_append_part_extends(text, part);
        lemma_block_rest_prefix(ls, j + 1, close, t1);
        let r = block_rest(ls, j + 1, close, t1).0;
        let off = t1.len() - part.len();
        assert(r.subrange(off, off + part.len()) =~= t1.subrange(off, off + part.len()));
        assert(text_at(r, off, part));
    }
}

/// A block comment that spans several lines keeps all of them: its text
/// starts with what follows the opener on the first line, and the text of
/// each line in between (without a leading `*`) stands in it, when not empty.
pub proof fn law_block_keeps_every_line(
    source: Seq<char>,
    tokens: TokensView,
    k: int,
    b: int,
    after: int,
    x: int,
)
    requires
        0 <= k < spec_extract_comments(source, tokens).len(),
        ({
            let ls = lines(source);
            let i = spec_extract_comments(source, tokens)[k].line - 1;
            let line = trim(ls[i]);
            let close = tokens.block[b].1;
            &&& block_open(line, tokens.block, 0) == Some((b, after))
            &&& !prefix_before(line, tokens.line, after - tokens.block[b].0.len())
            &&& find(line.skip(after), close) is None
            &&& i < x < ls.len()
            &&& forall|y: int| i < y <= x ==> #[trigger] find(trim(ls[y]), close) is None
        }),
    ensures
        ({
            let ls = lines(source);
            let c = spec_extract_comments(source, tokens)[k];
            let line = trim(ls[c.line - 1]);
            &&& starts_with(c.text, trim(line.skip(after)))
            &&& trim(strip_star(trim(ls[x]))).len() > 0 ==> exists|off: int| #[trigger] text_at(c.text, off, trim(strip_star(trim(ls[x]))))
        }),
{
    let ls = lines(source);
    let cs = spec_extract_comments(source, tokens);
    lemma_comment_is_block_at(ls, 0, tokens, k);
    let i = cs[k].line - 1;
    let line = trim(ls[i]);
    let close = tokens.block[b].1;
    let first = trim(line.skip(after));
    let (text, next) = block_rest(ls, i + 1, close, first);
    assert(block_comment_at(ls, i, tokens.line, tokens.block) == Some((CommentView { line: i + 1, text }, next)));
    assert(cs[k].text == text);
    lemma_block_rest_prefix(ls, i + 1, close, first);
    if trim(strip_star(trim(ls[x]))).len() > 0 {
        lemma_block_rest_middle(ls, i + 1, close, first, x);
    }
}

} // verus!
