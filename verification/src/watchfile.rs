//! The `.marginalia` rules file: `when <pattern> changes:` rules.
use vstd::prelude::*;
use crate::annotations::{
    Annotation, AnnotationView, CheckKind, KindView, annotations_view, starts_with,
    starts_with_exec, ws_end, ws_end_exec,
};
use crate::text::{
    chars_of, is_ws, is_whitespace_char, join_nonempty, lemma_char_vec_deep_view, lines,
    slice_chars, split_lines, string_of, trim, trim_chars,
};

verus! {

broadcast use lemma_char_vec_deep_view;

/// `when`
pub open spec fn when_word() -> Seq<char> {
    seq!['w', 'h', 'e', 'n']
}

/// `changes:`
pub open spec fn changes_word() -> Seq<char> {
    seq!['c', 'h', 'a', 'n', 'g', 'e', 's', ':']
}

/// `t` ends with `p`.
pub open spec fn ends_with(t: Seq<char>, p: Seq<char>) -> bool {
    p.len() <= t.len() && forall|k: int| 0 <= k < p.len() ==> #[trigger] t[t.len() - p.len() + k] == p[k]
}

/// Start of the run of whitespace in `t` that ends right before `e`.
pub open spec fn ws_start_before(t: Seq<char>, e: int) -> int
    decreases e,
{
    if 0 < e <= t.len() && is_ws(t[e - 1]) {
        ws_start_before(t, e - 1)
    } else {
        e
    }
}

/// `^when\s+(.+?)\s+changes:$` on a line without `\n`: the pattern.
///
/// The lazy group stops at the whitespace before `changes:`. When only
/// whitespace separates `when` from `changes:`, the first `\s+` gives back
/// two characters and the group is the single whitespace character
/// before the last one.
pub open spec fn when_re(x: Seq<char>) -> Option<Seq<char>> {
    if !starts_with(x, when_word()) || !ends_with(x, changes_word()) || x.len() < 12 {
        None
    } else {
        let e8 = x.len() - 8;
        let w = ws_end(x, 4);
        let t = ws_start_before(x, e8);
        if w == 4 {
            None
        } else if w >= e8 {
            if e8 - 4 >= 3 {
                Some(seq![x[e8 - 2]])
            } else {
                None
            }
        } else if t < e8 {
            Some(x.subrange(w, t))
        } else {
            None
        }
    }
}

/// The trimmed line `t` ends a rule's description: blank, a `#` comment,
/// or a new `when` rule.
pub open spec fn ends_rule(t: Seq<char>) -> bool {
    t.len() == 0 || t[0] == '#' || when_re(t) is Some
}

/// The description lines of a rule from line `j` on, and the index of the
/// first line after them.
pub open spec fn rule_body(ls: Seq<Seq<char>>, j: int, desc: Seq<char>) -> (Seq<char>, int)
    decreases ls.len() - j,
{
    if j < 0 || j >= ls.len() || ends_rule(trim(ls[j])) {
        (desc, j)
    } else {
        rule_body(ls, j + 1, join_nonempty(desc, '\n', trim(ls[j])))
    }
}

pub proof fn lemma_rule_body_next(ls: Seq<Seq<char>>, j: int, desc: Seq<char>)
    requires
        0 <= j <= ls.len(),
    ensures
        j <= rule_body(ls, j, desc).1 <= ls.len(),
    decreases ls.len() - j,
{
    if !(j >= ls.len() || ends_rule(trim(ls[j]))) {
        lemma_rule_body_next(ls, j + 1, join_nonempty(desc, '\n', trim(ls[j])));
    }
}

/// The rules found from line `i` (0-based) on. Blank lines, `#` comments
/// and unrecognized lines are skipped.
pub open spec fn rules_from(ls: Seq<Seq<char>>, i: int, file: Seq<char>) -> Seq<AnnotationView>
    decreases ls.len() - i,
{
    if i < 0 || i >= ls.len() {
        seq![]
    } else {
        let t = trim(ls[i]);
        if t.len() == 0 || t[0] == '#' {
            rules_from(ls, i + 1, file)
        } else {
            match when_re(t) {
                Some(p) => {
                    proof {
                        lemma_rule_body_next(ls, i + 1, seq![]);
                    }
                    let (desc, next) = rule_body(ls, i + 1, seq![]);
                    seq![AnnotationView { file_path: file, line: i + 1, kind: KindView::All { pattern: p }, description: desc }]
                        + rules_from(ls, next, file)
                },
                None => rules_from(ls, i + 1, file),
            }
        }
    }
}

/// The rules of a `.marginalia` file with content `content`.
pub open spec fn spec_parse_watchfile(content: Seq<char>, file: Seq<char>) -> Seq<AnnotationView> {
    rules_from(lines(content), 0, file)
}

fn ends_with_exec(t: &Vec<char>, p: &Vec<char>) -> (r: bool)
    ensures
        r == ends_with(t@, p@),
{
    if p.len() > t.len() {
        return false;
    }
    let base = t.len() - p.len();
    let mut k: usize = 0;
    while k < p.len()
        invariant
            base + p.len() == t.len(),
            k <= p.len(),
            forall|m: int| 0 <= m < k ==> #[trigger] t@[t.len() - p.len() + m] == p@[m],
        decreases p.len() - k,
    {
        if t[base + k] != p[k] {
            assert(t@[t.len() - p.len() + k as int] != p@[k as int]);
            return false;
        }
        k = k + 1;
    }
    true
}

proof fn lemma_ws_start_above(x: Seq<char>, e: int, w: int)
    requires
        0 <= w < e <= x.len(),
        !is_ws(x[w]),
    ensures
        ws_start_before(x, e) > w,
    decreases e,
{
    if e - 1 > w && is_ws(x[e - 1]) {
        lemma_ws_start_above(x, e - 1, w);
    }
}

proof fn lemma_ws_end_stop(x: Seq<char>, i: int)
    requires
        0 <= i <= x.len(),
    ensures
        i <= ws_end(x, i) <= x.len(),
        ws_end(x, i) < x.len() ==> !is_ws(x[ws_end(x, i)]),
    decreases x.len() - i,
{
    if i < x.len() && is_ws(x[i]) {
        lemma_ws_end_stop(x, i + 1);
    }
}

fn ws_start_before_exec(t: &Vec<char>, e: usize) -> (r: usize)
    requires
        e <= t.len(),
    ensures
        r as int == ws_start_before(t@, e as int),
        r <= e,
{
    let mut j = e;
    while j > 0 && is_whitespace_char(t[j - 1])
        invariant
            j <= e <= t.len(),
            ws_start_before(t@, e as int) == ws_start_before(t@, j as int),
        decreases j,
    {
        j = j - 1;
    }
    j
}

fn parse_when_line(line: &Vec<char>) -> (r: Option<Vec<char>>)
    requires
        !line@.contains('\n'),
    ensures
        match when_re(line@) {
            Some(p) => r matches Some(rp) && rp@ == p,
            None => r is None,
        },
{
    let when_w = vec!['w', 'h', 'e', 'n'];
    let changes_w = vec!['c', 'h', 'a', 'n', 'g', 'e', 's', ':'];
    assert(when_w@ =~= when_word());
    assert(changes_w@ =~= changes_word());
    if !starts_with_exec(line, &when_w) || !ends_with_exec(line, &changes_w) || line.len() < 12 {
        return None;
    }
    let e8 = line.len() - 8;
    let w = ws_end_exec(line, 4);
    let t = ws_start_before_exec(line, e8);
    proof {
        lemma_ws_end_stop(line@, 4);
        if w < e8 {
            lemma_ws_start_above(line@, e8 as int, w as int);
        }
    }
    if w == 4 {
        None
    } else if w >= e8 {
        if e8 - 4 >= 3 {
            let r = vec![line[e8 - 2]];
            assert(r@ =~= seq![line@[e8 - 2]]);
            Some(r)
        } else {
            None
        }
    } else if t < e8 {
        if w <= t {
            Some(slice_chars(line, w, t))
        } else {
            assert(false);
            None
        }
    } else {
        None
    }
}

/// Parse a `.marginalia` file into annotations.
///
/// Syntax:
/// ```text
/// # Lines starting with # are comments.
/// # Blank lines are ignored.
///
/// when src/**/*.rs changes:
///   Make sure the README examples still compile.
///
/// when *.proto changes:
///   Regenerate protobuf bindings.
///   Check that the migration guide is updated.
/// ```
///
/// A `when <pattern> changes:` line starts a rule. Subsequent indented
/// lines form the description. The description ends at a blank line,
/// a new `when` line, or end of file.
pub fn parse_watchfile(content: &str, file_path: &str) -> (r: Vec<Annotation>)
    ensures
        annotations_view(r@) == spec_parse_watchfile(content@, file_path@),
{
    let chars = chars_of(content);
    let source_lines = split_lines(&chars);
    let ghost ls = source_lines.deep_view();
    let mut annotations: Vec<Annotation> = Vec::new();
    let mut i: usize = 0;
    while i < source_lines.len()
        invariant
            i <= source_lines.len(),
            ls == source_lines.deep_view(),
            ls == lines(content@),
            forall|k: int| 0 <= k < source_lines.len() ==> !(#[trigger] source_lines@[k])@.contains('\n'),
            spec_parse_watchfile(content@, file_path@) == annotations_view(annotations@) + rules_from(ls, i as int, file_path@),
        decreases source_lines.len() - i,
    {
        let trimmed = trim_chars(&source_lines[i]);
        assert(ls[i as int] == source_lines@[i as int]@);
        if trimmed.len() == 0 || trimmed[0] == '#' {
            i = i + 1;
            continue;
        }
        let ghost old_a = annotations@;
        match parse_when_line(&trimmed) {
            Some(pattern) => {
                let start_line = i + 1;
                let mut description: Vec<char> = Vec::new();
                i = i + 1;
                let ghost body = rule_body(ls, i as int, seq![]);
                proof {
                    lemma_rule_body_next(ls, i as int, seq![]);
                }
                while i < source_lines.len()
                    invariant
                        start_line <= i <= source_lines.len(),
                        ls == source_lines.deep_view(),
                        forall|k: int| 0 <= k < source_lines.len() ==> !(#[trigger] source_lines@[k])@.contains('\n'),
                        body == rule_body(ls, i as int, description@),
                    ensures
                        body == (description@, i as int),
                    decreases source_lines.len() - i,
                {
                    let next_trimmed = trim_chars(&source_lines[i]);
                    assert(ls[i as int] == source_lines@[i as int]@);
                    if next_trimmed.len() == 0 || next_trimmed[0] == '#' || parse_when_line(&next_trimmed).is_some() {
                        break;
                    }
                    let ghost d0 = description@;
                    if description.len() > 0 {
                        description.push('\n');
                    }
                    let mut k: usize = 0;
                    proof {
                        if d0.len() > 0 {
                            assert(description@ =~= d0.push('\n') + next_trimmed@.take(0));
                        } else {
                            assert(description@ =~= next_trimmed@.take(0));
                        }
                    }
                    while k < next_trimmed.len()
                        invariant
                            k <= next_trimmed.len(),
                            d0.len() > 0 ==> description@ == d0.push('\n') + next_trimmed@.take(k as int),
                            d0.len() == 0 ==> description@ == next_trimmed@.take(k as int),
                        decreases next_trimmed.len() - k,
                    {
                        description.push(next_trimmed[k]);
                        k = k + 1;
                        proof {
                            if d0.len() > 0 {
                                assert(description@ =~= d0.push('\n') + next_trimmed@.take(k as int));
                            } else {
                                assert(description@ =~= next_trimmed@.take(k as int));
                            }
                        }
                    }
                    proof {
                        assert(next_trimmed@.take(next_trimmed.len() as int) =~= next_trimmed@);
                        assert(description@ =~= join_nonempty(d0, '\n', trim(ls[i as int])));
                    }
                    i = i + 1;
                }
                assert(body == (description@, i as int));
                let ann = Annotation {
                    file_path: string_of(&chars_of(file_path)),
                    line: start_line,
                    kind: CheckKind::All { pattern: string_of(&pattern) },
                    description: string_of(&description),
                };
                annotations.push(ann);
                proof {
                    assert(annotations_view(annotations@) =~= annotations_view(old_a).push(ann@));
                    assert(annotations_view(old_a).push(ann@) + rules_from(ls, i as int, file_path@)
                        =~= annotations_view(old_a) + (seq![ann@] + rules_from(ls, i as int, file_path@)));
                }
            },
            None => {
                i = i + 1;
            },
        }
    }
    proof {
        assert(annotations_view(annotations@) + rules_from(ls, i as int, file_path@) =~= annotations_view(annotations@));
    }
    annotations
}


/// The index of the first line from `j` on that ends a rule's description.
pub open spec fn body_end(ls: Seq<Seq<char>>, j: int) -> int
    decreases ls.len() - j,
{
    if j < 0 || j >= ls.len() || ends_rule(trim(ls[j])) {
        j
    } else {
        body_end(ls, j + 1)
    }
}

pub proof fn lemma_body_end(ls: Seq<Seq<char>>, j: int)
    requires
        0 <= j <= ls.len(),
    ensures
        j <= body_end(ls, j) <= ls.len(),
    decreases ls.len() - j,
{
    if j < ls.len() && !ends_rule(trim(ls[j])) {
        lemma_body_end(ls, j + 1);
    }
}

/// The lines from line `i` (0-based) on that are neither blank, a comment,
/// a rule nor part of a rule's description: each as its 1-based number and
/// its trimmed text.
pub open spec fn unrecognized_from(ls: Seq<Seq<char>>, i: int) -> Seq<(int, Seq<char>)>
    decreases ls.len() - i,
{
    if i < 0 || i >= ls.len() {
        seq![]
    } else {
        let t = trim(ls[i]);
        if t.len() == 0 || t[0] == '#' {
            unrecognized_from(ls, i + 1)
        } else if when_re(t) is Some {
            proof {
                lemma_body_end(ls, i + 1);
            }
            unrecognized_from(ls, body_end(ls, i + 1))
        } else {
            seq![(i + 1, t)] + unrecognized_from(ls, i + 1)
        }
    }
}

/// Whether the trimmed line `t` ends a rule's description.
fn ends_rule_exec(t: &Vec<char>) -> (r: bool)
    requires
        !t@.contains('\n'),
    ensures
        r == ends_rule(t@),
{
    t.len() == 0 || t[0] == '#' || parse_when_line(t).is_some()
}

/// The lines of a `.marginalia` file that `parse_watchfile` skips as
/// unrecognized: each as its 1-based number and its trimmed text.
pub fn unrecognized_lines(content: &str) -> (r: Vec<(usize, String)>)
    ensures
        r@.map_values(|p: (usize, String)| (p.0 as int, p.1@)) == unrecognized_from(lines(content@), 0),
{
    let chars = chars_of(content);
    let source_lines = split_lines(&chars);
    let ghost ls = source_lines.deep_view();
    let mut out: Vec<(usize, String)> = Vec::new();
    let mut i: usize = 0;
    while i < source_lines.len()
        invariant
            i <= source_lines.len(),
            ls == source_lines.deep_view(),
            ls == lines(content@),
            forall|k: int| 0 <= k < source_lines.len() ==> !(#[trigger] source_lines@[k])@.contains('\n'),
            unrecognized_from(ls, 0) == out@.map_values(|p: (usize, String)| (p.0 as int, p.1@)) + unrecognized_from(ls, i as int),
        decreases source_lines.len() - i,
    {
        let trimmed = trim_chars(&source_lines[i]);
        assert(ls[i as int] == source_lines@[i as int]@);
        if trimmed.len() == 0 || trimmed[0] == '#' {
            i = i + 1;
        } else if parse_when_line(&trimmed).is_some() {
            let mut j = i + 1;
            proof {
                lemma_body_end(ls, j as int);
            }
            while j < source_lines.len()
                invariant
                    i < j <= source_lines.len(),
                    ls == source_lines.deep_view(),
                    forall|k: int| 0 <= k < source_lines.len() ==> !(#[trigger] source_lines@[k])@.contains('\n'),
                    body_end(ls, i + 1) == body_end(ls, j as int),
                ensures
                    body_end(ls, i + 1) == j,
                decreases source_lines.len() - j,
            {
                let next = trim_chars(&source_lines[j]);
                assert(ls[j as int] == source_lines@[j as int]@);
                if ends_rule_exec(&next) {
                    break;
                }
                j = j + 1;
            }
            i = j;
        } else {
            let ghost old_out = out@;
            let e = (i + 1, string_of(&trimmed));
            out.push(e);
            proof {
                let f = |p: (usize, String)| (p.0 as int, p.1@);
                assert(out@.map_values(f) =~= old_out.map_values(f).push((i + 1, trimmed@)));
                assert(old_out.map_values(f).push((i + 1, trimmed@)) + unrecognized_from(ls, i + 1)
                    =~= old_out.map_values(f) + (seq![(i + 1, trimmed@)] + unrecognized_from(ls, i + 1)));
            }
            i = i + 1;
        }
    }
    proof {
        let f = |p: (usize, String)| (p.0 as int, p.1@);
        assert(out@.map_values(f) + unrecognized_from(ls, i as int) =~= out@.map_values(f));
    }
    out
}

/// Every rule of a `.marginalia` file is a `[check:all]` annotation of that
/// file, on a line of it (1-based).
pub proof fn law_watchfile_rules_are_all_checks(content: Seq<char>, file: Seq<char>)
    ensures
        forall|k: int| 0 <= k < spec_parse_watchfile(content, file).len() ==> {
            let a = #[trigger] spec_parse_watchfile(content, file)[k];
            &&& a.kind is All
            &&& a.file_path == file
            &&& 1 <= a.line <= lines(content).len()
        },
{
    lemma_rules_from_all(lines(content), 0, file);
}

proof fn lemma_rules_from_all(ls: Seq<Seq<char>>, i: int, file: Seq<char>)
    requires
        0 <= i,
    ensures
        forall|k: int| 0 <= k < rules_from(ls, i, file).len() ==> {
            let a = #[trigger] rules_from(ls, i, file)[k];
            &&& a.kind is All
            &&& a.file_path == file
            &&& i + 1 <= a.line <= ls.len()
        },
    decreases ls.len() - i,
{
    if i < ls.len() {
        let t = trim(ls[i]);
        if t.len() == 0 || t[0] == '#' {
            lemma_rules_from_all(ls, i + 1, file);
        } else {
            match when_re(t) {
                Some(p) => {
                    lemma_rule_body_next(ls, i + 1, seq![]);
                    let (desc, next) = rule_body(ls, i + 1, seq![]);
                    lemma_rules_from_all(ls, next, file);
                    let head = seq![AnnotationView { file_path: file, line: i + 1, kind: KindView::All { pattern: p }, description: desc }];
                    let rest = rules_from(ls, next, file);
                    assert forall|k: int| 0 <= k < rules_from(ls, i, file).len() implies {
                        let a = #[trigger] rules_from(ls, i, file)[k];
                        &&& a.kind is All
                        &&& a.file_path == file
                        &&& i + 1 <= a.line <= ls.len()
                    } by {
                        if k > 0 {
                            assert(rules_from(ls, i, file)[k] == rest[k - 1]);
                        }
                    }
                },
                None => lemma_rules_from_all(ls, i + 1, file),
            }
        }
    }
}

} // verus!
