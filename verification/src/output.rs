//! Rendering checks as plain text.
use vstd::prelude::*;
use crate::annotations::{Annotation, AnnotationView, CheckKind, KindView};
use crate::scope::{Scope, ScopeView};
use crate::text::{
    append_chars, append_str, chars_eq, push_chars, chars_of, dec, dec_chars, lemma_char_vec_deep_view,
    lemma_range_vec_deep_view, lines,
    split_lines, string_of,
};

verus! {

broadcast use {lemma_char_vec_deep_view, lemma_range_vec_deep_view};

/// A check to be rendered.
#[derive(Debug)]
pub struct CheckItem {
    pub annotation: Annotation,
    /// The scope of the annotation (line range + label), if resolved via tree-sitter.
    pub scope: Option<Scope>,
    /// The changed line ranges that triggered this check (from the diff hunks).
    pub changed_ranges: Vec<(usize, usize)>,
    /// For [check:all]: the changed file paths that matched the pattern.
    pub matched_files: Vec<String>,
    /// For [check:all]: the changed line ranges in each matched file.
    pub matched_file_ranges: Vec<(String, Vec<(usize, usize)>)>,
    /// For [check:tag]: all locations sharing the tag (file_path, line).
    pub tag_counterparts: Vec<(String, usize)>,
}

/// Abstract check item.
pub struct CheckItemView {
    pub annotation: AnnotationView,
    pub scope: Option<ScopeView>,
    pub changed_ranges: Seq<(usize, usize)>,
    pub matched_files: Seq<Seq<char>>,
    pub matched_file_ranges: Seq<(Seq<char>, Seq<(usize, usize)>)>,
    pub tag_counterparts: Seq<(Seq<char>, usize)>,
}

impl View for CheckItem {
    type V = CheckItemView;

    open spec fn view(&self) -> CheckItemView {
        CheckItemView {
            annotation: self.annotation@,
            scope: match self.scope {
                Some(s) => Some(s@),
                None => None,
            },
            changed_ranges: self.changed_ranges@,
            matched_files: self.matched_files.deep_view(),
            matched_file_ranges: self.matched_file_ranges.deep_view(),
            tag_counterparts: self.tag_counterparts.deep_view(),
        }
    }
}

/// The views of a sequence of check items.
pub open spec fn items_view(items: Seq<CheckItem>) -> Seq<CheckItemView> {
    items.map_values(|i: CheckItem| i@)
}

// ---------------------------------------------------------------------
// The rendered text.
// ---------------------------------------------------------------------

/// `15` or `15-20`.
pub open spec fn range_text(r: (usize, usize)) -> Seq<char> {
    if r.0 == r.1 {
        dec(r.0 as nat)
    } else {
        dec(r.0 as nat).push('-') + dec(r.1 as nat)
    }
}

/// Ranges joined by commas: `15-20,38`.
pub open spec fn ranges_text(rs: Seq<(usize, usize)>) -> Seq<char>
    decreases rs.len(),
{
    if rs.len() == 0 {
        seq![]
    } else if rs.len() == 1 {
        range_text(rs[0])
    } else {
        ranges_text(rs.drop_last()).push(',') + range_text(rs.last())
    }
}

/// `src/auth.rs:15-20,38`, or just the file when there are no ranges.
pub open spec fn format_ranges_text(file: Seq<char>, rs: Seq<(usize, usize)>) -> Seq<char> {
    if rs.len() == 0 {
        file
    } else {
        file.push(':') + ranges_text(rs)
    }
}

/// The smallest of `line` and the range starts.
pub open spec fn min_line(line: int, rs: Seq<(usize, usize)>) -> int
    decreases rs.len(),
{
    if rs.len() == 0 {
        line
    } else {
        let m = min_line(line, rs.drop_last());
        if (rs.last().0 as int) < m {
            rs.last().0 as int
        } else {
            m
        }
    }
}

/// The largest of `line` and the range ends.
pub open spec fn max_line(line: int, rs: Seq<(usize, usize)>) -> int
    decreases rs.len(),
{
    if rs.len() == 0 {
        line
    } else {
        let m = max_line(line, rs.drop_last());
        if (rs.last().1 as int) > m {
            rs.last().1 as int
        } else {
            m
        }
    }
}

/// `:42` or `:42-48`.
pub open spec fn line_range_text(lo: int, hi: int) -> Seq<char> {
    if lo == hi {
        seq![':'] + dec(lo as nat)
    } else {
        seq![':'] + dec(lo as nat) + seq!['-'] + dec(hi as nat)
    }
}

/// The range to check: from the annotation line through the changed lines.
pub open spec fn check_range_text(line: int, rs: Seq<(usize, usize)>) -> Seq<char> {
    line_range_text(min_line(line, rs), max_line(line, rs))
}

/// Each line of `ls` followed by a newline.
pub open spec fn lines_text(ls: Seq<Seq<char>>) -> Seq<char>
    decreases ls.len(),
{
    if ls.len() == 0 {
        seq![]
    } else {
        lines_text(ls.drop_last()) + ls.last().push('\n')
    }
}

/// The description block: each of its lines followed by a newline.
pub open spec fn description_text(d: Seq<char>) -> Seq<char> {
    lines_text(lines(d))
}

/// The changed ranges listed for `file` (the first entry for it), or none.
pub open spec fn ranges_for_file_from(file: Seq<char>, mfr: Seq<(Seq<char>, Seq<(usize, usize)>)>, k: int) -> Seq<(usize, usize)>
    decreases mfr.len() - k,
{
    if k < 0 || k >= mfr.len() {
        seq![]
    } else if mfr[k].0 == file {
        mfr[k].1
    } else {
        ranges_for_file_from(file, mfr, k + 1)
    }
}

/// The files to list: each matched file with its ranges, or the bare
/// matched file paths when no ranges were recorded.
pub open spec fn file_list(it: CheckItemView) -> Seq<Seq<char>> {
    if it.matched_file_ranges.len() == 0 {
        it.matched_files
    } else {
        it.matched_file_ranges.map_values(|p: (Seq<char>, Seq<(usize, usize)>)| format_ranges_text(p.0, p.1))
    }
}

/// Each file on its own indented line.
pub open spec fn indented_text(fs: Seq<Seq<char>>) -> Seq<char>
    decreases fs.len(),
{
    if fs.len() == 0 {
        seq![]
    } else {
        indented_text(fs.drop_last()) + "  "@ + fs.last() + "\n"@
    }
}

/// One indented `file:range` line per tag location.
pub open spec fn counterparts_text(cps: Seq<(Seq<char>, usize)>, mfr: Seq<(Seq<char>, Seq<(usize, usize)>)>) -> Seq<char>
    decreases cps.len(),
{
    if cps.len() == 0 {
        seq![]
    } else {
        let (f, l) = cps.last();
        counterparts_text(cps.drop_last(), mfr) + "  "@ + f + check_range_text(l as int, ranges_for_file_from(f, mfr, 0)) + "\n"@
    }
}

/// A `[check]` item.
pub open spec fn scoped_text(it: CheckItemView) -> Seq<char> {
    let file = it.annotation.file_path;
    let changed = format_ranges_text(file, it.changed_ranges);
    let head = match it.scope {
        Some(sc) => {
            let label = match sc.label {
                Some(l) => " (in "@ + l + ")"@,
                None => seq![],
            };
            changed + " changed"@ + label + "\n"@ + "check "@ + file + line_range_text(sc.start, sc.end) + "\n"@
        },
        None => changed + " changed\n"@ + "check "@ + file + check_range_text(it.annotation.line, it.changed_ranges) + "\n"@,
    };
    head + "\n"@ + description_text(it.annotation.description)
}

/// A `[check:file]` item.
pub open spec fn file_text(it: CheckItemView) -> Seq<char> {
    let file = it.annotation.file_path;
    let changed = format_ranges_text(file, it.changed_ranges);
    changed + " changed\n"@ + "check "@ + file + " entirely\n"@ + "\n"@ + description_text(it.annotation.description)
}

/// `.marginalia`
pub open spec fn watchfile_name() -> Seq<char> {
    ".marginalia"@
}

/// A `[check:all]` item.
pub open spec fn all_text(it: CheckItemView, pattern: Seq<char>) -> Seq<char> {
    let files = file_list(it);
    let head = if files.len() == 1 {
        files[0] + " changed (matching "@ + pattern + ")\n"@
    } else {
        "changed (matching "@ + pattern + "):\n"@ + indented_text(files)
    };
    let check = if it.annotation.file_path != watchfile_name() {
        "check "@ + it.annotation.file_path + "\n"@
    } else {
        seq![]
    };
    head + check + "\n"@ + description_text(it.annotation.description)
}

/// A `[check:tag]` or `[check:ref]` item.
pub open spec fn tag_text(it: CheckItemView, name: Seq<char>) -> Seq<char> {
    let file = it.annotation.file_path;
    let head = tag_head_text(it, name);
    let check = if it.tag_counterparts.len() <= 1 {
        "check "@ + file + check_range_text(it.annotation.line, ranges_for_file_from(file, it.matched_file_ranges, 0)) + "\n"@
    } else {
        "check:\n"@ + counterparts_text(it.tag_counterparts, it.matched_file_ranges)
    };
    head + check + "\n"@ + description_text(it.annotation.description)
}

/// One item, by the kind of its annotation.
pub open spec fn item_text(it: CheckItemView) -> Seq<char> {
    match it.annotation.kind {
        KindView::Check => scoped_text(it),
        KindView::File => file_text(it),
        KindView::All { pattern } => all_text(it, pattern),
        KindView::Tag { name } => tag_text(it, name),
        KindView::Ref { name } => tag_text(it, name),
    }
}

/// The separator before each item: a blank line, `---` and a blank line.
pub open spec fn separator() -> Seq<char> {
    "\n---\n\n"@
}

/// The items, each after a separator.
pub open spec fn items_text(items: Seq<CheckItemView>) -> Seq<char>
    decreases items.len(),
{
    if items.len() == 0 {
        seq![]
    } else {
        items_text(items.drop_last()) + separator() + item_text(items.last())
    }
}

/// The heading of a report with checks.
pub open spec fn report_heading() -> Seq<char> {
    "The following checks were found near changed code.\n"@
        + "Each check shows what changed, where to look, and what to check.\n"@
}

/// The full text report for `items`.
pub open spec fn spec_render_text(items: Seq<CheckItemView>) -> Seq<char> {
    if items.len() == 0 {
        "No checks found near changed code.\n"@
    } else {
        report_heading() + items_text(items)
    }
}

// ---------------------------------------------------------------------
// Rendering.
// ---------------------------------------------------------------------

fn range_chars(r: (usize, usize)) -> (t: Vec<char>)
    ensures
        t@ == range_text(r),
{
    let mut t = dec_chars(r.0);
    if r.0 != r.1 {
        t.push('-');
        let e = dec_chars(r.1);
        append_chars(&mut t, &e);
    }
    t
}

/// Format line ranges for a file, e.g. "src/auth.rs:15-20,38"
fn format_ranges(file: &Vec<char>, ranges: &Vec<(usize, usize)>) -> (r: Vec<char>)
    ensures
        r@ == format_ranges_text(file@, ranges@),
{
    let mut out: Vec<char> = Vec::new();
    append_chars(&mut out, file);
    if ranges.len() == 0 {
        assert(out@ =~= file@);
        return out;
    }
    out.push(':');
    let ghost head = out@;
    let mut k: usize = 0;
    assert(ranges@.take(0) =~= Seq::<(usize, usize)>::empty());
    assert(out@ =~= head + ranges_text(ranges@.take(0)));
    while k < ranges.len()
        invariant
            k <= ranges.len(),
            out@ == head + ranges_text(ranges@.take(k as int)),
        decreases ranges.len() - k,
    {
        let ghost before = out@;
        if k > 0 {
            out.push(',');
        }
        let part = range_chars(ranges[k]);
        append_chars(&mut out, &part);
        proof {
            let t = ranges@.take(k + 1);
            assert(t.drop_last() =~= ranges@.take(k as int));
            assert(t.last() == ranges@[k as int]);
            if k == 0 {
                assert(t =~= seq![ranges@[0]]);
                assert(out@ =~= head + ranges_text(t));
            } else {
                assert(out@ =~= head + ranges_text(t));
            }
        }
        k = k + 1;
    }
    assert(ranges@.take(ranges.len() as int) =~= ranges@);
    assert(out@ =~= file@.push(':') + ranges_text(ranges@));
    out
}

fn line_range_chars(lo: usize, hi: usize) -> (r: Vec<char>)
    ensures
        r@ == line_range_text(lo as int, hi as int),
{
    let mut r: Vec<char> = Vec::new();
    r.push(':');
    let a = dec_chars(lo);
    append_chars(&mut r, &a);
    if lo != hi {
        r.push('-');
        let b = dec_chars(hi);
        append_chars(&mut r, &b);
        assert(r@ =~= seq![':'] + dec(lo as nat) + seq!['-'] + dec(hi as nat));
    } else {
        assert(r@ =~= seq![':'] + dec(lo as nat));
    }
    r
}

/// Compute the range string to check: from the annotation line through the changed lines.
/// E.g. ":42-46" or ":42" if no changed ranges expand beyond the annotation line.
fn check_range_for(annotation_line: usize, changed_ranges: &Vec<(usize, usize)>) -> (r: Vec<char>)
    ensures
        r@ == check_range_text(annotation_line as int, changed_ranges@),
{
    let mut min_l = annotation_line;
    let mut max_l = annotation_line;
    let mut k: usize = 0;
    while k < changed_ranges.len()
        invariant
            k <= changed_ranges.len(),
            min_l as int == min_line(annotation_line as int, changed_ranges@.take(k as int)),
            max_l as int == max_line(annotation_line as int, changed_ranges@.take(k as int)),
        decreases changed_ranges.len() - k,
    {
        let (start, end) = changed_ranges[k];
        if start < min_l {
            min_l = start;
        }
        if end > max_l {
            max_l = end;
        }
        proof {
            let t = changed_ranges@.take(k + 1);
            assert(t.drop_last() =~= changed_ranges@.take(k as int));
        }
        k = k + 1;
    }
    assert(changed_ranges@.take(changed_ranges.len() as int) =~= changed_ranges@);
    line_range_chars(min_l, max_l)
}

fn append_description(out: &mut Vec<char>, description: &String)
    ensures
        final(out)@ == old(out)@ + description_text(description@),
{
    let d = chars_of(description.as_str());
    let ls = split_lines(&d);
    let ghost lv = ls.deep_view();
    let ghost base = out@;
    let mut k: usize = 0;
    assert(lv.take(0) =~= Seq::<Seq<char>>::empty());
    assert(out@ =~= base + lines_text(lv.take(0)));
    while k < ls.len()
        invariant
            k <= ls.len(),
            lv == ls.deep_view(),
            out@ == base + lines_text(lv.take(k as int)),
        decreases ls.len() - k,
    {
        append_chars(out, &ls[k]);
        out.push('\n');
        proof {
            let t = lv.take(k + 1);
            assert(t.drop_last() =~= lv.take(k as int));
            assert(t.last() == ls@[k as int]@);
            assert(out@ =~= base + lines_text(t));
        }
        k = k + 1;
    }
    assert(lv.take(ls.len() as int) =~= lv);
}

/// Look up the changed ranges for a specific file from matched_file_ranges.
fn ranges_for_file(file: &Vec<char>, matched_file_ranges: &Vec<(String, Vec<(usize, usize)>)>) -> (r: Vec<(usize, usize)>)
    ensures
        r@ == ranges_for_file_from(file@, matched_file_ranges.deep_view(), 0),
{
    let ghost mv = matched_file_ranges.deep_view();
    let mut k: usize = 0;
    while k < matched_file_ranges.len()
        invariant
            k <= matched_file_ranges.len(),
            mv == matched_file_ranges.deep_view(),
            ranges_for_file_from(file@, mv, 0) == ranges_for_file_from(file@, mv, k as int),
        decreases matched_file_ranges.len() - k,
    {
        let name = chars_of(matched_file_ranges[k].0.as_str());
        assert(mv[k as int].0 == name@);
        if chars_eq(&name, file) {
            let src = &matched_file_ranges[k].1;
            assert(mv[k as int].1 == src@);
            let mut r: Vec<(usize, usize)> = Vec::new();
            let mut m: usize = 0;
            while m < src.len()
                invariant
                    m <= src.len(),
                    r@ == src@.take(m as int),
                decreases src.len() - m,
            {
                r.push(src[m]);
                m = m + 1;
                assert(r@ =~= src@.take(m as int));
            }
            assert(src@.take(src.len() as int) =~= src@);
            return r;
        }
        k = k + 1;
    }
    Vec::new()
}

fn file_list_exec(item: &CheckItem) -> (r: Vec<Vec<char>>)
    ensures
        r.deep_view() == file_list(item@),
{
    let ghost it = item@;
    let mut r: Vec<Vec<char>> = Vec::new();
    if item.matched_file_ranges.len() == 0 {
        let mut k: usize = 0;
        while k < item.matched_files.len()
            invariant
                k <= item.matched_files.len(),
                it == item@,
                r.deep_view() == it.matched_files.take(k as int),
            decreases item.matched_files.len() - k,
        {
            let f = chars_of(item.matched_files[k].as_str());
            push_chars(&mut r, f);
            proof {
                assert(it.matched_files[k as int] == f@);
                assert(r.deep_view() =~= it.matched_files.take(k + 1));
            }
            k = k + 1;
        }
        assert(it.matched_files.take(item.matched_files.len() as int) =~= it.matched_files);
    } else {
        let ghost target = it.matched_file_ranges.map_values(|p: (Seq<char>, Seq<(usize, usize)>)| format_ranges_text(p.0, p.1));
        let mut k: usize = 0;
        while k < item.matched_file_ranges.len()
            invariant
                k <= item.matched_file_ranges.len(),
                it == item@,
                target == it.matched_file_ranges.map_values(|p: (Seq<char>, Seq<(usize, usize)>)| format_ranges_text(p.0, p.1)),
                r.deep_view() == target.take(k as int),
            decreases item.matched_file_ranges.len() - k,
        {
            let name = chars_of(item.matched_file_ranges[k].0.as_str());
            let f = format_ranges(&name, &item.matched_file_ranges[k].1);
            push_chars(&mut r, f);
            proof {
                assert(it.matched_file_ranges[k as int].0 == name@);
                assert(it.matched_file_ranges[k as int].1 == item.matched_file_ranges@[k as int].1@);
                assert(r.deep_view() =~= target.take(k + 1));
            }
            k = k + 1;
        }
        assert(target.take(item.matched_file_ranges.len() as int) =~= target);
    }
    r
}

fn append_indented(out: &mut Vec<char>, files: &Vec<Vec<char>>)
    ensures
        final(out)@ == old(out)@ + indented_text(files.deep_view()),
{
    let ghost fv = files.deep_view();
    let ghost base = out@;
    let mut k: usize = 0;
    assert(fv.take(0) =~= Seq::<Seq<char>>::empty());
    assert(out@ =~= base + indented_text(fv.take(0)));
    while k < files.len()
        invariant
            k <= files.len(),
            fv == files.deep_view(),
            out@ == base + indented_text(fv.take(k as int)),
        decreases files.len() - k,
    {
        append_str(out, "  ");
        append_chars(out, &files[k]);
        append_str(out, "\n");
        proof {
            let t = fv.take(k + 1);
            assert(t.drop_last() =~= fv.take(k as int));
            assert(t.last() == files@[k as int]@);
            assert(out@ =~= base + indented_text(t));
        }
        k = k + 1;
    }
    assert(fv.take(files.len() as int) =~= fv);
}

fn render_scoped_check(out: &mut Vec<char>, item: &CheckItem)
    ensures
        final(out)@ == old(out)@ + scoped_text(item@),
{
    let ghost it = item@;
    let ghost base = out@;
    let file = chars_of(item.annotation.file_path.as_str());
    let changed = format_ranges(&file, &item.changed_ranges);
    match &item.scope {
        Some(scope) => {
            append_chars(out, &changed);
            append_str(out, " changed");
            match &scope.label {
                Some(l) => {
                    append_str(out, " (in ");
                    append_str(out, l.as_str());
                    append_str(out, ")");
                },
                None => {},
            }
            append_str(out, "\n");
            append_str(out, "check ");
            append_chars(out, &file);
            let sr = line_range_chars(scope.start, scope.end);
            append_chars(out, &sr);
            append_str(out, "\n");
        },
        None => {
            append_chars(out, &changed);
            append_str(out, " changed\n");
            append_str(out, "check ");
            append_chars(out, &file);
            let cr = check_range_for(item.annotation.line, &item.changed_ranges);
            append_chars(out, &cr);
            append_str(out, "\n");
        },
    }
    append_str(out, "\n");
    append_description(out, &item.annotation.description);
    assert(out@ =~= base + scoped_text(it));
}

fn render_file_check(out: &mut Vec<char>, item: &CheckItem)
    ensures
        final(out)@ == old(out)@ + file_text(item@),
{
    let ghost base = out@;
    let file = chars_of(item.annotation.file_path.as_str());
    let changed = format_ranges(&file, &item.changed_ranges);
    append_chars(out, &changed);
    append_str(out, " changed\n");
    append_str(out, "check ");
    append_chars(out, &file);
    append_str(out, " entirely\n");
    append_str(out, "\n");
    append_description(out, &item.annotation.description);
    assert(out@ =~= base + file_text(item@));
}

fn render_all_check(out: &mut Vec<char>, item: &CheckItem, pattern: &String)
    ensures
        final(out)@ == old(out)@ + all_text(item@, pattern@),
{
    let ghost base = out@;
    let files = file_list_exec(item);
    let ghost fv = files.deep_view();
    if files.len() == 1 {
        assert(fv[0] == files@[0]@);
        append_chars(out, &files[0]);
        append_str(out, " changed (matching ");
        append_str(out, pattern.as_str());
        append_str(out, ")\n");
    } else {
        append_str(out, "changed (matching ");
        append_str(out, pattern.as_str());
        append_str(out, "):\n");
        append_indented(out, &files);
    }
    let ghost mid = out@;
    let file = chars_of(item.annotation.file_path.as_str());
    let watch = chars_of(".marginalia");
    if !chars_eq(&file, &watch) {
        append_str(out, "check ");
        append_chars(out, &file);
        append_str(out, "\n");
    }
    append_str(out, "\n");
    append_description(out, &item.annotation.description);
    assert(out@ =~= base + all_text(item@, pattern@));
}

fn append_counterparts(out: &mut Vec<char>, item: &CheckItem)
    ensures
        final(out)@ == old(out)@ + counterparts_text(item@.tag_counterparts, item@.matched_file_ranges),
{
    let ghost it = item@;
    let ghost cps = it.tag_counterparts;
    let ghost base = out@;
    let mut k: usize = 0;
    assert(cps.take(0) =~= Seq::<(Seq<char>, usize)>::empty());
    assert(out@ =~= base + counterparts_text(cps.take(0), it.matched_file_ranges));
    while k < item.tag_counterparts.len()
        invariant
            k <= item.tag_counterparts.len(),
            it == item@,
            cps == it.tag_counterparts,
            out@ == base + counterparts_text(cps.take(k as int), it.matched_file_ranges),
        decreases item.tag_counterparts.len() - k,
    {
        let f = chars_of(item.tag_counterparts[k].0.as_str());
        let l = item.tag_counterparts[k].1;
        let ranges = ranges_for_file(&f, &item.matched_file_ranges);
        let cr = check_range_for(l, &ranges);
        append_str(out, "  ");
        append_chars(out, &f);
        append_chars(out, &cr);
        append_str(out, "\n");
        proof {
            let t = cps.take(k + 1);
            assert(t.drop_last() =~= cps.take(k as int));
            assert(t.last() == (f@, l));
            assert(out@ =~= base + counterparts_text(t, it.matched_file_ranges));
        }
        k = k + 1;
    }
    assert(cps.take(item.tag_counterparts.len() as int) =~= cps);
}

/// The head line(s) of a tag item.
pub open spec fn tag_head_text(it: CheckItemView, name: Seq<char>) -> Seq<char> {
    let files = file_list(it);
    if files.len() == 1 {
        files[0] + " changed (tag "@ + name + ")\n"@
    } else if files.len() > 1 {
        "changed (tag "@ + name + "):\n"@ + indented_text(files)
    } else {
        "tag "@ + name + " activated\n"@
    }
}

fn append_tag_head(out: &mut Vec<char>, item: &CheckItem, name: &String)
    ensures
        final(out)@ == old(out)@ + tag_head_text(item@, name@),
{
    let ghost base = out@;
    let files = file_list_exec(item);
    let ghost fv = files.deep_view();
    if files.len() == 1 {
        assert(fv[0] == files@[0]@);
        append_chars(out, &files[0]);
        append_str(out, " changed (tag ");
        append_str(out, name.as_str());
        append_str(out, ")\n");
    } else if files.len() > 1 {
        append_str(out, "changed (tag ");
        append_str(out, name.as_str());
        append_str(out, "):\n");
        append_indented(out, &files);
    } else {
        append_str(out, "tag ");
        append_str(out, name.as_str());
        append_str(out, " activated\n");
    }
    assert(out@ =~= base + tag_head_text(item@, name@));
}

fn render_tag_check(out: &mut Vec<char>, item: &CheckItem, name: &String)
    ensures
        final(out)@ == old(out)@ + tag_text(item@, name@),
{
    let ghost it = item@;
    let ghost base = out@;
    append_tag_head(out, item, name);
    let ghost mid = out@;
    let file = chars_of(item.annotation.file_path.as_str());
    if item.tag_counterparts.len() <= 1 {
        let ranges = ranges_for_file(&file, &item.matched_file_ranges);
        let cr = check_range_for(item.annotation.line, &ranges);
        append_str(out, "check ");
        append_chars(out, &file);
        append_chars(out, &cr);
        append_str(out, "\n");
    } else {
        append_str(out, "check:\n");
        append_counterparts(out, item);
    }
    let ghost mid2 = out@;
    append_str(out, "\n");
    append_description(out, &item.annotation.description);
    assert(out@ =~= base + tag_text(item@, name@));
}

fn render_item(out: &mut Vec<char>, item: &CheckItem)
    ensures
        final(out)@ == old(out)@ + item_text(item@),
{
    match &item.annotation.kind {
        CheckKind::Check => render_scoped_check(out, item),
        CheckKind::File => render_file_check(out, item),
        CheckKind::All { pattern } => render_all_check(out, item, pattern),
        CheckKind::Tag { name } => render_tag_check(out, item, name),
        CheckKind::Ref { name } => render_tag_check(out, item, name),
    }
}

/// Render checks as plain text. The base branch is taken for callers that
/// name it; the report itself does not show it.
pub fn render_text(checks: &[CheckItem], _base: &str) -> (r: String)
    ensures
        r@ == spec_render_text(items_view(checks@)),
{
    let ghost iv = items_view(checks@);
    let mut out: Vec<char> = Vec::new();
    if checks.len() == 0 {
        append_str(&mut out, "No checks found near changed code.\n");
        assert(out@ =~= spec_render_text(iv));
        return string_of(&out);
    }
    append_str(&mut out, "The following checks were found near changed code.\n");
    append_str(&mut out, "Each check shows what changed, where to look, and what to check.\n");
    let ghost head = out@;
    assert(head =~= report_heading());
    let mut i: usize = 0;
    assert(iv.take(0) =~= Seq::<CheckItemView>::empty());
    assert(out@ =~= head + items_text(iv.take(0)));
    while i < checks.len()
        invariant
            i <= checks.len(),
            iv == items_view(checks@),
            out@ == head + items_text(iv.take(i as int)),
        decreases checks.len() - i,
    {
        let item = &checks[i];
        append_str(&mut out, "\n---\n\n");
        let ghost mid = out@;
        render_item(&mut out, item);
        proof {
            let t = iv.take(i + 1);
            assert(t.drop_last() =~= iv.take(i as int));
            assert(t.last() == item@);
            assert(out@ == mid + item_text(item@));
            assert(out@ =~= head + items_text(t));
        }
        i = i + 1;
    }
    assert(iv.take(checks.len() as int) =~= iv);
    string_of(&out)
}


/// The report says that no checks were found exactly when there are none.
pub proof fn law_empty_report(items: Seq<CheckItemView>)
    ensures
        (spec_render_text(items) == "No checks found near changed code.\n"@) <==> items.len() == 0,
{
    reveal_strlit("No checks found near changed code.\n");
    reveal_strlit("The following checks were found near changed code.\n");
    if items.len() > 0 {
        let r = spec_render_text(items);
        assert(r[0] == 'T');
        assert("No checks found near changed code.\n"@[0] == 'N');
    }
}

/// A report with checks is its heading followed, for each check in order,
/// by a separator (blank line, `---`, blank line) and the check's text; each
/// check's text ends with a newline, so one blank line stands before every
/// separator.
pub proof fn law_report_layout(items: Seq<CheckItemView>)
    ensures
        items.len() > 0 ==> spec_render_text(items) == report_heading() + items_text(items),
        forall|k: int| 0 <= k < items.len()
            ==> #[trigger] items_text(items.take(k + 1)) == items_text(items.take(k)) + separator() + item_text(items[k]),
        forall|k: int| 0 <= k < items.len()
            ==> (#[trigger] item_text(items[k])).len() > 0 && item_text(items[k]).last() == '\n',
{
    assert forall|k: int| 0 <= k < items.len()
        implies #[trigger] items_text(items.take(k + 1)) == items_text(items.take(k)) + separator() + item_text(items[k]) by {
        assert(items.take(k + 1).drop_last() =~= items.take(k));
    }
    assert forall|k: int| 0 <= k < items.len() implies (#[trigger] item_text(items[k])).len() > 0 && item_text(items[k]).last() == '\n' by {
        lemma_item_text_ends(items[k]);
    }
}

proof fn lemma_lines_text_ends(ls: Seq<Seq<char>>)
    ensures
        lines_text(ls).len() == 0 || lines_text(ls).last() == '\n',
{
    if ls.len() > 0 {
        let t = lines_text(ls);
        assert(t == lines_text(ls.drop_last()) + ls.last().push('\n'));
        assert(t.last() == ls.last().push('\n').last());
    }
}

proof fn lemma_newline_then(a: Seq<char>, d: Seq<char>)
    requires
        d.len() == 0 || d.last() == '\n',
    ensures
        (a + "\n"@ + d).len() > 0,
        (a + "\n"@ + d).last() == '\n',
{
    reveal_strlit("\n");
    let t = a + "\n"@ + d;
    if d.len() == 0 {
        assert(t =~= a.push('\n'));
    } else {
        assert(t.last() == d.last());
    }
}

proof fn lemma_item_text_ends(it: CheckItemView)
    ensures
        item_text(it).len() > 0,
        item_text(it).last() == '\n',
{
    let d = description_text(it.annotation.description);
    lemma_lines_text_ends(lines(it.annotation.description));
    match it.annotation.kind {
        KindView::Check => {
            let file = it.annotation.file_path;
            let changed = format_ranges_text(file, it.changed_ranges);
            let head = match it.scope {
                Some(sc) => {
                    let label = match sc.label {
                        Some(l) => " (in "@ + l + ")"@,
                        None => seq![],
                    };
                    changed + " changed"@ + label + "\n"@ + "check "@ + file + line_range_text(sc.start, sc.end) + "\n"@
                },
                None => changed + " changed\n"@ + "check "@ + file + check_range_text(it.annotation.line, it.changed_ranges) + "\n"@,
            };
            lemma_newline_then(head, d);
        },
        KindView::File => {
            let file = it.annotation.file_path;
            let changed = format_ranges_text(file, it.changed_ranges);
            lemma_newline_then(changed + " changed\n"@ + "check "@ + file + " entirely\n"@, d);
        },
        KindView::All { pattern } => {
            let files = file_list(it);
            let head = if files.len() == 1 {
                files[0] + " changed (matching "@ + pattern + ")\n"@
            } else {
                "changed (matching "@ + pattern + "):\n"@ + indented_text(files)
            };
            let check = if it.annotation.file_path != watchfile_name() {
                "check "@ + it.annotation.file_path + "\n"@
            } else {
                seq![]
            };
            lemma_newline_then(head + check, d);
        },
        KindView::Tag { name } => {
            lemma_tag_text_ends(it, name, d);
        },
        KindView::Ref { name } => {
            lemma_tag_text_ends(it, name, d);
        },
    }
}

proof fn lemma_tag_text_ends(it: CheckItemView, name: Seq<char>, d: Seq<char>)
    requires
        d == description_text(it.annotation.description),
        d.len() == 0 || d.last() == '\n',
    ensures
        tag_text(it, name).len() > 0,
        tag_text(it, name).last() == '\n',
{
    let file = it.annotation.file_path;
    let head = tag_head_text(it, name);
    let check = if it.tag_counterparts.len() <= 1 {
        "check "@ + file + check_range_text(it.annotation.line, ranges_for_file_from(file, it.matched_file_ranges, 0)) + "\n"@
    } else {
        "check:\n"@ + counterparts_text(it.tag_counterparts, it.matched_file_ranges)
    };
    lemma_newline_then(head + check, d);
}

/// `s` occurs in `t` starting at position `off`.
pub open spec fn occurs_at(t: Seq<char>, off: int, s: Seq<char>) -> bool {
    0 <= off && off + s.len() <= t.len() && t.subrange(off, off + s.len()) == s
}

/// How many changed files a tag item lists: those with recorded ranges, or
/// else the bare matched files.
pub open spec fn tag_file_count(it: CheckItemView) -> int {
    if it.matched_file_ranges.len() > 0 {
        it.matched_file_ranges.len() as int
    } else {
        it.matched_files.len() as int
    }
}

/// The `j`-th changed file of a tag item as listed: `path:ranges`, or the
/// bare path when no ranges were recorded.
pub open spec fn tag_file_entry(it: CheckItemView, j: int) -> Seq<char> {
    if it.matched_file_ranges.len() > 0 {
        format_ranges_text(it.matched_file_ranges[j].0, it.matched_file_ranges[j].1)
    } else {
        it.matched_files[j]
    }
}

proof fn lemma_occurs_in_prefix(a: Seq<char>, b: Seq<char>, off: int, s: Seq<char>)
    requires
        occurs_at(a, off, s),
    ensures
        occurs_at(a + b, off, s),
{
    assert((a + b).subrange(off, off + s.len()) =~= a.subrange(off, off + s.len()));
}

proof fn lemma_occurs_after(a: Seq<char>, b: Seq<char>, off: int, s: Seq<char>)
    requires
        occurs_at(b, off, s),
    ensures
        occurs_at(a + b, a.len() + off, s),
{
    assert((a + b).subrange(a.len() + off, a.len() + off + s.len()) =~= b.subrange(off, off + s.len()));
}

proof fn lemma_indented_lists(fs: Seq<Seq<char>>, j: int)
    requires
        0 <= j < fs.len(),
    ensures
        exists|off: int| #[trigger] occurs_at(indented_text(fs), off, "  "@ + fs[j] + "\n"@),
    decreases fs.len(),
{
    let d = fs.drop_last();
    let line = "  "@ + fs[j] + "\n"@;
    assert(indented_text(fs) == indented_text(d) + "  "@ + fs.last() + "\n"@);
    if j == fs.len() - 1 {
        assert(indented_text(fs) =~= indented_text(d) + line);
        assert(occurs_at(line, 0, line)) by {
            assert(line.subrange(0, line.len() as int) =~= line);
        }
        lemma_occurs_after(indented_text(d), line, 0, line);
        assert(occurs_at(indented_text(fs), indented_text(d).len() as int, line));
    } else {
        assert(d[j] == fs[j]);
        lemma_indented_lists(d, j);
        let off = choose|off: int| #[trigger] occurs_at(indented_text(d), off, "  "@ + d[j] + "\n"@);
        let rest = "  "@ + fs.last() + "\n"@;
        lemma_occurs_in_prefix(indented_text(d), rest, off, line);
        assert(indented_text(d) + rest =~= indented_text(fs));
    }
}

/// The first line of a tag item with several changed files.
pub open spec fn tag_heading(name: Seq<char>) -> Seq<char> {
    "changed (tag "@ + name + "):\n"@
}

/// `e` stands on its own indented line of `t`, somewhere from position
/// `from` on.
pub open spec fn line_after(t: Seq<char>, from: int, e: Seq<char>) -> bool {
    exists|off: int| off >= from && #[trigger] occurs_at(t, off, listed_line(e))
}

/// A listed entry on its own indented line.
pub open spec fn listed_line(e: Seq<char>) -> Seq<char> {
    "  "@ + e + "\n"@
}

/// A tag or ref item with two or more changed files says so in its first
/// line, `changed (tag NAME):`, and then lists every one of those files,
/// each as its own indented line `  path:ranges`.
pub proof fn law_tag_lists_every_file(it: CheckItemView, name: Seq<char>)
    requires
        it.annotation.kind == (KindView::Tag { name }) || it.annotation.kind == (KindView::Ref { name }),
        tag_file_count(it) >= 2,
    ensures
        occurs_at(item_text(it), 0, tag_heading(name)),
        forall|j: int| 0 <= j < tag_file_count(it)
            ==> #[trigger] line_after(item_text(it), tag_heading(name).len() as int, tag_file_entry(it, j)),
{
    let header = tag_heading(name);
    let files = file_list(it);
    assert(item_text(it) == tag_text(it, name));
    assert(tag_head_text(it, name) == header + indented_text(files));
    assert(occurs_at(item_text(it), 0, header)) by {
        assert(item_text(it).subrange(0, header.len() as int) =~= header);
    }
    assert forall|j: int| 0 <= j < tag_file_count(it)
        implies #[trigger] line_after(item_text(it), tag_heading(name).len() as int, tag_file_entry(it, j)) by {
        lemma_tag_lists_file(it, name, j);
    }
}

proof fn lemma_tag_lists_file(it: CheckItemView, name: Seq<char>, j: int)
    requires
        it.annotation.kind == (KindView::Tag { name }) || it.annotation.kind == (KindView::Ref { name }),
        tag_file_count(it) >= 2,
        0 <= j < tag_file_count(it),
    ensures
        line_after(item_text(it), tag_heading(name).len() as int, tag_file_entry(it, j)),
{
    let header = tag_heading(name);
    let files = file_list(it);
    assert(files.len() == tag_file_count(it));
    let file = it.annotation.file_path;
    let check = if it.tag_counterparts.len() <= 1 {
        "check "@ + file + check_range_text(it.annotation.line, ranges_for_file_from(file, it.matched_file_ranges, 0)) + "\n"@
    } else {
        "check:\n"@ + counterparts_text(it.tag_counterparts, it.matched_file_ranges)
    };
    let tail = check + "\n"@ + description_text(it.annotation.description);
    assert(item_text(it) == tag_text(it, name));
    assert(tag_head_text(it, name) == header + indented_text(files));
    assert(item_text(it) =~= header + (indented_text(files) + tail));
    assert(files[j] == tag_file_entry(it, j));
    lemma_indented_lists(files, j);
    let line = "  "@ + files[j] + "\n"@;
    let off = choose|off: int| #[trigger] occurs_at(indented_text(files), off, line);
    lemma_occurs_in_prefix(indented_text(files), tail, off, line);
    lemma_occurs_after(header, indented_text(files) + tail, off, line);
    assert(line == listed_line(tag_file_entry(it, j)));
    assert(occurs_at(item_text(it), header.len() as int + off, listed_line(tag_file_entry(it, j))));
}

} // verus!
