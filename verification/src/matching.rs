//! Deciding which annotations are active given the changed lines.
use vstd::prelude::*;
use crate::annotations::{Annotation, AnnotationView, CheckKind, KindView, annotations_view, copy_annotation};
use crate::diff::{ChangedFile, ChangedFileView, changed_files_view, hunk_ranges};
use crate::output::{CheckItem, CheckItemView, items_view};
use crate::scope::{Scope, ScopeView, SyntaxTree, find_scope, spec_find_scope};
use crate::globs::{GlobPattern, MatchRules, compile_glob, glob_match, glob_matches, glob_valid};
use crate::text::{chars_eq, chars_of, lemma_char_vec_deep_view, lemma_range_vec_deep_view};

verus! {

broadcast use {lemma_char_vec_deep_view, lemma_range_vec_deep_view};

/// Default fallback proximity in lines, used when tree-sitter has no grammar
/// for the language.
pub const FALLBACK_PROXIMITY: usize = 10;

/// Whether a `[check:all]` pattern matches a path: case matters, `*`, `?`
/// and `[...]` stay within one path component (`src/api/*.py` matches the
/// files directly in `src/api/`, `*.proto` those at the root), and `**`
/// spans any number of directories (`src/**/*.rs`, `docs/**`).
pub open spec fn path_matches(pattern: Seq<char>, path: Seq<char>) -> bool {
    glob_matches(pattern, path, true, true, false)
}

/// The rules of `path_matches`.
fn path_rules() -> (r: MatchRules)
    ensures
        r.case_sensitive,
        r.literal_separator,
        !r.literal_leading_dot,
{
    MatchRules { case_sensitive: true, literal_separator: true, literal_leading_dot: false }
}

/// The ranges of `rs` that overlap the line window `[lo, hi]`, in order.
pub open spec fn ranges_in_window(rs: Seq<(usize, usize)>, lo: int, hi: int) -> Seq<(usize, usize)>
    decreases rs.len(),
{
    if rs.len() == 0 {
        seq![]
    } else {
        let prev = ranges_in_window(rs.drop_last(), lo, hi);
        let r = rs.last();
        if r.0 <= hi && r.1 >= lo {
            prev.push(r)
        } else {
            prev
        }
    }
}

/// The changed ranges that overlap an annotation on `line`: those within
/// its scope when it has one, else those within `FALLBACK_PROXIMITY` lines.
pub open spec fn spec_overlapping_ranges(rs: Seq<(usize, usize)>, line: int, scope: Option<ScopeView>) -> Seq<(usize, usize)> {
    match scope {
        Some(sc) => ranges_in_window(rs, sc.start, sc.end),
        None => ranges_in_window(
            rs,
            if line >= FALLBACK_PROXIMITY { line - FALLBACK_PROXIMITY } else { 0 },
            line + FALLBACK_PROXIMITY,
        ),
    }
}

fn window_filter(all_ranges: &[(usize, usize)], lo: usize, hi: usize) -> (r: Vec<(usize, usize)>)
    ensures
        r@ == ranges_in_window(all_ranges@, lo as int, hi as int),
{
    let mut r: Vec<(usize, usize)> = Vec::new();
    let mut k: usize = 0;
    while k < all_ranges.len()
        invariant
            k <= all_ranges.len(),
            r@ == ranges_in_window(all_ranges@.take(k as int), lo as int, hi as int),
        decreases all_ranges.len() - k,
    {
        let (start, end) = all_ranges[k];
        if start <= hi && end >= lo {
            r.push((start, end));
        }
        proof {
            let t = all_ranges@.take(k + 1);
            assert(t.drop_last() =~= all_ranges@.take(k as int));
            assert(t.last() == all_ranges@[k as int]);
        }
        k = k + 1;
    }
    assert(all_ranges@.take(all_ranges.len() as int) =~= all_ranges@);
    r
}

/// Return the changed ranges that overlap with the annotation's scope (or proximity).
pub fn overlapping_ranges(all_ranges: &[(usize, usize)], ann: &Annotation, scope: Option<&Scope>) -> (r: Vec<(usize, usize)>)
    requires
        scope is None ==> ann.line + FALLBACK_PROXIMITY <= usize::MAX,
    ensures
        r@ == spec_overlapping_ranges(all_ranges@, ann.line as int, match scope {
            Some(s) => Some(s@),
            None => None,
        }),
{
    match scope {
        Some(scope) => window_filter(all_ranges, scope.start, scope.end),
        None => {
            let ann_start = if ann.line >= FALLBACK_PROXIMITY { ann.line - FALLBACK_PROXIMITY } else { 0 };
            let ann_end = ann.line + FALLBACK_PROXIMITY;
            window_filter(all_ranges, ann_start, ann_end)
        },
    }
}

/// The scope of an annotation on `line`, when a syntax tree is available.
pub open spec fn scope_for(tree: Option<SyntaxTree>, line: int) -> Option<ScopeView> {
    match tree {
        Some(t) => spec_find_scope(t, line),
        None => None,
    }
}

/// An item with only an annotation, a scope and changed ranges.
pub open spec fn plain_item(a: AnnotationView, scope: Option<ScopeView>, ranges: Seq<(usize, usize)>) -> CheckItemView {
    CheckItemView {
        annotation: a,
        scope,
        changed_ranges: ranges,
        matched_files: seq![],
        matched_file_ranges: seq![],
        tag_counterparts: seq![],
    }
}

/// The item an annotation yields in a changed file: a `[check:file]` always,
/// with all the file's changed ranges; a `[check]` when some changed range
/// overlaps it; other kinds never.
pub open spec fn local_item(a: AnnotationView, ranges: Seq<(usize, usize)>, tree: Option<SyntaxTree>) -> Option<CheckItemView> {
    match a.kind {
        KindView::File => Some(plain_item(a, None, ranges)),
        KindView::Check => {
            let sc = scope_for(tree, a.line);
            let ov = spec_overlapping_ranges(ranges, a.line, sc);
            if ov.len() > 0 {
                Some(plain_item(a, sc, ov))
            } else {
                None
            }
        },
        _ => None,
    }
}

/// The active items for `anns` in a file with changed ranges `ranges`, in order.
pub open spec fn spec_active_annotations(anns: Seq<AnnotationView>, ranges: Seq<(usize, usize)>, tree: Option<SyntaxTree>) -> Seq<CheckItemView>
    decreases anns.len(),
{
    if anns.len() == 0 {
        seq![]
    } else {
        let prev = spec_active_annotations(anns.drop_last(), ranges, tree);
        match local_item(anns.last(), ranges, tree) {
            Some(it) => prev.push(it),
            None => prev,
        }
    }
}

/// The annotation's line leaves room for the scope search and the
/// proximity window.
pub open spec fn line_in_range(a: Annotation) -> bool {
    a.line + FALLBACK_PROXIMITY <= usize::MAX
}

fn copy_ranges(v: &Vec<(usize, usize)>) -> (r: Vec<(usize, usize)>)
    ensures
        r@ == v@,
{
    let mut r: Vec<(usize, usize)> = Vec::new();
    let mut k: usize = 0;
    while k < v.len()
        invariant
            k <= v.len(),
            r@ == v@.take(k as int),
        decreases v.len() - k,
    {
        r.push(v[k]);
        k = k + 1;
        assert(r@ =~= v@.take(k as int));
    }
    assert(v@.take(v.len() as int) =~= v@);
    r
}

fn copy_scope(s: &Scope) -> (r: Scope)
    ensures
        r@ == s@,
{
    Scope {
        start: s.start,
        end: s.end,
        label: match &s.label {
            Some(l) => Some(l.clone()),
            None => None,
        },
    }
}

fn push_item(items: &mut Vec<CheckItem>, item: CheckItem)
    ensures
        items_view(final(items)@) == items_view(old(items)@).push(item@),
{
    let ghost old_items = items@;
    let ghost iv = item@;
    items.push(item);
    assert(items_view(items@) =~= items_view(old_items).push(iv));
}

/// Filter annotations to only those that are "active" given the changed hunks.
///
/// When a parsed tree is available (tree-sitter supports the language), uses
/// semantic scoping: the annotation covers the AST node it's attached to.
/// Otherwise, falls back to line proximity.
///
/// [check:all] annotations are not handled here — use `active_all_annotations` instead.
pub fn active_annotations(
    annotations: &[Annotation],
    changed_file: &ChangedFile,
    tree: Option<&SyntaxTree>,
) -> (r: Vec<CheckItem>)
    requires
        forall|k: int| 0 <= k < annotations@.len() ==> line_in_range(#[trigger] annotations@[k]),
        tree matches Some(t) ==> t.wf(),
    ensures
        items_view(r@) == spec_active_annotations(annotations_view(annotations@), changed_file@.hunks, match tree {
            Some(t) => Some(*t),
            None => None,
        }),
{
    let ghost tv = match tree {
        Some(t) => Some(*t),
        None => None,
    };
    let ghost av = annotations_view(annotations@);
    let all_ranges = hunk_ranges(changed_file);
    let mut result: Vec<CheckItem> = Vec::new();
    let mut k: usize = 0;
    while k < annotations.len()
        invariant
            k <= annotations.len(),
            forall|m: int| 0 <= m < annotations@.len() ==> line_in_range(#[trigger] annotations@[m]),
            tree matches Some(t) ==> t.wf(),
            tv == match tree {
                Some(t) => Some(*t),
                None => None::<SyntaxTree>,
            },
            av == annotations_view(annotations@),
            all_ranges@ == changed_file@.hunks,
            items_view(result@) == spec_active_annotations(av.take(k as int), all_ranges@, tv),
        decreases annotations.len() - k,
    {
        let ann = &annotations[k];
        assert(line_in_range(annotations@[k as int]));
        proof {
            let t = av.take(k + 1);
            assert(t.drop_last() =~= av.take(k as int));
            assert(t.last() == ann@);
        }
        match &ann.kind {
            CheckKind::File => {
                let item = CheckItem {
                    annotation: copy_annotation(ann),
                    scope: None,
                    changed_ranges: copy_ranges(&all_ranges),
                    matched_files: Vec::new(),
                    matched_file_ranges: Vec::new(),
                    tag_counterparts: Vec::new(),
                };
                proof {
                    assert(item.matched_files.deep_view() =~= Seq::<Seq<char>>::empty());
                    assert(item.matched_file_ranges.deep_view() =~= Seq::<(Seq<char>, Seq<(usize, usize)>)>::empty());
                    assert(item.tag_counterparts.deep_view() =~= Seq::<(Seq<char>, usize)>::empty());
                    assert(item@ == plain_item(ann@, None, all_ranges@));
                }
                push_item(&mut result, item);
            },
            CheckKind::Check => {
                let scope = match tree {
                    Some(t) => find_scope(t, ann.line),
                    None => None,
                };
                let overlapping = match &scope {
                    Some(s) => overlapping_ranges(all_ranges.as_slice(), ann, Some(s)),
                    None => overlapping_ranges(all_ranges.as_slice(), ann, None),
                };
                let ghost sv = match &scope {
                    Some(s) => Some(s@),
                    None => None,
                };
                assert(sv == scope_for(tv, ann.line as int));
                if overlapping.len() > 0 {
                    let item = CheckItem {
                        annotation: copy_annotation(ann),
                        scope,
                        changed_ranges: overlapping,
                        matched_files: Vec::new(),
                        matched_file_ranges: Vec::new(),
                        tag_counterparts: Vec::new(),
                    };
                    proof {
                        assert(item.matched_files.deep_view() =~= Seq::<Seq<char>>::empty());
                        assert(item.matched_file_ranges.deep_view() =~= Seq::<(Seq<char>, Seq<(usize, usize)>)>::empty());
                        assert(item.tag_counterparts.deep_view() =~= Seq::<(Seq<char>, usize)>::empty());
                    }
                    push_item(&mut result, item);
                }
            },
            _ => {},
        }
        k = k + 1;
    }
    assert(av.take(annotations.len() as int) =~= av);
    result
}

// ---------------------------------------------------------------------
// [check:all]: glob patterns over the changed files.
// ---------------------------------------------------------------------

/// The changed files whose path `pattern` matches, in order.
pub open spec fn files_matching(pattern: Seq<char>, files: Seq<ChangedFileView>) -> Seq<ChangedFileView>
    decreases files.len(),
{
    if files.len() == 0 {
        seq![]
    } else {
        let prev = files_matching(pattern, files.drop_last());
        if path_matches(pattern, files.last().path) {
            prev.push(files.last())
        } else {
            prev
        }
    }
}

/// The paths of `fs`.
pub open spec fn paths_of(fs: Seq<ChangedFileView>) -> Seq<Seq<char>> {
    fs.map_values(|f: ChangedFileView| f.path)
}

/// The (path, changed ranges) pairs of `fs`.
pub open spec fn path_ranges_of(fs: Seq<ChangedFileView>) -> Seq<(Seq<char>, Seq<(usize, usize)>)> {
    fs.map_values(|f: ChangedFileView| (f.path, f.hunks))
}

/// The item a `[check:all]` annotation yields: when its pattern is a valid
/// glob and matches some changed files, those files and their ranges.
pub open spec fn all_item(a: AnnotationView, files: Seq<ChangedFileView>) -> Option<CheckItemView> {
    match a.kind {
        KindView::All { pattern } => if glob_valid(pattern) {
            let m = files_matching(pattern, files);
            if m.len() > 0 {
                Some(CheckItemView {
                    annotation: a,
                    scope: None,
                    changed_ranges: seq![],
                    matched_files: paths_of(m),
                    matched_file_ranges: path_ranges_of(m),
                    tag_counterparts: seq![],
                })
            } else {
                None
            }
        } else {
            None
        },
        _ => None,
    }
}

/// The active `[check:all]` items for `anns`, in order.
pub open spec fn spec_active_all_annotations(anns: Seq<AnnotationView>, files: Seq<ChangedFileView>) -> Seq<CheckItemView>
    decreases anns.len(),
{
    if anns.len() == 0 {
        seq![]
    } else {
        let prev = spec_active_all_annotations(anns.drop_last(), files);
        match all_item(anns.last(), files) {
            Some(it) => prev.push(it),
            None => prev,
        }
    }
}

fn copy_str(s: &String) -> (r: String)
    ensures
        r@ == s@,
{
    s.clone()
}

/// The files matching `pattern`: their paths and their (path, ranges) pairs.
fn match_files(pattern: &GlobPattern, changed_files: &[ChangedFile]) -> (r: (Vec<String>, Vec<(String, Vec<(usize, usize)>)>))
    ensures
        r.0.deep_view() == paths_of(files_matching(pattern.text(), changed_files_view(changed_files@))),
        r.1.deep_view() == path_ranges_of(files_matching(pattern.text(), changed_files_view(changed_files@))),
{
    let ghost fv = changed_files_view(changed_files@);
    let rules = path_rules();
    let mut paths: Vec<String> = Vec::new();
    let mut pairs: Vec<(String, Vec<(usize, usize)>)> = Vec::new();
    let mut j: usize = 0;
    while j < changed_files.len()
        invariant
            j <= changed_files.len(),
            fv == changed_files_view(changed_files@),
            rules.case_sensitive && rules.literal_separator && !rules.literal_leading_dot,
            paths.deep_view() == paths_of(files_matching(pattern.text(), fv.take(j as int))),
            pairs.deep_view() == path_ranges_of(files_matching(pattern.text(), fv.take(j as int))),
        decreases changed_files.len() - j,
    {
        let f = &changed_files[j];
        let ghost prev = files_matching(pattern.text(), fv.take(j as int));
        proof {
            let t = fv.take(j + 1);
            assert(t.drop_last() =~= fv.take(j as int));
            assert(t.last() == f@);
        }
        if glob_match(pattern, f.path.as_str(), &rules) {
            let p1 = copy_str(&f.path);
            let p2 = copy_str(&f.path);
            let ranges = hunk_ranges(f);
            let ghost old_paths = paths.deep_view();
            let ghost old_pairs = pairs.deep_view();
            let ghost p1v = p1@;
            let ghost entry = (p2@, ranges@);
            paths.push(p1);
            pairs.push((p2, ranges));
            proof {
                assert(paths.deep_view() =~= old_paths.push(p1v));
                assert(pairs.deep_view() =~= old_pairs.push(entry));
                assert(paths_of(prev.push(f@)) =~= paths_of(prev).push(f@.path));
                assert(path_ranges_of(prev.push(f@)) =~= path_ranges_of(prev).push((f@.path, f@.hunks)));
            }
        }
        j = j + 1;
    }
    assert(fv.take(changed_files.len() as int) =~= fv);
    (paths, pairs)
}

/// Filter [check:all] annotations against the full list of changed files.
pub fn active_all_annotations(annotations: &[Annotation], changed_files: &[ChangedFile]) -> (r: Vec<CheckItem>)
    ensures
        items_view(r@) == spec_active_all_annotations(annotations_view(annotations@), changed_files_view(changed_files@)),
{
    let ghost av = annotations_view(annotations@);
    let ghost fv = changed_files_view(changed_files@);
    let mut result: Vec<CheckItem> = Vec::new();
    let mut k: usize = 0;
    while k < annotations.len()
        invariant
            k <= annotations.len(),
            av == annotations_view(annotations@),
            fv == changed_files_view(changed_files@),
            items_view(result@) == spec_active_all_annotations(av.take(k as int), fv),
        decreases annotations.len() - k,
    {
        let ann = &annotations[k];
        proof {
            let t = av.take(k + 1);
            assert(t.drop_last() =~= av.take(k as int));
            assert(t.last() == ann@);
        }
        if let CheckKind::All { pattern } = &ann.kind {
            match compile_glob(pattern.as_str()) {
                Ok(pat) => {
                    let (paths, pairs) = match_files(&pat, changed_files);
                    proof {
                        assert(ann@.kind == KindView::All { pattern: pattern@ });
                        assert(glob_valid(pattern@));
                    }
                    if paths.len() > 0 {
                        let item = CheckItem {
                            annotation: copy_annotation(ann),
                            scope: None,
                            changed_ranges: Vec::new(),
                            matched_files: paths,
                            matched_file_ranges: pairs,
                            tag_counterparts: Vec::new(),
                        };
                        proof {
                            let m = files_matching(pattern@, fv);
                            assert(paths_of(m).len() == m.len());
                            assert(paths.deep_view().len() == paths@.len());
                            assert(m.len() > 0);
                            assert(item.annotation@ == ann@);
                            assert(item.matched_files.deep_view() == paths_of(m));
                            assert(item.matched_file_ranges.deep_view() == path_ranges_of(m));
                            assert(item.changed_ranges@ =~= Seq::<(usize, usize)>::empty());
                            assert(item.tag_counterparts.deep_view() =~= Seq::<(Seq<char>, usize)>::empty());
                            assert(item@ == all_item(ann@, fv).unwrap());
                        }
                        push_item(&mut result, item);
                    } else {
                        proof {
                            let m = files_matching(pattern@, fv);
                            assert(paths.deep_view().len() == paths@.len());
                            assert(paths_of(m).len() == m.len());
                            assert(all_item(ann@, fv) is None);
                        }
                    }
                },
                Err(_) => {},
            }
        }
        k = k + 1;
    }
    assert(av.take(annotations.len() as int) =~= av);
    result
}

/// Some repository file matches `pattern`.
pub open spec fn any_known_match(pattern: Seq<char>, known: Seq<Seq<char>>) -> bool {
    exists|i: int| 0 <= i < known.len() && path_matches(pattern, #[trigger] known[i])
}

/// The dead pattern of an annotation: a valid `[check:all]` pattern that
/// matches no repository file.
pub open spec fn dead_pattern_of(a: AnnotationView, known: Seq<Seq<char>>) -> Option<Seq<char>> {
    match a.kind {
        KindView::All { pattern } => if glob_valid(pattern) && !any_known_match(pattern, known) {
            Some(pattern)
        } else {
            None
        },
        _ => None,
    }
}

/// The (annotation, pattern) pairs of the dead patterns among `anns`, in order.
pub open spec fn spec_dead_patterns(anns: Seq<AnnotationView>, known: Seq<Seq<char>>) -> Seq<(AnnotationView, Seq<char>)>
    decreases anns.len(),
{
    if anns.len() == 0 {
        seq![]
    } else {
        let prev = spec_dead_patterns(anns.drop_last(), known);
        match dead_pattern_of(anns.last(), known) {
            Some(p) => prev.push((anns.last(), p)),
            None => prev,
        }
    }
}

/// The views of (annotation, name) pairs.
pub open spec fn pairs_view(ps: Seq<(&Annotation, &str)>) -> Seq<(AnnotationView, Seq<char>)> {
    ps.map_values(|p: (&Annotation, &str)| (p.0@, p.1@))
}

fn push_pair<'a>(v: &mut Vec<(&'a Annotation, &'a str)>, a: &'a Annotation, s: &'a str)
    ensures
        pairs_view(final(v)@) == pairs_view(old(v)@).push((a@, s@)),
{
    let ghost old_v = v@;
    v.push((a, s));
    assert(pairs_view(v@) =~= pairs_view(old_v).push((a@, s@)));
}

/// The pattern of a `[check:all]` annotation that is not a valid glob.
pub open spec fn invalid_pattern_of(a: AnnotationView) -> Option<Seq<char>> {
    match a.kind {
        KindView::All { pattern } => if glob_valid(pattern) { None } else { Some(pattern) },
        _ => None,
    }
}

/// The (annotation, pattern) pairs of the invalid patterns among `anns`, in
/// order.
pub open spec fn spec_invalid_patterns(anns: Seq<AnnotationView>) -> Seq<(AnnotationView, Seq<char>)>
    decreases anns.len(),
{
    if anns.len() == 0 {
        seq![]
    } else {
        let prev = spec_invalid_patterns(anns.drop_last());
        match invalid_pattern_of(anns.last()) {
            Some(p) => prev.push((anns.last(), p)),
            None => prev,
        }
    }
}

/// The `[check:all]` annotations whose pattern is not a valid glob, with
/// their patterns: these activate nothing and deserve a warning.
pub fn invalid_patterns<'a>(annotations: &'a [Annotation]) -> (r: Vec<(&'a Annotation, &'a str)>)
    ensures
        pairs_view(r@) == spec_invalid_patterns(annotations_view(annotations@)),
{
    let ghost av = annotations_view(annotations@);
    let mut result: Vec<(&'a Annotation, &'a str)> = Vec::new();
    let mut k: usize = 0;
    while k < annotations.len()
        invariant
            k <= annotations.len(),
            av == annotations_view(annotations@),
            pairs_view(result@) == spec_invalid_patterns(av.take(k as int)),
        decreases annotations.len() - k,
    {
        let ann = &annotations[k];
        proof {
            let t = av.take(k + 1);
            assert(t.drop_last() =~= av.take(k as int));
            assert(t.last() == ann@);
        }
        if let CheckKind::All { pattern } = &ann.kind {
            if compile_glob(pattern.as_str()).is_err() {
                push_pair(&mut result, ann, pattern.as_str());
            }
        }
        k = k + 1;
    }
    assert(av.take(annotations.len() as int) =~= av);
    result
}

/// Validate that every [check:all] pattern matches at least one file in the repository.
///
/// Returns a list of (annotation, pattern) pairs for patterns that match nothing.
/// A pattern that matches no files in the entire repo is almost certainly stale or
/// contains a typo.
pub fn dead_patterns<'a>(annotations: &'a [Annotation], repo_files: &[String]) -> (r: Vec<(&'a Annotation, &'a str)>)
    ensures
        pairs_view(r@) == spec_dead_patterns(annotations_view(annotations@), repo_files@.map_values(|s: String| s@)),
{
    let ghost av = annotations_view(annotations@);
    let ghost tv = repo_files@.map_values(|s: String| s@);
    let mut result: Vec<(&'a Annotation, &'a str)> = Vec::new();
    let mut k: usize = 0;
    while k < annotations.len()
        invariant
            k <= annotations.len(),
            av == annotations_view(annotations@),
            tv == repo_files@.map_values(|s: String| s@),
            pairs_view(result@) == spec_dead_patterns(av.take(k as int), tv),
        decreases annotations.len() - k,
    {
        let ann = &annotations[k];
        proof {
            let t = av.take(k + 1);
            assert(t.drop_last() =~= av.take(k as int));
            assert(t.last() == ann@);
        }
        if let CheckKind::All { pattern } = &ann.kind {
            match compile_glob(pattern.as_str()) {
                Ok(pat) => {
                    let rules = path_rules();
                    let mut has_match = false;
                    let mut j: usize = 0;
                    while j < repo_files.len()
                        invariant
                            j <= repo_files.len(),
                            tv == repo_files@.map_values(|s: String| s@),
                            pat.text() == pattern@,
                            rules.case_sensitive && rules.literal_separator && !rules.literal_leading_dot,
                            has_match == exists|i: int| 0 <= i < j && path_matches(pattern@, #[trigger] tv[i]),
                        decreases repo_files.len() - j,
                    {
                        if glob_match(&pat, repo_files[j].as_str(), &rules) {
                            has_match = true;
                        }
                        assert(tv[j as int] == repo_files@[j as int]@);
                        j = j + 1;
                    }
                    if !has_match {
                        push_pair(&mut result, ann, pattern.as_str());
                    }
                },
                Err(_) => {},
            }
        }
        k = k + 1;
    }
    assert(av.take(annotations.len() as int) =~= av);
    result
}


// ---------------------------------------------------------------------
// [check:tag] / [check:ref]: orphan references.
// ---------------------------------------------------------------------

/// `a` comes before `b` in lexicographic order of characters. This is the
/// order of `str`: UTF-8 bytes compare as the code points they encode.
pub open spec fn seq_lt(a: Seq<char>, b: Seq<char>) -> bool {
    exists|i: int|
        0 <= i <= a.len() && i <= b.len() && #[trigger] a.take(i) == b.take(i) && (
            (i == a.len() && i < b.len()) || (i < a.len() && i < b.len() && (a[i] as u32) < (b[i] as u32))
        )
}

/// Annotation `a` stands before `b` when ordered by (file path, line).
pub open spec fn loc_lt(a: AnnotationView, b: AnnotationView) -> bool {
    seq_lt(a.file_path, b.file_path) || (a.file_path == b.file_path && a.line < b.line)
}

/// Some annotation of `anns` is a `[check:tag]` named `name`.
pub open spec fn has_tag(anns: Seq<AnnotationView>, name: Seq<char>) -> bool {
    exists|i: int| 0 <= i < anns.len() && #[trigger] anns[i].kind == (KindView::Tag { name })
}

/// The missing tag name of a `[check:ref]` whose name no tag of `all` has.
pub open spec fn orphan_of(a: AnnotationView, all: Seq<AnnotationView>) -> Option<Seq<char>> {
    match a.kind {
        KindView::Ref { name } => if !has_tag(all, name) { Some(name) } else { None },
        _ => None,
    }
}

/// The orphan references among `anns`, each with its name, in input order.
pub open spec fn orphans_in_order(anns: Seq<AnnotationView>, all: Seq<AnnotationView>) -> Seq<(AnnotationView, Seq<char>)>
    decreases anns.len(),
{
    if anns.len() == 0 {
        seq![]
    } else {
        let prev = orphans_in_order(anns.drop_last(), all);
        match orphan_of(anns.last(), all) {
            Some(n) => prev.push((anns.last(), n)),
            None => prev,
        }
    }
}

/// The first index at or after `i` whose entry stands after `x` by location,
/// or the length when there is none.
pub open spec fn first_after(s: Seq<(AnnotationView, Seq<char>)>, x: AnnotationView, i: int) -> int
    decreases s.len() - i,
{
    if i < 0 || i >= s.len() {
        s.len() as int
    } else if loc_lt(x, s[i].0) {
        i
    } else {
        first_after(s, x, i + 1)
    }
}

/// `s` stably sorted by (file path, line): entries with equal location keep
/// their order.
pub open spec fn sort_by_location(s: Seq<(AnnotationView, Seq<char>)>) -> Seq<(AnnotationView, Seq<char>)>
    decreases s.len(),
{
    if s.len() == 0 {
        s
    } else {
        let r = sort_by_location(s.drop_last());
        r.insert(first_after(r, s.last().0, 0), s.last())
    }
}

/// Whether `a` comes before `b` in lexicographic order.
fn chars_lt(a: &Vec<char>, b: &Vec<char>) -> (r: bool)
    ensures
        r == seq_lt(a@, b@),
{
    let mut i: usize = 0;
    while i < a.len() && i < b.len() && a[i] == b[i]
        invariant
            i <= a.len(),
            i <= b.len(),
            a@.take(i as int) == b@.take(i as int),
        decreases a.len() - i,
    {
        proof {
            assert(a@.take(i + 1) =~= a@.take(i as int).push(a@[i as int]));
            assert(b@.take(i + 1) =~= b@.take(i as int).push(b@[i as int]));
        }
        i = i + 1;
    }
    let r = if i == a.len() {
        i < b.len()
    } else if i == b.len() {
        false
    } else {
        (a[i] as u32) < (b[i] as u32)
    };
    proof {
        if r {
            assert(a@.take(i as int) == b@.take(i as int));
        } else {
            assert forall|j: int|
                0 <= j <= a@.len() && j <= b@.len() && #[trigger] a@.take(j) == b@.take(j) implies !(
                    (j == a@.len() && j < b@.len()) || (j < a@.len() && j < b@.len() && (a@[j] as u32) < (b@[j] as u32))
                ) by {
                if j < i {
                    assert(a@[j] == a@.take(i as int)[j]);
                    assert(b@[j] == b@.take(i as int)[j]);
                } else if j > i {
                    assert(a@[i as int] == a@.take(j)[i as int]);
                    assert(b@[i as int] == b@.take(j)[i as int]);
                }
            }
        }
    }
    r
}

/// Whether `a` stands before `b` by (file path, line).
fn loc_lt_exec(a: &Annotation, b: &Annotation) -> (r: bool)
    ensures
        r == loc_lt(a@, b@),
{
    let pa = chars_of(a.file_path.as_str());
    let pb = chars_of(b.file_path.as_str());
    if chars_lt(&pa, &pb) {
        true
    } else {
        chars_eq(&pa, &pb) && a.line < b.line
    }
}

/// Whether some annotation of `annotations` is a `[check:tag]` named `name`.
fn has_tag_exec(annotations: &[Annotation], name: &String) -> (r: bool)
    ensures
        r == has_tag(annotations_view(annotations@), name@),
{
    let ghost av = annotations_view(annotations@);
    let mut k: usize = 0;
    while k < annotations.len()
        invariant
            k <= annotations.len(),
            av == annotations_view(annotations@),
            forall|i: int| 0 <= i < k ==> #[trigger] av[i].kind != (KindView::Tag { name: name@ }),
        decreases annotations.len() - k,
    {
        assert(av[k as int] == annotations@[k as int]@);
        if let CheckKind::Tag { name: n } = &annotations[k].kind {
            if *n == *name {
                assert(av[k as int].kind == (KindView::Tag { name: name@ }));
                return true;
            }
        }
        k = k + 1;
    }
    false
}

/// Validate that every [check:ref] has a matching [check:tag].
///
/// A ref without a corresponding tag is an error. A tag without any ref is fine.
/// The result is ordered by file path, then line.
pub fn orphan_refs(annotations: &[Annotation]) -> (r: Vec<(&Annotation, &str)>)
    ensures
        pairs_view(r@) == sort_by_location(
            orphans_in_order(annotations_view(annotations@), annotations_view(annotations@)),
        ),
{
    let ghost av = annotations_view(annotations@);
    let mut found: Vec<(&Annotation, &str)> = Vec::new();
    let mut k: usize = 0;
    while k < annotations.len()
        invariant
            k <= annotations.len(),
            av == annotations_view(annotations@),
            pairs_view(found@) == orphans_in_order(av.take(k as int), av),
        decreases annotations.len() - k,
    {
        let ann = &annotations[k];
        proof {
            let t = av.take(k + 1);
            assert(t.drop_last() =~= av.take(k as int));
            assert(t.last() == ann@);
        }
        if let CheckKind::Ref { name } = &ann.kind {
            if !has_tag_exec(annotations, name) {
                push_pair(&mut found, ann, name.as_str());
            }
        }
        k = k + 1;
    }
    assert(av.take(annotations.len() as int) =~= av);
    let ghost fv = pairs_view(found@);
    let mut result: Vec<(&Annotation, &str)> = Vec::new();
    let mut j: usize = 0;
    while j < found.len()
        invariant
            j <= found.len(),
            fv == pairs_view(found@),
            pairs_view(result@) == sort_by_location(fv.take(j as int)),
        decreases found.len() - j,
    {
        let x = found[j];
        let ghost rv = pairs_view(result@);
        let mut p: usize = 0;
        while p < result.len() && !loc_lt_exec(x.0, result[p].0)
            invariant
                p <= result.len(),
                rv == pairs_view(result@),
                first_after(rv, x.0@, 0) == first_after(rv, x.0@, p as int),
            decreases result.len() - p,
        {
            p = p + 1;
        }
        proof {
            let t = fv.take(j + 1);
            assert(t.drop_last() =~= fv.take(j as int));
            assert(t.last() == (x.0@, x.1@));
        }
        let ghost old_result = result@;
        result.insert(p, x);
        proof {
            assert(pairs_view(result@) =~= pairs_view(old_result).insert(p as int, (x.0@, x.1@)));
        }
        j = j + 1;
    }
    assert(fv.take(found.len() as int) =~= fv);
    result
}


// ---------------------------------------------------------------------
// [check:tag] / [check:ref]: activation by name.
// ---------------------------------------------------------------------

/// The name of a `[check:tag]` or `[check:ref]` annotation.
pub open spec fn tag_name_of(a: AnnotationView) -> Option<Seq<char>> {
    match a.kind {
        KindView::Tag { name } => Some(name),
        KindView::Ref { name } => Some(name),
        _ => None,
    }
}

/// A change near a tag or ref: its name, the changed file's path and the
/// changed ranges that overlap the annotation.
pub type Trigger = (Seq<char>, Seq<char>, Seq<(usize, usize)>);

/// The triggers in one changed file, in annotation order.
pub open spec fn file_triggers(anns: Seq<AnnotationView>, path: Seq<char>, ranges: Seq<(usize, usize)>, tree: Option<SyntaxTree>) -> Seq<Trigger>
    decreases anns.len(),
{
    if anns.len() == 0 {
        seq![]
    } else {
        let prev = file_triggers(anns.drop_last(), path, ranges, tree);
        let a = anns.last();
        match tag_name_of(a) {
            Some(n) => {
                let ov = spec_overlapping_ranges(ranges, a.line, scope_for(tree, a.line));
                if ov.len() > 0 {
                    prev.push((n, path, ov))
                } else {
                    prev
                }
            },
            None => prev,
        }
    }
}

/// One changed file as the tag activation sees it: its annotations, the
/// file and its syntax tree, if any.
pub type FileInputView = (Seq<AnnotationView>, ChangedFileView, Option<SyntaxTree>);

/// The view of one per-file input.
pub open spec fn file_input_view(e: (&[Annotation], &ChangedFile, Option<&SyntaxTree>)) -> FileInputView {
    (annotations_view(e.0@), e.1@, match e.2 {
        Some(t) => Some(*t),
        None => None,
    })
}

/// The per-file inputs are fit for scope search: trees are well formed and
/// annotation lines leave room for the proximity window.
pub open spec fn file_input_ok(anns: &[Annotation], tree: Option<&SyntaxTree>) -> bool {
    &&& (tree matches Some(t) ==> t.wf())
    &&& forall|k: int| 0 <= k < anns@.len() ==> line_in_range(#[trigger] anns@[k])
}

/// The triggers of all changed files, file by file.
pub open spec fn all_triggers(files: Seq<FileInputView>) -> Seq<Trigger>
    decreases files.len(),
{
    if files.len() == 0 {
        seq![]
    } else {
        let f = files.last();
        all_triggers(files.drop_last()) + file_triggers(f.0, f.1.path, f.1.hunks, f.2)
    }
}

/// The names of `ts`, each once, in the order they first occur.
pub open spec fn first_seen_names(ts: Seq<Trigger>) -> Seq<Seq<char>>
    decreases ts.len(),
{
    if ts.len() == 0 {
        seq![]
    } else {
        let prev = first_seen_names(ts.drop_last());
        if prev.contains(ts.last().0) {
            prev
        } else {
            prev.push(ts.last().0)
        }
    }
}

/// The (path, ranges) of the triggers named `n`, in order.
pub open spec fn triggers_named(ts: Seq<Trigger>, n: Seq<char>) -> Seq<(Seq<char>, Seq<(usize, usize)>)>
    decreases ts.len(),
{
    if ts.len() == 0 {
        seq![]
    } else {
        let prev = triggers_named(ts.drop_last(), n);
        if ts.last().0 == n {
            prev.push((ts.last().1, ts.last().2))
        } else {
            prev
        }
    }
}

/// The tag and ref annotations of `all` named `n`, in order.
pub open spec fn group_named(all: Seq<AnnotationView>, n: Seq<char>) -> Seq<AnnotationView>
    decreases all.len(),
{
    if all.len() == 0 {
        seq![]
    } else {
        let prev = group_named(all.drop_last(), n);
        if tag_name_of(all.last()) == Some(n) {
            prev.push(all.last())
        } else {
            prev
        }
    }
}

/// The first `[check:tag]` of `g` at or after `i`.
pub open spec fn first_tag_from(g: Seq<AnnotationView>, i: int) -> Option<AnnotationView>
    decreases g.len() - i,
{
    if i < 0 || i >= g.len() {
        None
    } else if g[i].kind is Tag {
        Some(g[i])
    } else {
        first_tag_from(g, i + 1)
    }
}

/// The representative of a group: its first tag, else its first member.
pub open spec fn representative(g: Seq<AnnotationView>) -> AnnotationView {
    match first_tag_from(g, 0) {
        Some(a) => a,
        None => g[0],
    }
}

/// The (file, line) locations of a group.
pub open spec fn locations(g: Seq<AnnotationView>) -> Seq<(Seq<char>, usize)> {
    g.map_values(|a: AnnotationView| (a.file_path, a.line as usize))
}

/// The item for tag name `n`, when some annotation of `all` carries it.
pub open spec fn tag_item(all: Seq<AnnotationView>, ts: Seq<Trigger>, n: Seq<char>) -> Option<CheckItemView> {
    let g = group_named(all, n);
    if g.len() == 0 {
        None
    } else {
        let tr = triggers_named(ts, n);
        Some(CheckItemView {
            annotation: representative(g),
            scope: None,
            changed_ranges: seq![],
            matched_files: tr.map_values(|p: (Seq<char>, Seq<(usize, usize)>)| p.0),
            matched_file_ranges: tr,
            tag_counterparts: locations(g),
        })
    }
}

/// The items for the names `names`, in order.
pub open spec fn tag_items(names: Seq<Seq<char>>, all: Seq<AnnotationView>, ts: Seq<Trigger>) -> Seq<CheckItemView>
    decreases names.len(),
{
    if names.len() == 0 {
        seq![]
    } else {
        let prev = tag_items(names.drop_last(), all, ts);
        match tag_item(all, ts, names.last()) {
            Some(it) => prev.push(it),
            None => prev,
        }
    }
}

/// The activated tag items: one per name with a trigger, in the order the
/// names are first triggered.
pub open spec fn spec_active_tag_annotations(all: Seq<AnnotationView>, files: Seq<FileInputView>) -> Seq<CheckItemView> {
    let ts = all_triggers(files);
    tag_items(first_seen_names(ts), all, ts)
}

/// The views of exec triggers.
pub open spec fn triggers_view(ts: Seq<(String, String, Vec<(usize, usize)>)>) -> Seq<Trigger> {
    ts.map_values(|t: (String, String, Vec<(usize, usize)>)| (t.0@, t.1@, t.2@))
}

/// Appends the triggers of one changed file to `out`.
fn push_file_triggers(
    anns: &[Annotation],
    changed_file: &ChangedFile,
    tree: Option<&SyntaxTree>,
    out: &mut Vec<(String, String, Vec<(usize, usize)>)>,
)
    requires
        file_input_ok(anns, tree),
    ensures
        triggers_view(final(out)@) == triggers_view(old(out)@) + file_triggers(
            annotations_view(anns@),
            changed_file@.path,
            changed_file@.hunks,
            match tree {
                Some(t) => Some(*t),
                None => None,
            },
        ),
{
    let ghost tv = match tree {
        Some(t) => Some(*t),
        None => None::<SyntaxTree>,
    };
    let ghost av = annotations_view(anns@);
    let ghost start = triggers_view(out@);
    assert(forall|m: int| 0 <= m < anns@.len() ==> line_in_range(#[trigger] anns@[m]));
    let all_ranges = hunk_ranges(changed_file);
    let mut k: usize = 0;
    while k < anns.len()
        invariant
            k <= anns.len(),
            file_input_ok(anns, tree),
            forall|m: int| 0 <= m < anns@.len() ==> line_in_range(#[trigger] anns@[m]),
            tv == match tree {
                Some(t) => Some(*t),
                None => None::<SyntaxTree>,
            },
            av == annotations_view(anns@),
            all_ranges@ == changed_file@.hunks,
            triggers_view(out@) == start + file_triggers(av.take(k as int), changed_file@.path, all_ranges@, tv),
        decreases anns.len() - k,
    {
        let ann = &anns[k];
        assert(line_in_range(anns@[k as int]));
        proof {
            let t = av.take(k + 1);
            assert(t.drop_last() =~= av.take(k as int));
            assert(t.last() == ann@);
        }
        let name_opt: Option<&String> = match &ann.kind {
            CheckKind::Tag { name } => Some(name),
            CheckKind::Ref { name } => Some(name),
            _ => None,
        };
        if let Some(name) = name_opt {
            let scope = match tree {
                Some(t) => find_scope(t, ann.line),
                None => None,
            };
            let overlapping = match &scope {
                Some(s) => overlapping_ranges(all_ranges.as_slice(), ann, Some(s)),
                None => overlapping_ranges(all_ranges.as_slice(), ann, None),
            };
            assert(tag_name_of(ann@) == Some(name@));
            if overlapping.len() > 0 {
                let ghost old_out = out@;
                let entry = (name.clone(), changed_file.path.clone(), overlapping);
                let ghost ev = (entry.0@, entry.1@, entry.2@);
                out.push(entry);
                assert(triggers_view(out@) =~= triggers_view(old_out).push(ev));
            }
        }
        k = k + 1;
    }
    assert(av.take(anns.len() as int) =~= av);
}

/// Whether `names` holds `n`.
fn contains_name(names: &Vec<String>, n: &String) -> (r: bool)
    ensures
        r == names@.map_values(|s: String| s@).contains(n@),
{
    let ghost nv = names@.map_values(|s: String| s@);
    let mut k: usize = 0;
    while k < names.len()
        invariant
            k <= names.len(),
            nv == names@.map_values(|s: String| s@),
            forall|i: int| 0 <= i < k ==> nv[i] != n@,
        decreases names.len() - k,
    {
        if names[k] == *n {
            assert(nv[k as int] == n@);
            return true;
        }
        k = k + 1;
    }
    false
}

/// The (path, ranges) of the triggers named `n`, with their paths apart.
fn collect_named(ts: &Vec<(String, String, Vec<(usize, usize)>)>, n: &String) -> (r: (Vec<String>, Vec<(String, Vec<(usize, usize)>)>))
    ensures
        r.1.deep_view() == triggers_named(triggers_view(ts@), n@),
        r.0.deep_view() == triggers_named(triggers_view(ts@), n@).map_values(|p: (Seq<char>, Seq<(usize, usize)>)| p.0),
{
    let ghost tv = triggers_view(ts@);
    let mut files: Vec<String> = Vec::new();
    let mut pairs: Vec<(String, Vec<(usize, usize)>)> = Vec::new();
    let mut k: usize = 0;
    while k < ts.len()
        invariant
            k <= ts.len(),
            tv == triggers_view(ts@),
            pairs.deep_view() == triggers_named(tv.take(k as int), n@),
            files.deep_view() == triggers_named(tv.take(k as int), n@).map_values(|p: (Seq<char>, Seq<(usize, usize)>)| p.0),
        decreases ts.len() - k,
    {
        let ghost prev = triggers_named(tv.take(k as int), n@);
        proof {
            let t = tv.take(k + 1);
            assert(t.drop_last() =~= tv.take(k as int));
            assert(t.last() == tv[k as int]);
        }
        if ts[k].0 == *n {
            let ghost old_files = files.deep_view();
            let ghost old_pairs = pairs.deep_view();
            let f = ts[k].1.clone();
            let p = (ts[k].1.clone(), copy_ranges(&ts[k].2));
            let ghost fv = f@;
            let ghost pv = (p.0@, p.1@);
            files.push(f);
            pairs.push(p);
            proof {
                assert(files.deep_view() =~= old_files.push(fv));
                assert(pairs.deep_view() =~= old_pairs.push(pv));
                assert(prev.push(pv).map_values(|p: (Seq<char>, Seq<(usize, usize)>)| p.0)
                    =~= prev.map_values(|p: (Seq<char>, Seq<(usize, usize)>)| p.0).push(fv));
            }
        }
        k = k + 1;
    }
    assert(tv.take(ts.len() as int) =~= tv);
    (files, pairs)
}

/// The tag and ref annotations of `all` named `n`.
fn group_exec<'a>(all: &'a [Annotation], n: &String) -> (r: Vec<&'a Annotation>)
    ensures
        r@.map_values(|a: &Annotation| a@) == group_named(annotations_view(all@), n@),
{
    let ghost av = annotations_view(all@);
    let mut r: Vec<&'a Annotation> = Vec::new();
    let mut k: usize = 0;
    while k < all.len()
        invariant
            k <= all.len(),
            av == annotations_view(all@),
            r@.map_values(|a: &Annotation| a@) == group_named(av.take(k as int), n@),
        decreases all.len() - k,
    {
        let ann = &all[k];
        proof {
            let t = av.take(k + 1);
            assert(t.drop_last() =~= av.take(k as int));
            assert(t.last() == ann@);
        }
        let named = match &ann.kind {
            CheckKind::Tag { name } => *name == *n,
            CheckKind::Ref { name } => *name == *n,
            _ => false,
        };
        assert(named == (tag_name_of(ann@) == Some(n@)));
        if named {
            let ghost old_r = r@;
            r.push(ann);
            assert(r@.map_values(|a: &Annotation| a@) =~= old_r.map_values(|a: &Annotation| a@).push(ann@));
        }
        k = k + 1;
    }
    assert(av.take(all.len() as int) =~= av);
    r
}

/// The item for one activated name, when some annotation carries it.
fn tag_item_exec(all: &[Annotation], ts: &Vec<(String, String, Vec<(usize, usize)>)>, n: &String) -> (r: Option<CheckItem>)
    ensures
        match r {
            Some(it) => tag_item(annotations_view(all@), triggers_view(ts@), n@) == Some(it@),
            None => tag_item(annotations_view(all@), triggers_view(ts@), n@) is None,
        },
{
    let group = group_exec(all, n);
    let ghost gv = group@.map_values(|a: &Annotation| a@);
    if group.len() == 0 {
        return None;
    }
    let mut rep: usize = 0;
    let mut k: usize = 0;
    let mut found = false;
    while k < group.len()
        invariant
            k <= group.len(),
            group.len() > 0,
            gv == group@.map_values(|a: &Annotation| a@),
            !found ==> rep == 0,
            found ==> rep < group.len() && first_tag_from(gv, 0) == Some(gv[rep as int]),
            !found ==> first_tag_from(gv, 0) == first_tag_from(gv, k as int),
        decreases group.len() - k,
    {
        if !found {
            if let CheckKind::Tag { .. } = &group[k].kind {
                rep = k;
                found = true;
                assert(gv[k as int].kind is Tag);
            }
        }
        k = k + 1;
    }
    assert(representative(gv) == gv[rep as int]);
    let (files, pairs) = collect_named(ts, n);
    let mut cps: Vec<(String, usize)> = Vec::new();
    let mut j: usize = 0;
    while j < group.len()
        invariant
            j <= group.len(),
            gv == group@.map_values(|a: &Annotation| a@),
            cps.deep_view() == locations(gv.take(j as int)),
        decreases group.len() - j,
    {
        let a = group[j];
        let ghost old_c = cps.deep_view();
        let e = (a.file_path.clone(), a.line);
        let ghost ev = (e.0@, e.1);
        cps.push(e);
        proof {
            assert(cps.deep_view() =~= old_c.push(ev));
            assert(locations(gv.take(j + 1)) =~= locations(gv.take(j as int)).push(ev));
        }
        j = j + 1;
    }
    assert(gv.take(group.len() as int) =~= gv);
    let item = CheckItem {
        annotation: copy_annotation(group[rep]),
        scope: None,
        changed_ranges: Vec::new(),
        matched_files: files,
        matched_file_ranges: pairs,
        tag_counterparts: cps,
    };
    assert(item.changed_ranges@ =~= Seq::<(usize, usize)>::empty());
    Some(item)
}

/// Activate [check:tag] and [check:ref] annotations.
///
/// A tag/ref annotation is active if any annotation with the same name
/// is near changed code. When one activates, they all activate.
/// The emitted CheckItem uses the first [check:tag] as the representative
/// (for its description). All tag and ref locations are listed as counterparts.
/// Items come in the order their names are first triggered.
///
/// `per_file_annotations` contains (annotations, changed_file, tree)
/// tuples for each changed file that was already parsed.
pub fn active_tag_annotations(
    all_tag_annotations: &[Annotation],
    per_file_annotations: &[(&[Annotation], &ChangedFile, Option<&SyntaxTree>)],
) -> (r: Vec<CheckItem>)
    requires
        forall|i: int| 0 <= i < per_file_annotations@.len() ==> file_input_ok(per_file_annotations@[i].0, #[trigger] per_file_annotations@[i].2),
    ensures
        items_view(r@) == spec_active_tag_annotations(
            annotations_view(all_tag_annotations@),
            per_file_annotations@.map_values(|e: (&[Annotation], &ChangedFile, Option<&SyntaxTree>)| file_input_view(e)),
        ),
{
    let ghost fv = per_file_annotations@.map_values(|e: (&[Annotation], &ChangedFile, Option<&SyntaxTree>)| file_input_view(e));
    let mut ts: Vec<(String, String, Vec<(usize, usize)>)> = Vec::new();
    let mut i: usize = 0;
    while i < per_file_annotations.len()
        invariant
            i <= per_file_annotations.len(),
            forall|m: int| 0 <= m < per_file_annotations@.len() ==> file_input_ok(per_file_annotations@[m].0, #[trigger] per_file_annotations@[m].2),
            fv == per_file_annotations@.map_values(|e: (&[Annotation], &ChangedFile, Option<&SyntaxTree>)| file_input_view(e)),
            triggers_view(ts@) == all_triggers(fv.take(i as int)),
        decreases per_file_annotations.len() - i,
    {
        let (anns, cf, tree) = per_file_annotations[i];
        assert(file_input_ok(per_file_annotations@[i as int].0, per_file_annotations@[i as int].2));
        proof {
            let t = fv.take(i + 1);
            assert(t.drop_last() =~= fv.take(i as int));
            assert(t.last() == fv[i as int]);
        }
        push_file_triggers(anns, cf, tree, &mut ts);
        i = i + 1;
    }
    assert(fv.take(per_file_annotations.len() as int) =~= fv);
    let ghost tv = triggers_view(ts@);
    let mut names: Vec<String> = Vec::new();
    let mut k: usize = 0;
    while k < ts.len()
        invariant
            k <= ts.len(),
            tv == triggers_view(ts@),
            names@.map_values(|s: String| s@) == first_seen_names(tv.take(k as int)),
        decreases ts.len() - k,
    {
        proof {
            let t = tv.take(k + 1);
            assert(t.drop_last() =~= tv.take(k as int));
            assert(t.last() == tv[k as int]);
        }
        if !contains_name(&names, &ts[k].0) {
            let ghost old_n = names@;
            let n = ts[k].0.clone();
            names.push(n);
            assert(names@.map_values(|s: String| s@) =~= old_n.map_values(|s: String| s@).push(tv[k as int].0));
        }
        k = k + 1;
    }
    assert(tv.take(ts.len() as int) =~= tv);
    let ghost nv = names@.map_values(|s: String| s@);
    let ghost all_v = annotations_view(all_tag_annotations@);
    let mut result: Vec<CheckItem> = Vec::new();
    let mut j: usize = 0;
    while j < names.len()
        invariant
            j <= names.len(),
            nv == names@.map_values(|s: String| s@),
            all_v == annotations_view(all_tag_annotations@),
            tv == triggers_view(ts@),
            items_view(result@) == tag_items(nv.take(j as int), all_v, tv),
        decreases names.len() - j,
    {
        proof {
            let t = nv.take(j + 1);
            assert(t.drop_last() =~= nv.take(j as int));
            assert(t.last() == nv[j as int]);
        }
        match tag_item_exec(all_tag_annotations, &ts, &names[j]) {
            Some(item) => push_item(&mut result, item),
            None => {},
        }
        j = j + 1;
    }
    assert(nv.take(names.len() as int) =~= nv);
    result
}


// ---------------------------------------------------------------------
// Laws.
// ---------------------------------------------------------------------

/// A changed range is reported for a line window exactly when it is one of
/// the changed ranges and overlaps the window.
pub proof fn law_window_ranges(rs: Seq<(usize, usize)>, lo: int, hi: int)
    ensures
        forall|r: (usize, usize)|
            #[trigger] ranges_in_window(rs, lo, hi).contains(r) <==> (rs.contains(r) && r.0 <= hi && r.1 >= lo),
    decreases rs.len(),
{
    if rs.len() > 0 {
        let d = rs.drop_last();
        law_window_ranges(d, lo, hi);
        let prev = ranges_in_window(d, lo, hi);
        let res = ranges_in_window(rs, lo, hi);
        let last = rs.last();
        let hit = last.0 <= hi && last.1 >= lo;
        assert(res == if hit { prev.push(last) } else { prev });
        assert forall|r: (usize, usize)| #[trigger] res.contains(r) <==> (rs.contains(r) && r.0 <= hi && r.1 >= lo) by {
            if rs.contains(r) && r.0 <= hi && r.1 >= lo {
                let i = choose|i: int| 0 <= i < rs.len() && rs[i] == r;
                if i < rs.len() - 1 {
                    assert(d[i] == r);
                    assert(d.contains(r));
                    assert(prev.contains(r));
                    let j = choose|j: int| 0 <= j < prev.len() && prev[j] == r;
                    assert(res[j] == r);
                } else {
                    assert(res[prev.len() as int] == r);
                }
            }
            if res.contains(r) {
                let j = choose|j: int| 0 <= j < res.len() && res[j] == r;
                if j < prev.len() {
                    assert(prev[j] == r);
                    assert(prev.contains(r));
                    assert(d.contains(r));
                    let i = choose|i: int| 0 <= i < d.len() && d[i] == r;
                    assert(rs[i] == r);
                } else {
                    assert(rs[rs.len() - 1] == r);
                }
            }
        }
    }
}

/// A `[check:file]` annotation is always active: in a changed file it
/// yields an item with all of the file's changed ranges.
pub proof fn law_file_check_always_active(anns: Seq<AnnotationView>, ranges: Seq<(usize, usize)>, tree: Option<SyntaxTree>, i: int)
    requires
        0 <= i < anns.len(),
        anns[i].kind is File,
    ensures
        spec_active_annotations(anns, ranges, tree).contains(plain_item(anns[i], None, ranges)),
    decreases anns.len(),
{
    let prev = spec_active_annotations(anns.drop_last(), ranges, tree);
    if i == anns.len() - 1 {
        assert(spec_active_annotations(anns, ranges, tree)[prev.len() as int] == plain_item(anns[i], None, ranges));
    } else {
        assert(anns.drop_last()[i] == anns[i]);
        law_file_check_always_active(anns.drop_last(), ranges, tree, i);
        let j = choose|j: int| 0 <= j < prev.len() && prev[j] == plain_item(anns[i], None, ranges);
        assert(spec_active_annotations(anns, ranges, tree)[j] == prev[j]);
    }
}

/// Every item of a changed file comes from a `[check:file]` annotation, or
/// from a `[check]` annotation with some changed range that overlaps it.
pub proof fn law_local_items_are_checks(anns: Seq<AnnotationView>, ranges: Seq<(usize, usize)>, tree: Option<SyntaxTree>)
    ensures
        forall|k: int| 0 <= k < spec_active_annotations(anns, ranges, tree).len() ==> {
            let it = #[trigger] spec_active_annotations(anns, ranges, tree)[k];
            ||| (it.annotation.kind is File && it.changed_ranges == ranges)
            ||| (it.annotation.kind is Check && it.changed_ranges.len() > 0)
        },
    decreases anns.len(),
{
    if anns.len() > 0 {
        law_local_items_are_checks(anns.drop_last(), ranges, tree);
    }
}

/// A `[check:all]` annotation shows up whenever a changed file matches its
/// pattern, wherever the annotation itself lives: the item lists that file.
pub proof fn law_all_check_lists_matching_file(anns: Seq<AnnotationView>, files: Seq<ChangedFileView>, i: int, j: int)
    requires
        0 <= i < anns.len(),
        0 <= j < files.len(),
        anns[i].kind matches KindView::All { pattern } && glob_valid(pattern) && path_matches(pattern, files[j].path),
    ensures
        exists|k: int|
            0 <= k < spec_active_all_annotations(anns, files).len()
                && (#[trigger] spec_active_all_annotations(anns, files)[k]).annotation == anns[i]
                && spec_active_all_annotations(anns, files)[k].matched_files.contains(files[j].path),
    decreases anns.len(),
{
    let pattern = anns[i].kind->All_pattern;
    let prev = spec_active_all_annotations(anns.drop_last(), files);
    if i == anns.len() - 1 {
        lemma_files_matching_contains(pattern, files, j);
        let m = files_matching(pattern, files);
        let q = choose|q: int| 0 <= q < m.len() && m[q] == files[j];
        assert(paths_of(m)[q] == files[j].path);
        let it = all_item(anns[i], files).unwrap();
        assert(spec_active_all_annotations(anns, files)[prev.len() as int] == it);
    } else {
        assert(anns.drop_last()[i] == anns[i]);
        law_all_check_lists_matching_file(anns.drop_last(), files, i, j);
        let k = choose|k: int|
            0 <= k < prev.len() && (#[trigger] prev[k]).annotation == anns[i] && prev[k].matched_files.contains(files[j].path);
        assert(spec_active_all_annotations(anns, files)[k] == prev[k]);
    }
}

/// A changed file whose path the pattern matches is among the matching files.
proof fn lemma_files_matching_contains(pattern: Seq<char>, files: Seq<ChangedFileView>, j: int)
    requires
        0 <= j < files.len(),
        path_matches(pattern, files[j].path),
    ensures
        files_matching(pattern, files).contains(files[j]),
    decreases files.len(),
{
    let prev = files_matching(pattern, files.drop_last());
    if j == files.len() - 1 {
        assert(files_matching(pattern, files)[prev.len() as int] == files[j]);
    } else {
        assert(files.drop_last()[j] == files[j]);
        lemma_files_matching_contains(pattern, files.drop_last(), j);
        let q = choose|q: int| 0 <= q < prev.len() && prev[q] == files[j];
        assert(files_matching(pattern, files)[q] == prev[q]);
    }
}

/// Every item of `[check:all]` comes from a valid pattern and lists only
/// changed files that the pattern matches, at least one.
pub proof fn law_all_items_match(anns: Seq<AnnotationView>, files: Seq<ChangedFileView>)
    ensures
        forall|k: int| 0 <= k < spec_active_all_annotations(anns, files).len() ==> {
            let it = #[trigger] spec_active_all_annotations(anns, files)[k];
            &&& it.annotation.kind matches KindView::All { pattern }
            &&& glob_valid(it.annotation.kind->All_pattern)
            &&& it.matched_files.len() > 0
            &&& forall|q: int| 0 <= q < it.matched_files.len() ==> path_matches(it.annotation.kind->All_pattern, #[trigger] it.matched_files[q])
        },
    decreases anns.len(),
{
    if anns.len() > 0 {
        law_all_items_match(anns.drop_last(), files);
        let a = anns.last();
        if let KindView::All { pattern } = a.kind {
            lemma_files_matching_match(pattern, files);
        }
    }
}

/// Every file that matches a pattern is matched by it.
proof fn lemma_files_matching_match(pattern: Seq<char>, files: Seq<ChangedFileView>)
    ensures
        forall|q: int| 0 <= q < files_matching(pattern, files).len() ==> path_matches(pattern, #[trigger] files_matching(pattern, files)[q].path),
        forall|q: int| 0 <= q < paths_of(files_matching(pattern, files)).len() ==> path_matches(pattern, #[trigger] paths_of(files_matching(pattern, files))[q]),
    decreases files.len(),
{
    let m = files_matching(pattern, files);
    if files.len() > 0 {
        lemma_files_matching_match(pattern, files.drop_last());
        let prev = files_matching(pattern, files.drop_last());
        assert forall|q: int| 0 <= q < m.len() implies path_matches(pattern, #[trigger] m[q].path) by {
            if q < prev.len() {
                assert(m[q] == prev[q]);
            }
        }
    }
    assert forall|q: int| 0 <= q < paths_of(m).len() implies path_matches(pattern, #[trigger] paths_of(m)[q]) by {
        assert(paths_of(m)[q] == m[q].path);
    }
}


/// A tag or ref near a change in one of the changed files activates its
/// whole name: the result holds the item of that name, which lists every
/// tag and ref of the name as a counterpart.
pub proof fn law_tag_activates_all(all: Seq<AnnotationView>, files: Seq<FileInputView>, f: int, a: int, n: Seq<char>)
    requires
        0 <= f < files.len(),
        0 <= a < files[f].0.len(),
        tag_name_of(files[f].0[a]) == Some(n),
        spec_overlapping_ranges(files[f].1.hunks, files[f].0[a].line, scope_for(files[f].2, files[f].0[a].line)).len() > 0,
        group_named(all, n).len() > 0,
    ensures
        tag_item(all, all_triggers(files), n) is Some,
        spec_active_tag_annotations(all, files).contains(tag_item(all, all_triggers(files), n).unwrap()),
        tag_item(all, all_triggers(files), n).unwrap().tag_counterparts == locations(group_named(all, n)),
{
    let ts = all_triggers(files);
    lemma_file_triggers_named(files[f].0, files[f].1.path, files[f].1.hunks, files[f].2, a, n);
    lemma_all_triggers_named(files, f, n);
    lemma_first_seen_contains(ts, n);
    lemma_tag_items_contains(first_seen_names(ts), all, ts, n);
}

/// Some trigger of `ts` is named `n`.
pub open spec fn has_trigger_named(ts: Seq<Trigger>, n: Seq<char>) -> bool {
    exists|i: int| 0 <= i < ts.len() && (#[trigger] ts[i]).0 == n
}

proof fn lemma_file_triggers_named(anns: Seq<AnnotationView>, path: Seq<char>, ranges: Seq<(usize, usize)>, tree: Option<SyntaxTree>, a: int, n: Seq<char>)
    requires
        0 <= a < anns.len(),
        tag_name_of(anns[a]) == Some(n),
        spec_overlapping_ranges(ranges, anns[a].line, scope_for(tree, anns[a].line)).len() > 0,
    ensures
        has_trigger_named(file_triggers(anns, path, ranges, tree), n),
    decreases anns.len(),
{
    let prev = file_triggers(anns.drop_last(), path, ranges, tree);
    let cur = file_triggers(anns, path, ranges, tree);
    if a == anns.len() - 1 {
        assert(cur[prev.len() as int].0 == n);
    } else {
        assert(anns.drop_last()[a] == anns[a]);
        lemma_file_triggers_named(anns.drop_last(), path, ranges, tree, a, n);
        let i = choose|i: int| 0 <= i < prev.len() && (#[trigger] prev[i]).0 == n;
        assert(cur[i] == prev[i]);
    }
}

proof fn lemma_all_triggers_named(files: Seq<FileInputView>, f: int, n: Seq<char>)
    requires
        0 <= f < files.len(),
        has_trigger_named(file_triggers(files[f].0, files[f].1.path, files[f].1.hunks, files[f].2), n),
    ensures
        has_trigger_named(all_triggers(files), n),
    decreases files.len(),
{
    let last = files.last();
    let prev = all_triggers(files.drop_last());
    let cur = all_triggers(files);
    if f == files.len() - 1 {
        let ft = file_triggers(last.0, last.1.path, last.1.hunks, last.2);
        let i = choose|i: int| 0 <= i < ft.len() && (#[trigger] ft[i]).0 == n;
        assert(cur[prev.len() + i] == ft[i]);
    } else {
        assert(files.drop_last()[f] == files[f]);
        lemma_all_triggers_named(files.drop_last(), f, n);
        let i = choose|i: int| 0 <= i < prev.len() && (#[trigger] prev[i]).0 == n;
        assert(cur[i] == prev[i]);
    }
}

proof fn lemma_first_seen_contains(ts: Seq<Trigger>, n: Seq<char>)
    requires
        has_trigger_named(ts, n),
    ensures
        first_seen_names(ts).contains(n),
    decreases ts.len(),
{
    let prev = first_seen_names(ts.drop_last());
    if ts.last().0 == n {
        if !prev.contains(n) {
            assert(first_seen_names(ts)[prev.len() as int] == n);
        }
    } else {
        let i = choose|i: int| 0 <= i < ts.len() && (#[trigger] ts[i]).0 == n;
        assert(ts.drop_last()[i] == ts[i]);
        lemma_first_seen_contains(ts.drop_last(), n);
        let j = choose|j: int| 0 <= j < prev.len() && prev[j] == n;
        if !prev.contains(ts.last().0) {
            assert(first_seen_names(ts)[j] == n);
        }
    }
}

proof fn lemma_tag_items_contains(names: Seq<Seq<char>>, all: Seq<AnnotationView>, ts: Seq<Trigger>, n: Seq<char>)
    requires
        names.contains(n),
        group_named(all, n).len() > 0,
    ensures
        tag_item(all, ts, n) is Some,
        tag_items(names, all, ts).contains(tag_item(all, ts, n).unwrap()),
        tag_item(all, ts, n).unwrap().tag_counterparts == locations(group_named(all, n)),
    decreases names.len(),
{
    let it = tag_item(all, ts, n).unwrap();
    let prev = tag_items(names.drop_last(), all, ts);
    if names.last() == n {
        assert(tag_items(names, all, ts)[prev.len() as int] == it);
    } else {
        let i = choose|i: int| 0 <= i < names.len() && names[i] == n;
        assert(names.drop_last()[i] == n);
        lemma_tag_items_contains(names.drop_last(), all, ts, n);
        let j = choose|j: int| 0 <= j < prev.len() && prev[j] == it;
        assert(tag_items(names, all, ts)[j] == it);
    }
}

/// The representative of a name that has a `[check:tag]` is a tag.
pub proof fn law_representative_is_tag(g: Seq<AnnotationView>, i: int)
    requires
        0 <= i < g.len(),
        g[i].kind is Tag,
    ensures
        representative(g).kind is Tag,
{
    lemma_first_tag_from(g, 0, i);
}

proof fn lemma_first_tag_from(g: Seq<AnnotationView>, k: int, i: int)
    requires
        0 <= k <= i < g.len(),
        g[i].kind is Tag,
    ensures
        first_tag_from(g, k) matches Some(a) && a.kind is Tag,
    decreases i - k,
{
    if !(g[k].kind is Tag) {
        lemma_first_tag_from(g, k + 1, i);
    }
}


/// Lexicographic order is asymmetric.
pub proof fn lemma_seq_lt_asymmetric(a: Seq<char>, b: Seq<char>)
    requires
        seq_lt(a, b),
    ensures
        !seq_lt(b, a),
{
    let i = choose|i: int|
        0 <= i <= a.len() && i <= b.len() && #[trigger] a.take(i) == b.take(i) && (
            (i == a.len() && i < b.len()) || (i < a.len() && i < b.len() && (a[i] as u32) < (b[i] as u32))
        );
    if seq_lt(b, a) {
        let j = choose|j: int|
            0 <= j <= b.len() && j <= a.len() && #[trigger] b.take(j) == a.take(j) && (
                (j == b.len() && j < a.len()) || (j < b.len() && j < a.len() && (b[j] as u32) < (a[j] as u32))
            );
        if i < j {
            assert(a[i] == a.take(j)[i]);
            assert(b[i] == b.take(j)[i]);
        } else if j < i {
            assert(a[j] == a.take(i)[j]);
            assert(b[j] == b.take(i)[j]);
        }
    }
}

/// Lexicographic order is transitive.
pub proof fn lemma_seq_lt_transitive(a: Seq<char>, b: Seq<char>, c: Seq<char>)
    requires
        seq_lt(a, b),
        seq_lt(b, c),
    ensures
        seq_lt(a, c),
{
    let i = choose|i: int|
        0 <= i <= a.len() && i <= b.len() && #[trigger] a.take(i) == b.take(i) && (
            (i == a.len() && i < b.len()) || (i < a.len() && i < b.len() && (a[i] as u32) < (b[i] as u32))
        );
    let j = choose|j: int|
        0 <= j <= b.len() && j <= c.len() && #[trigger] b.take(j) == c.take(j) && (
            (j == b.len() && j < c.len()) || (j < b.len() && j < c.len() && (b[j] as u32) < (c[j] as u32))
        );
    if i <= j {
        assert(b.take(i) =~= b.take(j).take(i));
        assert(c.take(i) =~= c.take(j).take(i));
        assert(a.take(i) == c.take(i));
        if i < j {
            assert(b[i] == b.take(j)[i]);
            assert(c[i] == c.take(j)[i]);
        }
        assert((i == a.len() && i < c.len()) || (i < a.len() && i < c.len() && (a[i] as u32) < (c[i] as u32)));
    } else {
        assert(a.take(j) =~= a.take(i).take(j));
        assert(b.take(j) =~= b.take(i).take(j));
        assert(a.take(j) == c.take(j));
        assert(a[j] == a.take(i)[j]);
        assert(b[j] == b.take(i)[j]);
        assert(j < a.len() && j < c.len() && (a[j] as u32) < (c[j] as u32));
    }
}

/// Order by location is asymmetric.
pub proof fn lemma_loc_lt_asymmetric(a: AnnotationView, b: AnnotationView)
    requires
        loc_lt(a, b),
    ensures
        !loc_lt(b, a),
{
    if seq_lt(a.file_path, b.file_path) {
        lemma_seq_lt_asymmetric(a.file_path, b.file_path);
        if b.file_path == a.file_path {
            lemma_seq_lt_asymmetric(a.file_path, a.file_path);
        }
    } else if seq_lt(b.file_path, a.file_path) {
        lemma_seq_lt_asymmetric(b.file_path, a.file_path);
    }
}

/// Order by location is transitive.
pub proof fn lemma_loc_lt_transitive(a: AnnotationView, b: AnnotationView, c: AnnotationView)
    requires
        loc_lt(a, b),
        loc_lt(b, c),
    ensures
        loc_lt(a, c),
{
    if seq_lt(a.file_path, b.file_path) && seq_lt(b.file_path, c.file_path) {
        lemma_seq_lt_transitive(a.file_path, b.file_path, c.file_path);
    }
}

/// No entry stands after a later one by location.
pub open spec fn sorted_by_location(s: Seq<(AnnotationView, Seq<char>)>) -> bool {
    forall|i: int, j: int| 0 <= i < j < s.len() ==> !loc_lt(#[trigger] s[j].0, #[trigger] s[i].0)
}

proof fn lemma_first_after(s: Seq<(AnnotationView, Seq<char>)>, x: AnnotationView, i: int)
    requires
        0 <= i <= s.len(),
    ensures
        i <= first_after(s, x, i) <= s.len(),
        forall|k: int| i <= k < first_after(s, x, i) ==> !loc_lt(x, #[trigger] s[k].0),
        first_after(s, x, i) < s.len() ==> loc_lt(x, s[first_after(s, x, i)].0),
    decreases s.len() - i,
{
    if i < s.len() && !loc_lt(x, s[i].0) {
        lemma_first_after(s, x, i + 1);
    }
}

proof fn lemma_insert_sorted(r: Seq<(AnnotationView, Seq<char>)>, x: (AnnotationView, Seq<char>))
    requires
        sorted_by_location(r),
    ensures
        sorted_by_location(r.insert(first_after(r, x.0, 0), x)),
        r.insert(first_after(r, x.0, 0), x).to_multiset() =~= r.to_multiset().insert(x),
{
    broadcast use vstd::seq_lib::group_to_multiset_ensures;
    let p = first_after(r, x.0, 0);
    lemma_first_after(r, x.0, 0);
    let t = r.insert(p, x);
    assert forall|i: int, j: int| 0 <= i < j < t.len() implies !loc_lt(#[trigger] t[j].0, #[trigger] t[i].0) by {
        if j < p {
            assert(t[i] == r[i] && t[j] == r[j]);
        } else if j == p {
            assert(t[i] == r[i] && t[j] == x);
        } else if i < p {
            assert(t[i] == r[i] && t[j] == r[j - 1]);
        } else if i == p {
            assert(t[i] == x && t[j] == r[j - 1]);
            if loc_lt(r[j - 1].0, x.0) {
                lemma_loc_lt_transitive(r[j - 1].0, x.0, r[p].0);
                if j - 1 == p {
                    lemma_loc_lt_asymmetric(r[p].0, x.0);
                }
            }
        } else {
            assert(t[i] == r[i - 1] && t[j] == r[j - 1]);
        }
    }
    assert(t.remove(p) =~= r);
    assert(t[p] == x);
    assert(t.to_multiset().count(x) > 0);
}

/// Sorting by location keeps every entry, each as often as before, and
/// puts them in order: no entry stands after a later one.
pub proof fn law_sort_by_location(s: Seq<(AnnotationView, Seq<char>)>)
    ensures
        sorted_by_location(sort_by_location(s)),
        sort_by_location(s).to_multiset() =~= s.to_multiset(),
    decreases s.len(),
{
    broadcast use vstd::seq_lib::group_to_multiset_ensures;
    if s.len() > 0 {
        law_sort_by_location(s.drop_last());
        lemma_insert_sorted(sort_by_location(s.drop_last()), s.last());
        assert(s =~= s.drop_last().push(s.last()));
    }
}

/// The orphans are exactly the `[check:ref]` annotations whose name no
/// `[check:tag]` carries; a tag without refs is never one.
pub proof fn law_orphans_exact(anns: Seq<AnnotationView>, all: Seq<AnnotationView>)
    ensures
        forall|k: int| 0 <= k < orphans_in_order(anns, all).len() ==> {
            let o = #[trigger] orphans_in_order(anns, all)[k];
            o.0.kind == (KindView::Ref { name: o.1 }) && !has_tag(all, o.1)
        },
        forall|i: int| 0 <= i < anns.len() && anns[i].kind is Ref && !has_tag(all, anns[i].kind->Ref_name)
            ==> orphans_in_order(anns, all).contains((#[trigger] anns[i], anns[i].kind->Ref_name)),
    decreases anns.len(),
{
    if anns.len() > 0 {
        let d = anns.drop_last();
        law_orphans_exact(d, all);
        let prev = orphans_in_order(d, all);
        let cur = orphans_in_order(anns, all);
        assert forall|i: int| 0 <= i < anns.len() && anns[i].kind is Ref && !has_tag(all, anns[i].kind->Ref_name)
            implies cur.contains((#[trigger] anns[i], anns[i].kind->Ref_name)) by {
            if i == anns.len() - 1 {
                assert(cur[prev.len() as int] == (anns[i], anns[i].kind->Ref_name));
            } else {
                assert(d[i] == anns[i]);
                let j = choose|j: int| 0 <= j < prev.len() && prev[j] == (d[i], d[i].kind->Ref_name);
                assert(cur[j] == prev[j]);
            }
        }
    }
}


/// The dead patterns are exactly the valid `[check:all]` patterns that
/// match none of the repository's files.
pub proof fn law_dead_patterns_exact(anns: Seq<AnnotationView>, known: Seq<Seq<char>>)
    ensures
        forall|k: int| 0 <= k < spec_dead_patterns(anns, known).len() ==> {
            let d = #[trigger] spec_dead_patterns(anns, known)[k];
            &&& d.0.kind == (KindView::All { pattern: d.1 })
            &&& glob_valid(d.1)
            &&& forall|i: int| 0 <= i < known.len() ==> !path_matches(d.1, #[trigger] known[i])
        },
        forall|i: int|
            0 <= i < anns.len() && anns[i].kind is All && glob_valid(anns[i].kind->All_pattern)
                && !any_known_match(anns[i].kind->All_pattern, known)
                ==> spec_dead_patterns(anns, known).contains((#[trigger] anns[i], anns[i].kind->All_pattern)),
    decreases anns.len(),
{
    if anns.len() > 0 {
        let d = anns.drop_last();
        law_dead_patterns_exact(d, known);
        let prev = spec_dead_patterns(d, known);
        let cur = spec_dead_patterns(anns, known);
        assert forall|i: int|
            0 <= i < anns.len() && anns[i].kind is All && glob_valid(anns[i].kind->All_pattern)
                && !any_known_match(anns[i].kind->All_pattern, known)
            implies cur.contains((#[trigger] anns[i], anns[i].kind->All_pattern)) by {
            if i == anns.len() - 1 {
                assert(cur[prev.len() as int] == (anns[i], anns[i].kind->All_pattern));
            } else {
                assert(d[i] == anns[i]);
                let j = choose|j: int| 0 <= j < prev.len() && prev[j] == (d[i], d[i].kind->All_pattern);
                assert(cur[j] == prev[j]);
            }
        }
    }
}


/// Tag activation yields one item per name: no two items carry the same
/// tag name.
pub proof fn law_one_item_per_tag_name(all: Seq<AnnotationView>, files: Seq<FileInputView>)
    ensures
        forall|i: int, j: int|
            0 <= i < j < spec_active_tag_annotations(all, files).len()
                ==> tag_name_of((#[trigger] spec_active_tag_annotations(all, files)[i]).annotation)
                    != tag_name_of((#[trigger] spec_active_tag_annotations(all, files)[j]).annotation),
{
    let ts = all_triggers(files);
    lemma_first_seen_distinct(ts);
    lemma_tag_items_names(first_seen_names(ts), all, ts);
}

proof fn lemma_first_seen_distinct(ts: Seq<Trigger>)
    ensures
        first_seen_names(ts).no_duplicates(),
    decreases ts.len(),
{
    if ts.len() > 0 {
        lemma_first_seen_distinct(ts.drop_last());
    }
}

proof fn lemma_group_named_members(all: Seq<AnnotationView>, n: Seq<char>)
    ensures
        forall|k: int| 0 <= k < group_named(all, n).len() ==> tag_name_of(#[trigger] group_named(all, n)[k]) == Some(n),
    decreases all.len(),
{
    if all.len() > 0 {
        lemma_group_named_members(all.drop_last(), n);
        let prev = group_named(all.drop_last(), n);
        let g = group_named(all, n);
        assert forall|k: int| 0 <= k < g.len() implies tag_name_of(#[trigger] g[k]) == Some(n) by {
            if k < prev.len() {
                assert(g[k] == prev[k]);
            }
        }
    }
}

proof fn lemma_first_tag_member(g: Seq<AnnotationView>, i: int)
    requires
        0 <= i,
    ensures
        first_tag_from(g, i) matches Some(a) ==> exists|k: int| 0 <= k < g.len() && g[k] == a,
    decreases g.len() - i,
{
    if i < g.len() && !(g[i].kind is Tag) {
        lemma_first_tag_member(g, i + 1);
    }
}

proof fn lemma_representative_named(all: Seq<AnnotationView>, n: Seq<char>)
    requires
        group_named(all, n).len() > 0,
    ensures
        tag_name_of(representative(group_named(all, n))) == Some(n),
{
    let g = group_named(all, n);
    lemma_group_named_members(all, n);
    lemma_first_tag_member(g, 0);
    if let Some(a) = first_tag_from(g, 0) {
        let k = choose|k: int| 0 <= k < g.len() && g[k] == a;
        assert(tag_name_of(g[k]) == Some(n));
    } else {
        assert(tag_name_of(g[0]) == Some(n));
    }
}

proof fn lemma_tag_items_names(names: Seq<Seq<char>>, all: Seq<AnnotationView>, ts: Seq<Trigger>)
    requires
        names.no_duplicates(),
    ensures
        forall|k: int| 0 <= k < tag_items(names, all, ts).len()
            ==> names.contains(tag_name_of((#[trigger] tag_items(names, all, ts)[k]).annotation).unwrap())
                && tag_name_of(tag_items(names, all, ts)[k].annotation) is Some,
        forall|i: int, j: int|
            0 <= i < j < tag_items(names, all, ts).len()
                ==> tag_name_of((#[trigger] tag_items(names, all, ts)[i]).annotation)
                    != tag_name_of((#[trigger] tag_items(names, all, ts)[j]).annotation),
    decreases names.len(),
{
    if names.len() > 0 {
        let d = names.drop_last();
        assert(d.no_duplicates());
        lemma_tag_items_names(d, all, ts);
        let prev = tag_items(d, all, ts);
        let cur = tag_items(names, all, ts);
        let n = names.last();
        if let Some(it) = tag_item(all, ts, n) {
            lemma_representative_named(all, n);
            assert(cur == prev.push(it));
            assert(tag_name_of(it.annotation) == Some(n));
            assert(!d.contains(n)) by {
                if d.contains(n) {
                    let q = choose|q: int| 0 <= q < d.len() && d[q] == n;
                    assert(names[q] == names[names.len() - 1]);
                }
            }
            assert forall|k: int| 0 <= k < cur.len() implies names.contains(tag_name_of((#[trigger] cur[k]).annotation).unwrap())
                && tag_name_of(cur[k].annotation) is Some by {
                if k < prev.len() {
                    assert(cur[k] == prev[k]);
                    let q = choose|q: int| 0 <= q < d.len() && d[q] == tag_name_of(prev[k].annotation).unwrap();
                    assert(names[q] == d[q]);
                } else {
                    assert(names[names.len() - 1] == n);
                }
            }
            assert forall|i: int, j: int| 0 <= i < j < cur.len() implies tag_name_of((#[trigger] cur[i]).annotation)
                != tag_name_of((#[trigger] cur[j]).annotation) by {
                assert(cur[i] == prev[i]);
                if j < prev.len() {
                    assert(cur[j] == prev[j]);
                } else {
                    assert(d.contains(tag_name_of(prev[i].annotation).unwrap()));
                }
            }
        } else {
            assert(cur == prev);
            assert forall|k: int| 0 <= k < cur.len() implies names.contains(tag_name_of((#[trigger] cur[k]).annotation).unwrap())
                && tag_name_of(cur[k].annotation) is Some by {
                let q = choose|q: int| 0 <= q < d.len() && d[q] == tag_name_of(prev[k].annotation).unwrap();
                assert(names[q] == d[q]);
            }
        }
    }
}

// ---------------------------------------------------------------------
// What a change must touch to be reported.
// ---------------------------------------------------------------------

/// Changed range `r` touches the lines an annotation on `line` watches: the
/// lines of its scope when it has one, else the lines at most
/// `FALLBACK_PROXIMITY` away from it.
pub open spec fn near_annotation(r: (usize, usize), line: int, scope: Option<ScopeView>) -> bool {
    match scope {
        Some(sc) => r.0 <= sc.end && sc.start <= r.1,
        None => r.0 <= line + FALLBACK_PROXIMITY && line <= r.1 + FALLBACK_PROXIMITY,
    }
}

proof fn lemma_overlapping_near(rs: Seq<(usize, usize)>, line: int, scope: Option<ScopeView>)
    requires
        line >= 0,
    ensures
        forall|r: (usize, usize)| #[trigger] spec_overlapping_ranges(rs, line, scope).contains(r)
            <==> (rs.contains(r) && near_annotation(r, line, scope)),
{
    match scope {
        Some(sc) => law_window_ranges(rs, sc.start, sc.end),
        None => {
            let lo = if line >= FALLBACK_PROXIMITY { line - FALLBACK_PROXIMITY } else { 0 };
            law_window_ranges(rs, lo, line + FALLBACK_PROXIMITY);
        },
    }
}

/// A `[check]` item reports exactly the file's changed ranges that touch the
/// annotation's scope (or, without a scope, its proximity window), and at
/// least one: a change elsewhere in the file is never listed with it.
pub proof fn law_check_ranges_near(anns: Seq<AnnotationView>, ranges: Seq<(usize, usize)>, tree: Option<SyntaxTree>)
    requires
        forall|k: int| 0 <= k < anns.len() ==> (#[trigger] anns[k]).line >= 0,
    ensures
        forall|k: int| 0 <= k < spec_active_annotations(anns, ranges, tree).len()
            && (#[trigger] spec_active_annotations(anns, ranges, tree)[k]).annotation.kind is Check ==> {
            let it = spec_active_annotations(anns, ranges, tree)[k];
            &&& it.scope == scope_for(tree, it.annotation.line)
            &&& it.changed_ranges.len() > 0
            &&& forall|r: (usize, usize)| #[trigger] it.changed_ranges.contains(r)
                <==> (ranges.contains(r) && near_annotation(r, it.annotation.line, it.scope))
        },
    decreases anns.len(),
{
    if anns.len() > 0 {
        let d = anns.drop_last();
        assert forall|k: int| 0 <= k < d.len() implies (#[trigger] d[k]).line >= 0 by {
            assert(d[k] == anns[k]);
        }
        law_check_ranges_near(d, ranges, tree);
        let a = anns.last();
        assert(a == anns[anns.len() - 1]);
        lemma_overlapping_near(ranges, a.line, scope_for(tree, a.line));
    }
}

/// Changed range `r` of the file at `path` touches the watched lines of a
/// tag or ref named `name` in that file.
pub open spec fn near_tag_in_file(files: Seq<FileInputView>, path: Seq<char>, name: Option<Seq<char>>, r: (usize, usize)) -> bool {
    exists|f: int, a: int| 0 <= f < files.len() && 0 <= a < files[f].0.len() && {
        let ann = #[trigger] files[f].0[a];
        &&& files[f].1.path == path
        &&& tag_name_of(ann) == name
        &&& files[f].1.hunks.contains(r)
        &&& near_annotation(r, ann.line, scope_for(files[f].2, ann.line))
    }
}

proof fn lemma_file_trigger_origin(anns: Seq<AnnotationView>, path: Seq<char>, ranges: Seq<(usize, usize)>, tree: Option<SyntaxTree>, i: int)
    requires
        0 <= i < file_triggers(anns, path, ranges, tree).len(),
    ensures
        file_triggers(anns, path, ranges, tree)[i].1 == path,
        exists|a: int| 0 <= a < anns.len() && tag_name_of(#[trigger] anns[a]) == Some(file_triggers(anns, path, ranges, tree)[i].0)
            && file_triggers(anns, path, ranges, tree)[i].2 == spec_overlapping_ranges(ranges, anns[a].line, scope_for(tree, anns[a].line)),
    decreases anns.len(),
{
    let d = anns.drop_last();
    let prev = file_triggers(d, path, ranges, tree);
    let cur = file_triggers(anns, path, ranges, tree);
    if i < prev.len() {
        assert(cur[i] == prev[i]);
        lemma_file_trigger_origin(d, path, ranges, tree, i);
        let a = choose|a: int| 0 <= a < d.len() && tag_name_of(#[trigger] d[a]) == Some(prev[i].0)
            && prev[i].2 == spec_overlapping_ranges(ranges, d[a].line, scope_for(tree, d[a].line));
        assert(anns[a] == d[a]);
    } else {
        let a = anns.len() - 1;
        assert(anns[a] == anns.last());
    }
}

/// The `j`-th trigger of the `f`-th changed file.
pub open spec fn trigger_of_file(files: Seq<FileInputView>, f: int, j: int) -> Trigger {
    file_triggers(files[f].0, files[f].1.path, files[f].1.hunks, files[f].2)[j]
}

proof fn lemma_all_trigger_origin(files: Seq<FileInputView>, i: int)
    requires
        0 <= i < all_triggers(files).len(),
    ensures
        exists|f: int, j: int| 0 <= f < files.len()
            && 0 <= j < file_triggers(files[f].0, files[f].1.path, files[f].1.hunks, files[f].2).len()
            && all_triggers(files)[i] == #[trigger] trigger_of_file(files, f, j),
    decreases files.len(),
{
    let d = files.drop_last();
    let prev = all_triggers(d);
    let cur = all_triggers(files);
    let lf = files.last();
    let ft = file_triggers(lf.0, lf.1.path, lf.1.hunks, lf.2);
    assert(cur == prev + ft);
    if i < prev.len() {
        lemma_all_trigger_origin(d, i);
        let (f, j) = choose|f: int, j: int| 0 <= f < d.len()
            && 0 <= j < file_triggers(d[f].0, d[f].1.path, d[f].1.hunks, d[f].2).len()
            && prev[i] == #[trigger] trigger_of_file(d, f, j);
        assert(files[f] == d[f]);
        assert(cur[i] == prev[i]);
        assert(trigger_of_file(files, f, j) == trigger_of_file(d, f, j));
    } else {
        let f = files.len() - 1;
        assert(files[f] == lf);
        assert(cur[i] == ft[i - prev.len()]);
        assert(cur[i] == trigger_of_file(files, f, i - prev.len()));
    }
}

proof fn lemma_triggers_named_at(ts: Seq<Trigger>, n: Seq<char>, q: int)
    requires
        0 <= q < triggers_named(ts, n).len(),
    ensures
        exists|i: int| 0 <= i < ts.len() && (#[trigger] ts[i]).0 == n && triggers_named(ts, n)[q] == (ts[i].1, ts[i].2),
    decreases ts.len(),
{
    let d = ts.drop_last();
    let prev = triggers_named(d, n);
    let cur = triggers_named(ts, n);
    if q < prev.len() {
        assert(cur[q] == prev[q]);
        lemma_triggers_named_at(d, n, q);
        let i = choose|i: int| 0 <= i < d.len() && (#[trigger] d[i]).0 == n && prev[q] == (d[i].1, d[i].2);
        assert(ts[i] == d[i]);
    } else {
        assert(ts[ts.len() - 1] == ts.last());
        assert(cur[q] == (ts[ts.len() - 1].1, ts[ts.len() - 1].2));
    }
}

proof fn lemma_tag_item_at(names: Seq<Seq<char>>, all: Seq<AnnotationView>, ts: Seq<Trigger>, k: int)
    requires
        0 <= k < tag_items(names, all, ts).len(),
    ensures
        exists|n: Seq<char>| group_named(all, n).len() > 0 && tag_items(names, all, ts)[k] == #[trigger] tag_item(all, ts, n)->0,
    decreases names.len(),
{
    let d = names.drop_last();
    let prev = tag_items(d, all, ts);
    let cur = tag_items(names, all, ts);
    if k < prev.len() {
        assert(cur[k] == prev[k]);
        lemma_tag_item_at(d, all, ts, k);
    } else {
        let n = names.last();
        assert(group_named(all, n).len() > 0);
        assert(cur[k] == tag_item(all, ts, n)->0);
    }
}

/// Every changed range a tag item lists for a file touches the scope (or
/// proximity window) of a tag or ref of the item's name in that file: a
/// change elsewhere in the file is never reported as what activated it.
pub proof fn law_tag_ranges_near(all: Seq<AnnotationView>, files: Seq<FileInputView>)
    requires
        forall|f: int, a: int| 0 <= f < files.len() && 0 <= a < files[f].0.len() ==> (#[trigger] files[f].0[a]).line >= 0,
    ensures
        forall|k: int, q: int, r: (usize, usize)|
            #![trigger spec_active_tag_annotations(all, files)[k].matched_file_ranges[q].1.contains(r)]
            0 <= k < spec_active_tag_annotations(all, files).len()
            && 0 <= q < spec_active_tag_annotations(all, files)[k].matched_file_ranges.len()
            && spec_active_tag_annotations(all, files)[k].matched_file_ranges[q].1.contains(r)
            ==> near_tag_in_file(
                files,
                spec_active_tag_annotations(all, files)[k].matched_file_ranges[q].0,
                tag_name_of(spec_active_tag_annotations(all, files)[k].annotation),
                r,
            ),
{
    let ts = all_triggers(files);
    let names = first_seen_names(ts);
    let items = spec_active_tag_annotations(all, files);
    assert forall|k: int, q: int, r: (usize, usize)|
        #![trigger items[k].matched_file_ranges[q].1.contains(r)]
        0 <= k < items.len() && 0 <= q < items[k].matched_file_ranges.len()
        && items[k].matched_file_ranges[q].1.contains(r)
        implies near_tag_in_file(files, items[k].matched_file_ranges[q].0, tag_name_of(items[k].annotation), r) by {
        lemma_tag_item_at(names, all, ts, k);
        let n = choose|n: Seq<char>| group_named(all, n).len() > 0 && items[k] == #[trigger] tag_item(all, ts, n)->0;
        lemma_representative_named(all, n);
        let e = items[k].matched_file_ranges[q];
        assert(items[k].matched_file_ranges == triggers_named(ts, n));
        lemma_triggers_named_at(ts, n, q);
        let i = choose|i: int| 0 <= i < ts.len() && (#[trigger] ts[i]).0 == n && triggers_named(ts, n)[q] == (ts[i].1, ts[i].2);
        lemma_all_trigger_origin(files, i);
        let (f, j) = choose|f: int, j: int| 0 <= f < files.len()
            && 0 <= j < file_triggers(files[f].0, files[f].1.path, files[f].1.hunks, files[f].2).len()
            && ts[i] == #[trigger] trigger_of_file(files, f, j);
        let fi = files[f];
        lemma_file_trigger_origin(fi.0, fi.1.path, fi.1.hunks, fi.2, j);
        let t = file_triggers(fi.0, fi.1.path, fi.1.hunks, fi.2)[j];
        assert(t == ts[i]);
        let a = choose|a: int| 0 <= a < fi.0.len() && tag_name_of(#[trigger] fi.0[a]) == Some(t.0)
            && t.2 == spec_overlapping_ranges(fi.1.hunks, fi.0[a].line, scope_for(fi.2, fi.0[a].line));
        assert(fi.0[a].line >= 0);
        lemma_overlapping_near(fi.1.hunks, fi.0[a].line, scope_for(fi.2, fi.0[a].line));
        assert(e.1 == t.2);
        assert(spec_overlapping_ranges(fi.1.hunks, fi.0[a].line, scope_for(fi.2, fi.0[a].line)).contains(r));
        assert(files[f].0[a] == fi.0[a]);
    }
}

/// A `[check]` annotation with a changed range touching its scope (or its
/// proximity window) is active: the result holds its item.
pub proof fn law_check_near_change_is_active(anns: Seq<AnnotationView>, ranges: Seq<(usize, usize)>, tree: Option<SyntaxTree>, i: int, r: (usize, usize))
    requires
        0 <= i < anns.len(),
        anns[i].kind is Check,
        anns[i].line >= 0,
        ranges.contains(r),
        near_annotation(r, anns[i].line, scope_for(tree, anns[i].line)),
    ensures
        exists|k: int| 0 <= k < spec_active_annotations(anns, ranges, tree).len()
            && (#[trigger] spec_active_annotations(anns, ranges, tree)[k]).annotation == anns[i],
    decreases anns.len(),
{
    let prev = spec_active_annotations(anns.drop_last(), ranges, tree);
    let cur = spec_active_annotations(anns, ranges, tree);
    if i == anns.len() - 1 {
        let a = anns.last();
        lemma_overlapping_near(ranges, a.line, scope_for(tree, a.line));
        assert(spec_overlapping_ranges(ranges, a.line, scope_for(tree, a.line)).contains(r));
        assert(cur[prev.len() as int].annotation == anns[i]);
    } else {
        assert(anns.drop_last()[i] == anns[i]);
        law_check_near_change_is_active(anns.drop_last(), ranges, tree, i, r);
        let k = choose|k: int| 0 <= k < prev.len() && (#[trigger] prev[k]).annotation == anns[i];
        assert(cur[k] == prev[k]);
    }
}

proof fn lemma_file_trigger_present(anns: Seq<AnnotationView>, path: Seq<char>, ranges: Seq<(usize, usize)>, tree: Option<SyntaxTree>, a: int)
    requires
        0 <= a < anns.len(),
        tag_name_of(anns[a]) is Some,
        spec_overlapping_ranges(ranges, anns[a].line, scope_for(tree, anns[a].line)).len() > 0,
    ensures
        file_triggers(anns, path, ranges, tree).contains(
            (tag_name_of(anns[a])->0, path, spec_overlapping_ranges(ranges, anns[a].line, scope_for(tree, anns[a].line)))),
    decreases anns.len(),
{
    let prev = file_triggers(anns.drop_last(), path, ranges, tree);
    let cur = file_triggers(anns, path, ranges, tree);
    let t = (tag_name_of(anns[a])->0, path, spec_overlapping_ranges(ranges, anns[a].line, scope_for(tree, anns[a].line)));
    if a == anns.len() - 1 {
        assert(cur[prev.len() as int] == t);
    } else {
        assert(anns.drop_last()[a] == anns[a]);
        lemma_file_trigger_present(anns.drop_last(), path, ranges, tree, a);
        let k = choose|k: int| 0 <= k < prev.len() && prev[k] == t;
        assert(cur[k] == prev[k]);
    }
}

proof fn lemma_all_trigger_present(files: Seq<FileInputView>, f: int, t: Trigger)
    requires
        0 <= f < files.len(),
        file_triggers(files[f].0, files[f].1.path, files[f].1.hunks, files[f].2).contains(t),
    ensures
        all_triggers(files).contains(t),
    decreases files.len(),
{
    let d = files.drop_last();
    let prev = all_triggers(d);
    let lf = files.last();
    let ft = file_triggers(lf.0, lf.1.path, lf.1.hunks, lf.2);
    let cur = all_triggers(files);
    assert(cur == prev + ft);
    if f == files.len() - 1 {
        let k = choose|k: int| 0 <= k < ft.len() && ft[k] == t;
        assert(cur[prev.len() + k] == t);
    } else {
        assert(d[f] == files[f]);
        lemma_all_trigger_present(d, f, t);
        let k = choose|k: int| 0 <= k < prev.len() && prev[k] == t;
        assert(cur[k] == t);
    }
}

proof fn lemma_triggers_named_present(ts: Seq<Trigger>, t: Trigger)
    requires
        ts.contains(t),
    ensures
        triggers_named(ts, t.0).contains((t.1, t.2)),
    decreases ts.len(),
{
    let d = ts.drop_last();
    let prev = triggers_named(d, t.0);
    let cur = triggers_named(ts, t.0);
    if ts.last() == t {
        assert(cur[prev.len() as int] == (t.1, t.2));
    } else {
        let k = choose|k: int| 0 <= k < ts.len() && ts[k] == t;
        assert(d[k] == t);
        lemma_triggers_named_present(d, t);
        let q = choose|q: int| 0 <= q < prev.len() && prev[q] == (t.1, t.2);
        assert(cur[q] == (t.1, t.2));
    }
}

/// A changed range that touches the scope (or proximity window) of a tag
/// or ref in a changed file is listed, for that file, in the activated item
/// of its name, whenever that name has an annotation in `all`.
pub proof fn law_tag_lists_near_changes(all: Seq<AnnotationView>, files: Seq<FileInputView>, f: int, a: int, r: (usize, usize))
    requires
        0 <= f < files.len(),
        0 <= a < files[f].0.len(),
        files[f].0[a].line >= 0,
        tag_name_of(files[f].0[a]) is Some,
        group_named(all, tag_name_of(files[f].0[a])->0).len() > 0,
        files[f].1.hunks.contains(r),
        near_annotation(r, files[f].0[a].line, scope_for(files[f].2, files[f].0[a].line)),
    ensures
        exists|k: int, q: int| 0 <= k < spec_active_tag_annotations(all, files).len()
            && 0 <= q < spec_active_tag_annotations(all, files)[k].matched_file_ranges.len()
            && tag_name_of(spec_active_tag_annotations(all, files)[k].annotation) == tag_name_of(files[f].0[a])
            && (#[trigger] spec_active_tag_annotations(all, files)[k].matched_file_ranges[q]).0 == files[f].1.path
            && spec_active_tag_annotations(all, files)[k].matched_file_ranges[q].1.contains(r),
{
    let fi = files[f];
    let ann = fi.0[a];
    let n = tag_name_of(ann)->0;
    let ov = spec_overlapping_ranges(fi.1.hunks, ann.line, scope_for(fi.2, ann.line));
    lemma_overlapping_near(fi.1.hunks, ann.line, scope_for(fi.2, ann.line));
    assert(ov.contains(r));
    let t = (n, fi.1.path, ov);
    lemma_file_trigger_present(fi.0, fi.1.path, fi.1.hunks, fi.2, a);
    lemma_all_trigger_present(files, f, t);
    let ts = all_triggers(files);
    lemma_triggers_named_present(ts, t);
    law_tag_activates_all(all, files, f, a, n);
    let it = tag_item(all, ts, n)->0;
    let items = spec_active_tag_annotations(all, files);
    let k = choose|k: int| 0 <= k < items.len() && items[k] == it;
    lemma_representative_named(all, n);
    let q = choose|q: int| 0 <= q < triggers_named(ts, n).len() && triggers_named(ts, n)[q] == (fi.1.path, ov);
    assert(items[k].matched_file_ranges[q] == (fi.1.path, ov));
}

} // verus!
