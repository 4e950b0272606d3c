//! Changed files and the line ranges that changed in them.
use vstd::prelude::*;
use crate::text::{append_str, string_of};

verus! {

/// A range of changed lines in a file (1-based, inclusive).
#[derive(Debug, Clone, Copy)]
pub struct Hunk {
    pub new_start: usize,
    pub new_end: usize,
}

/// A file that was changed in the diff.
#[derive(Debug, Clone)]
pub struct ChangedFile {
    pub path: String,
    pub hunks: Vec<Hunk>,
}

/// Abstract changed file: its path and its changed ranges.
pub struct ChangedFileView {
    pub path: Seq<char>,
    pub hunks: Seq<(usize, usize)>,
}

/// The (start, end) range of a hunk.
pub open spec fn hunk_range(h: Hunk) -> (usize, usize) {
    (h.new_start, h.new_end)
}

impl View for ChangedFile {
    type V = ChangedFileView;

    open spec fn view(&self) -> ChangedFileView {
        ChangedFileView { path: self.path@, hunks: self.hunks@.map_values(|h: Hunk| hunk_range(h)) }
    }
}

/// The views of a sequence of changed files.
pub open spec fn changed_files_view(fs: Seq<ChangedFile>) -> Seq<ChangedFileView> {
    fs.map_values(|f: ChangedFile| f@)
}

/// The changed ranges of `f`, as (start, end) pairs.
pub fn hunk_ranges(f: &ChangedFile) -> (r: Vec<(usize, usize)>)
    ensures
        r@ == f@.hunks,
{
    let mut r: Vec<(usize, usize)> = Vec::new();
    let mut k: usize = 0;
    while k < f.hunks.len()
        invariant
            k <= f.hunks.len(),
            r@ == f.hunks@.take(k as int).map_values(|h: Hunk| hunk_range(h)),
        decreases f.hunks.len() - k,
    {
        let h = f.hunks[k];
        r.push((h.new_start, h.new_end));
        k = k + 1;
        assert(r@ =~= f.hunks@.take(k as int).map_values(|h: Hunk| hunk_range(h)));
    }
    assert(f.hunks@.take(f.hunks.len() as int) =~= f.hunks@);
    r
}


/// The changed range of a hunk that starts on line `start` of the new file
/// and spans `lines` lines: `(start, start + lines - 1)`, or `(start, start)`
/// for a hunk that only removes lines.
pub open spec fn counted_range(start: usize, lines: usize) -> (usize, usize) {
    if lines == 0 {
        (start, start)
    } else {
        (start, (start + lines - 1) as usize)
    }
}

/// The counts fit: `start + lines` does not overflow.
pub open spec fn counts_fit(c: (usize, usize)) -> bool {
    c.0 + c.1 <= usize::MAX
}

/// The hunk of a patch that starts on line `new_start` of the new file and
/// spans `new_lines` lines.
pub fn hunk_from_counts(new_start: usize, new_lines: usize) -> (h: Hunk)
    requires
        counts_fit((new_start, new_lines)),
    ensures
        hunk_range(h) == counted_range(new_start, new_lines),
{
    let new_end = if new_lines == 0 { new_start } else { new_start + new_lines - 1 };
    Hunk { new_start, new_end }
}

/// The changed files of a diff, given each delta's new path and the
/// (start, lines) counts of its hunks, in delta order: a path already
/// taken is skipped, and so is a delta without hunks.
pub open spec fn files_from_deltas(ds: Seq<(Seq<char>, Seq<(usize, usize)>)>) -> Seq<ChangedFileView>
    decreases ds.len(),
{
    if ds.len() == 0 {
        seq![]
    } else {
        let prev = files_from_deltas(ds.drop_last());
        let d = ds.last();
        if d.1.len() == 0 || exists|i: int| 0 <= i < prev.len() && #[trigger] prev[i].path == d.0 {
            prev
        } else {
            prev.push(ChangedFileView { path: d.0, hunks: d.1.map_values(|c: (usize, usize)| counted_range(c.0, c.1)) })
        }
    }
}

/// The views of the deltas handed to `changed_files_from_deltas`.
pub open spec fn deltas_view(ds: Seq<(String, Vec<(usize, usize)>)>) -> Seq<(Seq<char>, Seq<(usize, usize)>)> {
    ds.map_values(|d: (String, Vec<(usize, usize)>)| (d.0@, d.1@))
}

/// Assembles the changed files of a diff from its deltas: each delta's new
/// path with the (start, lines) counts of its hunks, in delta order.
pub fn changed_files_from_deltas(deltas: &[(String, Vec<(usize, usize)>)]) -> (r: Vec<ChangedFile>)
    requires
        forall|i: int, j: int|
            0 <= i < deltas@.len() && 0 <= j < deltas@[i].1@.len() ==> counts_fit(#[trigger] deltas@[i].1@[j]),
    ensures
        changed_files_view(r@) == files_from_deltas(deltas_view(deltas@)),
{
    let ghost dv = deltas_view(deltas@);
    let mut files: Vec<ChangedFile> = Vec::new();
    let mut k: usize = 0;
    while k < deltas.len()
        invariant
            k <= deltas.len(),
            dv == deltas_view(deltas@),
            forall|i: int, j: int|
                0 <= i < deltas@.len() && 0 <= j < deltas@[i].1@.len() ==> counts_fit(#[trigger] deltas@[i].1@[j]),
            changed_files_view(files@) == files_from_deltas(dv.take(k as int)),
        decreases deltas.len() - k,
    {
        let (path, counts) = &deltas[k];
        let ghost prev = files_from_deltas(dv.take(k as int));
        proof {
            let t = dv.take(k + 1);
            assert(t.drop_last() =~= dv.take(k as int));
            assert(t.last() == dv[k as int]);
        }
        let mut hunks: Vec<Hunk> = Vec::new();
        let mut j: usize = 0;
        while j < counts.len()
            invariant
                j <= counts.len(),
                forall|m: int| 0 <= m < counts@.len() ==> counts_fit(#[trigger] counts@[m]),
                hunks@.map_values(|h: Hunk| hunk_range(h)) == counts@.take(j as int).map_values(|c: (usize, usize)| counted_range(c.0, c.1)),
            decreases counts.len() - j,
        {
            let (start, lines) = counts[j];
            assert(counts_fit(counts@[j as int]));
            let ghost old_h = hunks@;
            let h = hunk_from_counts(start, lines);
            hunks.push(h);
            proof {
                assert(hunks@.map_values(|h: Hunk| hunk_range(h)) =~= old_h.map_values(|h: Hunk| hunk_range(h)).push(hunk_range(h)));
                assert(counts@.take(j + 1) =~= counts@.take(j as int).push(counts@[j as int]));
                assert(counts@.take(j + 1).map_values(|c: (usize, usize)| counted_range(c.0, c.1))
                    =~= counts@.take(j as int).map_values(|c: (usize, usize)| counted_range(c.0, c.1)).push(counted_range(start, lines)));
            }
            j = j + 1;
        }
        assert(counts@.take(counts.len() as int) =~= counts@);
        let mut seen = false;
        let mut m: usize = 0;
        while m < files.len()
            invariant
                m <= files.len(),
                changed_files_view(files@) == prev,
                seen == exists|i: int| 0 <= i < m && #[trigger] prev[i].path == path@,
            decreases files.len() - m,
        {
            if files[m].path == *path {
                seen = true;
            }
            assert(prev[m as int].path == files@[m as int].path@);
            m = m + 1;
        }
        if !seen && hunks.len() > 0 {
            let ghost old_f = files@;
            let f = ChangedFile { path: path.clone(), hunks };
            let ghost fv = f@;
            files.push(f);
            assert(changed_files_view(files@) =~= changed_files_view(old_f).push(fv));
        }
        k = k + 1;
    }
    assert(dv.take(deltas.len() as int) =~= dv);
    files
}

/// The remote branches tried for `base`, in order: `origin/<base>`, then
/// `upstream/<base>`.
pub fn remote_branch_names(base: &str) -> (r: Vec<String>)
    ensures
        r.len() == 2,
        r[0]@ == "origin/"@ + base@,
        r[1]@ == "upstream/"@ + base@,
{
    let mut a: Vec<char> = Vec::new();
    append_str(&mut a, "origin/");
    append_str(&mut a, base);
    let mut b: Vec<char> = Vec::new();
    append_str(&mut b, "upstream/");
    append_str(&mut b, base);
    let mut r: Vec<String> = Vec::new();
    r.push(string_of(&a));
    r.push(string_of(&b));
    r
}

/// The base branch picked when none is given: `main` when it resolves, else
/// `master` when it resolves, else an error.
pub fn choose_base_branch(main_resolves: bool, master_resolves: bool) -> (r: Result<String, String>)
    ensures
        main_resolves ==> (r matches Ok(b) && b@ == "main"@),
        !main_resolves && master_resolves ==> (r matches Ok(b) && b@ == "master"@),
        !main_resolves && !master_resolves ==> (r matches Err(e) && e@ == "could not auto-detect base branch (tried main, master)"@),
{
    let mut v: Vec<char> = Vec::new();
    if main_resolves {
        append_str(&mut v, "main");
        Ok(string_of(&v))
    } else if master_resolves {
        append_str(&mut v, "master");
        Ok(string_of(&v))
    } else {
        append_str(&mut v, "could not auto-detect base branch (tried main, master)");
        Err(string_of(&v))
    }
}


/// The changed files of a diff name each path once, each has at least one
/// changed range, and every range starts no later than it ends.
pub proof fn law_changed_files_well_formed(ds: Seq<(Seq<char>, Seq<(usize, usize)>)>)
    requires
        forall|i: int, j: int| 0 <= i < ds.len() && 0 <= j < ds[i].1.len() ==> counts_fit(#[trigger] ds[i].1[j]),
    ensures
        forall|i: int, j: int|
            0 <= i < j < files_from_deltas(ds).len() ==> (#[trigger] files_from_deltas(ds)[i]).path != (#[trigger] files_from_deltas(ds)[j]).path,
        forall|i: int| 0 <= i < files_from_deltas(ds).len() ==> (#[trigger] files_from_deltas(ds)[i]).hunks.len() > 0,
        forall|i: int, k: int|
            0 <= i < files_from_deltas(ds).len() && 0 <= k < files_from_deltas(ds)[i].hunks.len()
                ==> (#[trigger] files_from_deltas(ds)[i].hunks[k]).0 <= files_from_deltas(ds)[i].hunks[k].1,
    decreases ds.len(),
{
    if ds.len() > 0 {
        let d = ds.drop_last();
        assert forall|i: int, j: int| 0 <= i < d.len() && 0 <= j < d[i].1.len() implies counts_fit(#[trigger] d[i].1[j]) by {
            assert(d[i] == ds[i]);
        }
        law_changed_files_well_formed(d);
        let last = ds.last();
        assert forall|j: int| 0 <= j < last.1.len() implies counts_fit(#[trigger] last.1[j]) by {
            assert(last == ds[ds.len() - 1]);
        }
        let prev = files_from_deltas(d);
        let cur = files_from_deltas(ds);
        let seen = exists|i: int| 0 <= i < prev.len() && #[trigger] prev[i].path == last.0;
        if !(last.1.len() == 0 || seen) {
            let nf = ChangedFileView { path: last.0, hunks: last.1.map_values(|c: (usize, usize)| counted_range(c.0, c.1)) };
            assert(cur == prev.push(nf));
            assert forall|i: int, j: int| 0 <= i < j < cur.len() implies (#[trigger] cur[i]).path != (#[trigger] cur[j]).path by {
                if j == prev.len() {
                    assert(cur[i] == prev[i]);
                    assert(!(#[trigger] prev[i].path == last.0));
                } else {
                    assert(cur[i] == prev[i] && cur[j] == prev[j]);
                }
            }
            assert forall|i: int| 0 <= i < cur.len() implies (#[trigger] cur[i]).hunks.len() > 0 by {
                if i < prev.len() {
                    assert(cur[i] == prev[i]);
                }
            }
            assert forall|i: int, k: int| 0 <= i < cur.len() && 0 <= k < cur[i].hunks.len()
                implies (#[trigger] cur[i].hunks[k]).0 <= cur[i].hunks[k].1 by {
                if i < prev.len() {
                    assert(cur[i] == prev[i]);
                } else {
                    assert(counts_fit(last.1[k]));
                    assert(cur[i].hunks[k] == counted_range(last.1[k].0, last.1[k].1));
                }
            }
        }
    }
}

} // verus!
