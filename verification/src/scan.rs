//! Finding `[check:all]` annotations across the repository.
use vstd::prelude::*;
use crate::annotations::{
    Annotation, AnnotationView, CheckKind, annotations_from, annotations_view, copy_annotation,
    extract_annotations, line_texts_view, unknown_variants, variant_warnings,
};
use crate::comments::{CommentView, extract_comments, law_comments_in_line_order, spec_extract_comments};
use crate::languages::{comment_tokens, spec_comment_tokens};
use crate::text::lemma_lines_len;

verus! {

/// The bytes of the marker that a file holding a `[check:all]` annotation
/// contains: `[check:all`.
pub open spec fn all_marker() -> Seq<u8> {
    seq![0x5bu8, 0x63u8, 0x68u8, 0x65u8, 0x63u8, 0x6bu8, 0x3au8, 0x61u8, 0x6cu8, 0x6cu8]
}

/// `content` holds `needle` starting at byte `i`.
pub open spec fn bytes_at(content: Seq<u8>, needle: Seq<u8>, i: int) -> bool {
    0 <= i && i + needle.len() <= content.len() && content.subrange(i, i + needle.len()) == needle
}

/// Whether `content` contains `needle` anywhere.
pub fn contains_bytes(content: &[u8], needle: &[u8]) -> (r: bool)
    ensures
        r == exists|i: int| #[trigger] bytes_at(content@, needle@, i),
{
    let n = needle.len();
    if content.len() < n {
        assert forall|i: int| !#[trigger] bytes_at(content@, needle@, i) by {}
        return false;
    }
    let mut i: usize = 0;
    while i <= content.len() - n
        invariant
            n == needle.len(),
            content.len() >= n,
            i <= content.len() - n + 1,
            forall|j: int| 0 <= j < i ==> !#[trigger] bytes_at(content@, needle@, j),
        decreases content.len() - i,
    {
        let mut k: usize = 0;
        let mut same = true;
        while k < n
            invariant
                n == needle.len(),
                k <= n,
                i + n <= content.len(),
                same == forall|m: int| 0 <= m < k ==> content@[i + m] == #[trigger] needle@[m],
            decreases n - k,
        {
            if content[i + k] != needle[k] {
                same = false;
            }
            k = k + 1;
        }
        if same {
            assert(content@.subrange(i as int, i + n) =~= needle@);
            assert(bytes_at(content@, needle@, i as int));
            return true;
        }
        proof {
            if bytes_at(content@, needle@, i as int) {
                assert forall|m: int| 0 <= m < n implies content@[i + m] == #[trigger] needle@[m] by {
                    assert(content@.subrange(i as int, i + n)[m] == content@[i + m]);
                }
            }
        }
        i = i + 1;
    }
    false
}

/// Whether `content` contains the `[check:all` marker anywhere.
pub fn contains_all_marker(content: &[u8]) -> (r: bool)
    ensures
        r == exists|i: int| #[trigger] bytes_at(content@, all_marker(), i),
{
    let needle: [u8; 10] = [0x5b, 0x63, 0x68, 0x65, 0x63, 0x6b, 0x3a, 0x61, 0x6c, 0x6c];
    assert(needle@ =~= all_marker());
    contains_bytes(content, &needle)
}

/// The `[check:all]` annotations of `anns`, in order.
pub open spec fn all_kind_only(anns: Seq<AnnotationView>) -> Seq<AnnotationView> {
    anns.filter(|a: AnnotationView| a.kind is All)
}

/// The `[check:all]` annotations of `annotations`, in order.
pub fn keep_all_kind(annotations: &[Annotation]) -> (r: Vec<Annotation>)
    ensures
        annotations_view(r@) == all_kind_only(annotations_view(annotations@)),
{
    let ghost av = annotations_view(annotations@);
    let mut r: Vec<Annotation> = Vec::new();
    let mut k: usize = 0;
    while k < annotations.len()
        invariant
            k <= annotations.len(),
            av == annotations_view(annotations@),
            annotations_view(r@) == all_kind_only(av.take(k as int)),
        decreases annotations.len() - k,
    {
        let a = &annotations[k];
        proof {
            let t = av.take(k + 1);
            assert(t.drop_last() =~= av.take(k as int));
            assert(t.last() == a@);
            reveal(Seq::filter);
        }
        if let CheckKind::All { .. } = &a.kind {
            let ghost old_r = r@;
            let c = copy_annotation(a);
            r.push(c);
            assert(annotations_view(r@) =~= annotations_view(old_r).push(a@));
        }
        k = k + 1;
    }
    assert(av.take(annotations.len() as int) =~= av);
    r
}

/// The `[check:tag]` and `[check:ref]` annotations of `anns`, in order.
pub open spec fn tag_kind_only(anns: Seq<AnnotationView>) -> Seq<AnnotationView> {
    anns.filter(|a: AnnotationView| a.kind is Tag || a.kind is Ref)
}

/// The `[check:tag]` and `[check:ref]` annotations of `annotations`, in order.
pub fn keep_tag_kind(annotations: &[Annotation]) -> (r: Vec<Annotation>)
    ensures
        annotations_view(r@) == tag_kind_only(annotations_view(annotations@)),
{
    let ghost av = annotations_view(annotations@);
    let mut r: Vec<Annotation> = Vec::new();
    let mut k: usize = 0;
    while k < annotations.len()
        invariant
            k <= annotations.len(),
            av == annotations_view(annotations@),
            annotations_view(r@) == tag_kind_only(av.take(k as int)),
        decreases annotations.len() - k,
    {
        let a = &annotations[k];
        proof {
            let t = av.take(k + 1);
            assert(t.drop_last() =~= av.take(k as int));
            assert(t.last() == a@);
            reveal(Seq::filter);
        }
        let keep = match &a.kind {
            CheckKind::Tag { .. } => true,
            CheckKind::Ref { .. } => true,
            _ => false,
        };
        if keep {
            let ghost old_r = r@;
            let c = copy_annotation(a);
            r.push(c);
            assert(annotations_view(r@) =~= annotations_view(old_r).push(a@));
        }
        k = k + 1;
    }
    assert(av.take(annotations.len() as int) =~= av);
    r
}

/// The extension of the file name of `path` (`std::path::Path::extension`):
/// the part of the file name (`Path::file_name`) after its last `.`; none
/// when there is no file name (an empty path, or one ending in `..`), or
/// the name has no `.` other than a leading one. What separates components
/// is fixed by the target the library is built for (`/`, and on Windows
/// also `\`).
pub uninterp spec fn path_extension(path: Seq<char>) -> Option<Seq<char>>;

/// `std::path::Path::extension` of `path`, as text (the extension of a path
/// given as a `&str` is valid UTF-8). Claimed: it is `path_extension(path)`.
#[verifier::external_body]
fn file_extension(path: &str) -> (r: Option<String>)
    ensures
        match r {
            Some(e) => path_extension(path@) == Some(e@),
            None => path_extension(path@) is None,
        },
{
    std::path::Path::new(path).extension().and_then(|e| e.to_str()).map(|e| e.to_string())
}

/// The extension a file's comment syntax is looked up by: that of its
/// name, or empty when it has none.
pub open spec fn extension_of(path: Seq<char>) -> Seq<char> {
    match path_extension(path) {
        Some(e) => e,
        None => ""@,
    }
}

/// The comments of the file at `path` with contents `content`; none when
/// its extension has no known comment syntax.
pub open spec fn file_comments(path: Seq<char>, content: Seq<char>) -> Option<Seq<CommentView>> {
    match spec_comment_tokens(extension_of(path)) {
        Some(tokens) => Some(spec_extract_comments(content, tokens)),
        None => None,
    }
}

/// What the comments of one file hold.
pub struct FileAnnotations {
    /// The annotations, in order.
    pub annotations: Vec<Annotation>,
    /// The line and the variant of each comment skipped for opening an
    /// unknown `[check:<word>]` variant (or `[check:all]` without a pattern).
    pub unknown_variants: Vec<(usize, String)>,
}

/// The annotations in the comments of the file at `file_path` with contents
/// `content`, and the comments skipped for an unknown variant; none when
/// the file's extension has no known comment syntax.
pub fn file_annotations(file_path: &str, content: &str) -> (r: Option<FileAnnotations>)
    requires
        content@.len() < usize::MAX,
    ensures
        r is Some <==> file_comments(file_path@, content@) is Some,
        r matches Some(f) ==> {
            let cs = file_comments(file_path@, content@)->0;
            &&& annotations_view(f.annotations@) == annotations_from(cs, 0, file_path@)
            &&& line_texts_view(f.unknown_variants@) == variant_warnings(cs)
        },
{
    let ext = file_extension(file_path);
    let tokens = match &ext {
        Some(e) => comment_tokens(e.as_str()),
        None => comment_tokens(""),
    };
    match tokens {
        None => None,
        Some(t) => {
            let comments = extract_comments(content, &t);
            proof {
                law_comments_in_line_order(content@, t@);
                lemma_lines_len(content@);
                assert forall|k: int| 0 <= k < comments@.len() implies (#[trigger] comments@[k]).line < usize::MAX by {
                    assert(comments@[k].line == spec_extract_comments(content@, t@)[k].line);
                }
            }
            let annotations = extract_annotations(comments.as_slice(), file_path);
            let unknown = unknown_variants(comments.as_slice());
            Some(FileAnnotations { annotations, unknown_variants: unknown })
        },
    }
}

/// The `[check:all]` annotations in the comments of the file at `file_path`
/// with contents `content`, in order; none when its extension has no known
/// comment syntax.
pub fn file_all_annotations(file_path: &str, content: &str) -> (r: Vec<Annotation>)
    requires
        content@.len() < usize::MAX,
    ensures
        annotations_view(r@) == match file_comments(file_path@, content@) {
            Some(cs) => all_kind_only(annotations_from(cs, 0, file_path@)),
            None => Seq::empty(),
        },
{
    match file_annotations(file_path, content) {
        Some(f) => keep_all_kind(f.annotations.as_slice()),
        None => Vec::new(),
    }
}

} // verus!
