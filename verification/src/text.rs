//! Character-level text model: whitespace, trimming, searching and line
//! splitting over `Seq<char>`, with executable counterparts on `Vec<char>`.
use vstd::prelude::*;

verus! {

/// Whether `c` has the Unicode `White_Space` property.
pub open spec fn is_ws(c: char) -> bool {
    ||| c == ' '
    ||| ('\t' <= c && c <= '\r')
    ||| c == '\u{85}'
    ||| c == '\u{A0}'
    ||| c == '\u{1680}'
    ||| ('\u{2000}' <= c && c <= '\u{200A}')
    ||| c == '\u{2028}'
    ||| c == '\u{2029}'
    ||| c == '\u{202F}'
    ||| c == '\u{205F}'
    ||| c == '\u{3000}'
}

/// Executable test for the Unicode `White_Space` property.
pub fn is_whitespace_char(c: char) -> (r: bool)
    ensures
        r == is_ws(c),
{
    c == ' ' || ('\t' <= c && c <= '\r') || c == '\u{85}' || c == '\u{A0}' || c == '\u{1680}'
        || ('\u{2000}' <= c && c <= '\u{200A}') || c == '\u{2028}' || c == '\u{2029}'
        || c == '\u{202F}' || c == '\u{205F}' || c == '\u{3000}'
}

/// `s` without its leading whitespace.
pub open spec fn trim_start(s: Seq<char>) -> Seq<char>
    decreases s.len(),
{
    if s.len() > 0 && is_ws(s[0]) {
        trim_start(s.drop_first())
    } else {
        s
    }
}

/// `s` without its trailing whitespace.
pub open spec fn trim_end(s: Seq<char>) -> Seq<char>
    decreases s.len(),
{
    if s.len() > 0 && is_ws(s.last()) {
        trim_end(s.drop_last())
    } else {
        s
    }
}

/// `s` without leading and trailing whitespace.
pub open spec fn trim(s: Seq<char>) -> Seq<char> {
    trim_end(trim_start(s))
}

/// All characters of `s` in `[lo, hi)` are whitespace.
pub open spec fn all_ws(s: Seq<char>, lo: int, hi: int) -> bool {
    forall|k: int| lo <= k < hi ==> #[trigger] is_ws(s[k])
}

/// `p` occurs in `h` at position `i`.
pub open spec fn matches_at(h: Seq<char>, p: Seq<char>, i: int) -> bool {
    &&& 0 <= i
    &&& i + p.len() <= h.len()
    &&& forall|k: int| 0 <= k < p.len() ==> #[trigger] h[i + k] == p[k]
}

/// The first position at or after `i` where `p` occurs in `h`.
pub open spec fn find_from(h: Seq<char>, p: Seq<char>, i: int) -> Option<int>
    decreases h.len() - i,
{
    if i < 0 || i + p.len() > h.len() {
        None
    } else if matches_at(h, p, i) {
        Some(i)
    } else {
        find_from(h, p, i + 1)
    }
}

/// The first position where `p` occurs in `h`.
pub open spec fn find(h: Seq<char>, p: Seq<char>) -> Option<int> {
    find_from(h, p, 0)
}

/// The first position at or after `i` holding the character `c`.
pub open spec fn index_of_from(s: Seq<char>, c: char, i: int) -> Option<int>
    decreases s.len() - i,
{
    if i < 0 || i >= s.len() {
        None
    } else if s[i] == c {
        Some(i)
    } else {
        index_of_from(s, c, i + 1)
    }
}

/// `s` without one trailing carriage return.
pub open spec fn strip_cr(s: Seq<char>) -> Seq<char> {
    if s.len() > 0 && s.last() == '\r' {
        s.drop_last()
    } else {
        s
    }
}

/// The lines of `s`: split at `\n`, a `\r` right before the `\n` dropped,
/// and no empty line after a final `\n`.
pub open spec fn lines(s: Seq<char>) -> Seq<Seq<char>>
    decreases s.len(),
{
    if s.len() == 0 {
        seq![]
    } else {
        match index_of_from(s, '\n', 0) {
            None => seq![s],
            Some(k) => {
                proof {
                    lemma_index_of_range(s, '\n', 0);
                }
                seq![strip_cr(s.take(k))] + lines(s.skip(k + 1))
            },
        }
    }
}

/// A text has no more lines than characters.
pub proof fn lemma_lines_len(s: Seq<char>)
    ensures
        lines(s).len() <= s.len(),
    decreases s.len(),
{
    if s.len() > 0 {
        lemma_index_of_range(s, '\n', 0);
        if let Some(k) = index_of_from(s, '\n', 0) {
            lemma_lines_len(s.skip(k + 1));
        }
    }
}

pub proof fn lemma_index_of_range(s: Seq<char>, c: char, i: int)
    ensures
        index_of_from(s, c, i) matches Some(k) ==> i <= k < s.len() && s[k] == c,
    decreases s.len() - i,
{
    if 0 <= i < s.len() && s[i] != c {
        lemma_index_of_range(s, c, i + 1);
    }
}

/// The part of `s` before its first `\n`.
pub open spec fn until_newline(s: Seq<char>) -> Seq<char> {
    match index_of_from(s, '\n', 0) {
        None => s,
        Some(k) => s.take(k),
    }
}

/// `a` and `b` joined by `sep`, where an empty `a` contributes nothing.
pub open spec fn join_nonempty(a: Seq<char>, sep: char, b: Seq<char>) -> Seq<char> {
    if a.len() == 0 {
        b
    } else {
        a.push(sep) + b
    }
}

pub proof fn lemma_trim_start(s: Seq<char>, a: int)
    requires
        0 <= a <= s.len(),
        all_ws(s, 0, a),
        a == s.len() || !is_ws(s[a]),
    ensures
        trim_start(s) == s.subrange(a, s.len() as int),
    decreases a,
{
    if a == 0 {
        assert(s.subrange(0, s.len() as int) =~= s);
    } else {
        assert(is_ws(s[0]));
        let t = s.drop_first();
        assert forall|k: int| 0 <= k < a - 1 implies #[trigger] is_ws(t[k]) by {
            assert(t[k] == s[k + 1]);
            assert(is_ws(s[k + 1]));
        }
        lemma_trim_start(t, a - 1);
        assert(t.subrange(a - 1, t.len() as int) =~= s.subrange(a, s.len() as int));
    }
}

pub proof fn lemma_trim_end(s: Seq<char>, b: int)
    requires
        0 <= b <= s.len(),
        all_ws(s, b, s.len() as int),
        b == 0 || !is_ws(s[b - 1]),
    ensures
        trim_end(s) == s.subrange(0, b),
    decreases s.len() - b,
{
    if b == s.len() {
        assert(s.subrange(0, b) =~= s);
    } else {
        assert(is_ws(s[s.len() - 1]));
        let t = s.drop_last();
        assert forall|k: int| b <= k < t.len() implies #[trigger] is_ws(t[k]) by {
            assert(t[k] == s[k]);
            assert(is_ws(s[k]));
        }
        lemma_trim_end(t, b);
        assert(t.subrange(0, b) =~= s.subrange(0, b));
    }
}

pub proof fn lemma_index_of_found(s: Seq<char>, c: char, i: int, j: int)
    requires
        0 <= i <= j < s.len(),
        s[j] == c,
        forall|k: int| i <= k < j ==> s[k] != c,
    ensures
        index_of_from(s, c, i) == Some(j),
    decreases j - i,
{
    if i < j {
        lemma_index_of_found(s, c, i + 1, j);
    }
}

pub proof fn lemma_index_of_absent(s: Seq<char>, c: char, i: int)
    requires
        0 <= i <= s.len(),
        forall|k: int| i <= k < s.len() ==> s[k] != c,
    ensures
        index_of_from(s, c, i) is None,
    decreases s.len() - i,
{
    if i < s.len() {
        lemma_index_of_absent(s, c, i + 1);
    }
}

pub broadcast proof fn lemma_char_vec_deep_view(v: Vec<char>)
    ensures
        #[trigger] v.deep_view() == v@,
{
    assert(v.deep_view() =~= v@);
}

pub broadcast proof fn lemma_range_vec_deep_view(v: Vec<(usize, usize)>)
    ensures
        #[trigger] v.deep_view() == v@,
{
    assert(v.deep_view() =~= v@);
}

/// Pushes `line` onto `r`.
pub fn push_chars(r: &mut Vec<Vec<char>>, line: Vec<char>)
    ensures
        final(r).deep_view() == old(r).deep_view().push(line@),
        final(r)@ == old(r)@.push(line),
{
    let ghost old_v = r@;
    let ghost old_dv = r.deep_view();
    let ghost lv = line;
    assert(lv.deep_view() =~= lv@);
    r.push(line);
    assert(r@ == old_v.push(lv));
    assert(r.deep_view() =~= old_dv.push(lv@));
}

/// Copy of `v[lo..hi]`.
pub fn slice_chars(v: &Vec<char>, lo: usize, hi: usize) -> (r: Vec<char>)
    requires
        lo <= hi <= v.len(),
    ensures
        r@ == v@.subrange(lo as int, hi as int),
{
    let mut r: Vec<char> = Vec::new();
    let mut k = lo;
    while k < hi
        invariant
            lo <= k <= hi <= v.len(),
            r@ == v@.subrange(lo as int, k as int),
        decreases hi - k,
    {
        r.push(v[k]);
        k = k + 1;
        assert(r@ =~= v@.subrange(lo as int, k as int));
    }
    r
}

/// Copy of `v` with leading and trailing whitespace removed.
pub fn trim_chars(v: &Vec<char>) -> (r: Vec<char>)
    ensures
        r@ == trim(v@),
        forall|c: char| !v@.contains(c) ==> !r@.contains(c),
{
    let mut a: usize = 0;
    while a < v.len() && is_whitespace_char(v[a])
        invariant
            a <= v.len(),
            all_ws(v@, 0, a as int),
        decreases v.len() - a,
    {
        a = a + 1;
    }
    let mut b: usize = v.len();
    while b > a && is_whitespace_char(v[b - 1])
        invariant
            a <= b <= v.len(),
            all_ws(v@, b as int, v.len() as int),
        decreases b,
    {
        b = b - 1;
    }
    proof {
        lemma_trim_start(v@, a as int);
        let t = v@.subrange(a as int, v.len() as int);
        assert forall|k: int| (b - a) <= k < t.len() implies #[trigger] is_ws(t[k]) by {
            assert(t[k] == v@[a + k]);
        }
        if b > a {
            assert(t[b - a - 1] == v@[b - 1]);
        }
        lemma_trim_end(t, (b - a) as int);
        assert(t.subrange(0, (b - a) as int) =~= v@.subrange(a as int, b as int));
    }
    let r = slice_chars(v, a, b);
    assert forall|c: char| !v@.contains(c) implies !r@.contains(c) by {
        if r@.contains(c) {
            let k = choose|k: int| 0 <= k < r@.len() && r@[k] == c;
            assert(v@[a + k] == c);
        }
    }
    r
}

/// Whether `p` occurs in `h` at position `i`.
pub fn matches_at_exec(h: &Vec<char>, p: &Vec<char>, i: usize) -> (r: bool)
    ensures
        r == matches_at(h@, p@, i as int),
{
    if i > h.len() || p.len() > h.len() - i {
        return false;
    }
    let mut k: usize = 0;
    while k < p.len()
        invariant
            i + p.len() <= h.len(),
            k <= p.len(),
            forall|m: int| 0 <= m < k ==> #[trigger] h@[i + m] == p@[m],
        decreases p.len() - k,
    {
        if h[i + k] != p[k] {
            assert(h@[i + k as int] != p@[k as int]);
            return false;
        }
        k = k + 1;
    }
    true
}

/// The first position where `p` occurs in `h`.
pub fn find_chars(h: &Vec<char>, p: &Vec<char>) -> (r: Option<usize>)
    ensures
        r matches Some(i) ==> find(h@, p@) == Some(i as int) && i + p.len() <= h.len(),
        r is None ==> find(h@, p@) is None,
{
    if p.len() > h.len() {
        return None;
    }
    let last = h.len() - p.len();
    let mut i: usize = 0;
    while i <= last
        invariant
            last + p.len() == h.len(),
            i <= last + 1,
            find(h@, p@) == find_from(h@, p@, i as int),
        decreases last + 1 - i,
    {
        if matches_at_exec(h, p, i) {
            assert(i + p.len() <= h.len());
            return Some(i);
        }
        i = i + 1;
    }
    None
}

/// The first position at or after `from` holding `c`.
pub fn index_of_char(v: &Vec<char>, c: char, from: usize) -> (r: Option<usize>)
    requires
        from <= v.len(),
    ensures
        r matches Some(j) ==> {
            &&& index_of_from(v@, c, from as int) == Some(j as int)
            &&& from <= j < v.len()
            &&& v@[j as int] == c
            &&& forall|k: int| from <= k < j ==> v@[k] != c
        },
        r is None ==> index_of_from(v@, c, from as int) is None,
        r is None ==> forall|k: int| from <= k < v.len() ==> v@[k] != c,
{
    let mut j = from;
    while j < v.len()
        invariant
            from <= j <= v.len(),
            index_of_from(v@, c, from as int) == index_of_from(v@, c, j as int),
            forall|k: int| from <= k < j ==> v@[k] != c,
        decreases v.len() - j,
    {
        if v[j] == c {
            return Some(j);
        }
        j = j + 1;
    }
    None
}

/// The lines of `v`, as `str::lines` splits them.
pub fn split_lines(v: &Vec<char>) -> (r: Vec<Vec<char>>)
    ensures
        r.deep_view() == lines(v@),
        r.len() <= v.len(),
        forall|k: int| 0 <= k < r.len() ==> !(#[trigger] r@[k])@.contains('\n'),
{
    let mut r: Vec<Vec<char>> = Vec::new();
    let mut start: usize = 0;
    proof {
        assert(r.deep_view() =~= Seq::<Seq<char>>::empty());
        assert(v@.skip(0) =~= v@);
        assert(Seq::<Seq<char>>::empty() + lines(v@) =~= lines(v@));
    }
    while start < v.len()
        invariant
            start <= v.len(),
            r.len() <= start,
            lines(v@) == r.deep_view() + lines(v@.skip(start as int)),
            forall|k: int| 0 <= k < r.len() ==> !(#[trigger] r@[k])@.contains('\n'),
        decreases v.len() - start,
    {
        let ghost t = v@.skip(start as int);
        let ghost old_r = r.deep_view();
        let ghost old_v = r@;
        match index_of_char(v, '\n', start) {
            None => {
                proof {
                    lemma_index_of_absent(t, '\n', 0);
                }
                let line = slice_chars(v, start, v.len());
                assert(!line@.contains('\n')) by {
                    if line@.contains('\n') {
                        let k = choose|k: int| 0 <= k < line@.len() && line@[k] == '\n';
                        assert(v@[start + k] == '\n');
                    }
                }
                r.push(line);
                proof {
                    assert(t =~= line@);
                    assert(v@.skip(v.len() as int) =~= Seq::<char>::empty());
                    assert(line.deep_view() =~= line@);
                    assert(r@ == old_v.push(line));
                    assert(r.deep_view() =~= old_r.push(line@));
                }
                start = v.len();
            },
            Some(j) => {
                proof {
                    lemma_index_of_found(t, '\n', 0, j - start);
                }
                let end = if j > start && v[j - 1] == '\r' {
                    j - 1
                } else {
                    j
                };
                let line = slice_chars(v, start, end);
                assert(!line@.contains('\n')) by {
                    if line@.contains('\n') {
                        let k = choose|k: int| 0 <= k < line@.len() && line@[k] == '\n';
                        assert(v@[start + k] == '\n');
                    }
                }
                r.push(line);
                proof {
                    assert(line@ =~= strip_cr(t.take(j - start)));
                    assert(t.skip(j - start + 1) =~= v@.skip(j + 1));
                    assert(line.deep_view() =~= line@);
                    assert(r@ == old_v.push(line));
                    assert(r.deep_view() =~= old_r.push(line@));
                    assert(old_r + lines(t) =~= r.deep_view() + lines(v@.skip(j + 1)));
                }
                start = j + 1;
            },
        }
    }
    r
}

pub proof fn lemma_find_from_match(h: Seq<char>, p: Seq<char>, i: int)
    ensures
        find_from(h, p, i) matches Some(k) ==> i <= k && matches_at(h, p, k),
    decreases h.len() - i,
{
    if !(i < 0 || i + p.len() > h.len()) && !matches_at(h, p, i) {
        lemma_find_from_match(h, p, i + 1);
    }
}

/// A `String` holding the characters of `v`.
#[verifier::external_body]
pub(crate) fn string_of(v: &Vec<char>) -> (s: String)
    ensures
        s@ == v@,
{
    v.iter().collect()
}

/// Appends the characters of `s` to `out`.
pub fn append_chars(out: &mut Vec<char>, s: &Vec<char>)
    ensures
        final(out)@ == old(out)@ + s@,
{
    let ghost base = out@;
    let mut k: usize = 0;
    while k < s.len()
        invariant
            k <= s.len(),
            out@ == base + s@.take(k as int),
        decreases s.len() - k,
    {
        out.push(s[k]);
        k = k + 1;
        assert(out@ =~= base + s@.take(k as int));
    }
    assert(s@.take(s.len() as int) =~= s@);
}

/// Appends the characters of `s` to `out`.
pub fn append_str(out: &mut Vec<char>, s: &str)
    ensures
        final(out)@ == old(out)@ + s@,
{
    let cs = chars_of(s);
    append_chars(out, &cs);
}

/// Whether `a` and `b` hold the same characters.
pub fn chars_eq(a: &Vec<char>, b: &Vec<char>) -> (r: bool)
    ensures
        r == (a@ == b@),
{
    if a.len() != b.len() {
        return false;
    }
    let mut k: usize = 0;
    while k < a.len()
        invariant
            a.len() == b.len(),
            k <= a.len(),
            forall|m: int| 0 <= m < k ==> a@[m] == b@[m],
        decreases a.len() - k,
    {
        if a[k] != b[k] {
            return false;
        }
        k = k + 1;
    }
    assert(a@ =~= b@);
    true
}

/// The decimal digit for `d`.
pub open spec fn digit_char(d: nat) -> char {
    if d == 0 { '0' }
    else if d == 1 { '1' }
    else if d == 2 { '2' }
    else if d == 3 { '3' }
    else if d == 4 { '4' }
    else if d == 5 { '5' }
    else if d == 6 { '6' }
    else if d == 7 { '7' }
    else if d == 8 { '8' }
    else { '9' }
}

/// The decimal representation of `n`, without leading zeros.
pub open spec fn dec(n: nat) -> Seq<char>
    decreases n,
{
    if n < 10 {
        seq![digit_char(n)]
    } else {
        dec(n / 10).push(digit_char(n % 10))
    }
}

fn digit_exec(d: usize) -> (c: char)
    requires
        d < 10,
    ensures
        c == digit_char(d as nat),
{
    if d == 0 { '0' }
    else if d == 1 { '1' }
    else if d == 2 { '2' }
    else if d == 3 { '3' }
    else if d == 4 { '4' }
    else if d == 5 { '5' }
    else if d == 6 { '6' }
    else if d == 7 { '7' }
    else if d == 8 { '8' }
    else { '9' }
}

/// The decimal representation of `n`.
pub fn dec_chars(n: usize) -> (r: Vec<char>)
    ensures
        r@ == dec(n as nat),
    decreases n,
{
    if n < 10 {
        let r = vec![digit_exec(n)];
        assert(r@ =~= seq![digit_char(n as nat)]);
        r
    } else {
        let mut r = dec_chars(n / 10);
        r.push(digit_exec(n % 10));
        r
    }
}

/// The characters of `s`.
pub fn chars_of(s: &str) -> (r: Vec<char>)
    ensures
        r@ == s@,
{
    let mut r: Vec<char> = Vec::new();
    for c in it: s.chars()
        invariant
            r@ == it.seq().take(it.index() as int),
    {
        r.push(c);
    }
    r
}

} // verus!
