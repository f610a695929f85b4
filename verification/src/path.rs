//! Normalisation and matching of resource paths inside an EPUB archive.

use vstd::prelude::*;

use crate::text::{chars_eq, chars_of, ends_with_chars, has_suffix, push_all, string_from_chars};

verus! {

/// The part of `s` before the first occurrence of `c` (all of `s` if `c` does not occur).
pub open spec fn cut_at(s: Seq<char>, c: char) -> Seq<char>
    decreases s.len(),
{
    if s.len() == 0 {
        s
    } else if s[0] == c {
        Seq::empty()
    } else {
        seq![s[0]] + cut_at(s.drop_first(), c)
    }
}

/// A backslash read as a forward slash.
pub open spec fn unify_separator(c: char) -> char {
    if c == '\\' {
        '/'
    } else {
        c
    }
}

/// `s` with every backslash replaced by a forward slash.
pub open spec fn unify_separators(s: Seq<char>) -> Seq<char> {
    s.map_values(|c: char| unify_separator(c))
}

/// The pieces of `s` between forward slashes, as `str::split('/')` yields them
/// (there is always at least one piece, possibly empty).
pub open spec fn segments(s: Seq<char>) -> Seq<Seq<char>>
    decreases s.len(),
{
    if s.len() == 0 {
        seq![Seq::empty()]
    } else {
        let prev = segments(s.drop_last());
        if s.last() == '/' {
            prev.push(Seq::empty())
        } else {
            prev.drop_last().push(prev.last().push(s.last()))
        }
    }
}

/// One step of resolving a path: empty and `.` pieces are dropped, `..` removes
/// the last kept piece (if any), any other piece is kept.
pub open spec fn resolve_step(parts: Seq<Seq<char>>, seg: Seq<char>) -> Seq<Seq<char>> {
    if seg.len() == 0 || seg == seq!['.'] {
        parts
    } else if seg == seq!['.', '.'] {
        if parts.len() > 0 {
            parts.drop_last()
        } else {
            parts
        }
    } else {
        parts.push(seg)
    }
}

/// The pieces kept after resolving `segs` from left to right.
pub open spec fn resolve(segs: Seq<Seq<char>>) -> Seq<Seq<char>>
    decreases segs.len(),
{
    if segs.len() == 0 {
        Seq::empty()
    } else {
        resolve_step(resolve(segs.drop_last()), segs.last())
    }
}

/// The pieces joined with `/` between them.
pub open spec fn join_slash(parts: Seq<Seq<char>>) -> Seq<char>
    decreases parts.len(),
{
    if parts.len() == 0 {
        Seq::empty()
    } else if parts.len() == 1 {
        parts[0]
    } else {
        join_slash(parts.drop_last()) + seq!['/'] + parts.last()
    }
}

/// The path with fragment and query removed and backslashes read as slashes.
pub open spec fn clean_path(p: Seq<char>) -> Seq<char> {
    unify_separators(cut_at(cut_at(p, '#'), '?'))
}

/// The normal form of a resource path: fragment (`#..`) and query (`?..`)
/// removed, backslashes read as slashes, empty and `.` pieces dropped, `..`
/// resolved against the pieces before it, and a leading `/` kept when the
/// cleaned path had one.
pub open spec fn normalized_path(p: Seq<char>) -> Seq<char> {
    let clean = clean_path(p);
    let joined = join_slash(resolve(segments(clean)));
    if clean.len() > 0 && clean[0] == '/' {
        seq!['/'] + joined
    } else {
        joined
    }
}

pub proof fn lemma_cut_at(s: Seq<char>, c: char, k: int)
    requires
        0 <= k <= s.len(),
        forall|j: int| 0 <= j < k ==> s[j] != c,
        k == s.len() || s[k] == c,
    ensures
        cut_at(s, c) == s.take(k),
    decreases s.len(),
{
    if s.len() == 0 {
        assert(s.take(k) =~= s);
    } else if k == 0 {
        assert(s.take(0) =~= Seq::<char>::empty());
    } else {
        lemma_cut_at(s.drop_first(), c, k - 1);
        assert(seq![s[0]] + s.drop_first().take(k - 1) =~= s.take(k));
    }
}

pub proof fn lemma_segments_nonempty(s: Seq<char>)
    ensures
        segments(s).len() >= 1,
    decreases s.len(),
{
    if s.len() > 0 {
        lemma_segments_nonempty(s.drop_last());
    }
}

proof fn lemma_join_step(parts: Seq<Seq<char>>, j: int)
    requires
        0 <= j < parts.len(),
    ensures
        join_slash(parts.take(j + 1)) == if j == 0 {
            parts[0]
        } else {
            join_slash(parts.take(j)) + seq!['/'] + parts[j]
        },
{
    assert(parts.take(j + 1).drop_last() =~= parts.take(j));
    if j == 0 {
        assert(parts.take(1)[0] == parts[0]);
    }
}

/// Joins the pieces with `/`.
fn join_parts(parts: &Vec<Vec<char>>) -> (out: Vec<char>)
    ensures
        out@ == join_slash(parts.deep_view()),
{
    let ghost dv = parts.deep_view();
    let mut out: Vec<char> = Vec::new();
    let mut j: usize = 0;
    while j < parts.len()
        invariant
            j <= parts.len(),
            dv == parts.deep_view(),
            out@ == join_slash(dv.take(j as int)),
        decreases parts.len() - j,
    {
        proof {
            lemma_join_step(dv, j as int);
        }
        if j > 0 {
            out.push('/');
        }
        push_all(&mut out, parts[j].as_slice());
        assert(parts[j as int]@ == dv[j as int]);
        j += 1;
    }
    assert(dv.take(parts.len() as int) =~= dv);
    out
}

/// Applies one resolution step to the kept pieces.
fn apply_segment(parts: &mut Vec<Vec<char>>, seg: Vec<char>)
    ensures
        final(parts).deep_view() == resolve_step(old(parts).deep_view(), seg@),
{
    let ghost before = parts.deep_view();
    if seg.len() == 0 {
        return;
    }
    if seg.len() == 1 && seg[0] == '.' {
        assert(seg@ =~= seq!['.']);
        return;
    }
    assert(seg@ != seq!['.']) by {
        if seg@ == seq!['.'] {
            assert(seg@.len() == 1);
        }
    }
    if seg.len() == 2 && seg[0] == '.' && seg[1] == '.' {
        assert(seg@ =~= seq!['.', '.']);
        if parts.len() > 0 {
            parts.pop();
            assert(parts.deep_view() =~= before.drop_last());
        }
        return;
    }
    assert(seg@ != seq!['.', '.']) by {
        if seg@ == seq!['.', '.'] {
            assert(seg@.len() == 2 && seg@[0] == '.' && seg@[1] == '.');
        }
    }
    let ghost sv = seg@;
    assert(seg.deep_view() =~= sv);
    parts.push(seg);
    assert(parts.deep_view() =~= before.push(sv));
}

/// Normalises a resource path: drops any fragment and query, reads backslashes
/// as slashes, removes empty and `.` pieces, resolves `..`, and keeps a leading
/// `/` when the cleaned path starts with one.
pub fn normalize_resource_path(path: &str) -> (r: String)
    ensures
        r@ == normalized_path(path@),
{
    let cs = chars_of(path);
    let n = cs.len();
    let mut k1: usize = 0;
    while k1 < n && cs[k1] != '#'
        invariant
            n == cs@.len(),
            k1 <= n,
            forall|j: int| 0 <= j < k1 ==> cs@[j] != '#',
        decreases n - k1,
    {
        k1 += 1;
    }
    proof {
        lemma_cut_at(cs@, '#', k1 as int);
    }
    let mut k2: usize = 0;
    while k2 < k1 && cs[k2] != '?'
        invariant
            n == cs@.len(),
            k1 <= n,
            k2 <= k1,
            forall|j: int| 0 <= j < k2 ==> cs@[j] != '?',
        decreases k1 - k2,
    {
        k2 += 1;
    }
    proof {
        lemma_cut_at(cs@.take(k1 as int), '?', k2 as int);
        assert(cs@.take(k1 as int).take(k2 as int) =~= cs@.take(k2 as int));
    }
    let ghost clean = unify_separators(cs@.take(k2 as int));
    assert(clean == clean_path(path@));
    let absolute = k2 > 0 && (cs[0] == '/' || cs[0] == '\\');
    let mut parts: Vec<Vec<char>> = Vec::new();
    let mut cur: Vec<char> = Vec::new();
    let mut i: usize = 0;
    proof {
        assert(clean.take(0) =~= Seq::<char>::empty());
        assert(parts.deep_view() =~= Seq::<Seq<char>>::empty());
    }
    while i < k2
        invariant
            n == cs@.len(),
            k2 <= n,
            i <= k2,
            clean == unify_separators(cs@.take(k2 as int)),
            segments(clean.take(i as int)).len() >= 1,
            parts.deep_view() == resolve(segments(clean.take(i as int)).drop_last()),
            cur@ == segments(clean.take(i as int)).last(),
        decreases k2 - i,
    {
        let c = if cs[i] == '\\' { '/' } else { cs[i] };
        let ghost prev = segments(clean.take(i as int));
        assert(clean.take(i + 1).drop_last() =~= clean.take(i as int));
        assert(clean.take(i + 1).last() == c);
        if c == '/' {
            let seg = cur;
            cur = Vec::new();
            apply_segment(&mut parts, seg);
            assert(segments(clean.take(i + 1)) == prev.push(Seq::<char>::empty()));
            assert(prev.push(Seq::<char>::empty()).drop_last() =~= prev);
            assert(prev == prev.drop_last().push(prev.last()));
        } else {
            cur.push(c);
            assert(segments(clean.take(i + 1)).drop_last() =~= prev.drop_last());
        }
        i += 1;
    }
    assert(clean.take(k2 as int) =~= clean);
    let ghost segs = segments(clean);
    let last = cur;
    apply_segment(&mut parts, last);
    assert(segs == segs.drop_last().push(segs.last()));
    assert(parts.deep_view() == resolve(segs));
    let joined = join_parts(&parts);
    if absolute {
        let mut out: Vec<char> = Vec::new();
        out.push('/');
        push_all(&mut out, joined.as_slice());
        assert(clean[0] == '/');
        string_from_chars(out.as_slice())
    } else {
        assert(!(clean.len() > 0 && clean[0] == '/'));
        string_from_chars(joined.as_slice())
    }
}

/// `s` without its leading slashes.
pub open spec fn trim_leading_slashes(s: Seq<char>) -> Seq<char>
    decreases s.len(),
{
    if s.len() > 0 && s[0] == '/' {
        trim_leading_slashes(s.drop_first())
    } else {
        s
    }
}

/// The text after the last `/` of `s` (all of `s` when it has none).
pub open spec fn after_last_slash(s: Seq<char>) -> Seq<char>
    decreases s.len(),
{
    if s.len() == 0 {
        s
    } else if s.last() == '/' {
        Seq::empty()
    } else {
        after_last_slash(s.drop_last()).push(s.last())
    }
}

/// The path's final `/`-piece is a file name that every platform reads the
/// same way: the path holds no backslash or colon, does not start with `//`,
/// and its last piece is neither empty nor `.` nor `..`.
pub open spec fn has_plain_file_name(p: Seq<char>) -> bool {
    &&& forall|i: int| 0 <= i < p.len() ==> #[trigger] p[i] != '\\' && p[i] != ':'
    &&& !(p.len() >= 2 && p[0] == '/' && p[1] == '/')
    &&& after_last_slash(p).len() > 0
    &&& after_last_slash(p) != seq!['.']
    &&& after_last_slash(p) != seq!['.', '.']
}

/// The index of the last `.` of `s`, or -1 when there is none.
pub open spec fn last_dot(s: Seq<char>) -> int
    decreases s.len(),
{
    if s.len() == 0 {
        -1
    } else if s.last() == '.' {
        s.len() - 1
    } else {
        last_dot(s.drop_last())
    }
}

/// The stem of a file name: all of it when it has no `.` or its only `.` is
/// the first character, otherwise the part before the last `.`.
pub open spec fn name_stem(name: Seq<char>) -> Seq<char> {
    if last_dot(name) <= 0 {
        name
    } else {
        name.take(last_dot(name))
    }
}

/// A path separator on some platform: `/` everywhere, `\` on Windows.
pub open spec fn is_any_separator(c: char) -> bool {
    c == '/' || c == '\\'
}

/// The text after the last `/` or `\` of `s` (all of `s` when it has none).
pub open spec fn after_last_separator(s: Seq<char>) -> Seq<char>
    decreases s.len(),
{
    if s.len() == 0 {
        s
    } else if is_any_separator(s.last()) {
        Seq::empty()
    } else {
        after_last_separator(s.drop_last()).push(s.last())
    }
}

/// The number of `/` and `\` in `s`.
pub open spec fn separator_count(s: Seq<char>) -> nat
    decreases s.len(),
{
    if s.len() == 0 {
        0
    } else if is_any_separator(s.last()) {
        separator_count(s.drop_last()) + 1
    } else {
        separator_count(s.drop_last())
    }
}

/// A path that starts with two separators names a network share
/// (`\\server\share\...`) on Windows; its final piece is a file name there
/// when the third character does not open a device or verbatim prefix (`.` or
/// `?`) and at least two more separators come before that piece, so that the
/// server and share names lie before it.
pub open spec fn share_prefix_ends_early(p: Seq<char>) -> bool {
    &&& p.len() >= 3
    &&& p[2] != '?'
    &&& p[2] != '.'
    &&& separator_count(p.skip(2)) >= 2
}

/// The path ends in a file name that reads the same on every platform once
/// both `/` and `\` count as separators: a path that starts with two
/// separators has its network-share prefix end before its final piece, and the
/// final piece is not empty, holds no `:` (a drive prefix), and is neither `.`
/// nor `..`.
pub open spec fn has_portable_file_name(p: Seq<char>) -> bool {
    let name = after_last_separator(p);
    &&& (p.len() >= 2 && is_any_separator(p[0]) && is_any_separator(p[1])) ==> share_prefix_ends_early(p)
    &&& name.len() > 0
    &&& forall|i: int| 0 <= i < name.len() ==> #[trigger] name[i] != ':'
    &&& name != seq!['.']
    &&& name != seq!['.', '.']
}

/// Two resource paths name the same resource when, after normalisation and
/// without leading slashes, they are equal, one ends with the other, or their
/// final pieces (file names) are equal and not empty.
///
/// Paths inside an EPUB container are `/`-separated (normalisation has already
/// turned `\` into `/`), so the file name is the text after the last `/`, on
/// every platform. This is the file name that `Path::file_name` gives on Unix;
/// on Windows that function would also strip a drive prefix from a first piece
/// such as `C:ch1.xhtml`, and the EPUB container format allows no `:` in a
/// file name.
pub open spec fn paths_match(resource: Seq<char>, candidate: Seq<char>) -> bool {
    let rt = trim_leading_slashes(normalized_path(resource));
    let ct = trim_leading_slashes(normalized_path(candidate));
    ||| rt == ct
    ||| has_suffix(rt, ct)
    ||| has_suffix(ct, rt)
    ||| (after_last_slash(rt).len() > 0 && after_last_slash(rt) == after_last_slash(ct))
}

proof fn lemma_trim_skip(s: Seq<char>, k: int)
    requires
        0 <= k <= s.len(),
        forall|j: int| 0 <= j < k ==> s[j] == '/',
        k == s.len() || s[k] != '/',
    ensures
        trim_leading_slashes(s) == s.skip(k),
    decreases k,
{
    if k == 0 {
        assert(s.skip(0) =~= s);
    } else {
        lemma_trim_skip(s.drop_first(), k - 1);
        assert(s.drop_first().skip(k - 1) =~= s.skip(k));
    }
}

/// `s` without its leading slashes.
fn trim_slashes(s: &Vec<char>) -> (r: Vec<char>)
    ensures
        r@ == trim_leading_slashes(s@),
{
    let mut k: usize = 0;
    while k < s.len() && s[k] == '/'
        invariant
            k <= s.len(),
            forall|j: int| 0 <= j < k ==> s@[j] == '/',
        decreases s.len() - k,
    {
        k += 1;
    }
    proof {
        lemma_trim_skip(s@, k as int);
    }
    let mut r: Vec<char> = Vec::new();
    let mut i: usize = k;
    while i < s.len()
        invariant
            k <= i <= s.len(),
            r@ == s@.subrange(k as int, i as int),
        decreases s.len() - i,
    {
        r.push(s[i]);
        i += 1;
        assert(r@ =~= s@.subrange(k as int, i as int));
    }
    assert(s@.subrange(k as int, s.len() as int) =~= s@.skip(k as int));
    r
}

proof fn lemma_after_last_slash(s: Seq<char>, k: int)
    requires
        0 <= k <= s.len(),
        forall|j: int| k <= j < s.len() ==> s[j] != '/',
        k == 0 || s[k - 1] == '/',
    ensures
        after_last_slash(s) == s.skip(k),
    decreases s.len(),
{
    if s.len() == k {
        if k > 0 {
            assert(s.last() == '/');
        }
        assert(s.skip(k) =~= Seq::<char>::empty());
    } else {
        lemma_after_last_slash(s.drop_last(), k);
        assert(s.drop_last().skip(k).push(s.last()) =~= s.skip(k));
    }
}

/// The text after the last `/`.
fn final_piece(s: &Vec<char>) -> (r: Vec<char>)
    ensures
        r@ == after_last_slash(s@),
{
    let mut k: usize = s.len();
    while k > 0 && s[k - 1] != '/'
        invariant
            k <= s.len(),
            forall|j: int| k <= j < s.len() ==> s@[j] != '/',
        decreases k,
    {
        k -= 1;
    }
    proof {
        lemma_after_last_slash(s@, k as int);
    }
    let mut r: Vec<char> = Vec::new();
    let mut i: usize = k;
    while i < s.len()
        invariant
            k <= i <= s.len(),
            r@ == s@.subrange(k as int, i as int),
        decreases s.len() - i,
    {
        r.push(s[i]);
        i += 1;
        assert(r@ =~= s@.subrange(k as int, i as int));
    }
    assert(s@.subrange(k as int, s.len() as int) =~= s@.skip(k as int));
    r
}

/// Whether a resource path and a candidate path (for example a table-of-contents
/// target) refer to the same resource: equal once normalised, one a suffix of
/// the other, or with the same non-empty file name (the text after the last
/// `/`; see `paths_match`).
pub fn resource_path_matches(resource_path: &str, candidate_path: &str) -> (b: bool)
    ensures
        b == paths_match(resource_path@, candidate_path@),
{
    let rn = normalize_resource_path(resource_path);
    let cn = normalize_resource_path(candidate_path);
    let rt = trim_slashes(&chars_of(rn.as_str()));
    let ct = trim_slashes(&chars_of(cn.as_str()));
    if chars_eq(rt.as_slice(), ct.as_slice()) || ends_with_chars(rt.as_slice(), ct.as_slice())
        || ends_with_chars(ct.as_slice(), rt.as_slice()) {
        return true;
    }
    let rname = final_piece(&rt);
    let cname = final_piece(&ct);
    rname.len() > 0 && chars_eq(rname.as_slice(), cname.as_slice())
}

/// Matching is symmetric: a resource matches a candidate exactly when the
/// candidate matches the resource.
pub proof fn law_path_match_symmetric(a: Seq<char>, b: Seq<char>)
    ensures
        paths_match(a, b) == paths_match(b, a),
{
}

/// Every path matches itself.
pub proof fn law_path_match_reflexive(a: Seq<char>)
    ensures
        paths_match(a, a),
{
}

/// A character that normalisation never leaves in a path: fragment and query
/// marks, and backslashes.
pub open spec fn is_clean_char(c: char) -> bool {
    c != '#' && c != '?' && c != '\\'
}

/// Every character of `s` is clean.
pub open spec fn all_clean(s: Seq<char>) -> bool {
    forall|i: int| 0 <= i < s.len() ==> is_clean_char(#[trigger] s[i])
}

/// A piece that resolution keeps: not empty, not `.` or `..`, no slash, and
/// only clean characters.
pub open spec fn plain_piece(x: Seq<char>) -> bool {
    &&& x.len() > 0
    &&& x != seq!['.']
    &&& x != seq!['.', '.']
    &&& all_clean(x)
    &&& forall|i: int| 0 <= i < x.len() ==> #[trigger] x[i] != '/'
}

proof fn lemma_cut_at_clean(s: Seq<char>, c: char)
    ensures
        forall|i: int| 0 <= i < cut_at(s, c).len() ==> #[trigger] cut_at(s, c)[i] != c,
        forall|i: int| 0 <= i < cut_at(s, c).len() ==> exists|j: int| 0 <= j < s.len() && s[j] == #[trigger] cut_at(s, c)[i],
        cut_at(s, c).len() <= s.len(),
        (forall|i: int| 0 <= i < s.len() ==> #[trigger] s[i] != c) ==> cut_at(s, c) == s,
    decreases s.len(),
{
    if s.len() > 0 && s[0] != c {
        let t = s.drop_first();
        lemma_cut_at_clean(t, c);
        let r = cut_at(s, c);
        assert(r == seq![s[0]] + cut_at(t, c));
        assert forall|i: int| 0 <= i < r.len() implies exists|j: int| 0 <= j < s.len() && s[j] == #[trigger] r[i] by {
            if i == 0 {
                assert(s[0] == r[0]);
            } else {
                assert(r[i] == cut_at(t, c)[i - 1]);
                let j = choose|j: int| 0 <= j < t.len() && t[j] == #[trigger] cut_at(t, c)[i - 1];
                assert(s[j + 1] == t[j]);
            }
        }
        if forall|i: int| 0 <= i < s.len() ==> #[trigger] s[i] != c {
            assert forall|i: int| 0 <= i < t.len() implies #[trigger] t[i] != c by {
                assert(t[i] == s[i + 1]);
            }
            assert(r =~= s);
        }
    } else if s.len() > 0 {
        assert(s[0] == c);
    }
}

proof fn lemma_clean_path_chars(p: Seq<char>)
    ensures
        all_clean(clean_path(p)),
{
    let a = cut_at(p, '#');
    let b = cut_at(a, '?');
    lemma_cut_at_clean(p, '#');
    lemma_cut_at_clean(a, '?');
    assert forall|i: int| 0 <= i < b.len() implies #[trigger] b[i] != '#' by {
        let j = choose|j: int| 0 <= j < a.len() && a[j] == #[trigger] b[i];
        assert(a[j] != '#');
    }
    let u = clean_path(p);
    assert forall|i: int| 0 <= i < u.len() implies is_clean_char(#[trigger] u[i]) by {
        assert(u[i] == unify_separator(b[i]));
    }
}

proof fn lemma_segments_pieces(s: Seq<char>)
    requires
        all_clean(s),
    ensures
        forall|k: int|
            0 <= k < segments(s).len() ==> all_clean(#[trigger] segments(s)[k]) && forall|i: int|
                0 <= i < segments(s)[k].len() ==> #[trigger] segments(s)[k][i] != '/',
    decreases s.len(),
{
    lemma_segments_nonempty(s);
    if s.len() > 0 {
        let t = s.drop_last();
        assert(all_clean(t)) by {
            assert forall|i: int| 0 <= i < t.len() implies is_clean_char(#[trigger] t[i]) by {
                assert(t[i] == s[i]);
            }
        }
        lemma_segments_pieces(t);
        lemma_segments_nonempty(t);
        let prev = segments(t);
        let c = s.last();
        assert(is_clean_char(s[s.len() - 1]));
        if c != '/' {
            let segs = segments(s);
            assert(segs == prev.drop_last().push(prev.last().push(c)));
            assert forall|k: int| 0 <= k < segs.len() implies all_clean(#[trigger] segs[k]) && forall|i: int|
                0 <= i < segs[k].len() ==> #[trigger] segs[k][i] != '/' by {
                if k < segs.len() - 1 {
                    assert(segs[k] == prev[k]);
                } else {
                    let x = prev[prev.len() - 1];
                    assert(segs[k] == x.push(c));
                    assert forall|i: int| 0 <= i < segs[k].len() implies is_clean_char(#[trigger] segs[k][i]) by {
                        if i < x.len() {
                            assert(segs[k][i] == x[i]);
                        }
                    }
                    assert forall|i: int| 0 <= i < segs[k].len() implies #[trigger] segs[k][i] != '/' by {
                        if i < x.len() {
                            assert(segs[k][i] == x[i]);
                        }
                    }
                }
            }
        }
    }
}

proof fn lemma_resolve_plain(segs: Seq<Seq<char>>)
    requires
        forall|k: int|
            0 <= k < segs.len() ==> all_clean(#[trigger] segs[k]) && forall|i: int|
                0 <= i < segs[k].len() ==> #[trigger] segs[k][i] != '/',
    ensures
        forall|k: int| 0 <= k < resolve(segs).len() ==> plain_piece(#[trigger] resolve(segs)[k]),
    decreases segs.len(),
{
    if segs.len() > 0 {
        let prev = segs.drop_last();
        assert forall|k: int| 0 <= k < prev.len() implies all_clean(#[trigger] prev[k]) && forall|i: int|
            0 <= i < prev[k].len() ==> #[trigger] prev[k][i] != '/' by {
            assert(prev[k] == segs[k]);
        }
        lemma_resolve_plain(prev);
        let r = resolve(segs);
        let pr = resolve(prev);
        assert(all_clean(segs[segs.len() - 1]));
        assert forall|k: int| 0 <= k < r.len() implies plain_piece(#[trigger] r[k]) by {
            if k < pr.len() {
                assert(r[k] == pr[k]);
            }
        }
    }
}

proof fn lemma_join_chars(parts: Seq<Seq<char>>)
    requires
        forall|k: int| 0 <= k < parts.len() ==> plain_piece(#[trigger] parts[k]),
    ensures
        all_clean(join_slash(parts)),
        parts.len() > 0 ==> join_slash(parts).len() > 0 && join_slash(parts)[0] != '/',
    decreases parts.len(),
{
    if parts.len() == 1 {
        assert(plain_piece(parts[0]));
    } else if parts.len() > 1 {
        let prev = parts.drop_last();
        assert forall|k: int| 0 <= k < prev.len() implies plain_piece(#[trigger] prev[k]) by {
            assert(prev[k] == parts[k]);
        }
        lemma_join_chars(prev);
        let a = join_slash(prev);
        let x = parts.last();
        assert(plain_piece(parts[parts.len() - 1]));
        let j = join_slash(parts);
        assert(j == a + seq!['/'] + x);
        assert forall|i: int| 0 <= i < j.len() implies is_clean_char(#[trigger] j[i]) by {
            if i < a.len() {
                assert(j[i] == a[i]);
            } else if i > a.len() {
                assert(j[i] == x[i - a.len() - 1]);
            }
        }
        assert(j[0] == a[0]);
    }
}

proof fn lemma_segments_append(t: Seq<char>, y: Seq<char>)
    requires
        forall|i: int| 0 <= i < y.len() ==> #[trigger] y[i] != '/',
    ensures
        segments(t + y) == segments(t).drop_last().push(segments(t).last() + y),
    decreases y.len(),
{
    lemma_segments_nonempty(t);
    if y.len() == 0 {
        assert(t + y =~= t);
        assert(segments(t).last() + y =~= segments(t).last());
        assert(segments(t).drop_last().push(segments(t).last()) =~= segments(t));
    } else {
        let y0 = y.drop_last();
        assert forall|i: int| 0 <= i < y0.len() implies #[trigger] y0[i] != '/' by {
            assert(y0[i] == y[i]);
        }
        lemma_segments_append(t, y0);
        assert((t + y).drop_last() =~= t + y0);
        assert((t + y).last() == y[y.len() - 1]);
        lemma_segments_nonempty(t + y0);
        let prev = segments(t + y0);
        assert(prev.last() == segments(t).last() + y0);
        assert(prev.drop_last() =~= segments(t).drop_last());
        assert(segments(t).last() + y0 + seq![y.last()] =~= segments(t).last() + y);
        assert(prev.last().push(y.last()) =~= segments(t).last() + y);
    }
}

proof fn lemma_segments_slash_piece(t: Seq<char>, y: Seq<char>)
    requires
        forall|i: int| 0 <= i < y.len() ==> #[trigger] y[i] != '/',
    ensures
        segments(t + seq!['/'] + y) == segments(t).push(y),
{
    let t1 = t + seq!['/'];
    assert(t1.drop_last() =~= t);
    assert(t1.last() == '/');
    assert(segments(t1) == segments(t).push(Seq::<char>::empty()));
    lemma_segments_append(t1, y);
    assert(segments(t1).drop_last() =~= segments(t));
    assert(Seq::<char>::empty() + y =~= y);
}

proof fn lemma_segments_of_join(pre: Seq<char>, parts: Seq<Seq<char>>)
    requires
        parts.len() > 0,
        forall|k: int| 0 <= k < parts.len() ==> plain_piece(#[trigger] parts[k]),
        pre.len() == 0 || pre == seq!['/'],
    ensures
        segments(pre + join_slash(parts)) == if pre.len() == 0 {
            parts
        } else {
            seq![Seq::<char>::empty()] + parts
        },
    decreases parts.len(),
{
    if parts.len() == 1 {
        let x = parts[0];
        assert(plain_piece(x));
        lemma_segments_append(pre, x);
        if pre.len() == 0 {
            assert(segments(pre) =~= seq![Seq::<char>::empty()]);
            assert(Seq::<char>::empty() + x =~= x);
            assert(seq![Seq::<char>::empty()].drop_last().push(x) =~= parts);
        } else {
            assert(pre.drop_last() =~= Seq::<char>::empty());
            assert(pre.last() == '/');
            assert(segments(Seq::<char>::empty()) == seq![Seq::<char>::empty()]);
            assert(segments(pre) == seq![Seq::<char>::empty()].push(Seq::<char>::empty()));
            assert(Seq::<char>::empty() + x =~= x);
            assert(segments(pre).drop_last().push(x) =~= seq![Seq::<char>::empty()] + parts);
        }
    } else {
        let prev = parts.drop_last();
        assert forall|k: int| 0 <= k < prev.len() implies plain_piece(#[trigger] prev[k]) by {
            assert(prev[k] == parts[k]);
        }
        lemma_segments_of_join(pre, prev);
        let x = parts.last();
        assert(plain_piece(parts[parts.len() - 1]));
        assert(pre + join_slash(parts) =~= (pre + join_slash(prev)) + seq!['/'] + x);
        lemma_segments_slash_piece(pre + join_slash(prev), x);
        if pre.len() == 0 {
            assert(prev.push(x) =~= parts);
        } else {
            assert((seq![Seq::<char>::empty()] + prev).push(x) =~= seq![Seq::<char>::empty()] + parts);
        }
    }
}

proof fn lemma_resolve_keeps(pre: Seq<Seq<char>>, parts: Seq<Seq<char>>)
    requires
        forall|k: int| 0 <= k < parts.len() ==> plain_piece(#[trigger] parts[k]),
        pre.len() == 0 || pre == seq![Seq::<char>::empty()],
    ensures
        resolve(pre + parts) == parts,
    decreases parts.len(),
{
    if parts.len() == 0 {
        assert(pre + parts =~= pre);
        if pre.len() > 0 {
            assert(pre.drop_last() =~= Seq::<Seq<char>>::empty());
            assert(resolve(Seq::<Seq<char>>::empty()) == Seq::<Seq<char>>::empty());
            assert(pre.last().len() == 0);
            assert(resolve(pre) == resolve_step(Seq::<Seq<char>>::empty(), pre.last()));
        }
        assert(parts =~= Seq::<Seq<char>>::empty());
    } else {
        let prev = parts.drop_last();
        assert forall|k: int| 0 <= k < prev.len() implies plain_piece(#[trigger] prev[k]) by {
            assert(prev[k] == parts[k]);
        }
        lemma_resolve_keeps(pre, prev);
        assert((pre + parts).drop_last() =~= pre + prev);
        assert((pre + parts).last() == parts[parts.len() - 1]);
        assert(plain_piece(parts[parts.len() - 1]));
        assert(prev.push(parts.last()) =~= parts);
    }
}

proof fn lemma_kept_parts_plain(p: Seq<char>)
    ensures
        forall|k: int|
            0 <= k < resolve(segments(clean_path(p))).len() ==> plain_piece(
                #[trigger] resolve(segments(clean_path(p)))[k],
            ),
{
    lemma_clean_path_chars(p);
    lemma_segments_pieces(clean_path(p));
    lemma_resolve_plain(segments(clean_path(p)));
}

proof fn lemma_clean_fixed(n: Seq<char>)
    requires
        all_clean(n),
    ensures
        clean_path(n) == n,
{
    lemma_cut_at_clean(n, '#');
    assert forall|i: int| 0 <= i < n.len() implies #[trigger] n[i] != '#' by {
        assert(is_clean_char(n[i]));
    }
    assert(cut_at(n, '#') == n);
    lemma_cut_at_clean(n, '?');
    assert forall|i: int| 0 <= i < n.len() implies #[trigger] n[i] != '?' by {
        assert(is_clean_char(n[i]));
    }
    assert(cut_at(n, '?') == n);
    assert(unify_separators(n) =~= n) by {
        assert forall|i: int| 0 <= i < n.len() implies #[trigger] unify_separators(n)[i] == n[i] by {
            assert(is_clean_char(n[i]));
        }
    }
}

proof fn lemma_normal_form_clean(p: Seq<char>)
    ensures
        clean_path(normalized_path(p)) == normalized_path(p),
{
    let clean = clean_path(p);
    let r = resolve(segments(clean));
    lemma_kept_parts_plain(p);
    lemma_join_chars(r);
    let j = join_slash(r);
    let n = normalized_path(p);
    if clean.len() > 0 && clean[0] == '/' {
        assert forall|i: int| 0 <= i < n.len() implies is_clean_char(#[trigger] n[i]) by {
            if i > 0 {
                assert(n[i] == j[i - 1]);
            }
        }
    }
    lemma_clean_fixed(n);
}

/// Normalising a normalised path changes nothing.
pub proof fn law_normalize_idempotent(p: Seq<char>)
    ensures
        normalized_path(normalized_path(p)) == normalized_path(p),
{
    let clean = clean_path(p);
    let r = resolve(segments(clean));
    lemma_kept_parts_plain(p);
    lemma_join_chars(r);
    let j = join_slash(r);
    let n = normalized_path(p);
    lemma_normal_form_clean(p);
    if clean.len() > 0 && clean[0] == '/' {
        assert(n == seq!['/'] + j);
        if r.len() == 0 {
            assert(j =~= Seq::<char>::empty());
            assert(n =~= seq!['/']);
            assert(n.drop_last() =~= Seq::<char>::empty());
            assert(segments(Seq::<char>::empty()) == seq![Seq::<char>::empty()]);
            assert(segments(n) == seq![Seq::<char>::empty()].push(Seq::<char>::empty()));
            lemma_resolve_keeps(seq![Seq::<char>::empty()], r);
            assert(segments(n) =~= seq![Seq::<char>::empty()].push(Seq::<char>::empty()));
            let e = Seq::<char>::empty();
            assert(segments(n).drop_last() =~= seq![e]);
            assert(seq![e] + r =~= seq![e]);
            assert(resolve(segments(n)) == resolve_step(resolve(seq![e]), e));
        } else {
            lemma_segments_of_join(seq!['/'], r);
            lemma_resolve_keeps(seq![Seq::<char>::empty()], r);
        }
        assert(resolve(segments(n)) == r);
        assert(n[0] == '/');
    } else {
        assert(n == j);
        if r.len() == 0 {
            assert(n =~= Seq::<char>::empty());
            assert(segments(n) == seq![Seq::<char>::empty()]);
            lemma_resolve_keeps(seq![Seq::<char>::empty()], r);
            assert(seq![Seq::<char>::empty()] + r =~= seq![Seq::<char>::empty()]);
        } else {
            assert(Seq::<char>::empty() + j =~= j);
            lemma_segments_of_join(Seq::<char>::empty(), r);
            lemma_resolve_keeps(Seq::<Seq<char>>::empty(), r);
            assert(Seq::<Seq<char>>::empty() + r =~= r);
        }
        assert(resolve(segments(n)) == r);
    }
}

/// A normalised path matches the path it was normalised from.
pub proof fn law_normalized_matches_source(p: Seq<char>)
    ensures
        paths_match(normalized_path(p), p),
{
    law_normalize_idempotent(p);
}

proof fn lemma_all_clean_concat(x: Seq<char>, y: Seq<char>)
    requires
        all_clean(x),
        all_clean(y),
    ensures
        all_clean(x + y),
{
    assert forall|i: int| 0 <= i < (x + y).len() implies is_clean_char(#[trigger] (x + y)[i]) by {
        if i < x.len() {
            assert((x + y)[i] == x[i]);
        } else {
            assert((x + y)[i] == y[i - x.len()]);
        }
    }
}

proof fn lemma_segments_of_piece(x: Seq<char>)
    requires
        forall|i: int| 0 <= i < x.len() ==> #[trigger] x[i] != '/',
    ensures
        segments(x) == seq![x],
{
    lemma_segments_append(Seq::<char>::empty(), x);
    assert(Seq::<char>::empty() + x =~= x);
    assert(Seq::<char>::empty() + x =~= x);
    assert(seq![Seq::<char>::empty()].drop_last().push(x) =~= seq![x]);
}

proof fn lemma_resolve_push(segs: Seq<Seq<char>>, x: Seq<char>)
    ensures
        resolve(segs.push(x)) == resolve_step(resolve(segs), x),
{
    assert(segs.push(x).drop_last() =~= segs);
}

/// A `..` piece cancels the plain piece just before it: going into a folder
/// and back up names the same place as not going into it.
pub proof fn law_parent_step_cancels_piece(p: Seq<char>, a: Seq<char>, b: Seq<char>)
    requires
        all_clean(p),
        plain_piece(a),
        plain_piece(b),
    ensures
        normalized_path(p + seq!['/'] + a + seq!['/', '.', '.', '/'] + b) == normalized_path(p + seq!['/'] + b),
{
    let dd = seq!['.', '.'];
    let slash = seq!['/'];
    let s1 = p + slash + a + seq!['/', '.', '.', '/'] + b;
    let s2 = p + slash + b;
    let pa = p + slash + a;
    let pad = pa + slash + dd;
    assert(s1 =~= pad + slash + b);
    assert(all_clean(slash)) by {
        assert forall|i: int| 0 <= i < slash.len() implies is_clean_char(#[trigger] slash[i]) by {}
    }
    assert(all_clean(dd)) by {
        assert forall|i: int| 0 <= i < dd.len() implies is_clean_char(#[trigger] dd[i]) by {}
    }
    lemma_all_clean_concat(p, slash);
    lemma_all_clean_concat(p + slash, a);
    lemma_all_clean_concat(pa, slash);
    lemma_all_clean_concat(pa + slash, dd);
    lemma_all_clean_concat(pad, slash);
    lemma_all_clean_concat(pad + slash, b);
    lemma_all_clean_concat(p + slash, b);
    lemma_clean_fixed(s1);
    lemma_clean_fixed(s2);
    assert forall|i: int| 0 <= i < dd.len() implies #[trigger] dd[i] != '/' by {}
    lemma_segments_slash_piece(p, a);
    lemma_segments_slash_piece(pa, dd);
    lemma_segments_slash_piece(pad, b);
    lemma_segments_slash_piece(p, b);
    let r = resolve(segments(p));
    lemma_resolve_push(segments(p), a);
    lemma_resolve_push(segments(p).push(a), dd);
    lemma_resolve_push(segments(p).push(a).push(dd), b);
    lemma_resolve_push(segments(p), b);
    assert(resolve_step(r, a) == r.push(a));
    assert(r.push(a).drop_last() =~= r);
    assert(resolve_step(r.push(a), dd) == r);
    assert(resolve(segments(s1)) == resolve(segments(s2)));
    if p.len() > 0 {
        assert(s1[0] == p[0]);
        assert(s2[0] == p[0]);
    } else {
        assert(s1[0] == '/');
        assert(s2[0] == '/');
    }
}

/// A `..` right after the first piece of a relative path leaves only what
/// follows it: `a/../b` is `b`.
pub proof fn law_parent_of_first_piece(a: Seq<char>, b: Seq<char>)
    requires
        plain_piece(a),
        plain_piece(b),
    ensures
        normalized_path(a + seq!['/', '.', '.', '/'] + b) == b,
{
    let dd = seq!['.', '.'];
    let slash = seq!['/'];
    let s = a + seq!['/', '.', '.', '/'] + b;
    let ad = a + slash + dd;
    assert(s =~= ad + slash + b);
    assert(all_clean(slash)) by {
        assert forall|i: int| 0 <= i < slash.len() implies is_clean_char(#[trigger] slash[i]) by {}
    }
    assert(all_clean(dd)) by {
        assert forall|i: int| 0 <= i < dd.len() implies is_clean_char(#[trigger] dd[i]) by {}
    }
    lemma_all_clean_concat(a, slash);
    lemma_all_clean_concat(a + slash, dd);
    lemma_all_clean_concat(ad, slash);
    lemma_all_clean_concat(ad + slash, b);
    lemma_clean_fixed(s);
    assert forall|i: int| 0 <= i < dd.len() implies #[trigger] dd[i] != '/' by {}
    lemma_segments_of_piece(a);
    lemma_segments_slash_piece(a, dd);
    lemma_segments_slash_piece(ad, b);
    let e = Seq::<Seq<char>>::empty();
    assert(seq![a] =~= e.push(a));
    lemma_resolve_push(e, a);
    lemma_resolve_push(e.push(a), dd);
    lemma_resolve_push(e.push(a).push(dd), b);
    assert(resolve(e) == e);
    assert(e.push(a).drop_last() =~= e);
    assert(resolve(segments(s)) == e.push(b));
    assert(join_slash(e.push(b)) == b);
    assert(s[0] == a[0]);
}

proof fn lemma_extend_normal_dir(d: Seq<char>, x: Seq<char>)
    requires
        d.len() > 0,
        d[0] != '/',
        normalized_path(d) == d,
        plain_piece(x),
    ensures
        normalized_path(d + seq!['/'] + x) == d + seq!['/'] + x,
{
    let slash = seq!['/'];
    let s = d + slash + x;
    lemma_normal_form_clean(d);
    lemma_clean_path_chars(d);
    assert(clean_path(d) == d);
    assert(all_clean(slash)) by {
        assert forall|i: int| 0 <= i < slash.len() implies is_clean_char(#[trigger] slash[i]) by {}
    }
    lemma_all_clean_concat(d, slash);
    lemma_all_clean_concat(d + slash, x);
    lemma_clean_fixed(s);
    lemma_segments_slash_piece(d, x);
    let r = resolve(segments(d));
    assert(join_slash(r) == d);
    lemma_resolve_push(segments(d), x);
    assert(resolve(segments(s)) == r.push(x));
    assert(r.len() > 0);
    assert(r.push(x).drop_last() =~= r);
    assert(join_slash(r.push(x)) == join_slash(r) + slash + x);
    assert(s[0] == d[0]);
}

/// Two documents in the same folder with different file names are different
/// resources: neither path matches the other.
pub proof fn law_sibling_files_differ(d: Seq<char>, x: Seq<char>, y: Seq<char>)
    requires
        d.len() > 0,
        d[0] != '/',
        normalized_path(d) == d,
        plain_piece(x),
        plain_piece(y),
        x != y,
    ensures
        !paths_match(d + seq!['/'] + x, d + seq!['/'] + y),
{
    let slash = seq!['/'];
    let rt = d + slash + x;
    let ct = d + slash + y;
    lemma_extend_normal_dir(d, x);
    lemma_extend_normal_dir(d, y);
    assert(trim_leading_slashes(rt) == rt);
    assert(trim_leading_slashes(ct) == ct);
    assert(rt != ct) by {
        if rt == ct {
            assert(rt.skip(d.len() + 1int) =~= x);
            assert(ct.skip(d.len() + 1int) =~= y);
        }
    }
    assert(!has_suffix(rt, ct)) by {
        if has_suffix(rt, ct) {
            if x.len() == y.len() {
                assert(rt.skip(0) =~= rt);
            } else {
                let q = (x.len() - y.len() - 1) as int;
                assert(rt.skip(rt.len() - ct.len())[d.len() as int] == ct[d.len() as int]);
                assert(rt[d.len() + 1 + q] == x[q]);
            }
        }
    }
    assert(!has_suffix(ct, rt)) by {
        if has_suffix(ct, rt) {
            if x.len() == y.len() {
                assert(ct.skip(0) =~= ct);
            } else {
                let q = (y.len() - x.len() - 1) as int;
                assert(ct.skip(ct.len() - rt.len())[d.len() as int] == rt[d.len() as int]);
                assert(ct[d.len() + 1 + q] == y[q]);
            }
        }
    }
    lemma_after_last_slash(rt, d.len() + 1int);
    lemma_after_last_slash(ct, d.len() + 1int);
    assert(rt.skip(d.len() + 1int) =~= x);
    assert(ct.skip(d.len() + 1int) =~= y);
}

} // verus!
