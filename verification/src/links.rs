//! Following a link clicked in chapter text: external links are opened
//! elsewhere, links to another chapter of the book move the reader there, and
//! links within the page are ignored.

use vstd::prelude::*;

use crate::chapter::Chapter;
use crate::path::cut_at;
use crate::text::{chars_eq, chars_of, ends_with_chars, has_suffix, string_from_chars};

verus! {

/// Whether `c` is white space (the Unicode `White_Space` property, as
/// `char::is_whitespace` tests it).
pub open spec fn is_space(c: char) -> bool {
    let u = c as u32;
    ||| 0x9 <= u <= 0xD
    ||| u == 0x20
    ||| u == 0x85
    ||| u == 0xA0
    ||| u == 0x1680
    ||| 0x2000 <= u <= 0x200A
    ||| u == 0x2028
    ||| u == 0x2029
    ||| u == 0x202F
    ||| u == 0x205F
    ||| u == 0x3000
}

/// `s` without leading white space.
pub open spec fn trim_start_space(s: Seq<char>) -> Seq<char>
    decreases s.len(),
{
    if s.len() > 0 && is_space(s[0]) {
        trim_start_space(s.drop_first())
    } else {
        s
    }
}

/// `s` without trailing white space.
pub open spec fn trim_end_space(s: Seq<char>) -> Seq<char>
    decreases s.len(),
{
    if s.len() > 0 && is_space(s.last()) {
        trim_end_space(s.drop_last())
    } else {
        s
    }
}

/// `s` without leading and trailing white space.
pub open spec fn trim_space(s: Seq<char>) -> Seq<char> {
    trim_end_space(trim_start_space(s))
}

/// `s` without any leading `./`.
pub open spec fn trim_dot_slash(s: Seq<char>) -> Seq<char>
    decreases s.len(),
{
    if s.len() >= 2 && s[0] == '.' && s[1] == '/' {
        trim_dot_slash(s.skip(2))
    } else {
        s
    }
}

/// `s` without leading and trailing slashes.
pub open spec fn trim_slash(s: Seq<char>) -> Seq<char>
    decreases s.len(),
{
    if s.len() > 0 && s[0] == '/' {
        trim_slash(s.drop_first())
    } else if s.len() > 0 && s.last() == '/' {
        trim_slash(s.drop_last())
    } else {
        s
    }
}

/// The comparable form of a link target: white space trimmed, fragment
/// removed, white space trimmed again, leading `./` removed, and leading and
/// trailing slashes removed (empty when nothing is left after the fragment).
pub open spec fn normalized_href(href: Seq<char>) -> Seq<char> {
    let s = trim_space(cut_at(trim_space(href), '#'));
    if s.len() == 0 {
        s
    } else {
        trim_slash(trim_dot_slash(s))
    }
}

proof fn lemma_trim_start(s: Seq<char>, k: int)
    requires
        0 <= k <= s.len(),
        forall|j: int| 0 <= j < k ==> is_space(s[j]),
        k == s.len() || !is_space(s[k]),
    ensures
        trim_start_space(s) == s.skip(k),
    decreases k,
{
    if k == 0 {
        assert(s.skip(0) =~= s);
    } else {
        lemma_trim_start(s.drop_first(), k - 1);
        assert(s.drop_first().skip(k - 1) =~= s.skip(k));
    }
}

proof fn lemma_trim_end(s: Seq<char>, k: int)
    requires
        0 <= k <= s.len(),
        forall|j: int| k <= j < s.len() ==> is_space(s[j]),
        k == 0 || !is_space(s[k - 1]),
    ensures
        trim_end_space(s) == s.take(k),
    decreases s.len() - k,
{
    if k == s.len() {
        assert(s.take(k) =~= s);
    } else {
        lemma_trim_end(s.drop_last(), k);
        assert(s.drop_last().take(k) =~= s.take(k));
    }
}

/// Whether `c` is white space.
fn is_space_char(c: char) -> (b: bool)
    ensures
        b == is_space(c),
{
    let u = c as u32;
    (0x9 <= u && u <= 0xD) || u == 0x20 || u == 0x85 || u == 0xA0 || u == 0x1680 || (0x2000 <= u
        && u <= 0x200A) || u == 0x2028 || u == 0x2029 || u == 0x202F || u == 0x205F || u == 0x3000
}

/// The characters of `s[from..to]`.
fn copy_range(s: &Vec<char>, from: usize, to: usize) -> (r: Vec<char>)
    requires
        from <= to <= s@.len(),
    ensures
        r@ == s@.subrange(from as int, to as int),
{
    let mut r: Vec<char> = Vec::new();
    let mut i: usize = from;
    while i < to
        invariant
            from <= i <= to,
            to <= s@.len(),
            r@ == s@.subrange(from as int, i as int),
        decreases to - i,
    {
        r.push(s[i]);
        i += 1;
        assert(r@ =~= s@.subrange(from as int, i as int));
    }
    r
}

/// `s` without leading and trailing white space.
fn trim_space_chars(s: &Vec<char>) -> (r: Vec<char>)
    ensures
        r@ == trim_space(s@),
{
    let mut a: usize = 0;
    while a < s.len() && is_space_char(s[a])
        invariant
            a <= s@.len(),
            forall|j: int| 0 <= j < a ==> is_space(s@[j]),
        decreases s.len() - a,
    {
        a += 1;
    }
    proof {
        lemma_trim_start(s@, a as int);
    }
    let mut b: usize = s.len();
    while b > a && is_space_char(s[b - 1])
        invariant
            a <= b <= s@.len(),
            forall|j: int| b <= j < s@.len() ==> is_space(s@[j]),
        decreases b - a,
    {
        b -= 1;
    }
    proof {
        let t = s@.skip(a as int);
        lemma_trim_end(t, (b - a) as int);
        assert(t.take((b - a) as int) =~= s@.subrange(a as int, b as int));
    }
    copy_range(s, a, b)
}

proof fn lemma_cut_at_index(s: Seq<char>, c: char, k: int)
    requires
        0 <= k <= s.len(),
        forall|j: int| 0 <= j < k ==> s[j] != c,
        k == s.len() || s[k] == c,
    ensures
        cut_at(s, c) == s.take(k),
{
    crate::path::lemma_cut_at(s, c, k);
}

spec fn dot_slash_char(j: int) -> char {
    if j % 2 == 0 {
        '.'
    } else {
        '/'
    }
}

proof fn lemma_trim_dot_slash(s: Seq<char>, d: int)
    requires
        0 <= d <= s.len(),
        d % 2 == 0,
        forall|j: int| 0 <= j < d ==> #[trigger] s[j] == dot_slash_char(j),
        !(s.len() >= d + 2 && s[d] == '.' && s[d + 1] == '/'),
    ensures
        trim_dot_slash(s) == s.skip(d),
    decreases d,
{
    if d == 0 {
        assert(s.skip(0) =~= s);
    } else {
        assert(s[0] == dot_slash_char(0));
        assert(s[1] == dot_slash_char(1));
        let t = s.skip(2);
        assert forall|j: int| 0 <= j < d - 2 implies #[trigger] t[j] == dot_slash_char(j) by {
            assert(s[j + 2] == dot_slash_char(j + 2));
        }
        lemma_trim_dot_slash(t, d - 2);
        assert(t.skip(d - 2) =~= s.skip(d));
    }
}

proof fn lemma_trim_slash(s: Seq<char>, a: int, b: int)
    requires
        0 <= a <= b <= s.len(),
        forall|j: int| 0 <= j < a ==> s[j] == '/',
        forall|j: int| b <= j < s.len() ==> s[j] == '/',
        a == b || (s[a] != '/' && s[b - 1] != '/'),
    ensures
        trim_slash(s) == s.subrange(a, b),
    decreases s.len(),
{
    if a > 0 {
        let t = s.drop_first();
        lemma_trim_slash(t, a - 1, b - 1);
        assert(t.subrange(a - 1, b - 1) =~= s.subrange(a, b));
    } else if b < s.len() {
        assert(s.len() > 0 && s.last() == '/');
        if s[0] == '/' {
            assert(a == b && b == 0);
            let t = s.drop_first();
            lemma_trim_slash(t, 0, 0);
            assert(t.subrange(0, 0) =~= s.subrange(0, 0));
        } else {
            let t = s.drop_last();
            lemma_trim_slash(t, a, b);
            assert(t.subrange(a, b) =~= s.subrange(a, b));
        }
    } else {
        if s.len() > 0 {
            assert(s[0] != '/' && s.last() != '/');
        }
        assert(s.subrange(0, s.len() as int) =~= s);
    }
}

/// The comparable form of a link target: white space trimmed, fragment
/// removed, white space trimmed again, leading `./` removed, and leading and
/// trailing slashes removed.
pub fn normalize_epub_href(href: &str) -> (r: String)
    ensures
        r@ == normalized_href(href@),
{
    let cs = chars_of(href);
    let t = trim_space_chars(&cs);
    let mut k: usize = 0;
    while k < t.len() && t[k] != '#'
        invariant
            k <= t@.len(),
            forall|j: int| 0 <= j < k ==> t@[j] != '#',
        decreases t.len() - k,
    {
        k += 1;
    }
    proof {
        lemma_cut_at_index(t@, '#', k as int);
    }
    let before_fragment = copy_range(&t, 0, k);
    assert(before_fragment@ =~= t@.take(k as int));
    let s = trim_space_chars(&before_fragment);
    if s.len() == 0 {
        return string_from_chars(s.as_slice());
    }
    let mut d: usize = 0;
    while d + 1 < s.len() && s[d] == '.' && s[d + 1] == '/'
        invariant
            d % 2 == 0,
            d <= s@.len(),
            forall|j: int| 0 <= j < d ==> #[trigger] s@[j] == dot_slash_char(j),
        decreases s.len() - d,
    {
        d += 2;
    }
    proof {
        lemma_trim_dot_slash(s@, d as int);
    }
    let u = copy_range(&s, d, s.len());
    assert(u@ =~= s@.skip(d as int));
    let mut a: usize = 0;
    while a < u.len() && u[a] == '/'
        invariant
            a <= u@.len(),
            forall|j: int| 0 <= j < a ==> u@[j] == '/',
        decreases u.len() - a,
    {
        a += 1;
    }
    let mut b: usize = u.len();
    while b > a && u[b - 1] == '/'
        invariant
            a <= b <= u@.len(),
            forall|j: int| b <= j < u@.len() ==> u@[j] == '/',
        decreases b - a,
    {
        b -= 1;
    }
    proof {
        lemma_trim_slash(u@, a as int, b as int);
    }
    let v = copy_range(&u, a, b);
    string_from_chars(v.as_slice())
}

/// What following a clicked link does.
pub enum LinkAction {
    /// Open the (trimmed) link outside the reader.
    OpenExternal(String),
    /// Move to the chapter with this index.
    GoToChapter(usize),
    /// Nothing: the link points inside the current page.
    Stay,
}

/// `c` is `lower`, or the ASCII capital letter whose lower case is `lower`.
pub open spec fn same_letter_ignore_case(c: char, lower: char) -> bool {
    c == lower || ('A' <= c <= 'Z' && c as u32 + 32 == lower as u32)
}

/// `s` begins with the lower-case ASCII text `prefix`, ignoring the case of
/// ASCII letters.
pub open spec fn has_prefix_ignore_case(s: Seq<char>, prefix: Seq<char>) -> bool {
    &&& prefix.len() <= s.len()
    &&& forall|i: int| 0 <= i < prefix.len() ==> same_letter_ignore_case(#[trigger] s[i], prefix[i])
}

/// Whether a link leaves the book: it starts, in any letter case, with
/// `http://`, `https://`, `mailto:` or `tel:`.
pub open spec fn is_external_link(u: Seq<char>) -> bool {
    ||| has_prefix_ignore_case(u, "http://"@)
    ||| has_prefix_ignore_case(u, "https://"@)
    ||| has_prefix_ignore_case(u, "mailto:"@)
    ||| has_prefix_ignore_case(u, "tel:"@)
}

/// Whether a chapter document path (normalised as a link target) is the one a
/// normalised link target names: equal, or one ends with `/` followed by the
/// other.
pub open spec fn href_links(src: Seq<char>, target: Seq<char>) -> bool {
    ||| src == target
    ||| has_suffix(src, seq!['/'] + target)
    ||| has_suffix(target, seq!['/'] + src)
}

/// Whether a chapter's document is the one a normalised link target names.
pub open spec fn chapter_linked(c: Chapter, target: Seq<char>) -> bool {
    c.source_href matches Some(src) && href_links(normalized_href(src@), target)
}

/// The index of the first chapter whose document a normalised link target names.
pub open spec fn first_linked(chs: Seq<Chapter>, target: Seq<char>) -> Option<int>
    decreases chs.len(),
{
    if chs.len() == 0 {
        None
    } else if chapter_linked(chs[0], target) {
        Some(0)
    } else {
        match first_linked(chs.drop_first(), target) {
            Some(i) => Some(i + 1),
            None => None,
        }
    }
}

/// What following `url` does: with the link trimmed of white space, external
/// links are opened outside; links starting with `#` stay on the page; other
/// links go to the first chapter whose document they name, and are opened
/// outside when they name none.
pub open spec fn link_outcome(chs: Seq<Chapter>, url: Seq<char>, r: LinkAction) -> bool {
    let u = trim_space(url);
    if is_external_link(u) {
        r matches LinkAction::OpenExternal(s) && s@ == u
    } else if u.len() > 0 && u[0] == '#' {
        r is Stay
    } else {
        let target = normalized_href(u);
        if target.len() > 0 && first_linked(chs, target) is Some {
            r == LinkAction::GoToChapter(first_linked(chs, target)->0 as usize)
        } else {
            r matches LinkAction::OpenExternal(s) && s@ == u
        }
    }
}

fn same_letter(c: char, lower: char) -> (b: bool)
    ensures
        b == same_letter_ignore_case(c, lower),
{
    c == lower || ('A' <= c && c <= 'Z' && c as u32 + 32 == lower as u32)
}

/// Whether `s` begins with the lower-case ASCII text `prefix`, ignoring the
/// case of ASCII letters.
fn starts_with_ignore_case(s: &Vec<char>, prefix: &str) -> (b: bool)
    ensures
        b == has_prefix_ignore_case(s@, prefix@),
{
    let p = chars_of(prefix);
    if p.len() > s.len() {
        return false;
    }
    let mut i: usize = 0;
    while i < p.len()
        invariant
            p@ == prefix@,
            p.len() <= s.len(),
            i <= p.len(),
            forall|j: int| 0 <= j < i ==> same_letter_ignore_case(#[trigger] s@[j], p@[j]),
        decreases p.len() - i,
    {
        if !same_letter(s[i], p[i]) {
            return false;
        }
        i += 1;
    }
    true
}

/// Whether a chapter document path (normalised as a link target) is the one a
/// normalised link target names.
fn hrefs_link(src: &Vec<char>, target: &Vec<char>) -> (b: bool)
    ensures
        b == href_links(src@, target@),
{
    if chars_eq(src.as_slice(), target.as_slice()) {
        return true;
    }
    let mut slash_target: Vec<char> = Vec::new();
    slash_target.push('/');
    crate::text::push_all(&mut slash_target, target.as_slice());
    let mut slash_src: Vec<char> = Vec::new();
    slash_src.push('/');
    crate::text::push_all(&mut slash_src, src.as_slice());
    assert(slash_target@ =~= seq!['/'] + target@);
    assert(slash_src@ =~= seq!['/'] + src@);
    ends_with_chars(src.as_slice(), slash_target.as_slice()) || ends_with_chars(
        target.as_slice(),
        slash_src.as_slice(),
    )
}

proof fn lemma_first_linked_skip(chs: Seq<Chapter>, target: Seq<char>, i: int)
    requires
        0 <= i < chs.len(),
    ensures
        first_linked(chs.skip(i), target) == if chapter_linked(chs[i], target) {
            Some(0int)
        } else {
            match first_linked(chs.skip(i + 1), target) {
                Some(k) => Some(k + 1),
                None => None,
            }
        },
{
    assert(chs.skip(i).drop_first() =~= chs.skip(i + 1));
}

/// The index of the first chapter whose document a normalised link target names.
fn find_linked_chapter(chapters: &[Chapter], target: &Vec<char>) -> (r: Option<usize>)
    ensures
        r matches Some(i) ==> first_linked(chapters@, target@) == Some(i as int),
        r is None ==> first_linked(chapters@, target@) is None,
{
    let mut i: usize = chapters.len();
    let mut found: Option<usize> = None;
    assert(chapters@.skip(chapters@.len() as int) =~= Seq::<Chapter>::empty());
    while i > 0
        invariant
            i <= chapters@.len(),
            found matches Some(k) ==> first_linked(chapters@.skip(i as int), target@) == Some(k - i) && k >= i,
            found is None ==> first_linked(chapters@.skip(i as int), target@) is None,
        decreases i,
    {
        i -= 1;
        proof {
            lemma_first_linked_skip(chapters@, target@, i as int);
        }
        let linked = match &chapters[i].source_href {
            Some(src) => {
                let n = normalize_epub_href(src.as_str());
                let nc = chars_of(n.as_str());
                hrefs_link(&nc, target)
            },
            None => false,
        };
        if linked {
            found = Some(i);
        }
    }
    assert(chapters@.skip(0) =~= chapters@);
    found
}

/// Decides what following the clicked link `url` does in a book with the
/// given chapters.
pub fn link_action(chapters: &[Chapter], url: &str) -> (r: LinkAction)
    ensures
        link_outcome(chapters@, url@, r),
{
    let cs = chars_of(url);
    let u = trim_space_chars(&cs);
    if starts_with_ignore_case(&u, "http://") || starts_with_ignore_case(&u, "https://")
        || starts_with_ignore_case(&u, "mailto:") || starts_with_ignore_case(&u, "tel:") {
        return LinkAction::OpenExternal(string_from_chars(u.as_slice()));
    }
    if u.len() > 0 && u[0] == '#' {
        return LinkAction::Stay;
    }
    let trimmed = string_from_chars(u.as_slice());
    let target = normalize_epub_href(trimmed.as_str());
    let tc = chars_of(target.as_str());
    if tc.len() > 0 {
        match find_linked_chapter(chapters, &tc) {
            Some(i) => return LinkAction::GoToChapter(i),
            None => {},
        }
    }
    LinkAction::OpenExternal(trimmed)
}

proof fn lemma_trim_start_no_space(x: Seq<char>)
    requires
        x.len() == 0 || !is_space(x[0]),
    ensures
        trim_start_space(trim_end_space(x)) == trim_end_space(x),
    decreases x.len(),
{
    if x.len() > 0 && is_space(x.last()) {
        if x.len() > 1 {
            assert(x.drop_last()[0] == x[0]);
        }
        lemma_trim_start_no_space(x.drop_last());
    }
}

proof fn lemma_trim_end_idempotent(x: Seq<char>)
    ensures
        trim_end_space(trim_end_space(x)) == trim_end_space(x),
    decreases x.len(),
{
    if x.len() > 0 && is_space(x.last()) {
        lemma_trim_end_idempotent(x.drop_last());
    }
}

proof fn lemma_trim_start_result(x: Seq<char>)
    ensures
        trim_start_space(x).len() == 0 || !is_space(trim_start_space(x)[0]),
    decreases x.len(),
{
    if x.len() > 0 && is_space(x[0]) {
        lemma_trim_start_result(x.drop_first());
    }
}

/// Trimming white space twice is trimming it once.
pub proof fn law_trim_idempotent(s: Seq<char>)
    ensures
        trim_space(trim_space(s)) == trim_space(s),
{
    let a = trim_start_space(s);
    lemma_trim_start_result(s);
    lemma_trim_start_no_space(a);
    lemma_trim_end_idempotent(a);
}

/// Following a link that spells out a chapter's own document path (not an
/// external link, not a same-page anchor, not empty once normalised) moves the
/// reader to a chapter, no later than that one, whose document the link names.
pub proof fn law_link_to_own_document(chs: Seq<Chapter>, i: int, r: LinkAction)
    requires
        0 <= i < chs.len() <= usize::MAX,
        chs[i].source_href is Some,
        !is_external_link(trim_space(chs[i].source_href->0@)),
        !(trim_space(chs[i].source_href->0@).len() > 0 && trim_space(chs[i].source_href->0@)[0] == '#'),
        normalized_href(chs[i].source_href->0@).len() > 0,
        link_outcome(chs, chs[i].source_href->0@, r),
    ensures
        r matches LinkAction::GoToChapter(j) && j <= i && chapter_linked(
            chs[j as int],
            normalized_href(chs[i].source_href->0@),
        ),
{
    let src = chs[i].source_href->0@;
    let u = trim_space(src);
    law_trim_idempotent(src);
    assert(normalized_href(u) == normalized_href(src));
    let target = normalized_href(src);
    assert(chapter_linked(chs[i], target));
    lemma_first_linked_found(chs, target, i);
    let j = first_linked(chs, target)->0;
    assert(first_linked(chs, target) is Some);
    assert(r == LinkAction::GoToChapter(j as usize));
    assert((j as usize) as int == j);
}

proof fn lemma_first_linked_found(chs: Seq<Chapter>, target: Seq<char>, i: int)
    requires
        0 <= i < chs.len(),
        chapter_linked(chs[i], target),
    ensures
        first_linked(chs, target) matches Some(j) && 0 <= j <= i && chapter_linked(chs[j], target),
    decreases chs.len(),
{
    if !chapter_linked(chs[0], target) {
        assert(chs.drop_first()[i - 1] == chs[i]);
        lemma_first_linked_found(chs.drop_first(), target, i - 1);
        let j = first_linked(chs.drop_first(), target)->0;
        assert(chs.drop_first()[j] == chs[j + 1]);
    }
}

} // verus!
