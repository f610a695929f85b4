//! The book: its chapter list and table of contents built from the spine and
//! navigation of an EPUB, and the loading state of chapter content.

use std::collections::{HashMap, HashSet};

use vstd::prelude::*;

use crate::chapter::{chapter_titles, Chapter, ContentBlock, TocEntry};
use crate::path::{after_last_slash, has_plain_file_name, name_stem, law_normalize_idempotent, normalize_resource_path, normalized_path, paths_match, resource_path_matches};
use crate::reviews::{copy_index_set, is_review_title, law_review_not_self, pairs_reviews, review_chapter_maps, review_of};
use crate::text::{chars_of, decimal, decimal_chars, has_prefix, push_all, starts_with_chars, string_from_chars};
use vstd::string::StringExecFns;

verus! {

/// An entry of the book's reading order: the media type of the document it
/// names (absent when the entry names no manifest item) and that document's
/// path (absent when the item is not addressed by a path).
pub struct SpineItem {
    pub media_type: Option<String>,
    pub href: Option<String>,
}

/// An entry of the flattened navigation tree: its label and the path of the
/// document it points to (absent when it points to no manifest item or the
/// item is not addressed by a path).
pub struct TocItem {
    pub label: String,
    pub href: Option<String>,
}

/// An embedded font: its path (absent when the item is not addressed by a
/// path) and its bytes (absent when they could not be read).
pub struct FontResource {
    pub href: Option<String>,
    pub data: Option<Vec<u8>>,
}

/// What is read from an EPUB file to index it, before any chapter document is
/// parsed.
pub struct EpubIndex {
    pub title: Option<String>,
    pub cover_data: Option<Vec<u8>>,
    pub image_hrefs: Vec<Option<String>>,
    pub toc: Vec<TocItem>,
    pub spine: Vec<SpineItem>,
    pub fonts: Vec<FontResource>,
    pub source_path: String,
}

/// A book: title, chapters, table of contents, cover, embedded fonts, the
/// pairing of review chapters, the path of the file it was read from, and the
/// normalised paths of its images.
#[derive(Debug)]
pub struct EpubBook {
    pub title: String,
    pub chapters: Vec<Chapter>,
    pub toc: Vec<TocEntry>,
    pub cover_data: Option<Vec<u8>>,
    pub fonts: Vec<(String, Vec<u8>)>,
    pub chapter_reviews: HashMap<usize, usize>,
    pub review_chapter_indices: HashSet<usize>,
    pub source_path: Option<String>,
    pub image_resource_paths: Vec<String>,
}

/// Descriptive metadata of a book.
#[derive(Clone, Debug, Default)]
pub struct EpubMetadata {
    pub title: Option<String>,
    pub author: Option<String>,
    pub publisher: Option<String>,
    pub language: Option<String>,
    pub identifier: Option<String>,
    pub description: Option<String>,
    pub subject: Option<String>,
    pub date: Option<String>,
    pub rights: Option<String>,
    pub contributor: Option<String>,
    pub chapter_count: Option<usize>,
}

/// The characters of each string.
pub open spec fn strings_view(s: Seq<String>) -> Seq<Seq<char>> {
    s.map_values(|x: String| x@)
}

/// The characters of each string of each pair.
pub open spec fn pairs_view(s: Seq<(String, String)>) -> Seq<(Seq<char>, Seq<char>)> {
    s.map_values(|x: (String, String)| (x.0@, x.1@))
}

/// The characters of an optional string.
pub open spec fn opt_view(o: Option<String>) -> Option<Seq<char>> {
    match o {
        Some(s) => Some(s@),
        None => None,
    }
}

/// A table of contents as (title, chapter index) pairs.
pub open spec fn toc_view(toc: Seq<TocEntry>) -> Seq<(Seq<char>, int)> {
    toc.map_values(|e: TocEntry| (e.title@, e.chapter_index as int))
}

/// Whether a media type names an XHTML or HTML document.
pub open spec fn is_document_type(mt: Seq<char>) -> bool {
    has_prefix(mt, "application/xhtml"@) || has_prefix(mt, "text/html"@)
}

/// The normalised path of the document a spine entry names, when it is an
/// (X)HTML document addressed by a path.
pub open spec fn spine_document(it: SpineItem) -> Option<Seq<char>> {
    match it.media_type {
        Some(mt) => match it.href {
            Some(h) => if is_document_type(mt@) {
                Some(normalized_path(h@))
            } else {
                None
            },
            None => None,
        },
        None => None,
    }
}

/// The normalised paths of the chapter documents, in reading order.
pub open spec fn chapter_hrefs(spine: Seq<SpineItem>) -> Seq<Seq<char>>
    decreases spine.len(),
{
    if spine.len() == 0 {
        Seq::empty()
    } else {
        let prev = chapter_hrefs(spine.drop_last());
        match spine_document(spine.last()) {
            Some(p) => prev.push(p),
            None => prev,
        }
    }
}

/// The normalised paths of the images that are addressed by a path.
pub open spec fn image_paths(hrefs: Seq<Option<String>>) -> Seq<Seq<char>>
    decreases hrefs.len(),
{
    if hrefs.len() == 0 {
        Seq::empty()
    } else {
        let prev = image_paths(hrefs.drop_last());
        match hrefs.last() {
            Some(h) => prev.push(normalized_path(h@)),
            None => prev,
        }
    }
}

/// The navigation entries that point to a document, as (label, normalised path).
pub open spec fn toc_targets(toc: Seq<TocItem>) -> Seq<(Seq<char>, Seq<char>)>
    decreases toc.len(),
{
    if toc.len() == 0 {
        Seq::empty()
    } else {
        let prev = toc_targets(toc.drop_last());
        match toc.last().href {
            Some(h) => prev.push((toc.last().label@, normalized_path(h@))),
            None => prev,
        }
    }
}

/// The label of the first navigation entry whose path matches `path`.
pub open spec fn toc_label_for(targets: Seq<(Seq<char>, Seq<char>)>, path: Seq<char>) -> Option<
    Seq<char>,
>
    decreases targets.len(),
{
    if targets.len() == 0 {
        None
    } else if paths_match(path, targets[0].1) {
        Some(targets[0].0)
    } else {
        toc_label_for(targets.drop_first(), path)
    }
}

/// The title given to the `n`-th chapter (counting from 1) when no navigation
/// entry names it: `第 n 章`.
pub open spec fn placeholder_title(n: nat) -> Seq<char> {
    "第 "@ + decimal(n) + " 章"@
}

/// The title of chapter `i`, whose document has normalised path `path`.
pub open spec fn chapter_title_for(targets: Seq<(Seq<char>, Seq<char>)>, path: Seq<char>, i: int) -> Seq<
    char,
> {
    match toc_label_for(targets, path) {
        Some(label) => label,
        None => placeholder_title((i + 1) as nat),
    }
}

/// The table of contents of chapters named by a navigation entry, in order.
pub open spec fn toc_listed(targets: Seq<(Seq<char>, Seq<char>)>, hrefs: Seq<Seq<char>>) -> Seq<
    (Seq<char>, int),
>
    decreases hrefs.len(),
{
    if hrefs.len() == 0 {
        Seq::empty()
    } else {
        let prev = toc_listed(targets, hrefs.drop_last());
        let i = hrefs.len() - 1;
        if toc_label_for(targets, hrefs[i]) is Some {
            prev.push((chapter_title_for(targets, hrefs[i], i), i))
        } else {
            prev
        }
    }
}

/// The table of contents: the chapters named by a navigation entry, or every
/// chapter when no navigation entry names one.
pub open spec fn toc_spec(targets: Seq<(Seq<char>, Seq<char>)>, hrefs: Seq<Seq<char>>) -> Seq<
    (Seq<char>, int),
> {
    let listed = toc_listed(targets, hrefs);
    if listed.len() > 0 {
        listed
    } else {
        Seq::new(hrefs.len(), |i: int| (chapter_title_for(targets, hrefs[i], i), i))
    }
}

/// A chapter that has not been loaded: given title and document path, no content.
pub open spec fn unloaded_chapter(c: Chapter, title: Seq<char>, href: Seq<char>) -> bool {
    &&& c.title@ == title
    &&& c.blocks@.len() == 0
    &&& c.source_href matches Some(s) && s@ == href
    &&& !c.loaded
}

/// The bytes of the fonts that could be read, in order.
pub open spec fn font_data(fonts: Seq<FontResource>) -> Seq<Vec<u8>>
    decreases fonts.len(),
{
    if fonts.len() == 0 {
        Seq::empty()
    } else {
        let prev = font_data(fonts.drop_last());
        match fonts.last().data {
            Some(d) => prev.push(d),
            None => prev,
        }
    }
}

/// The paths of the fonts that could be read, in order.
pub open spec fn font_hrefs(fonts: Seq<FontResource>) -> Seq<Option<String>>
    decreases fonts.len(),
{
    if fonts.len() == 0 {
        Seq::empty()
    } else {
        let prev = font_hrefs(fonts.drop_last());
        match fonts.last().data {
            Some(_) => prev.push(fonts.last().href),
            None => prev,
        }
    }
}

/// The name given to an embedded font. A font without a path is called
/// `EmbeddedFont`; one whose path ends in a plain file name is called by that
/// name's stem; for other paths it is `EmbeddedFont` or a piece of the path.
pub open spec fn font_name_from(name: Seq<char>, href: Option<String>) -> bool {
    match href {
        None => name == "EmbeddedFont"@,
        Some(h) => if has_plain_file_name(h@) {
            name == name_stem(after_last_slash(h@))
        } else {
            ||| name == "EmbeddedFont"@
            ||| exists|a: int, b: int| 0 <= a <= b <= h@.len() && name == h@.subrange(a, b)
        },
    }
}

/// The stem of the file name of a path (file name without its extension).
///
/// Trusted: wraps `std::path::Path::file_stem` followed by
/// `OsStr::to_string_lossy`. The stem is a slice of the path taken at
/// separator and dot boundaries, so it is a contiguous piece of the input, and
/// an empty path has none. Where the final `/`-piece is a plain file name
/// (`has_plain_file_name`) the contract gives the stem exactly: the name up to
/// its last `.`, or all of it when that `.` is its first character or it has
/// none. On other paths which piece it is depends on the platform's path
/// syntax, and that is left unsaid.
#[verifier::external_body]
fn file_stem_of(path: &str) -> (r: Option<String>)
    ensures
        r matches Some(s) ==> exists|a: int, b: int|
            0 <= a <= b <= path@.len() && s@ == path@.subrange(a, b),
        path@.len() == 0 ==> r == None::<String>,
        has_plain_file_name(path@) ==> r.is_some() && r.unwrap()@ == name_stem(after_last_slash(path@)),
{
    std::path::Path::new(path).file_stem().map(|s| s.to_string_lossy().to_string())
}

/// The normalised paths of the images that are addressed by a path.
fn collect_image_paths(hrefs: &Vec<Option<String>>) -> (r: Vec<String>)
    ensures
        strings_view(r@) == image_paths(hrefs@),
{
    let mut r: Vec<String> = Vec::new();
    let mut i: usize = 0;
    while i < hrefs.len()
        invariant
            i <= hrefs.len(),
            strings_view(r@) == image_paths(hrefs@.take(i as int)),
        decreases hrefs.len() - i,
    {
        assert(hrefs@.take(i + 1).drop_last() =~= hrefs@.take(i as int));
        match &hrefs[i] {
            Some(h) => {
                let p = normalize_resource_path(h.as_str());
                let ghost before = r@;
                r.push(p);
                assert(strings_view(r@) =~= strings_view(before).push(p@));
            },
            None => {},
        }
        i += 1;
    }
    assert(hrefs@.take(hrefs.len() as int) =~= hrefs@);
    r
}

/// The navigation entries that point to a document, with normalised paths.
fn collect_toc_targets(toc: &Vec<TocItem>) -> (r: Vec<(String, String)>)
    ensures
        pairs_view(r@) == toc_targets(toc@),
{
    let mut r: Vec<(String, String)> = Vec::new();
    let mut i: usize = 0;
    while i < toc.len()
        invariant
            i <= toc.len(),
            pairs_view(r@) == toc_targets(toc@.take(i as int)),
        decreases toc.len() - i,
    {
        assert(toc@.take(i + 1).drop_last() =~= toc@.take(i as int));
        let item = &toc[i];
        match &item.href {
            Some(h) => {
                let p = normalize_resource_path(h.as_str());
                let label = item.label.clone();
                let ghost before = r@;
                r.push((label, p));
                assert(pairs_view(r@) =~= pairs_view(before).push((item.label@, p@)));
            },
            None => {},
        }
        i += 1;
    }
    assert(toc@.take(toc.len() as int) =~= toc@);
    r
}

proof fn lemma_toc_label_skip(targets: Seq<(Seq<char>, Seq<char>)>, path: Seq<char>, i: int)
    requires
        0 <= i < targets.len(),
    ensures
        toc_label_for(targets.skip(i), path) == if paths_match(path, targets[i].1) {
            Some(targets[i].0)
        } else {
            toc_label_for(targets.skip(i + 1), path)
        },
{
    assert(targets.skip(i).drop_first() =~= targets.skip(i + 1));
}

/// The label of the first navigation entry whose path matches `path`.
fn find_toc_label(targets: &Vec<(String, String)>, path: &str) -> (r: Option<String>)
    ensures
        opt_view(r) == toc_label_for(pairs_view(targets@), path@),
{
    let ghost tv = pairs_view(targets@);
    let mut i: usize = 0;
    assert(tv.skip(0) =~= tv);
    while i < targets.len()
        invariant
            i <= targets.len(),
            tv == pairs_view(targets@),
            toc_label_for(tv.skip(i as int), path@) == toc_label_for(tv, path@),
        decreases targets.len() - i,
    {
        proof {
            lemma_toc_label_skip(tv, path@, i as int);
        }
        if resource_path_matches(path, targets[i].1.as_str()) {
            return Some(targets[i].0.clone());
        }
        i += 1;
    }
    assert(tv.skip(targets.len() as int) =~= Seq::<(Seq<char>, Seq<char>)>::empty());
    None
}

/// The title `第 n 章`.
fn numbered_title(n: usize) -> (r: String)
    ensures
        r@ == placeholder_title(n as nat),
{
    let mut cs = chars_of("第 ");
    let digits = decimal_chars(n);
    push_all(&mut cs, digits.as_slice());
    let tail = chars_of(" 章");
    push_all(&mut cs, tail.as_slice());
    string_from_chars(cs.as_slice())
}

/// Whether a media type names an XHTML or HTML document.
fn is_document(media_type: &str) -> (b: bool)
    ensures
        b == is_document_type(media_type@),
{
    let mt = chars_of(media_type);
    let xhtml = chars_of("application/xhtml");
    let html = chars_of("text/html");
    starts_with_chars(mt.as_slice(), xhtml.as_slice()) || starts_with_chars(mt.as_slice(), html.as_slice())
}

/// The normalised path of the document a spine entry names, when it is an
/// (X)HTML document addressed by a path.
pub fn spine_item_document(it: &SpineItem) -> (r: Option<String>)
    ensures
        opt_view(r) == spine_document(*it),
{
    match &it.media_type {
        Some(mt) => match &it.href {
            Some(h) => {
                if is_document(mt.as_str()) {
                    Some(normalize_resource_path(h.as_str()))
                } else {
                    None
                }
            },
            None => None,
        },
        None => None,
    }
}

/// The chapters named by the spine, in reading order, each titled by the first
/// matching navigation entry or numbered, and the table of contents.
fn build_chapters(spine: &Vec<SpineItem>, targets: &Vec<(String, String)>) -> (r: (Vec<Chapter>, Vec<TocEntry>))
    ensures
        ({
            let hrefs = chapter_hrefs(spine@);
            let tv = pairs_view(targets@);
            &&& r.0@.len() == hrefs.len()
            &&& forall|i: int| 0 <= i < hrefs.len() ==> #[trigger] unloaded_chapter(
                r.0@[i],
                chapter_title_for(tv, hrefs[i], i),
                hrefs[i],
            )
            &&& toc_view(r.1@) == toc_spec(tv, hrefs)
        }),
{
    let ghost tv = pairs_view(targets@);
    let mut chapters: Vec<Chapter> = Vec::new();
    let mut toc: Vec<TocEntry> = Vec::new();
    let mut i: usize = 0;
    while i < spine.len()
        invariant
            i <= spine.len(),
            tv == pairs_view(targets@),
            chapters@.len() == chapter_hrefs(spine@.take(i as int)).len(),
            chapters@.len() <= i,
            forall|c: int| 0 <= c < chapters@.len() ==> #[trigger] unloaded_chapter(
                chapters@[c],
                chapter_title_for(tv, chapter_hrefs(spine@.take(i as int))[c], c),
                chapter_hrefs(spine@.take(i as int))[c],
            ),
            toc_view(toc@) == toc_listed(tv, chapter_hrefs(spine@.take(i as int))),
        decreases spine.len() - i,
    {
        let ghost hs = chapter_hrefs(spine@.take(i as int));
        assert(spine@.take(i + 1).drop_last() =~= spine@.take(i as int));
        assert(spine@.take(i + 1).last() == spine@[i as int]);
        match spine_item_document(&spine[i]) {
            Some(path) => {
                let ghost hs2 = hs.push(path@);
                assert(chapter_hrefs(spine@.take(i + 1)) == hs2);
                let idx = chapters.len();
                let label = find_toc_label(targets, path.as_str());
                let in_toc = label.is_some();
                let title = match label {
                    Some(l) => l,
                    None => numbered_title(idx + 1),
                };
                assert(title@ == chapter_title_for(tv, hs2[idx as int], idx as int));
                if in_toc {
                    let entry_title = title.clone();
                    let ghost before = toc@;
                    toc.push(TocEntry { title: entry_title, chapter_index: idx });
                    assert(hs2.drop_last() =~= hs);
                    assert(toc_view(toc@) =~= toc_view(before).push(
                        (chapter_title_for(tv, hs2[idx as int], idx as int), idx as int),
                    ));
                } else {
                    assert(hs2.drop_last() =~= hs);
                }
                let ghost ch_before = chapters@;
                chapters.push(
                    Chapter { title: title, blocks: Vec::new(), source_href: Some(path), loaded: false },
                );
                assert forall|c: int| 0 <= c < chapters@.len() implies #[trigger] unloaded_chapter(
                    chapters@[c],
                    chapter_title_for(tv, hs2[c], c),
                    hs2[c],
                ) by {
                    if c < idx {
                        assert(chapters@[c] == ch_before[c]);
                        assert(hs2[c] == hs[c]);
                    }
                }
            },
            None => {
                assert(chapter_hrefs(spine@.take(i + 1)) == hs);
            },
        }
        i += 1;
    }
    assert(spine@.take(spine.len() as int) =~= spine@);
    let ghost hrefs = chapter_hrefs(spine@);
    if toc.len() == 0 {
        let mut j: usize = 0;
        while j < chapters.len()
            invariant
                j <= chapters@.len(),
                chapters@.len() == hrefs.len(),
                forall|c: int| 0 <= c < chapters@.len() ==> #[trigger] unloaded_chapter(
                    chapters@[c],
                    chapter_title_for(tv, hrefs[c], c),
                    hrefs[c],
                ),
                toc_view(toc@) == Seq::new(j as nat, |c: int| (chapter_title_for(tv, hrefs[c], c), c)),
            decreases chapters.len() - j,
        {
            assert(unloaded_chapter(chapters@[j as int], chapter_title_for(tv, hrefs[j as int], j as int), hrefs[j as int]));
            let t = chapters[j].title.clone();
            let ghost before = toc@;
            toc.push(TocEntry { title: t, chapter_index: j });
            assert(toc_view(toc@) =~= toc_view(before).push((t@, j as int)));
            assert(toc_view(toc@) =~= Seq::new((j + 1) as nat, |c: int| (chapter_title_for(tv, hrefs[c], c), c)));
            j += 1;
        }
    }
    (chapters, toc)
}

/// The embedded fonts that could be read, each named after the stem of its
/// file name, or `EmbeddedFont` when that is not available.
fn collect_fonts(fonts: Vec<FontResource>) -> (r: Vec<(String, Vec<u8>)>)
    ensures
        r@.len() == font_data(fonts@).len(),
        forall|i: int| 0 <= i < r@.len() ==> #[trigger] r@[i].1 == font_data(fonts@)[i],
        forall|i: int| 0 <= i < r@.len() ==> font_name_from(#[trigger] r@[i].0@, font_hrefs(fonts@)[i]),
{
    let ghost fs = fonts@;
    let mut r: Vec<(String, Vec<u8>)> = Vec::new();
    for f in it: fonts.into_iter()
        invariant
            it.seq() == fs,
            r@.len() == font_data(fs.take(it.index() as int)).len(),
            font_hrefs(fs.take(it.index() as int)).len() == r@.len(),
            forall|i: int| 0 <= i < r@.len() ==> #[trigger] r@[i].1 == font_data(fs.take(it.index() as int))[i],
            forall|i: int| 0 <= i < r@.len() ==> font_name_from(
                #[trigger] r@[i].0@,
                font_hrefs(fs.take(it.index() as int))[i],
            ),
    {
        let ghost k = it.index() as int;
        assert(fs.take(k + 1).drop_last() =~= fs.take(k));
        assert(fs.take(k + 1).last() == f);
        let FontResource { href, data } = f;
        match data {
            Some(d) => {
                let stem = match &href {
                    Some(h) => file_stem_of(h.as_str()),
                    None => None,
                };
                let name = match stem {
                    Some(s) => s,
                    None => String::from_str("EmbeddedFont"),
                };
                assert(font_name_from(name@, href));
                let ghost before = r@;
                r.push((name, d));
                assert forall|i: int| 0 <= i < r@.len() implies font_name_from(
                    #[trigger] r@[i].0@,
                    font_hrefs(fs.take(k + 1))[i],
                ) by {
                    if i < before.len() {
                        assert(r@[i] == before[i]);
                    }
                }
            },
            None => {},
        }
    }
    assert(fs.take(fs.len() as int) =~= fs);
    r
}

/// The chapter with its content set and marked loaded.
pub open spec fn loaded_chapter(c: Chapter, blocks: Vec<ContentBlock>) -> Chapter {
    Chapter { title: c.title, blocks: blocks, source_href: c.source_href, loaded: true }
}

/// `after` is `before` with its content dropped and marked not loaded.
pub open spec fn unloaded_from(after: Chapter, before: Chapter) -> bool {
    &&& after.title == before.title
    &&& after.source_href == before.source_href
    &&& after.blocks@.len() == 0
    &&& !after.loaded
}

/// The chapters after storing `blocks` as the content of chapter `idx` (no
/// change when there is no such chapter).
pub open spec fn apply_one(chs: Seq<Chapter>, idx: int, blocks: Vec<ContentBlock>) -> Seq<Chapter> {
    if 0 <= idx < chs.len() {
        chs.update(idx, loaded_chapter(chs[idx], blocks))
    } else {
        chs
    }
}

/// The chapters after storing each loaded content in turn.
pub open spec fn apply_all(chs: Seq<Chapter>, loaded: Seq<(usize, Vec<ContentBlock>)>) -> Seq<Chapter>
    decreases loaded.len(),
{
    if loaded.len() == 0 {
        chs
    } else {
        let prev = apply_all(chs, loaded.drop_last());
        apply_one(prev, loaded.last().0 as int, loaded.last().1)
    }
}

/// The chapters still to load: (index, document path) of every chapter that is
/// not loaded and has a document path, in order.
pub open spec fn pending_jobs(chs: Seq<Chapter>) -> Seq<(int, Seq<char>)>
    decreases chs.len(),
{
    if chs.len() == 0 {
        Seq::empty()
    } else {
        let prev = pending_jobs(chs.drop_last());
        let c = chs.last();
        match c.source_href {
            Some(h) => if !c.loaded {
                prev.push(((chs.len() - 1) as int, h@))
            } else {
                prev
            },
            None => prev,
        }
    }
}

/// Jobs as (index, path) pairs.
pub open spec fn jobs_view(jobs: Seq<(usize, String)>) -> Seq<(int, Seq<char>)> {
    jobs.map_values(|j: (usize, String)| (j.0 as int, j.1@))
}

/// What `EpubBook::from_index` builds from an index: the title (or
/// `未知书名`), the cover, the normalised image paths, one unloaded chapter per
/// (X)HTML document of the spine titled by the first matching navigation entry
/// (or `第 n 章`), the table of contents, the readable fonts, the pairing of
/// review chapters, and the source path.
pub open spec fn built_from(book: EpubBook, index: EpubIndex) -> bool {
    let hrefs = chapter_hrefs(index.spine@);
    let targets = toc_targets(index.toc@);
    &&& book.title@ == (match index.title {
        Some(t) => t@,
        None => "未知书名"@,
    })
    &&& book.cover_data == index.cover_data
    &&& book.image_paths_view() == image_paths(index.image_hrefs@)
    &&& book.chapters@.len() == hrefs.len()
    &&& forall|i: int|
        0 <= i < book.chapters@.len() ==> #[trigger] unloaded_chapter(
            book.chapters@[i],
            chapter_title_for(targets, hrefs[i], i),
            hrefs[i],
        )
    &&& toc_view(book.toc@) == toc_spec(targets, hrefs)
    &&& book.fonts@.len() == font_data(index.fonts@).len()
    &&& forall|i: int| 0 <= i < book.fonts@.len() ==> #[trigger] book.fonts@[i].1 == font_data(index.fonts@)[i]
    &&& forall|i: int|
        0 <= i < book.fonts@.len() ==> font_name_from(#[trigger] book.fonts@[i].0@, font_hrefs(index.fonts@)[i])
    &&& book.review_chapter_indices@ == Set::new(
        |i: usize| i < book.chapters@.len() && is_review_title(chapter_titles(book.chapters@)[i as int]),
    )
    &&& pairs_reviews(book.chapter_reviews@, chapter_titles(book.chapters@), book.chapters@.len() as int)
    &&& book.source_path matches Some(p) && p@ == index.source_path@
}

/// The outcome of `EpubBook::load_all_chapters` on `before` with `parse`:
/// nothing changes when the book has no source file or nothing is pending;
/// otherwise `parse` is handed the source path, the pending jobs and the image
/// paths, and either what it returns is stored into the chapters, or its
/// error is returned and the book is left as it was.
pub open spec fn loads_all<F>(before: EpubBook, after: EpubBook, r: Result<(), String>, parse: F) -> bool where
    F: FnOnce(&String, &Vec<(usize, String)>, &Vec<String>) -> Result<
        Vec<(usize, Vec<ContentBlock>)>,
        String,
    >,
 {
    if before.source_path is None || pending_jobs(before.chapters@).len() == 0 {
        r is Ok && after == before
    } else {
        exists|jobs: Vec<(usize, String)>, out: Result<Vec<(usize, Vec<ContentBlock>)>, String>|
            #![trigger call_ensures(parse, (&before.source_path->0, &jobs, &before.image_resource_paths), out)]
            {
                &&& jobs_view(jobs@) == pending_jobs(before.chapters@)
                &&& call_ensures(parse, (&before.source_path->0, &jobs, &before.image_resource_paths), out)
                &&& match out {
                    Ok(l) => r is Ok && after.chapters@ == apply_all(before.chapters@, l@)
                        && after.same_except_chapters(&before),
                    Err(e) => r == Err::<(), String>(e) && after == before,
                }
            }
    }
}

/// What `EpubBook::open` returns for `index` and `parse`: the book built from
/// the index, after `load_all_chapters` with `parse`, or the error of that load.
pub open spec fn opened_from<F>(index: EpubIndex, parse: F, r: Result<EpubBook, String>) -> bool where
    F: FnOnce(&String, &Vec<(usize, String)>, &Vec<String>) -> Result<
        Vec<(usize, Vec<ContentBlock>)>,
        String,
    >,
 {
    exists|indexed: EpubBook, loaded: EpubBook, outcome: Result<(), String>|
        #![trigger built_from(indexed, index), loads_all(indexed, loaded, outcome, parse)]
        {
            &&& built_from(indexed, index)
            &&& loads_all(indexed, loaded, outcome, parse)
            &&& r == match outcome {
                Ok(_) => Ok::<EpubBook, String>(loaded),
                Err(e) => Err(e),
            }
        }
}

/// A chapter parser that, whenever it succeeds, returns one result per job,
/// for the job's chapter, in job order (as `parse_chapters_from_file` does).
pub open spec fn parse_is_complete<F>(parse: F) -> bool where
    F: FnOnce(&String, &Vec<(usize, String)>, &Vec<String>) -> Result<
        Vec<(usize, Vec<ContentBlock>)>,
        String,
    >,
 {
    forall|p: &String, jobs: &Vec<(usize, String)>, im: &Vec<String>, l: Vec<(usize, Vec<ContentBlock>)>|
        #[trigger] call_ensures(parse, (p, jobs, im), Ok::<Vec<(usize, Vec<ContentBlock>)>, String>(l)) ==> {
            &&& l@.len() == jobs@.len()
            &&& forall|m: int| 0 <= m < l@.len() ==> (#[trigger] l@[m]).0 == jobs@[m].0
        }
}

/// The table of contents of `book` fits its chapters: every entry points at one
/// of them and carries its title, the entries follow the chapter order, and a
/// book with chapters has a non-empty table of contents.
pub open spec fn toc_consistent(book: EpubBook) -> bool {
    &&& forall|j: int|
        0 <= j < book.toc@.len() ==> {
            let e = #[trigger] book.toc@[j];
            &&& e.chapter_index < book.chapters@.len()
            &&& e.title@ == book.chapters@[e.chapter_index as int].title@
        }
    &&& forall|a: int, b: int|
        0 <= a < b < book.toc@.len() ==> #[trigger] book.toc@[a].chapter_index
            < #[trigger] book.toc@[b].chapter_index
    &&& book.chapters@.len() > 0 ==> book.toc@.len() > 0
}

impl Clone for EpubBook {
    /// A copy of the book. Chapters, table-of-contents entries and fonts are
    /// copied with their own `clone`; the title, the pairing of review chapters,
    /// the source path and the image paths are kept exactly.
    fn clone(&self) -> (r: Self)
        ensures
            r.title@ == self.title@,
            r.chapters@.len() == self.chapters@.len(),
            r.toc@.len() == self.toc@.len(),
            r.fonts@.len() == self.fonts@.len(),
            r.chapter_reviews@ == self.chapter_reviews@,
            r.review_chapter_indices@ == self.review_chapter_indices@,
            opt_view(r.source_path) == opt_view(self.source_path),
            r.image_paths_view() == self.image_paths_view(),
    {
        let source_path = match &self.source_path {
            Some(p) => Some(p.clone()),
            None => None,
        };
        let r = EpubBook {
            title: self.title.clone(),
            chapters: self.chapters.clone(),
            toc: self.toc.clone(),
            cover_data: self.cover_data.clone(),
            fonts: self.fonts.clone(),
            chapter_reviews: self.chapter_reviews.clone(),
            review_chapter_indices: copy_index_set(&self.review_chapter_indices),
            source_path,
            image_resource_paths: self.image_resource_paths.clone(),
        };
        assert(r.image_paths_view() =~= self.image_paths_view());
        r
    }
}

impl EpubBook {
    /// The normalised image paths of the book.
    pub open spec fn image_paths_view(&self) -> Seq<Seq<char>> {
        strings_view(self.image_resource_paths@)
    }

    /// `self` and `other` agree on everything but their chapters.
    pub open spec fn same_except_chapters(&self, other: &EpubBook) -> bool {
        &&& self.title == other.title
        &&& self.toc == other.toc
        &&& self.cover_data == other.cover_data
        &&& self.fonts == other.fonts
        &&& self.chapter_reviews == other.chapter_reviews
        &&& self.review_chapter_indices == other.review_chapter_indices
        &&& self.source_path == other.source_path
        &&& self.image_paths_view() == other.image_paths_view()
    }

    /// Builds the book from what was read of its EPUB file: the title (or
    /// `未知书名`), the cover, the normalised image paths, one unloaded chapter
    /// per (X)HTML document of the spine titled by the first matching
    /// navigation entry (or `第 n 章`), the table of contents (the chapters
    /// named by a navigation entry, or all chapters when there are none), the
    /// readable fonts, and the pairing of review chapters.
    pub fn from_index(index: EpubIndex) -> (book: EpubBook)
        ensures
            built_from(book, index),
    {
        let EpubIndex { title, cover_data, image_hrefs, toc, spine, fonts, source_path } = index;
        let title = match title {
            Some(t) => t,
            None => String::from_str("未知书名"),
        };
        let image_resource_paths = collect_image_paths(&image_hrefs);
        let targets = collect_toc_targets(&toc);
        let (chapters, toc_entries) = build_chapters(&spine, &targets);
        let fonts = collect_fonts(fonts);
        let (chapter_reviews, review_chapter_indices) = review_chapter_maps(chapters.as_slice());
        EpubBook {
            title,
            chapters,
            toc: toc_entries,
            cover_data,
            fonts,
            chapter_reviews,
            review_chapter_indices,
            source_path: Some(source_path),
            image_resource_paths,
        }
    }

    /// Assembles a book from the parts kept in the parse cache. Such a book has
    /// no source file to load chapters from and no image paths.
    pub fn from_cached_parts(
        title: String,
        chapters: Vec<Chapter>,
        toc: Vec<TocEntry>,
        cover_data: Option<Vec<u8>>,
        fonts: Vec<(String, Vec<u8>)>,
        chapter_reviews: HashMap<usize, usize>,
        review_chapter_indices: HashSet<usize>,
    ) -> (book: EpubBook)
        ensures
            book.title == title,
            book.chapters == chapters,
            book.toc == toc,
            book.cover_data == cover_data,
            book.fonts == fonts,
            book.chapter_reviews == chapter_reviews,
            book.review_chapter_indices == review_chapter_indices,
            book.source_path is None,
            book.image_paths_view() == Seq::<Seq<char>>::empty(),
    {
        let book = EpubBook {
            title,
            chapters,
            toc,
            cover_data,
            fonts,
            chapter_reviews,
            review_chapter_indices,
            source_path: None,
            image_resource_paths: Vec::new(),
        };
        assert(book.image_paths_view() =~= Seq::<Seq<char>>::empty());
        book
    }

    /// The normalised paths of the book's images.
    pub fn image_resource_paths(&self) -> (r: &[String])
        ensures
            strings_view(r@) == self.image_paths_view(),
    {
        self.image_resource_paths.as_slice()
    }

    /// Whether chapter `idx` exists and its content is loaded.
    pub fn chapter_is_loaded(&self, idx: usize) -> (b: bool)
        ensures
            b == (idx < self.chapters@.len() && self.chapters@[idx as int].loaded),
    {
        if idx < self.chapters.len() {
            self.chapters[idx].loaded
        } else {
            false
        }
    }

    /// Stores `blocks` as the content of chapter `idx` and marks it loaded; does
    /// nothing when there is no such chapter.
    pub fn apply_loaded_chapter(&mut self, idx: usize, blocks: Vec<ContentBlock>)
        ensures
            final(self).chapters@ == apply_one(old(self).chapters@, idx as int, blocks),
            final(self).same_except_chapters(&*old(self)),
    {
        if idx < self.chapters.len() {
            let ch = &mut self.chapters[idx];
            ch.blocks = blocks;
            ch.loaded = true;
        }
    }

    /// Drops the content of chapter `idx` and marks it not loaded; does nothing
    /// when there is no such chapter.
    pub fn unload_chapter(&mut self, idx: usize)
        ensures
            final(self).chapters@.len() == old(self).chapters@.len(),
            forall|j: int|
                0 <= j < old(self).chapters@.len() && j != idx ==> #[trigger] final(self).chapters@[j]
                    == old(self).chapters@[j],
            idx < old(self).chapters@.len() ==> unloaded_from(
                final(self).chapters@[idx as int],
                old(self).chapters@[idx as int],
            ),
            final(self).same_except_chapters(&*old(self)),
    {
        if idx < self.chapters.len() {
            let ch = &mut self.chapters[idx];
            ch.blocks.clear();
            ch.loaded = false;
        }
    }

    /// The chapters still to load, as (index, document path), in order.
    pub fn pending_chapter_jobs(&self) -> (jobs: Vec<(usize, String)>)
        ensures
            jobs_view(jobs@) == pending_jobs(self.chapters@),
    {
        let mut jobs: Vec<(usize, String)> = Vec::new();
        let mut i: usize = 0;
        while i < self.chapters.len()
            invariant
                i <= self.chapters@.len(),
                jobs_view(jobs@) == pending_jobs(self.chapters@.take(i as int)),
            decreases self.chapters.len() - i,
        {
            assert(self.chapters@.take(i + 1).drop_last() =~= self.chapters@.take(i as int));
            let ch = &self.chapters[i];
            if !ch.loaded {
                match &ch.source_href {
                    Some(h) => {
                        let ghost before = jobs@;
                        jobs.push((i, h.clone()));
                        assert(jobs_view(jobs@) =~= jobs_view(before).push((i as int, h@)));
                    },
                    None => {},
                }
            }
            i += 1;
        }
        assert(self.chapters@.take(self.chapters.len() as int) =~= self.chapters@);
        jobs
    }

    /// Stores each loaded content, in order, into its chapter.
    pub fn apply_loaded_chapters(&mut self, loaded: Vec<(usize, Vec<ContentBlock>)>)
        ensures
            final(self).chapters@ == apply_all(old(self).chapters@, loaded@),
            final(self).same_except_chapters(&*old(self)),
    {
        let ghost start = self.chapters@;
        let ghost lv = loaded@;
        for item in it: loaded.into_iter()
            invariant
                it.seq() == lv,
                self.chapters@ == apply_all(start, lv.take(it.index() as int)),
                self.same_except_chapters(&*old(self)),
        {
            let ghost k = it.index() as int;
            assert(lv.take(k + 1).drop_last() =~= lv.take(k));
            assert(lv.take(k + 1).last() == item);
            let (idx, blocks) = item;
            self.apply_loaded_chapter(idx, blocks);
        }
        assert(lv.take(lv.len() as int) =~= lv);
    }

    /// Loads the content of every chapter still to load: hands the source file,
    /// the pending jobs and the image paths to `parse`, then stores what it
    /// returns. Nothing is done when the book has no source file or nothing is
    /// pending; an error from `parse` is returned and leaves the book as it was.
    pub fn load_all_chapters<F>(&mut self, parse: F) -> (r: Result<(), String>) where
        F: FnOnce(&String, &Vec<(usize, String)>, &Vec<String>) -> Result<
            Vec<(usize, Vec<ContentBlock>)>,
            String,
        >,

        requires
            forall|p: &String, j: &Vec<(usize, String)>, im: &Vec<String>|
                call_requires(parse, (p, j, im)),
        ensures
            loads_all(*old(self), *final(self), r, parse),
    {
        let path = match &self.source_path {
            Some(p) => p.clone(),
            None => return Ok(()),
        };
        let jobs = self.pending_chapter_jobs();
        if jobs.len() == 0 {
            return Ok(());
        }
        let out = parse(&path, &jobs, &self.image_resource_paths);
        let ghost g_out = out;
        assert(call_ensures(parse, (&path, &jobs, &old(self).image_resource_paths), g_out));
        match out {
            Ok(loaded) => {
                self.apply_loaded_chapters(loaded);
                Ok(())
            },
            Err(e) => Err(e),
        }
    }

    /// Indexes a book and loads every chapter with `parse`.
    pub fn open<F>(index: EpubIndex, parse: F) -> (r: Result<EpubBook, String>) where
        F: FnOnce(&String, &Vec<(usize, String)>, &Vec<String>) -> Result<
            Vec<(usize, Vec<ContentBlock>)>,
            String,
        >,

        requires
            forall|p: &String, j: &Vec<(usize, String)>, im: &Vec<String>|
                call_requires(parse, (p, j, im)),
        ensures
            opened_from(index, parse, r),
    {
        let mut book = Self::from_index(index);
        let ghost indexed = book;
        let outcome = book.load_all_chapters(parse);
        assert(built_from(indexed, index) && loads_all(indexed, book, outcome, parse));
        match outcome {
            Ok(()) => Ok(book),
            Err(e) => Err(e),
        }
    }

    /// A book from the parse cache when there is one (`true` in the result),
    /// otherwise the book that `open` reads (`false`).
    pub fn open_or_cached<F>(cached: Option<EpubBook>, open: F) -> (r: Result<(EpubBook, bool), String>) where
        F: FnOnce() -> Result<EpubBook, String>,

        requires
            cached is None ==> call_requires(open, ()),
        ensures
            match cached {
                Some(b) => r == Ok::<(EpubBook, bool), String>((b, true)),
                None => exists|o: Result<EpubBook, String>|
                    #![trigger call_ensures(open, (), o)]
                    call_ensures(open, (), o) && r == match o {
                        Ok(b) => Ok::<(EpubBook, bool), String>((b, false)),
                        Err(e) => Err(e),
                    },
            },
    {
        if let Some(book) = cached {
            return Ok((book, true));
        }
        let o = open();
        assert(call_ensures(open, (), o));
        match o {
            Ok(book) => Ok((book, false)),
            Err(e) => Err(e),
        }
    }
}

proof fn lemma_toc_listed(targets: Seq<(Seq<char>, Seq<char>)>, hrefs: Seq<Seq<char>>)
    ensures
        forall|j: int|
            0 <= j < toc_listed(targets, hrefs).len() ==> {
                let e = #[trigger] toc_listed(targets, hrefs)[j];
                &&& 0 <= e.1 < hrefs.len()
                &&& e.0 == chapter_title_for(targets, hrefs[e.1], e.1)
            },
        forall|a: int, b: int|
            0 <= a < b < toc_listed(targets, hrefs).len() ==> #[trigger] toc_listed(targets, hrefs)[a].1
                < #[trigger] toc_listed(targets, hrefs)[b].1,
    decreases hrefs.len(),
{
    if hrefs.len() > 0 {
        let prev = hrefs.drop_last();
        lemma_toc_listed(targets, prev);
        let i = hrefs.len() - 1;
        let l = toc_listed(targets, hrefs);
        let pl = toc_listed(targets, prev);
        assert forall|k: int| 0 <= k < prev.len() implies prev[k] == hrefs[k] by {}
        if toc_label_for(targets, hrefs[i]) is Some {
            assert(l == pl.push((chapter_title_for(targets, hrefs[i], i), i)));
            assert forall|j: int| 0 <= j < l.len() implies {
                let e = #[trigger] l[j];
                &&& 0 <= e.1 < hrefs.len()
                &&& e.0 == chapter_title_for(targets, hrefs[e.1], e.1)
            } by {
                if j < pl.len() {
                    assert(l[j] == pl[j]);
                    assert(prev[pl[j].1] == hrefs[pl[j].1]);
                }
            }
            assert forall|a: int, b: int| 0 <= a < b < l.len() implies #[trigger] l[a].1 < #[trigger] l[b].1 by {
                assert(l[a] == pl[a]);
                if b < pl.len() {
                    assert(l[b] == pl[b]);
                } else {
                    assert(pl[a].1 < prev.len());
                }
            }
        } else {
            assert(l == pl);
            assert forall|j: int| 0 <= j < l.len() implies {
                let e = #[trigger] l[j];
                &&& 0 <= e.1 < hrefs.len()
                &&& e.0 == chapter_title_for(targets, hrefs[e.1], e.1)
            } by {
                assert(prev[pl[j].1] == hrefs[pl[j].1]);
            }
        }
    }
}

/// In an indexed book, every entry of the table of contents points at one of its
/// chapters and carries that chapter's title; the entries follow the chapter
/// order; and a book with chapters has a non-empty table of contents.
pub proof fn law_toc_points_to_chapters(book: EpubBook, index: EpubIndex)
    requires
        built_from(book, index),
    ensures
        toc_consistent(book),
{
    let hrefs = chapter_hrefs(index.spine@);
    let targets = toc_targets(index.toc@);
    lemma_toc_listed(targets, hrefs);
    let spec_toc = toc_spec(targets, hrefs);
    assert(toc_view(book.toc@) == spec_toc);
    assert forall|j: int| 0 <= j < book.toc@.len() implies {
        let e = #[trigger] book.toc@[j];
        &&& e.chapter_index < book.chapters@.len()
        &&& e.title@ == book.chapters@[e.chapter_index as int].title@
    } by {
        assert(toc_view(book.toc@)[j] == spec_toc[j]);
        let e = book.toc@[j];
        let c = e.chapter_index as int;
        assert(0 <= c < hrefs.len());
        assert(unloaded_chapter(book.chapters@[c], chapter_title_for(targets, hrefs[c], c), hrefs[c]));
    }
    assert forall|a: int, b: int| 0 <= a < b < book.toc@.len() implies #[trigger] book.toc@[a].chapter_index
        < #[trigger] book.toc@[b].chapter_index by {
        assert(toc_view(book.toc@)[a] == spec_toc[a]);
        assert(toc_view(book.toc@)[b] == spec_toc[b]);
    }
}

proof fn lemma_apply_all_fields(chs: Seq<Chapter>, out: Seq<(usize, Vec<ContentBlock>)>)
    ensures
        apply_all(chs, out).len() == chs.len(),
        forall|k: int|
            0 <= k < chs.len() ==> {
                let c = #[trigger] apply_all(chs, out)[k];
                &&& c.title == chs[k].title
                &&& c.source_href == chs[k].source_href
                &&& (c.loaded <==> (chs[k].loaded || exists|m: int|
                    0 <= m < out.len() && #[trigger] out[m].0 == k))
            },
    decreases out.len(),
{
    if out.len() > 0 {
        let prev = out.drop_last();
        lemma_apply_all_fields(chs, prev);
        let last = out.last();
        assert forall|k: int| 0 <= k < chs.len() implies {
            let c = #[trigger] apply_all(chs, out)[k];
            &&& c.title == chs[k].title
            &&& c.source_href == chs[k].source_href
            &&& (c.loaded <==> (chs[k].loaded || exists|m: int|
                0 <= m < out.len() && #[trigger] out[m].0 == k))
        } by {
            let pc = apply_all(chs, prev)[k];
            if pc.loaded && !chs[k].loaded {
                let m = choose|m: int| 0 <= m < prev.len() && #[trigger] prev[m].0 == k;
                assert(out[m] == prev[m]);
            }
            if exists|m: int| 0 <= m < out.len() && #[trigger] out[m].0 == k {
                let m = choose|m: int| 0 <= m < out.len() && #[trigger] out[m].0 == k;
                if m < prev.len() {
                    assert(prev[m] == out[m]);
                }
            }
            if exists|m: int| 0 <= m < prev.len() && #[trigger] prev[m].0 == k {
                let m = choose|m: int| 0 <= m < prev.len() && #[trigger] prev[m].0 == k;
                assert(out[m] == prev[m]);
            }
        }
    }
}

proof fn lemma_pending_covers(chs: Seq<Chapter>)
    ensures
        forall|k: int|
            0 <= k < chs.len() && !(#[trigger] chs[k]).loaded && chs[k].source_href is Some ==> exists|m: int|
                0 <= m < pending_jobs(chs).len() && #[trigger] pending_jobs(chs)[m].0 == k,
    decreases chs.len(),
{
    if chs.len() > 0 {
        let prev = chs.drop_last();
        lemma_pending_covers(prev);
        let p = pending_jobs(chs);
        let pp = pending_jobs(prev);
        assert forall|k: int|
            0 <= k < chs.len() && !(#[trigger] chs[k]).loaded && chs[k].source_href is Some implies exists|m: int|
                0 <= m < p.len() && #[trigger] p[m].0 == k by {
            if k < prev.len() {
                assert(prev[k] == chs[k]);
                let m = choose|m: int| 0 <= m < pp.len() && #[trigger] pp[m].0 == k;
                assert(p[m] == pp[m]);
            } else {
                assert(p[p.len() - 1].0 == k);
            }
        }
    }
}

proof fn lemma_pending_empty(chs: Seq<Chapter>)
    requires
        forall|k: int| 0 <= k < chs.len() ==> (#[trigger] chs[k]).loaded || chs[k].source_href is None,
    ensures
        pending_jobs(chs).len() == 0,
    decreases chs.len(),
{
    if chs.len() > 0 {
        let prev = chs.drop_last();
        assert forall|k: int| 0 <= k < prev.len() implies (#[trigger] prev[k]).loaded || prev[k].source_href is None by {
            assert(prev[k] == chs[k]);
        }
        lemma_pending_empty(prev);
        assert(chs.last() == chs[chs.len() - 1]);
    }
}

/// Storing parsed content for every pending job, as a complete load run
/// returns it (one result per job, in job order), leaves no chapter pending.
pub proof fn law_complete_load_leaves_nothing_pending(chs: Seq<Chapter>, out: Seq<(usize, Vec<ContentBlock>)>)
    requires
        out.len() == pending_jobs(chs).len(),
        forall|m: int| 0 <= m < out.len() ==> (#[trigger] out[m]).0 == pending_jobs(chs)[m].0,
    ensures
        apply_all(chs, out).len() == chs.len(),
        pending_jobs(apply_all(chs, out)).len() == 0,
{
    lemma_apply_all_fields(chs, out);
    lemma_pending_covers(chs);
    let after = apply_all(chs, out);
    assert forall|k: int| 0 <= k < after.len() implies (#[trigger] after[k]).loaded || after[k].source_href is None by {
        if !chs[k].loaded && chs[k].source_href is Some {
            let m = choose|m: int| 0 <= m < pending_jobs(chs).len() && #[trigger] pending_jobs(chs)[m].0 == k;
            assert(out[m].0 == k);
        }
    }
    lemma_pending_empty(after);
}

proof fn lemma_chapter_hrefs_normal(spine: Seq<SpineItem>)
    ensures
        forall|i: int|
            0 <= i < chapter_hrefs(spine).len() ==> normalized_path(#[trigger] chapter_hrefs(spine)[i])
                == chapter_hrefs(spine)[i],
    decreases spine.len(),
{
    if spine.len() > 0 {
        let prev = spine.drop_last();
        lemma_chapter_hrefs_normal(prev);
        let hs = chapter_hrefs(spine);
        let ph = chapter_hrefs(prev);
        assert forall|i: int| 0 <= i < hs.len() implies normalized_path(#[trigger] hs[i]) == hs[i] by {
            if i < ph.len() {
                assert(hs[i] == ph[i]);
            } else {
                let it = spine.last();
                let h = it.href->0;
                law_normalize_idempotent(h@);
            }
        }
    }
}

/// The document path of every chapter of an indexed book is already in normal
/// form: normalising it again changes nothing.
pub proof fn law_chapter_paths_are_normal(book: EpubBook, index: EpubIndex)
    requires
        built_from(book, index),
    ensures
        forall|i: int|
            0 <= i < book.chapters@.len() ==> ((#[trigger] book.chapters@[i]).source_href matches Some(h)
                && normalized_path(h@) == h@),
{
    let hrefs = chapter_hrefs(index.spine@);
    let targets = toc_targets(index.toc@);
    lemma_chapter_hrefs_normal(index.spine@);
    assert forall|i: int| 0 <= i < book.chapters@.len() implies ((#[trigger] book.chapters@[i]).source_href matches Some(h)
        && normalized_path(h@) == h@) by {
        assert(unloaded_chapter(book.chapters@[i], chapter_title_for(targets, hrefs[i], i), hrefs[i]));
        assert(normalized_path(hrefs[i]) == hrefs[i]);
    }
}

/// Every review chapter that is paired with a chapter is listed among the
/// review chapters, and is a different chapter from the one it reviews.
pub proof fn law_paired_reviews_are_listed(book: EpubBook, index: EpubIndex)
    requires
        built_from(book, index),
    ensures
        forall|k: usize|
            #[trigger] book.chapter_reviews@.contains_key(k) ==> book.review_chapter_indices@.contains(
                book.chapter_reviews@[k],
            ) && book.chapter_reviews@[k] != k,
{
    let ts = chapter_titles(book.chapters@);
    assert forall|k: usize| #[trigger] book.chapter_reviews@.contains_key(k) implies book.review_chapter_indices@.contains(
        book.chapter_reviews@[k],
    ) && book.chapter_reviews@[k] != k by {
        let v = book.chapter_reviews@[k];
        assert(review_of(ts, k as int, v as int));
        law_review_not_self(ts, k as int, v as int);
    }
}

/// In a freshly indexed book every chapter names its document, so storing the
/// results of a complete load run (one per pending job, in job order) leaves
/// every chapter loaded.
pub proof fn law_complete_load_of_indexed_book(book: EpubBook, index: EpubIndex, out: Seq<(usize, Vec<ContentBlock>)>)
    requires
        built_from(book, index),
        out.len() == pending_jobs(book.chapters@).len(),
        forall|m: int| 0 <= m < out.len() ==> (#[trigger] out[m]).0 == pending_jobs(book.chapters@)[m].0,
    ensures
        apply_all(book.chapters@, out).len() == book.chapters@.len(),
        forall|k: int| 0 <= k < book.chapters@.len() ==> (#[trigger] apply_all(book.chapters@, out)[k]).loaded,
{
    let chs = book.chapters@;
    let hrefs = chapter_hrefs(index.spine@);
    let targets = toc_targets(index.toc@);
    lemma_apply_all_fields(chs, out);
    lemma_pending_covers(chs);
    assert forall|k: int| 0 <= k < chs.len() implies (#[trigger] apply_all(chs, out)[k]).loaded by {
        assert(unloaded_chapter(chs[k], chapter_title_for(targets, hrefs[k], k), hrefs[k]));
        let m = choose|m: int| 0 <= m < pending_jobs(chs).len() && #[trigger] pending_jobs(chs)[m].0 == k;
        assert(out[m].0 == k);
    }
}

/// Storing content makes a chapter loaded with that content; unloading it
/// again gives back a chapter with the same title and document path, not
/// loaded and without content.
pub proof fn law_apply_then_unload(chs: Seq<Chapter>, idx: int, blocks: Vec<ContentBlock>, after: Chapter)
    requires
        0 <= idx < chs.len(),
        unloaded_from(after, apply_one(chs, idx, blocks)[idx]),
    ensures
        apply_one(chs, idx, blocks)[idx].loaded,
        apply_one(chs, idx, blocks)[idx].blocks == blocks,
        after.title == chs[idx].title,
        after.source_href == chs[idx].source_href,
        !after.loaded,
        after.blocks@.len() == 0,
{
}

proof fn lemma_toc_kept(before: EpubBook, after: EpubBook)
    requires
        toc_consistent(before),
        after.same_except_chapters(&before),
        after.chapters@.len() == before.chapters@.len(),
        forall|k: int| 0 <= k < before.chapters@.len() ==> (#[trigger] after.chapters@[k]).title == before.chapters@[k].title,
    ensures
        toc_consistent(after),
{
    assert forall|j: int| 0 <= j < after.toc@.len() implies {
        let e = #[trigger] after.toc@[j];
        &&& e.chapter_index < after.chapters@.len()
        &&& e.title@ == after.chapters@[e.chapter_index as int].title@
    } by {
        assert(after.toc@[j] == before.toc@[j]);
        let c = before.toc@[j].chapter_index as int;
        assert(after.chapters@[c].title == before.chapters@[c].title);
    }
}

/// Storing the content of a chapter keeps the table of contents fitting the
/// chapters.
pub proof fn law_toc_survives_store(before: EpubBook, after: EpubBook, idx: int, blocks: Vec<ContentBlock>)
    requires
        toc_consistent(before),
        after.chapters@ == apply_one(before.chapters@, idx, blocks),
        after.same_except_chapters(&before),
    ensures
        toc_consistent(after),
{
    lemma_toc_kept(before, after);
}

/// Storing the content of several chapters keeps the table of contents fitting
/// the chapters.
pub proof fn law_toc_survives_stores(before: EpubBook, after: EpubBook, loaded: Seq<(usize, Vec<ContentBlock>)>)
    requires
        toc_consistent(before),
        after.chapters@ == apply_all(before.chapters@, loaded),
        after.same_except_chapters(&before),
    ensures
        toc_consistent(after),
{
    lemma_apply_all_fields(before.chapters@, loaded);
    assert forall|k: int| 0 <= k < before.chapters@.len() implies (#[trigger] after.chapters@[k]).title
        == before.chapters@[k].title by {
        assert(after.chapters@[k] == apply_all(before.chapters@, loaded)[k]);
    }
    lemma_toc_kept(before, after);
}

/// Unloading a chapter keeps the table of contents fitting the chapters.
pub proof fn law_toc_survives_unload(before: EpubBook, after: EpubBook, idx: usize)
    requires
        toc_consistent(before),
        after.chapters@.len() == before.chapters@.len(),
        forall|j: int|
            0 <= j < before.chapters@.len() && j != idx ==> #[trigger] after.chapters@[j] == before.chapters@[j],
        idx < before.chapters@.len() ==> unloaded_from(after.chapters@[idx as int], before.chapters@[idx as int]),
        after.same_except_chapters(&before),
    ensures
        toc_consistent(after),
{
    assert forall|k: int| 0 <= k < before.chapters@.len() implies (#[trigger] after.chapters@[k]).title
        == before.chapters@[k].title by {
        if k != idx {
            assert(after.chapters@[k] == before.chapters@[k]);
        }
    }
    lemma_toc_kept(before, after);
}

/// Loading every pending chapter, whatever the parser returns, keeps the table
/// of contents fitting the chapters.
pub proof fn law_toc_survives_load_all<F>(before: EpubBook, after: EpubBook, r: Result<(), String>, parse: F) where
    F: FnOnce(&String, &Vec<(usize, String)>, &Vec<String>) -> Result<
        Vec<(usize, Vec<ContentBlock>)>,
        String,
    >,

    requires
        toc_consistent(before),
        loads_all(before, after, r, parse),
    ensures
        toc_consistent(after),
{
    if before.source_path is None || pending_jobs(before.chapters@).len() == 0 {
    } else {
        let (jobs, out) = choose|jobs: Vec<(usize, String)>, out: Result<Vec<(usize, Vec<ContentBlock>)>, String>|
            #![trigger call_ensures(parse, (&before.source_path->0, &jobs, &before.image_resource_paths), out)]
            {
                &&& jobs_view(jobs@) == pending_jobs(before.chapters@)
                &&& call_ensures(parse, (&before.source_path->0, &jobs, &before.image_resource_paths), out)
                &&& match out {
                    Ok(l) => r is Ok && after.chapters@ == apply_all(before.chapters@, l@)
                        && after.same_except_chapters(&before),
                    Err(e) => r == Err::<(), String>(e) && after == before,
                }
            };
        if let Ok(l) = out {
            law_toc_survives_stores(before, after, l@);
        }
    }
}

/// A book opened with a parser that returns every chapter it was asked for has
/// every chapter loaded, and its table of contents fits its chapters.
pub proof fn law_open_loads_every_chapter<F>(index: EpubIndex, parse: F, book: EpubBook) where
    F: FnOnce(&String, &Vec<(usize, String)>, &Vec<String>) -> Result<
        Vec<(usize, Vec<ContentBlock>)>,
        String,
    >,

    requires
        opened_from(index, parse, Ok(book)),
        parse_is_complete(parse),
    ensures
        forall|k: int| 0 <= k < book.chapters@.len() ==> (#[trigger] book.chapters@[k]).loaded,
        toc_consistent(book),
{
    let (indexed, loaded, outcome) = choose|indexed: EpubBook, loaded: EpubBook, outcome: Result<(), String>|
        #![trigger built_from(indexed, index), loads_all(indexed, loaded, outcome, parse)]
        {
            &&& built_from(indexed, index)
            &&& loads_all(indexed, loaded, outcome, parse)
            &&& Ok::<EpubBook, String>(book) == match outcome {
                Ok(_) => Ok::<EpubBook, String>(loaded),
                Err(e) => Err(e),
            }
        };
    assert(loaded == book);
    law_toc_points_to_chapters(indexed, index);
    law_toc_survives_load_all(indexed, loaded, outcome, parse);
    let chs = indexed.chapters@;
    let hrefs = chapter_hrefs(index.spine@);
    let targets = toc_targets(index.toc@);
    if pending_jobs(chs).len() == 0 {
        lemma_pending_covers(chs);
        assert forall|k: int| 0 <= k < book.chapters@.len() implies (#[trigger] book.chapters@[k]).loaded by {
            assert(unloaded_chapter(chs[k], chapter_title_for(targets, hrefs[k], k), hrefs[k]));
            assert(!chs[k].loaded && chs[k].source_href is Some);
        }
    } else {
        let (jobs, out) = choose|jobs: Vec<(usize, String)>, out: Result<Vec<(usize, Vec<ContentBlock>)>, String>|
            #![trigger call_ensures(parse, (&indexed.source_path->0, &jobs, &indexed.image_resource_paths), out)]
            {
                &&& jobs_view(jobs@) == pending_jobs(indexed.chapters@)
                &&& call_ensures(parse, (&indexed.source_path->0, &jobs, &indexed.image_resource_paths), out)
                &&& match out {
                    Ok(l) => outcome is Ok && loaded.chapters@ == apply_all(indexed.chapters@, l@)
                        && loaded.same_except_chapters(&indexed),
                    Err(e) => outcome == Err::<(), String>(e) && loaded == indexed,
                }
            };
        let l = out->Ok_0;
        assert(l@.len() == jobs@.len());
        assert forall|m: int| 0 <= m < l@.len() implies (#[trigger] l@[m]).0 == pending_jobs(chs)[m].0 by {
            assert(jobs_view(jobs@)[m] == pending_jobs(chs)[m]);
        }
        law_complete_load_of_indexed_book(indexed, index, l@);
    }
}

proof fn lemma_label_push(t: Seq<(Seq<char>, Seq<char>)>, x: (Seq<char>, Seq<char>), path: Seq<char>)
    ensures
        toc_label_for(t.push(x), path) == match toc_label_for(t, path) {
            Some(l) => Some(l),
            None => if paths_match(path, x.1) {
                Some(x.0)
            } else {
                None
            },
        },
    decreases t.len(),
{
    if t.len() == 0 {
        assert(t.push(x).drop_first() =~= t);
        assert(t.push(x)[0] == x);
    } else {
        assert(t.push(x)[0] == t[0]);
        assert(t.push(x).drop_first() =~= t.drop_first().push(x));
        lemma_label_push(t.drop_first(), x, path);
    }
}

proof fn lemma_no_matching_entry(toc: Seq<TocItem>, path: Seq<char>)
    requires
        forall|k: int|
            0 <= k < toc.len() && (#[trigger] toc[k]).href is Some ==> !paths_match(path, toc[k].href->0@),
    ensures
        toc_label_for(toc_targets(toc), path) is None,
    decreases toc.len(),
{
    if toc.len() > 0 {
        let pre = toc.drop_last();
        assert forall|k: int| 0 <= k < pre.len() && (#[trigger] pre[k]).href is Some implies !paths_match(
            path,
            pre[k].href->0@,
        ) by {
            assert(pre[k] == toc[k]);
        }
        lemma_no_matching_entry(pre, path);
        let last = toc.last();
        assert(last == toc[toc.len() - 1]);
        if let Some(h) = last.href {
            law_normalize_idempotent(h@);
            lemma_label_push(toc_targets(pre), (last.label@, normalized_path(h@)), path);
        }
    }
}

proof fn lemma_first_matching_entry(toc: Seq<TocItem>, path: Seq<char>, j: int)
    requires
        0 <= j < toc.len(),
        toc[j].href is Some,
        paths_match(path, toc[j].href->0@),
        forall|k: int| 0 <= k < j && (#[trigger] toc[k]).href is Some ==> !paths_match(path, toc[k].href->0@),
    ensures
        toc_label_for(toc_targets(toc), path) == Some(toc[j].label@),
    decreases toc.len(),
{
    let pre = toc.drop_last();
    let last = toc.last();
    assert(last == toc[toc.len() - 1]);
    if j == toc.len() - 1 {
        assert forall|k: int| 0 <= k < pre.len() && (#[trigger] pre[k]).href is Some implies !paths_match(
            path,
            pre[k].href->0@,
        ) by {
            assert(pre[k] == toc[k]);
        }
        lemma_no_matching_entry(pre, path);
        let h = last.href->0;
        law_normalize_idempotent(h@);
        lemma_label_push(toc_targets(pre), (last.label@, normalized_path(h@)), path);
    } else {
        assert(pre[j] == toc[j]);
        assert forall|k: int| 0 <= k < j && (#[trigger] pre[k]).href is Some implies !paths_match(path, pre[k].href->0@) by {
            assert(pre[k] == toc[k]);
        }
        lemma_first_matching_entry(pre, path, j);
        if let Some(h) = last.href {
            lemma_label_push(toc_targets(pre), (last.label@, normalized_path(h@)), path);
        }
    }
}

/// A chapter is titled by the earliest navigation entry, in navigation order,
/// whose target matches its document: when entry `j` matches chapter `i`'s
/// document and no entry before `j` does, chapter `i` carries entry `j`'s
/// label, whatever later entries (such as nested sections of the same
/// document) say.
pub proof fn law_chapter_titled_by_first_matching_entry(book: EpubBook, index: EpubIndex, i: int, j: int)
    requires
        built_from(book, index),
        0 <= i < book.chapters@.len(),
        0 <= j < index.toc@.len(),
        index.toc@[j].href is Some,
        paths_match(book.chapters@[i].source_href->0@, index.toc@[j].href->0@),
        forall|k: int|
            0 <= k < j && (#[trigger] index.toc@[k]).href is Some ==> !paths_match(
                book.chapters@[i].source_href->0@,
                index.toc@[k].href->0@,
            ),
    ensures
        book.chapters@[i].title@ == index.toc@[j].label@,
{
    let hrefs = chapter_hrefs(index.spine@);
    let targets = toc_targets(index.toc@);
    assert(unloaded_chapter(book.chapters@[i], chapter_title_for(targets, hrefs[i], i), hrefs[i]));
    lemma_first_matching_entry(index.toc@, hrefs[i], j);
}

} // verus!
