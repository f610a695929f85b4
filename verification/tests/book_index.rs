use reader_core::book::{EpubBook, EpubIndex, FontResource, SpineItem, TocItem};
use reader_core::chapter::{Chapter, ContentBlock};
use reader_core::reviews::review_chapter_maps;

fn s(x: &str) -> String {
    x.to_string()
}

fn spine(mt: Option<&str>, href: Option<&str>) -> SpineItem {
    SpineItem { media_type: mt.map(s), href: href.map(s) }
}

fn sample_index() -> EpubIndex {
    EpubIndex {
        title: Some(s("A Book")),
        cover_data: Some(vec![1, 2, 3]),
        image_hrefs: vec![Some(s("OEBPS/Images/../Images/a.png")), None, Some(s("b.jpg"))],
        toc: vec![
            TocItem { label: s("Prologue"), href: Some(s("Text/p.xhtml#top")) },
            TocItem { label: s("Nowhere"), href: None },
            TocItem { label: s("Chapter Three"), href: Some(s("OEBPS/Text/c3.xhtml")) },
        ],
        spine: vec![
            spine(Some("application/xhtml+xml"), Some("OEBPS/Text/p.xhtml")),
            spine(Some("text/css"), Some("OEBPS/style.css")),
            spine(Some("text/html"), Some("OEBPS/Text/c2.html")),
            spine(None, Some("OEBPS/Text/orphan.xhtml")),
            spine(Some("application/xhtml+xml"), None),
            spine(Some("application/xhtml+xml"), Some("./OEBPS/Text/c3.xhtml")),
        ],
        fonts: vec![
            FontResource { href: Some(s("OEBPS/Fonts/Serif.ttf")), data: Some(vec![9]) },
            FontResource { href: Some(s("OEBPS/Fonts/Broken.ttf")), data: None },
            FontResource { href: None, data: Some(vec![7, 7]) },
        ],
        source_path: s("/books/a.epub"),
    }
}

#[test]
fn chapters_follow_the_spine() {
    let book = EpubBook::from_index(sample_index());
    assert_eq!(book.title, "A Book");
    assert_eq!(book.cover_data, Some(vec![1, 2, 3]));
    let titles: Vec<&str> = book.chapters.iter().map(|c| c.title.as_str()).collect();
    assert_eq!(titles, vec!["Prologue", "第 2 章", "Chapter Three"]);
    let hrefs: Vec<Option<&str>> = book.chapters.iter().map(|c| c.source_href.as_deref()).collect();
    assert_eq!(hrefs, vec![Some("OEBPS/Text/p.xhtml"), Some("OEBPS/Text/c2.html"), Some("OEBPS/Text/c3.xhtml")]);
    assert!(book.chapters.iter().all(|c| !c.loaded && c.blocks.is_empty()));
    assert_eq!(book.source_path.as_deref(), Some("/books/a.epub"));
}

#[test]
fn toc_lists_named_chapters() {
    let book = EpubBook::from_index(sample_index());
    let toc: Vec<(&str, usize)> = book.toc.iter().map(|e| (e.title.as_str(), e.chapter_index)).collect();
    assert_eq!(toc, vec![("Prologue", 0), ("Chapter Three", 2)]);
}

#[test]
fn toc_falls_back_to_all_chapters() {
    let mut index = sample_index();
    index.toc = Vec::new();
    let book = EpubBook::from_index(index);
    let toc: Vec<(&str, usize)> = book.toc.iter().map(|e| (e.title.as_str(), e.chapter_index)).collect();
    assert_eq!(toc, vec![("第 1 章", 0), ("第 2 章", 1), ("第 3 章", 2)]);
}

#[test]
fn numbered_titles_use_decimal() {
    let mut index = sample_index();
    index.toc = Vec::new();
    index.spine = (0..12).map(|i| spine(Some("text/html"), Some(&format!("c{i}.html")))).collect();
    let book = EpubBook::from_index(index);
    assert_eq!(book.chapters[9].title, "第 10 章");
    assert_eq!(book.chapters[11].title, "第 12 章");
}

#[test]
fn missing_title_gets_default() {
    let mut index = sample_index();
    index.title = None;
    let book = EpubBook::from_index(index);
    assert_eq!(book.title, "未知书名");
}

#[test]
fn image_paths_are_normalised() {
    let book = EpubBook::from_index(sample_index());
    assert_eq!(book.image_resource_paths(), &[s("OEBPS/Images/a.png"), s("b.jpg")]);
}

#[test]
fn readable_fonts_are_named_by_stem() {
    let book = EpubBook::from_index(sample_index());
    assert_eq!(book.fonts, vec![(s("Serif"), vec![9]), (s("EmbeddedFont"), vec![7, 7])]);
}

#[test]
fn empty_book() {
    let index = EpubIndex {
        title: None,
        cover_data: None,
        image_hrefs: Vec::new(),
        toc: Vec::new(),
        spine: Vec::new(),
        fonts: Vec::new(),
        source_path: s("x.epub"),
    };
    let book = EpubBook::from_index(index);
    assert!(book.chapters.is_empty());
    assert!(book.toc.is_empty());
    assert!(book.chapter_reviews.is_empty());
}

fn titled(t: &str) -> Chapter {
    Chapter { title: s(t), blocks: Vec::new(), source_href: None, loaded: false }
}

#[test]
fn reviews_pair_with_their_chapters() {
    let chapters: Vec<Chapter> = ["第一章", "第一章 - 段评", "第二章", "第二章 - 段评"].iter().map(|t| titled(t)).collect();
    let (map, set) = review_chapter_maps(&chapters);
    assert_eq!(map.len(), 2);
    assert_eq!(map.get(&0), Some(&1));
    assert_eq!(map.get(&2), Some(&3));
    assert_eq!(set.len(), 2);
    assert!(set.contains(&1) && set.contains(&3));
}

#[test]
fn repeated_titles_pair_in_order() {
    let chapters: Vec<Chapter> = ["A", "A", "A - 段评", "B", "A - 段评"].iter().map(|t| titled(t)).collect();
    let (map, set) = review_chapter_maps(&chapters);
    assert_eq!(map.get(&0), Some(&2));
    assert_eq!(map.get(&1), Some(&4));
    assert_eq!(map.len(), 2);
    assert_eq!(set.len(), 2);
}

#[test]
fn review_without_base_chapter() {
    let chapters: Vec<Chapter> = ["X - 段评", "A", "A - 段评", "A - 段评"].iter().map(|t| titled(t)).collect();
    let (map, set) = review_chapter_maps(&chapters);
    assert_eq!(map.len(), 1);
    assert_eq!(map.get(&1), Some(&2));
    assert_eq!(set.len(), 3);
}

#[test]
fn review_maps_from_index() {
    let mut index = sample_index();
    index.toc = vec![
        TocItem { label: s("甲"), href: Some(s("a.html")) },
        TocItem { label: s("甲 - 段评"), href: Some(s("a_r.html")) },
    ];
    index.spine = vec![spine(Some("text/html"), Some("a.html")), spine(Some("text/html"), Some("a_r.html"))];
    let book = EpubBook::from_index(index);
    assert_eq!(book.chapter_reviews.get(&0), Some(&1));
    assert!(book.review_chapter_indices.contains(&1));
}

#[test]
fn cloned_book_keeps_everything() {
    let mut index = sample_index();
    index.toc = vec![TocItem { label: s("甲 - 段评"), href: Some(s("a_r.html")) }];
    index.spine = vec![spine(Some("text/html"), Some("a.html")), spine(Some("text/html"), Some("a_r.html"))];
    let book = EpubBook::from_index(index);
    let copy = book.clone();
    assert_eq!(copy.title, book.title);
    assert_eq!(copy.chapters.len(), book.chapters.len());
    assert_eq!(copy.chapters[1].title, "甲 - 段评");
    assert_eq!(copy.toc.len(), book.toc.len());
    assert_eq!(copy.fonts, book.fonts);
    assert_eq!(copy.chapter_reviews, book.chapter_reviews);
    assert_eq!(copy.review_chapter_indices, book.review_chapter_indices);
    assert!(copy.review_chapter_indices.contains(&1));
    assert_eq!(copy.source_path, book.source_path);
    assert_eq!(copy.image_resource_paths(), book.image_resource_paths());
}

#[test]
fn block_of_each_kind_can_be_stored() {
    let blocks = vec![ContentBlock::Separator, ContentBlock::BlankLine];
    let mut book = EpubBook::from_index(sample_index());
    book.apply_loaded_chapter(0, blocks);
    assert_eq!(book.chapters[0].blocks.len(), 2);
}

#[test]
fn toc_entries_point_at_chapters_with_their_titles() {
    for toc in [sample_index().toc, Vec::new()] {
        let mut index = sample_index();
        index.toc = toc;
        let book = EpubBook::from_index(index);
        let mut last = None;
        for e in &book.toc {
            assert!(e.chapter_index < book.chapters.len());
            assert_eq!(e.title, book.chapters[e.chapter_index].title);
            if let Some(prev) = last {
                assert!(prev < e.chapter_index);
            }
            last = Some(e.chapter_index);
        }
        assert!(!book.toc.is_empty());
    }
}

#[test]
fn chapter_paths_are_in_normal_form() {
    let book = EpubBook::from_index(sample_index());
    for c in &book.chapters {
        let h = c.source_href.clone().unwrap();
        assert_eq!(reader_core::path::normalize_resource_path(&h), h);
    }
}

#[test]
fn paired_reviews_are_listed() {
    let mut index = sample_index();
    index.toc = Vec::new();
    index.spine = ["a.html", "b.html", "c.html"].iter().map(|h| spine(Some("text/html"), Some(h))).collect();
    index.toc = vec![
        TocItem { label: s("甲"), href: Some(s("a.html")) },
        TocItem { label: s("乙"), href: Some(s("b.html")) },
        TocItem { label: s("甲 - 段评"), href: Some(s("c.html")) },
    ];
    let book = EpubBook::from_index(index);
    for (k, v) in &book.chapter_reviews {
        assert!(book.review_chapter_indices.contains(v));
        assert_ne!(k, v);
    }
    assert_eq!(book.chapter_reviews.get(&0), Some(&2));
}
