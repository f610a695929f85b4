use reader_core::book::{EpubBook, EpubIndex, SpineItem, TocItem};
use reader_core::chapter::{ContentBlock, TextSpan, InlineStyle};
use reader_core::loading::{document_path_for, parse_chapter_from_epub};

fn s(x: &str) -> String {
    x.to_string()
}

fn spine(mt: &str, href: &str) -> SpineItem {
    SpineItem { media_type: Some(s(mt)), href: Some(s(href)) }
}

fn index() -> EpubIndex {
    EpubIndex {
        title: Some(s("T")),
        cover_data: None,
        image_hrefs: vec![Some(s("img/a.png"))],
        toc: vec![TocItem { label: s("One"), href: Some(s("c1.html")) }],
        spine: vec![spine("text/html", "c1.html"), spine("text/css", "s.css"), spine("text/html", "c2.html"), spine("text/html", "c3.html")],
        fonts: Vec::new(),
        source_path: s("/b.epub"),
    }
}

fn para(t: &str) -> ContentBlock {
    ContentBlock::Paragraph { spans: vec![TextSpan { text: s(t), style: InlineStyle::Normal, link_url: None }] }
}

#[test]
fn apply_marks_loaded_and_unload_clears() {
    let mut book = EpubBook::from_index(index());
    assert!(!book.chapter_is_loaded(1));
    book.apply_loaded_chapter(1, vec![para("x")]);
    assert!(book.chapter_is_loaded(1));
    assert_eq!(book.chapters[1].blocks.len(), 1);
    assert!(!book.chapter_is_loaded(0));
    book.unload_chapter(1);
    assert!(!book.chapter_is_loaded(1));
    assert!(book.chapters[1].blocks.is_empty());
    assert_eq!(book.chapters[1].source_href.as_deref(), Some("c2.html"));
}

#[test]
fn out_of_range_is_ignored() {
    let mut book = EpubBook::from_index(index());
    book.apply_loaded_chapter(99, vec![para("x")]);
    book.unload_chapter(99);
    assert!(!book.chapter_is_loaded(99));
    assert_eq!(book.chapters.len(), 3);
}

#[test]
fn pending_jobs_skip_loaded_chapters() {
    let mut book = EpubBook::from_index(index());
    book.apply_loaded_chapter(0, vec![]);
    let jobs = book.pending_chapter_jobs();
    assert_eq!(jobs, vec![(1, s("c2.html")), (2, s("c3.html"))]);
}

#[test]
fn load_all_stores_parsed_content() {
    let mut book = EpubBook::from_index(index());
    let r = book.load_all_chapters(|path, jobs, images| {
        assert_eq!(path, "/b.epub");
        assert_eq!(images, &vec![s("img/a.png")]);
        Ok(jobs.iter().map(|(i, h)| (*i, vec![para(h)])).collect())
    });
    assert!(r.is_ok());
    assert!((0..3).all(|i| book.chapter_is_loaded(i)));
    assert!(book.pending_chapter_jobs().is_empty());
    match &book.chapters[2].blocks[0] {
        ContentBlock::Paragraph { spans } => assert_eq!(spans[0].text, "c3.html"),
        _ => panic!("unexpected block"),
    }
}

#[test]
fn load_all_error_leaves_book_unchanged() {
    let mut book = EpubBook::from_index(index());
    let r = book.load_all_chapters(|_, _, _| Err(s("broken")));
    assert_eq!(r, Err(s("broken")));
    assert!(!book.chapter_is_loaded(0));
}

#[test]
fn load_all_without_source_does_nothing() {
    let base = EpubBook::from_index(index());
    let mut book = EpubBook::from_cached_parts(base.title, base.chapters, base.toc, None, Vec::new(), Default::default(), Default::default());
    let r = book.load_all_chapters(|_, _, _| panic!("must not be called"));
    assert!(r.is_ok());
    assert!(!book.chapter_is_loaded(0));
    assert!(book.image_resource_paths().is_empty());
}

#[test]
fn load_all_with_nothing_pending_does_nothing() {
    let mut book = EpubBook::from_index(index());
    for i in 0..3 {
        book.apply_loaded_chapter(i, vec![]);
    }
    let r = book.load_all_chapters(|_, _, _| panic!("must not be called"));
    assert!(r.is_ok());
}

#[test]
fn open_indexes_and_loads() {
    let book = EpubBook::open(index(), |_, jobs, _| Ok(jobs.iter().map(|(i, _)| (*i, vec![ContentBlock::BlankLine])).collect())).unwrap();
    assert!((0..3).all(|i| book.chapter_is_loaded(i)));
    let failed = EpubBook::open(index(), |_, _, _| Err(s("no")));
    assert_eq!(failed.err(), Some(s("no")));
}

#[test]
fn open_or_cached_prefers_cache() {
    let cached = EpubBook::from_index(index());
    let (book, from_cache) = EpubBook::open_or_cached(Some(cached), || panic!("must not open")).unwrap();
    assert!(from_cache);
    assert_eq!(book.title, "T");
    let (book, from_cache) = EpubBook::open_or_cached(None, || Ok(EpubBook::from_index(index()))).unwrap();
    assert!(!from_cache);
    assert_eq!(book.chapters.len(), 3);
    assert_eq!(EpubBook::open_or_cached(None, || Err(s("e"))).err(), Some(s("e")));
}

#[test]
fn document_lookup_skips_non_documents() {
    let sp = index().spine;
    assert_eq!(document_path_for(&sp, "s.css"), None);
    assert_eq!(document_path_for(&sp, "OEBPS/c2.html#x"), Some(s("c2.html")));
    assert_eq!(document_path_for(&sp, "nothing.html"), None);
}

#[test]
fn parse_chapter_reports_missing_document() {
    let sp = index().spine;
    let r = parse_chapter_from_epub(&sp, "nothing.html", |_| Ok(vec![]));
    assert_eq!(r.err(), Some(s("未找到章节资源: nothing.html")));
    let r = parse_chapter_from_epub(&sp, "c3.html", |p| Ok(vec![para(p)])).unwrap();
    assert_eq!(r.len(), 1);
}

#[test]
fn parse_chapters_runs_every_job() {
    let jobs = vec![(3, s("a")), (5, s("b"))];
    let out = EpubBook::parse_chapters_from_file(&jobs, |h| Ok(vec![para(h)])).unwrap();
    assert_eq!(out.iter().map(|(i, _)| *i).collect::<Vec<_>>(), vec![3, 5]);
    let err = EpubBook::parse_chapters_from_file(&jobs, |h| if h == "b" { Err(s("bad b")) } else { Ok(vec![]) });
    assert_eq!(err.err(), Some(s("bad b")));
}

#[test]
fn parse_chapters_while_skips_unwanted() {
    let jobs = vec![(1, s("a")), (2, s("b")), (3, s("c"))];
    let out = EpubBook::parse_chapters_from_file_while(&jobs, |i| i != 2, |_| Ok(vec![])).unwrap();
    assert_eq!(out.iter().map(|(i, _)| *i).collect::<Vec<_>>(), vec![1, 3]);
}

#[test]
fn parse_chapters_while_never_parses_refused_jobs() {
    let jobs = vec![(1, s("a")), (2, s("b"))];
    let out = EpubBook::parse_chapters_from_file_while(&jobs, |_| false, |_| Err(s("must not parse")));
    assert!(matches!(out, Ok(ref v) if v.is_empty()));
    let out = EpubBook::parse_chapters_from_file_while(&jobs, |i| i == 2, |h| {
        if h == "a" { Err(s("bad a")) } else { Ok(vec![para(h)]) }
    })
    .unwrap();
    assert_eq!(out.iter().map(|(i, _)| *i).collect::<Vec<_>>(), vec![2]);
}

#[test]
fn parse_chapters_reports_first_failure() {
    let jobs = vec![(1, s("a")), (2, s("b")), (3, s("c"))];
    let err = EpubBook::parse_chapters_from_file(&jobs, |h| {
        if h == "a" { Ok(vec![]) } else { Err(format!("bad {h}")) }
    });
    assert_eq!(err.err(), Some(s("bad b")));
}

fn toc_fits(book: &EpubBook) -> bool {
    book.toc.iter().all(|e| e.chapter_index < book.chapters.len() && e.title == book.chapters[e.chapter_index].title)
        && book.toc.windows(2).all(|w| w[0].chapter_index < w[1].chapter_index)
        && (book.chapters.is_empty() || !book.toc.is_empty())
}

#[test]
fn toc_still_fits_after_loading_and_unloading() {
    let mut book = EpubBook::from_index(index());
    assert!(toc_fits(&book));
    book.apply_loaded_chapter(0, vec![para("x")]);
    assert!(toc_fits(&book));
    book.unload_chapter(0);
    assert!(toc_fits(&book));
    book.apply_loaded_chapters(vec![(2, vec![]), (1, vec![])]);
    assert!(toc_fits(&book));
    let r = book.load_all_chapters(|_, jobs, _| Ok(jobs.iter().map(|(i, _)| (*i, vec![])).collect()));
    assert!(r.is_ok());
    assert!(toc_fits(&book));
    assert_eq!(book.toc.len(), 1);
    assert_eq!(book.toc[0].title, "One");
}

#[test]
fn open_with_complete_parser_loads_every_chapter() {
    let book = EpubBook::open(index(), |_, jobs, _| {
        EpubBook::parse_chapters_from_file(jobs, |h| Ok(vec![para(h)]))
    })
    .unwrap();
    assert!((0..book.chapters.len()).all(|i| book.chapter_is_loaded(i)));
    assert!(toc_fits(&book));
}
