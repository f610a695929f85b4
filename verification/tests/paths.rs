use reader_core::cache::sibling_cache_path;
use reader_core::links::{link_action, normalize_epub_href, LinkAction};
use reader_core::chapter::Chapter;
use reader_core::path::{normalize_resource_path, resource_path_matches};

#[test]
fn normalize_resolves_dots_and_drops_fragment() {
    assert_eq!(normalize_resource_path("OEBPS/Text/../Text/./ch1.xhtml#frag"), "OEBPS/Text/ch1.xhtml");
}

#[test]
fn normalize_reads_backslashes_and_drops_query() {
    assert_eq!(normalize_resource_path("/a//b\\c.html?x=1#y"), "/a/b/c.html");
}

#[test]
fn normalize_parent_beyond_root_is_dropped() {
    assert_eq!(normalize_resource_path("../../x.html"), "x.html");
    assert_eq!(normalize_resource_path("/../x.html"), "/x.html");
}

#[test]
fn normalize_edge_cases() {
    assert_eq!(normalize_resource_path(""), "");
    assert_eq!(normalize_resource_path("/"), "/");
    assert_eq!(normalize_resource_path("#only"), "");
    assert_eq!(normalize_resource_path("a?b#c"), "a");
    assert_eq!(normalize_resource_path("./"), "");
    assert_eq!(normalize_resource_path("文本/第一章.xhtml"), "文本/第一章.xhtml");
}

#[test]
fn normalize_is_idempotent_on_examples() {
    for p in ["OEBPS/Text/../ch1.xhtml#a", "/x/./y/", "\\a\\b", "", "/", "..", "a/../../b?q"] {
        let once = normalize_resource_path(p);
        assert_eq!(normalize_resource_path(&once), once);
    }
}

#[test]
fn matches_by_suffix_and_file_name() {
    assert!(resource_path_matches("Text/ch1.xhtml", "OEBPS/Text/ch1.xhtml"));
    assert!(resource_path_matches("OEBPS/Text/ch1.xhtml", "Text/ch1.xhtml"));
    assert!(resource_path_matches("a/ch1.xhtml", "b/ch1.xhtml"));
    assert!(resource_path_matches("/OEBPS/ch1.xhtml", "OEBPS/ch1.xhtml#top"));
    assert!(!resource_path_matches("a/ch1.xhtml", "a/ch2.xhtml"));
}

#[test]
fn empty_path_matches_anything() {
    assert!(resource_path_matches("#frag", "OEBPS/ch1.xhtml"));
}

#[test]
fn matching_is_symmetric_and_reflexive_on_examples() {
    let paths = ["a/b.html", "b.html", "c/d/b.html", "x.html", "/a/b.html#q", ""];
    for a in paths {
        assert!(resource_path_matches(a, a));
        for b in paths {
            assert_eq!(resource_path_matches(a, b), resource_path_matches(b, a));
        }
    }
}

#[test]
fn normalized_path_matches_its_source() {
    for p in ["OEBPS/../Text/ch1.xhtml#a", "/x/./y", "a\\b.html"] {
        assert!(resource_path_matches(&normalize_resource_path(p), p));
    }
}

#[test]
fn sibling_cache_path_replaces_extension() {
    assert_eq!(sibling_cache_path("books/novel.epub"), "books/novel.parse.bin");
    assert_eq!(sibling_cache_path("novel"), "novel.parse.bin");
    assert_eq!(sibling_cache_path("/books/novel.epub"), "/books/novel.parse.bin");
}

#[test]
fn sibling_cache_path_keeps_dotfile_names_and_inner_dots() {
    assert_eq!(sibling_cache_path("dir/.hidden"), "dir/.hidden.parse.bin");
    assert_eq!(sibling_cache_path("a.tar.gz"), "a.tar.parse.bin");
    assert_eq!(sibling_cache_path(""), "");
}

#[test]
fn sibling_cache_path_of_windows_paths() {
    assert_eq!(sibling_cache_path("C:\\books\\novel.epub"), "C:\\books\\novel.parse.bin");
    assert_eq!(sibling_cache_path("D:\\books\\noext"), "D:\\books\\noext.parse.bin");
    assert_eq!(sibling_cache_path("C:\\books/mixed.v2.epub"), "C:\\books/mixed.v2.parse.bin");
}

#[test]
fn epub_href_normal_form() {
    assert_eq!(normalize_epub_href("  ./Text/ch2.xhtml#p3  "), "Text/ch2.xhtml");
    assert_eq!(normalize_epub_href("#note"), "");
    assert_eq!(normalize_epub_href("/a/b/"), "a/b");
    assert_eq!(normalize_epub_href("././x.html"), "x.html");
    assert_eq!(normalize_epub_href("   "), "");
}

fn chapter(title: &str, href: Option<&str>) -> Chapter {
    Chapter { title: title.to_string(), blocks: Vec::new(), source_href: href.map(|h| h.to_string()), loaded: false }
}

#[test]
fn links_are_classified() {
    let chapters = vec![
        chapter("One", Some("OEBPS/Text/ch1.xhtml")),
        chapter("Two", Some("OEBPS/Text/ch2.xhtml")),
        chapter("Loose", None),
    ];
    assert!(matches!(link_action(&chapters, " HTTPS://example.com "), LinkAction::OpenExternal(ref u) if u == "HTTPS://example.com"));
    assert!(matches!(link_action(&chapters, "MailTo:someone@example.com"), LinkAction::OpenExternal(_)));
    assert!(matches!(link_action(&chapters, "tel:123"), LinkAction::OpenExternal(_)));
    assert!(matches!(link_action(&chapters, "#note1"), LinkAction::Stay));
    assert!(matches!(link_action(&chapters, "ch2.xhtml#sec"), LinkAction::GoToChapter(1)));
    assert!(matches!(link_action(&chapters, "h2.xhtml"), LinkAction::OpenExternal(_)));
    assert!(matches!(link_action(&chapters, "Text/ch2.xhtml#sec"), LinkAction::GoToChapter(1)));
    assert!(matches!(link_action(&chapters, "./OEBPS/Text/ch1.xhtml"), LinkAction::GoToChapter(0)));
    assert!(matches!(link_action(&chapters, "/OEBPS/Text/ch1.xhtml/"), LinkAction::GoToChapter(0)));
    assert!(matches!(link_action(&chapters, "missing.html"), LinkAction::OpenExternal(ref u) if u == "missing.html"));
    assert!(matches!(link_action(&chapters, ""), LinkAction::OpenExternal(ref u) if u.is_empty()));
}

#[test]
fn link_to_a_chapter_document_reaches_it() {
    let chapters = vec![
        chapter("One", Some("OEBPS/Text/ch1.xhtml")),
        chapter("Two", Some("OEBPS/Text/ch2.xhtml")),
    ];
    for (i, ch) in chapters.iter().enumerate() {
        let href = ch.source_href.clone().unwrap();
        assert!(matches!(link_action(&chapters, &href), LinkAction::GoToChapter(j) if j == i));
    }
}
