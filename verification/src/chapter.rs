//! The content model of a book: styled text spans, content blocks, chapters and
//! table-of-contents entries.

use std::sync::Arc;

use vstd::prelude::*;

verus! {

/// Emphasis of a run of text.
#[derive(Clone, Debug)]
pub enum InlineStyle {
    Normal,
    Bold,
    Italic,
    BoldItalic,
}

/// A run of text with one style, possibly a link.
#[derive(Clone, Debug)]
pub struct TextSpan {
    pub text: String,
    pub style: InlineStyle,
    pub link_url: Option<String>,
}

/// One block of chapter content.
#[derive(Clone, Debug)]
pub enum ContentBlock {
    Heading { level: u8, spans: Vec<TextSpan> },
    Paragraph { spans: Vec<TextSpan> },
    Image { data: Arc<Vec<u8>>, alt: Option<String> },
    Separator,
    BlankLine,
}

/// A chapter: its title, its content blocks (empty until loaded), the
/// normalised path of its document inside the book, and whether its content
/// has been loaded.
#[derive(Clone, Debug)]
pub struct Chapter {
    pub title: String,
    pub blocks: Vec<ContentBlock>,
    pub source_href: Option<String>,
    pub loaded: bool,
}

/// An entry of the table of contents, pointing at a chapter by index.
#[derive(Clone, Debug)]
pub struct TocEntry {
    pub title: String,
    pub chapter_index: usize,
}

/// The titles of a sequence of chapters.
pub open spec fn chapter_titles(chs: Seq<Chapter>) -> Seq<Seq<char>> {
    chs.map_values(|c: Chapter| c.title@)
}

} // verus!
