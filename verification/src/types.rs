//! The values the library hands to the application and takes from it.
use vstd::prelude::*;

verus! {

/// A book as the library lists it.
#[derive(Debug, Clone)]
pub struct BookDto {
    pub id: i64,
    pub title: String,
    pub author: String,
    pub description: String,
    pub cover_image_data: Option<String>,
    pub format: String,
    pub year: i64,
    pub progress: i64,
    pub tags: Vec<String>,
    pub is_epub_available: bool,
}

/// A file that an import turned down, and why.
#[derive(Debug, Clone)]
pub struct ImportRejection {
    pub file_name: String,
    pub reason: String,
}

/// How an import went: how many files came in, and which were turned down.
#[derive(Debug, Clone)]
pub struct ImportBooksResult {
    pub imported_count: usize,
    pub rejected: Vec<ImportRejection>,
}

/// New metadata for a book.
#[derive(Debug, Clone)]
pub struct UpdateBookMetadataInput {
    pub book_id: i64,
    pub title: String,
    pub author: String,
    pub description: String,
    pub tags: Vec<String>,
}

/// One chapter of an EPUB as the reader shows it.
#[derive(Debug, Clone)]
pub struct EpubChapterDto {
    pub title: String,
    pub html: String,
}

impl View for EpubChapterDto {
    type V = (Seq<char>, Seq<char>);

    open spec fn view(&self) -> (Seq<char>, Seq<char>) {
        (self.title@, self.html@)
    }
}

/// An EPUB opened for reading, with where the reader left off.
#[derive(Debug, Clone)]
pub struct EpubReadDto {
    pub book_id: i64,
    pub book_title: String,
    pub chapters: Vec<EpubChapterDto>,
    pub last_chapter_index: i64,
    pub progress_percent: i64,
}

} // verus!
