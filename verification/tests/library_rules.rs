use diameter_library::library::{
    attach_tags, bounded_progress, build_epub_read, check_import_source, copy_failure,
    destination_file_name, destination_search_step, has_column, import_file_name, missing_cover_sources, normalize_book_title,
    normalize_metadata, normalize_tags, require_book_changed, resolve_format,
};
use diameter_library::types::{BookDto, EpubChapterDto, UpdateBookMetadataInput};

fn strings(v: &[&str]) -> Vec<String> {
    v.iter().map(|s| s.to_string()).collect()
}

fn book(id: i64, title: &str) -> BookDto {
    BookDto {
        id,
        title: title.to_string(),
        author: "Autor".to_string(),
        description: String::new(),
        cover_image_data: None,
        format: "EPUB".to_string(),
        year: 2020,
        progress: 10,
        tags: Vec::new(),
        is_epub_available: true,
    }
}

#[test]
fn tags_are_trimmed_and_deduplicated_ignoring_case() {
    let tags = strings(&["  Ficção ", "ficção", "", "   ", "Drama", "DRAMA", "história"]);
    assert_eq!(normalize_tags(&tags), strings(&["Ficção", "Drama", "história"]));
}

#[test]
fn normalizing_tags_twice_changes_nothing() {
    let once = normalize_tags(&strings(&[" a ", "B", "b", "  c"]));
    assert_eq!(normalize_tags(&once), once);
}

#[test]
fn blank_title_and_author_get_defaults() {
    let payload = UpdateBookMetadataInput {
        book_id: 7,
        title: "   ".to_string(),
        author: "".to_string(),
        description: "  Uma descrição.  ".to_string(),
        tags: strings(&[" x ", "X"]),
    };
    let m = normalize_metadata(&payload);
    assert_eq!(m.book_id, 7);
    assert_eq!(m.title, "Livro sem título");
    assert_eq!(m.author, "Autor desconhecido");
    assert_eq!(m.description, "Uma descrição.");
    assert_eq!(m.tags, strings(&["x"]));
}

#[test]
fn given_title_and_author_are_trimmed() {
    let payload = UpdateBookMetadataInput {
        book_id: 1,
        title: " Duna ".to_string(),
        author: " Frank Herbert".to_string(),
        description: String::new(),
        tags: Vec::new(),
    };
    let m = normalize_metadata(&payload);
    assert_eq!(m.title, "Duna");
    assert_eq!(m.author, "Frank Herbert");
    assert!(m.tags.is_empty());
}

#[test]
fn a_change_that_touches_no_row_means_the_book_is_missing() {
    assert_eq!(require_book_changed(0), Err("book not found".to_string()));
    assert_eq!(require_book_changed(1), Ok(()));
}

#[test]
fn progress_is_held_between_zero_and_one_hundred() {
    assert_eq!(bounded_progress(-5), 0);
    assert_eq!(bounded_progress(150), 100);
    assert_eq!(bounded_progress(42), 42);
    assert_eq!(bounded_progress(i64::MIN), 0);
}

#[test]
fn cover_sources_need_a_format_and_a_path() {
    let rows = vec![
        (1, Some("EPUB".to_string()), Some("/l/a.epub".to_string())),
        (2, None, Some("/l/b.pdf".to_string())),
        (3, Some("PDF".to_string()), Some(String::new())),
        (4, Some("PDF".to_string()), Some("/l/d.pdf".to_string())),
    ];
    assert_eq!(
        missing_cover_sources(rows),
        vec![(1, "EPUB".to_string(), "/l/a.epub".to_string()), (4, "PDF".to_string(), "/l/d.pdf".to_string())]
    );
}

#[test]
fn tags_are_attached_to_their_books_in_row_order() {
    let rows = vec![(1, "a".to_string()), (2, "b".to_string()), (1, "c".to_string())];
    let books = attach_tags(vec![book(2, "Dois"), book(1, "Um"), book(3, "Três"), book(1, "Um de novo")], &rows);
    assert_eq!(books.len(), 4);
    assert_eq!(books[0].tags, strings(&["b"]));
    assert_eq!(books[0].title, "Dois");
    assert_eq!(books[1].tags, strings(&["a", "c"]));
    assert!(books[2].tags.is_empty());
    assert!(books[3].tags.is_empty());
    assert_eq!(books[3].title, "Um de novo");
}

#[test]
fn column_lookup_is_exact() {
    let names = strings(&["id", "title", "cover_image_data"]);
    assert!(has_column(&names, "cover_image_data"));
    assert!(!has_column(&names, "cover"));
    assert!(!has_column(&Vec::new(), "id"));
}

#[test]
fn imported_files_are_named_typed_and_titled_from_their_paths() {
    assert_eq!(import_file_name("/home/u/Livros/duna.epub"), "duna.epub");
    assert_eq!(import_file_name(""), "arquivo");
    assert_eq!(import_file_name("/"), "arquivo");
    assert_eq!(import_file_name("a/.."), "arquivo");
    assert_eq!(resolve_format("x/livro.EPUB"), Some("EPUB"));
    assert_eq!(resolve_format("livro.Pdf"), Some("PDF"));
    assert_eq!(resolve_format("livro.txt"), None);
    assert_eq!(resolve_format("livro"), None);
    assert_eq!(normalize_book_title("/tmp/meu_livro-novo.epub"), "meu livro novo");
    assert_eq!(normalize_book_title("/tmp/___.epub"), "Livro sem título");
    assert_eq!(normalize_book_title(""), "Livro sem título");
    assert_eq!(normalize_book_title("/tmp/ Duna .pdf"), "Duna");
}

#[test]
fn destination_names_count_up_from_the_plain_name() {
    assert_eq!(destination_file_name("/x/livro.epub", 0), "livro.epub");
    assert_eq!(destination_file_name("/x/livro.epub", 2), "livro-2.epub");
    assert_eq!(destination_file_name("/x/README", 1), "README-1");
    assert_eq!(destination_file_name("", 12), "arquivo-12");
}

#[test]
fn import_sources_are_checked_before_copying() {
    let missing = check_import_source("/x/a.epub", false).unwrap_err();
    assert_eq!(missing.file_name, "a.epub");
    assert_eq!(missing.reason, "arquivo não encontrado");
    let unsupported = check_import_source("/x/a.txt", true).unwrap_err();
    assert_eq!(unsupported.file_name, "a.txt");
    assert_eq!(unsupported.reason, "extensão não suportada (use EPUB ou PDF)");
    assert_eq!(check_import_source("/x/a.Pdf", true).ok(), Some("PDF"));
    let failed = copy_failure("a.pdf", "disk full");
    assert_eq!(failed.file_name, "a.pdf");
    assert_eq!(failed.reason, "falha ao copiar arquivo: disk full");
}

#[test]
fn an_opened_epub_resumes_at_the_saved_chapter() {
    let chapters = vec![
        EpubChapterDto { title: "Um".to_string(), html: "<p>1</p>".to_string() },
        EpubChapterDto { title: "Dois".to_string(), html: "<p>2</p>".to_string() },
        EpubChapterDto { title: "Três".to_string(), html: "<p>3</p>".to_string() },
    ];
    let read = build_epub_read(5, "Livro".to_string(), chapters, Some("chapter_index:5".to_string()), 40);
    assert_eq!(read.book_id, 5);
    assert_eq!(read.book_title, "Livro");
    assert_eq!(read.chapters.len(), 3);
    assert_eq!(read.last_chapter_index, 2);
    assert_eq!(read.progress_percent, 40);
}

#[test]
fn the_free_name_search_takes_a_free_name_or_counts_on() {
    assert_eq!(destination_search_step(0, false), None);
    assert_eq!(destination_search_step(0, true), Some(1));
    assert_eq!(destination_search_step(41, true), Some(42));
}
