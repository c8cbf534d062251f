use diameter_library::archive::Archive;
use diameter_library::epub::{merge_untitled_chapters, extract_heading_title, parse_last_chapter_index, BuiltChapter, dedupe_paths, is_navigation_path, image_media_type};
use diameter_library::html::is_useful_title;
use diameter_library::reader::{embed_epub_images, read_epub_file};
use std::io::{Cursor, Write};
use zip::write::SimpleFileOptions;
use zip::ZipWriter;

fn chars(s: &str) -> Vec<char> {
    s.chars().collect()
}

fn text(v: &[char]) -> String {
    v.iter().collect()
}

fn zip_of(entries: &[(&str, &[u8])]) -> Vec<u8> {
    let mut writer = ZipWriter::new(Cursor::new(Vec::new()));
    for (name, data) in entries {
        writer.start_file(*name, SimpleFileOptions::default()).unwrap();
        writer.write_all(data).unwrap();
    }
    writer.finish().unwrap().into_inner()
}

#[test]
fn rejects_epub_file_names_as_titles() {
    assert!(!is_useful_title("a2.xhtml"));
    assert!(!is_useful_title("Text/a2.xhtml"));
    assert!(!is_useful_title("A2"));
    assert!(!is_useful_title("Unknown"));
    assert!(is_useful_title("A coragem de ser imperfeito"));
}

#[test]
fn heading_title_is_preferred_over_technical_document_title() {
    let html = r#"
            <html>
                <head><title>a2.xhtml</title></head>
                <body><h1>Capitulo real</h1><p>Conteudo.</p></body>
            </html>
        "#;

    assert_eq!(
        extract_heading_title(html).map(|t| text(&t)).as_deref(),
        Some("Capitulo real")
    );
}

#[test]
fn untitled_fragments_are_merged_into_previous_clear_chapter() {
    let chapters = merge_untitled_chapters(vec![
        BuiltChapter {
            title: Some("Capitulo real".to_string()),
            fallback_title: "Capítulo 1".to_string(),
            html: "<h1>Capitulo real</h1><p>Parte principal.</p>".to_string(),
        },
        BuiltChapter {
            title: None,
            fallback_title: "Capítulo 2".to_string(),
            html: "<p>Fragmento sem titulo claro.</p>".to_string(),
        },
    ]);

    assert_eq!(chapters.len(), 1);
    assert_eq!(chapters[0].title, "Capitulo real");
    assert!(chapters[0].html.contains("Parte principal."));
    assert!(chapters[0].html.contains("Fragmento sem titulo claro."));
}

#[test]
fn local_epub_images_are_embedded_as_data_uris() {
    let bytes = zip_of(&[("OEBPS/images/photo.jpg", &[0xff, 0xd8, 0xff])]);
    let mut archive = Archive::open(bytes).unwrap();

    let html = r#"<p><img src="../images/photo.jpg" alt="Foto"></p>"#;
    let embedded = text(&embed_epub_images(&mut archive, &chars("OEBPS/Text/chapter.xhtml"), &chars(html)).unwrap());

    assert!(embedded.contains(r#"src="data:image/jpeg;base64,/9j/""#));
    assert!(embedded.contains(r#"alt="Foto""#));
}

#[test]
fn missing_and_remote_images_are_left_as_they_are() {
    let bytes = zip_of(&[("OEBPS/images/photo.jpg", &[0xff, 0xd8, 0xff])]);
    let mut archive = Archive::open(bytes).unwrap();
    let html = r#"<img src='missing.png'> <img src=http://x/y.png> <img src="../images/photo.jpg?v=2#top">"#;
    let embedded = text(&embed_epub_images(&mut archive, &chars("OEBPS/Text/c.xhtml"), &chars(html)).unwrap());
    assert_eq!(
        embedded,
        r#"<img src='missing.png'> <img src=http://x/y.png> <img src="data:image/jpeg;base64,/9j/">"#
    );
}

#[test]
fn all_untitled_chapters_keep_their_fallback_titles() {
    let chapters = merge_untitled_chapters(vec![
        BuiltChapter { title: None, fallback_title: "Capítulo 1".to_string(), html: "<p>um</p>".to_string() },
        BuiltChapter { title: None, fallback_title: "Seção 2".to_string(), html: "<p>dois</p>".to_string() },
    ]);
    assert_eq!(chapters.len(), 2);
    assert_eq!(chapters[0].title, "Capítulo 1");
    assert_eq!(chapters[1].title, "Seção 2");
    assert_eq!(chapters[1].html, "<p>dois</p>");
}

#[test]
fn leading_untitled_fragments_join_the_first_titled_chapter() {
    let chapters = merge_untitled_chapters(vec![
        BuiltChapter { title: None, fallback_title: "Capítulo 1".to_string(), html: "<p>capa</p>".to_string() },
        BuiltChapter { title: None, fallback_title: "Capítulo 2".to_string(), html: "   ".to_string() },
        BuiltChapter { title: Some("Início".to_string()), fallback_title: "Capítulo 3".to_string(), html: "<p>texto</p>".to_string() },
        BuiltChapter { title: Some("Fim".to_string()), fallback_title: "Capítulo 4".to_string(), html: "<p>fim</p>".to_string() },
    ]);
    assert_eq!(chapters.len(), 2);
    assert_eq!(chapters[0].title, "Início");
    assert_eq!(chapters[0].html, "<p>capa</p>\n<p>texto</p>");
    assert_eq!(chapters[1].title, "Fim");
}

#[test]
fn last_chapter_index_is_read_and_clamped() {
    assert_eq!(parse_last_chapter_index(Some("chapter_index:1".to_string()), 3), 1);
    assert_eq!(parse_last_chapter_index(Some("chapter_index:+2".to_string()), 5), 2);
    assert_eq!(parse_last_chapter_index(Some("chapter_index:9".to_string()), 3), 2);
    assert_eq!(parse_last_chapter_index(Some("chapter_index:-4".to_string()), 3), 0);
    assert_eq!(parse_last_chapter_index(Some("chapter-04".to_string()), 3), 0);
    assert_eq!(parse_last_chapter_index(Some("chapter_index:x".to_string()), 3), 0);
    assert_eq!(parse_last_chapter_index(None, 3), 0);
    assert_eq!(parse_last_chapter_index(Some("chapter_index:2".to_string()), 0), 0);
}

#[test]
fn spine_paths_are_deduplicated_in_order() {
    let paths = vec![chars("a.xhtml"), chars("b.xhtml"), chars("a.xhtml"), chars("c.xhtml"), chars("b.xhtml")];
    let deduped: Vec<String> = dedupe_paths(&paths).iter().map(|p| text(p)).collect();
    assert_eq!(deduped, vec!["a.xhtml", "b.xhtml", "c.xhtml"]);
}

#[test]
fn navigation_documents_and_image_types_are_recognized() {
    assert!(is_navigation_path(&chars("OEBPS/TOC.xhtml")));
    assert!(is_navigation_path(&chars("Text/Nav.html")));
    assert!(!is_navigation_path(&chars("Text/chapter1.xhtml")));
    assert_eq!(image_media_type(&chars("a/b.JPG")), Some("image/jpeg"));
    assert_eq!(image_media_type(&chars("a/b.webp")), Some("image/webp"));
    assert_eq!(image_media_type(&chars("a/b.svg")), None);
}

const CONTAINER: &str = r#"<?xml version="1.0"?><container version="1.0" xmlns="urn:oasis:names:tc:opendocument:xmlns:container"><rootfiles><rootfile full-path="OEBPS/content.opf" media-type="application/oebps-package+xml"/></rootfiles></container>"#;

const OPF: &str = r#"<?xml version="1.0"?><package xmlns="http://www.idpf.org/2007/opf" version="3.0"><manifest><item id="nav" href="nav.xhtml" media-type="application/xhtml+xml" properties="nav"/><item id="c1" href="Text/c1.xhtml" media-type="application/xhtml+xml"/><item id="c2" href="Text/c2.xhtml" media-type="application/xhtml+xml"/><item id="img" href="images/p.png" media-type="image/png"/></manifest><spine><itemref idref="c1"/><itemref idref="c2"/><itemref idref="c1"/></spine></package>"#;

const NAV: &str = r#"<html xmlns="http://www.w3.org/1999/xhtml"><body><nav><ol><li><a href="Text/c1.xhtml#start">Primeiro   Capítulo</a></li></ol></nav></body></html>"#;

const C1: &str = r#"<html xmlns="http://www.w3.org/1999/xhtml"><head><title>c1</title><script>alert(1)</script></head><body><h1>Outro</h1><p onclick="x()">Texto um.</p><img src="../images/p.png"/></body></html>"#;

const C2: &str = r#"<html xmlns="http://www.w3.org/1999/xhtml"><body><p>Sem titulo.</p></body></html>"#;

#[test]
fn an_epub_is_read_into_titled_chapters() {
    let bytes = zip_of(&[
        ("META-INF/container.xml", CONTAINER.as_bytes()),
        ("OEBPS/content.opf", OPF.as_bytes()),
        ("OEBPS/nav.xhtml", NAV.as_bytes()),
        ("OEBPS/Text/c1.xhtml", C1.as_bytes()),
        ("OEBPS/Text/c2.xhtml", C2.as_bytes()),
        ("OEBPS/images/p.png", &[0x89, 0x50, 0x4e, 0x47]),
    ]);
    let chapters = read_epub_file(bytes).unwrap();
    assert_eq!(chapters.len(), 1);
    assert_eq!(chapters[0].title, "Primeiro Capítulo");
    assert!(chapters[0].html.contains("Texto um."));
    assert!(chapters[0].html.contains("Sem titulo."));
    assert!(chapters[0].html.contains(r#"src="data:image/png;base64,iVBORw==""#));
    assert!(!chapters[0].html.contains("script"));
    assert!(!chapters[0].html.contains("onclick"));
}

#[test]
fn without_a_spine_html_files_are_read_sorted_and_navigation_skipped() {
    let bytes = zip_of(&[
        ("zeta.xhtml", b"<html><body><p>Z</p></body></html>"),
        ("toc.xhtml", b"<html><body><p>T</p></body></html>"),
        ("intro.html", b"<html><body><p>I</p></body></html>"),
        ("empty.htm", b"   "),
    ]);
    let chapters = read_epub_file(bytes).unwrap();
    let titles: Vec<&str> = chapters.iter().map(|c| c.title.as_str()).collect();
    assert_eq!(titles, vec!["Intro", "Zeta"]);
    assert_eq!(chapters[0].html, "<p>I</p>");
}

#[test]
fn bytes_that_are_not_an_archive_are_refused() {
    let err = read_epub_file(b"not a zip".to_vec()).unwrap_err();
    assert!(err.starts_with("failed to read EPUB archive: "));
}

#[test]
fn an_archive_without_content_has_no_chapters() {
    let bytes = zip_of(&[("mimetype", b"application/epub+zip")]);
    assert_eq!(
        read_epub_file(bytes).unwrap_err(),
        "não foi possível extrair conteúdo textual deste EPUB"
    );
}

#[test]
fn a_broken_package_document_gives_its_error_text() {
    let bytes = zip_of(&[
        ("META-INF/container.xml", CONTAINER.as_bytes()),
        ("OEBPS/content.opf", b"<package><manifest>"),
    ]);
    let err = read_epub_file(bytes).unwrap_err();
    assert!(err.starts_with("failed to parse EPUB package document: "));
}
