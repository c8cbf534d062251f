use diameter_library::cover::{find_opf_path, extract_cover_image_data_uri, sniff_image_mime_type, mime_from_path, find_subsequence};
use diameter_library::encoding::{data_uri, percent_decode};
use diameter_library::html::{
    chapter_title_from_path, fallback_title_for_path, has_image_tag, normalize_text, sanitize_epub_html,
    sanitize_epub_html_to_text, title_case_words, decode_basic_html_entities,
};
use diameter_library::lexical::sort_texts;
use diameter_library::paths::{normalize_archive_path, normalize_epub_path, parent_dir, strip_fragment};
use base64::Engine;
use std::io::{Cursor, Write};
use zip::write::SimpleFileOptions;
use zip::ZipWriter;

fn chars(s: &str) -> Vec<char> {
    s.chars().collect()
}

fn text(v: &[char]) -> String {
    v.iter().collect()
}

#[test]
fn epub_paths_resolve_against_their_directory() {
    assert_eq!(text(&normalize_epub_path(&chars("OEBPS/Text"), &chars("../images/a.jpg#x"))), "OEBPS/images/a.jpg");
    assert_eq!(text(&normalize_epub_path(&chars(""), &chars("./a/./b.xhtml"))), "a/b.xhtml");
    assert_eq!(text(&normalize_epub_path(&chars("OEBPS"), &chars("/root.xhtml"))), "root.xhtml");
    assert_eq!(text(&parent_dir(&chars("OEBPS/Text/c.xhtml"))), "OEBPS/Text");
    assert_eq!(text(&parent_dir(&chars("c.xhtml"))), "");
    assert_eq!(text(&strip_fragment(&chars("c.xhtml#p2"))), "c.xhtml");
    assert_eq!(text(&normalize_archive_path(&chars("a\\b/../c//d"))), "a/c/d");
}

#[test]
fn markup_is_sanitized_to_its_body() {
    let html = r#"<?xml version="1.0"?><!DOCTYPE html><html><head><style>p{}</style></head><body class="x"><!-- note --><p onclick="go()">Olá</p><a href="javascript:evil()">x</a><script>bad()</script></body></html>"#;
    assert_eq!(text(&sanitize_epub_html(&chars(html)).unwrap()), r#"<p>Olá</p><a>x</a>"#);
    assert_eq!(text(&sanitize_epub_html(&chars("  <p>sem corpo</p> ")).unwrap()), "<p>sem corpo</p>");
}

#[test]
fn markup_is_turned_into_text() {
    let html = "<h1>Título</h1><p>Um &amp; dois</p><br/><p>três\t\tquatro</p><div></div><div></div><div></div>";
    assert_eq!(text(&sanitize_epub_html_to_text(&chars(html)).unwrap()), "Título\n Um & dois\n\n três quatro");
    assert_eq!(text(&sanitize_epub_html_to_text(&chars("<p>a</p>\n\n\n<p>b</p>")).unwrap()), "a\n\n b");
    assert!(has_image_tag(&chars("<p><IMG src='a.png'></p>")));
    assert!(!has_image_tag(&chars("<p>imagem</p>")));
}

#[test]
fn entities_and_white_space_are_normalized() {
    assert_eq!(text(&decode_basic_html_entities(&chars("a&nbsp;b &lt;c&gt; &quot;d&quot; &#39;e&#39; &amp;"))), "a b <c> \"d\" 'e' &");
    assert_eq!(text(&normalize_text(&chars("  Primeiro \n\t Capítulo  "))), "Primeiro Capítulo");
}

#[test]
fn titles_come_from_file_names_and_positions() {
    assert_eq!(chapter_title_from_path(&chars("Text/my_first-chapter.xhtml")).map(|t| text(&t)), Some("My First Chapter".to_string()));
    assert_eq!(chapter_title_from_path(&chars("Text/___.xhtml")), None);
    assert_eq!(text(&fallback_title_for_path(&chars("OEBPS/Section01.xhtml"), 3)), "Seção 3");
    assert_eq!(text(&fallback_title_for_path(&chars("OEBPS/ch.xhtml"), 12)), "Capítulo 12");
    assert_eq!(text(&title_case_words(&chars("o  nome da rosa"))), "O Nome Da Rosa");
}

#[test]
fn percent_escapes_and_data_uris() {
    assert_eq!(percent_decode("a%20b%2Fc%zz%4"), "a b/c%zz%4");
    assert_eq!(percent_decode("sem escapes"), "sem escapes");
    assert_eq!(text(&data_uri(&chars("image/jpeg"), &[0xff, 0xd8, 0xff])), "data:image/jpeg;base64,/9j/");
    assert_eq!(text(&data_uri(&chars("text/plain"), b"Ma")), "data:text/plain;base64,TWE=");
}

#[test]
fn texts_sort_as_strings_do() {
    let items = vec![chars("b"), chars("a"), chars("B"), chars("ab"), chars("é"), chars("a")];
    let sorted: Vec<String> = sort_texts(&items).iter().map(|t| text(t)).collect();
    let mut expected: Vec<String> = items.iter().map(|t| text(t)).collect();
    expected.sort();
    assert_eq!(sorted, expected);
    assert_eq!(sorted, vec!["B", "a", "a", "ab", "b", "é"]);
}

#[test]
fn image_types_are_known_by_signature_and_extension() {
    assert_eq!(sniff_image_mime_type(&[0xff, 0xd8, 0xff, 0x00]), Some("image/jpeg"));
    assert_eq!(sniff_image_mime_type(b"GIF89a..."), Some("image/gif"));
    assert_eq!(sniff_image_mime_type(b"RIFF0000WEBPxyz"), Some("image/webp"));
    assert_eq!(sniff_image_mime_type(b"BM.."), Some("image/bmp"));
    assert_eq!(sniff_image_mime_type(b"nothing"), None);
    assert_eq!(mime_from_path(&chars("a/cover.SVG")), Some("image/svg+xml"));
    assert_eq!(mime_from_path(&chars("a/cover.tiff")), None);
    assert_eq!(find_subsequence(b"abcabc", b"ca"), Some(2));
    assert_eq!(find_subsequence(b"abc", b""), None);
}

#[test]
fn the_largest_embedded_image_is_a_pdfs_cover() {
    let mut pdf = b"%PDF-1.4 ".to_vec();
    let mut small = vec![0xff, 0xd8, 0xff];
    small.extend(std::iter::repeat(0x11).take(100));
    small.extend([0xff, 0xd9]);
    let mut large = vec![0xff, 0xd8, 0xff];
    large.extend(std::iter::repeat(0x22).take(2000));
    large.extend([0xff, 0xd9]);
    pdf.extend(&small);
    pdf.extend(b" stream ");
    pdf.extend(&large);
    pdf.extend(b" %%EOF");
    let uri = extract_cover_image_data_uri(pdf, "PDF").unwrap();
    let expected = format!("data:image/jpeg;base64,{}", base64::engine::general_purpose::STANDARD.encode(&large));
    assert_eq!(uri, expected);
    assert_eq!(extract_cover_image_data_uri(b"%PDF no images".to_vec(), "PDF"), None);
    assert_eq!(extract_cover_image_data_uri(b"%PDF".to_vec(), "MOBI"), None);
}

#[test]
fn an_epubs_cover_is_the_image_its_package_names() {
    let container = r#"<container><rootfiles><rootfile full-path="OPS/book.opf"/></rootfiles></container>"#;
    let opf = r#"<package><metadata><meta name="cover" content="cov"/></metadata><manifest><item id="cov" href="img/c.png" media-type="image/png"/></manifest></package>"#;
    let mut writer = ZipWriter::new(Cursor::new(Vec::new()));
    for (name, data) in [("META-INF/container.xml", container.as_bytes()), ("OPS/book.opf", opf.as_bytes()), ("OPS/img/c.png", &[1u8, 2, 3][..])] {
        writer.start_file(name, SimpleFileOptions::default()).unwrap();
        writer.write_all(data).unwrap();
    }
    let bytes = writer.finish().unwrap().into_inner();
    assert_eq!(extract_cover_image_data_uri(bytes, "EPUB"), Some("data:image/png;base64,AQID".to_string()));
    assert_eq!(extract_cover_image_data_uri(b"not a zip".to_vec(), "EPUB"), None);
}

#[test]
fn percent_decoding_keeps_text_without_escapes() {
    assert_eq!(percent_decode("Capa%20Nova%2Fx%zz%4"), "Capa Nova/x%zz%4");
    assert_eq!(percent_decode("caf%C3%A9"), "café");
    assert_eq!(percent_decode("no escapes"), "no escapes");
    assert_eq!(percent_decode("título ção"), "título ção");
}

#[test]
fn normalized_archive_paths_stay_normal() {
    let once = normalize_archive_path(&chars("./OEBPS\\Images/../cover.jpg"));
    assert_eq!(text(&once), "OEBPS/cover.jpg");
    assert_eq!(normalize_archive_path(&once), once);
    assert_eq!(text(&normalize_archive_path(&chars("../..//./"))), "");
    assert!(!text(&normalize_archive_path(&chars("a\\b\\c"))).contains('\\'));
}

#[test]
fn attributes_are_found_by_local_name_in_document_order() {
    let container = r#"<container xmlns:n="urn:x"><rootfiles><rootfile n:full-path="first.opf" full-path="second.opf"/></rootfiles></container>"#;
    assert_eq!(find_opf_path(container).map(|p| text(&p)), Some("first.opf".to_string()));
    let plain = r#"<container xmlns:n="urn:x"><rootfiles><rootfile n:full-path="only.opf"/></rootfiles></container>"#;
    assert_eq!(find_opf_path(plain).map(|p| text(&p)), Some("only.opf".to_string()));
}
