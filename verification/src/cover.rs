//! Cover images: found inside an EPUB's package document, or carved out of a
//! PDF's bytes, and handed back as `data:` URIs.
use vstd::prelude::*;
use crate::text::{eq_str, lemma_chars_deep_view, lowercase, opt_str_view, to_lowercase};
use crate::paths::{extension, extension_spec};
use crate::encoding::{data_uri, data_uri_spec};
use crate::text::{
    chars_of, eq_ignore_ascii_case, eq_ignore_ascii_case_exec, first_index, first_index_from,
    has_word, has_word_exec, lemma_first_index_from, starts_with, starts_with_chars, contains,
    contains_chars, string_of, trim, trim_chars,
};
use crate::xml::{
    attribute, attribute_spec, find_named, first_named, nodes_view, parse_xml, xml_document, XmlNode,
    XmlNodeView,
};
use crate::paths::{normalize_archive_path, normalize_archive_path_spec, slash};
use crate::archive::{archive_open, archive_read_bytes, archive_read_text, zip_entry_read, zip_listing, Archive, EntryRead};
use crate::text::{join, join_chars, push_chars, split_any, split_any_chars};
use vstd::utf8::{decode_utf8, valid_utf8};

verus! {

broadcast use lemma_chars_deep_view;

/// The largest image, in bytes, that is embedded as a cover.
pub const MAX_COVER_IMAGE_BYTES: usize = 8388608;

/// The smallest image, in bytes, that is taken out of a PDF.
pub const MIN_PDF_IMAGE_BYTES: usize = 1024;

/// `p` occurs in `b` at position `i`.
pub open spec fn bytes_at(b: Seq<u8>, p: Seq<u8>, i: int) -> bool {
    0 <= i && i + p.len() <= b.len() && b.subrange(i, i + p.len()) == p
}

pub open spec fn png_signature() -> Seq<u8> {
    seq![0x89u8, 0x50u8, 0x4Eu8, 0x47u8, 0x0Du8, 0x0Au8, 0x1Au8, 0x0Au8]
}

pub open spec fn png_iend_marker() -> Seq<u8> {
    seq![0x49u8, 0x45u8, 0x4Eu8, 0x44u8, 0xAEu8, 0x42u8, 0x60u8, 0x82u8]
}

/// The media type that the first bytes of an image announce.
pub open spec fn sniff_image_mime_spec(b: Seq<u8>) -> Option<Seq<char>> {
    if bytes_at(b, seq![0xFFu8, 0xD8u8, 0xFFu8], 0) {
        Some("image/jpeg"@)
    } else if bytes_at(b, png_signature(), 0) {
        Some("image/png"@)
    } else if bytes_at(b, seq![71u8, 73u8, 70u8, 56u8, 55u8, 97u8], 0) || bytes_at(
        b,
        seq![71u8, 73u8, 70u8, 56u8, 57u8, 97u8],
        0,
    ) {
        Some("image/gif"@)
    } else if bytes_at(b, seq![82u8, 73u8, 70u8, 70u8], 0) && b.len() > 12 && b.subrange(8, 12)
        == seq![87u8, 69u8, 66u8, 80u8] {
        Some("image/webp"@)
    } else if bytes_at(b, seq![0x42u8, 0x4Du8], 0) {
        Some("image/bmp"@)
    } else {
        None
    }
}

/// Whether `p` occurs in `b` at position `i`.
pub fn bytes_at_exec(b: &[u8], p: &[u8], i: usize) -> (r: bool)
    ensures
        r == bytes_at(b@, p@, i as int),
{
    if i > b.len() || p.len() > b.len() - i {
        return false;
    }
    let mut k: usize = 0;
    while k < p.len()
        invariant
            k <= p.len(),
            i + p.len() <= b.len(),
            forall|m: int| 0 <= m < k ==> b@[i + m] == p@[m],
        decreases p.len() - k,
    {
        if b[i + k] != p[k] {
            assert(b@.subrange(i as int, i + p.len())[k as int] != p@[k as int]);
            return false;
        }
        k = k + 1;
    }
    assert(b@.subrange(i as int, i + p.len()) =~= p@);
    true
}

/// The media type of an image, read from its first bytes.
pub fn sniff_image_mime_type(bytes: &[u8]) -> (r: Option<&'static str>)
    ensures
        opt_str_view(r) == sniff_image_mime_spec(bytes@),
{
    let jpeg: [u8; 3] = [0xFF, 0xD8, 0xFF];
    let png: [u8; 8] = [0x89, 0x50, 0x4E, 0x47, 0x0D, 0x0A, 0x1A, 0x0A];
    let gif87: [u8; 6] = [71, 73, 70, 56, 55, 97];
    let gif89: [u8; 6] = [71, 73, 70, 56, 57, 97];
    let riff: [u8; 4] = [82, 73, 70, 70];
    let webp: [u8; 4] = [87, 69, 66, 80];
    let bmp: [u8; 2] = [0x42, 0x4D];
    assert(jpeg@ =~= seq![0xFFu8, 0xD8u8, 0xFFu8]);
    assert(png@ =~= png_signature());
    assert(gif87@ =~= seq![71u8, 73u8, 70u8, 56u8, 55u8, 97u8]);
    assert(gif89@ =~= seq![71u8, 73u8, 70u8, 56u8, 57u8, 97u8]);
    assert(riff@ =~= seq![82u8, 73u8, 70u8, 70u8]);
    assert(webp@ =~= seq![87u8, 69u8, 66u8, 80u8]);
    assert(bmp@ =~= seq![0x42u8, 0x4Du8]);
    if bytes_at_exec(bytes, &jpeg, 0) {
        return Some("image/jpeg");
    }
    if bytes_at_exec(bytes, &png, 0) {
        return Some("image/png");
    }
    if bytes_at_exec(bytes, &gif87, 0) || bytes_at_exec(bytes, &gif89, 0) {
        return Some("image/gif");
    }
    if bytes_at_exec(bytes, &riff, 0) && bytes.len() > 12 && bytes_at_exec(bytes, &webp, 8) {
        return Some("image/webp");
    }
    if bytes_at_exec(bytes, &bmp, 0) {
        return Some("image/bmp");
    }
    None
}

/// The media type that a file's extension names (compared in lowercase).
pub open spec fn mime_from_path_spec(path: Seq<char>) -> Option<Seq<char>> {
    match extension_spec(path) {
        None => None,
        Some(e) => {
            let l = lowercase(e);
            if l == "jpg"@ || l == "jpeg"@ {
                Some("image/jpeg"@)
            } else if l == "png"@ {
                Some("image/png"@)
            } else if l == "gif"@ {
                Some("image/gif"@)
            } else if l == "webp"@ {
                Some("image/webp"@)
            } else if l == "bmp"@ {
                Some("image/bmp"@)
            } else if l == "svg"@ {
                Some("image/svg+xml"@)
            } else {
                None
            }
        },
    }
}

pub fn mime_from_path(path: &[char]) -> (r: Option<&'static str>)
    ensures
        opt_str_view(r) == mime_from_path_spec(path@),
{
    let ext = match extension(path) {
        Some(e) => e,
        None => return None,
    };
    let l = to_lowercase(&ext);
    if eq_str(&l, "jpg") || eq_str(&l, "jpeg") {
        Some("image/jpeg")
    } else if eq_str(&l, "png") {
        Some("image/png")
    } else if eq_str(&l, "gif") {
        Some("image/gif")
    } else if eq_str(&l, "webp") {
        Some("image/webp")
    } else if eq_str(&l, "bmp") {
        Some("image/bmp")
    } else if eq_str(&l, "svg") {
        Some("image/svg+xml")
    } else {
        None
    }
}


/// A span `[start, end)` of a PDF's bytes that holds an image of type `mime`.
pub struct ImageRange {
    pub start: usize,
    pub end: usize,
    pub mime: &'static str,
}

impl View for ImageRange {
    type V = (int, int, Seq<char>);

    open spec fn view(&self) -> (int, int, Seq<char>) {
        (self.start as int, self.end as int, self.mime@)
    }
}

pub open spec fn ranges_view(v: Seq<ImageRange>) -> Seq<(int, int, Seq<char>)> {
    v.map_values(|r: ImageRange| r@)
}

/// The first position at or after `k` where `needle` occurs in `buf`.
pub open spec fn first_occurrence_from(buf: Seq<u8>, needle: Seq<u8>, k: int) -> Option<int>
    decreases buf.len() + 1 - k,
{
    if k < 0 || k >= buf.len() || k + needle.len() > buf.len() {
        None
    } else if bytes_at(buf, needle, k) {
        Some(k)
    } else {
        first_occurrence_from(buf, needle, k + 1)
    }
}

/// The first position where a non-empty `needle` occurs in `buf`.
pub open spec fn first_occurrence(buf: Seq<u8>, needle: Seq<u8>) -> Option<int> {
    if needle.len() == 0 {
        None
    } else {
        first_occurrence_from(buf, needle, 0)
    }
}

pub proof fn lemma_first_occurrence_from_bounds(buf: Seq<u8>, needle: Seq<u8>, k: int)
    ensures
        first_occurrence_from(buf, needle, k) matches Some(j) ==> k <= j && bytes_at(
            buf,
            needle,
            j,
        ) && forall|m: int| k <= m < j ==> !bytes_at(buf, needle, m),
        first_occurrence_from(buf, needle, k) is None && 0 <= k && needle.len() > 0 ==> forall|
            m: int,
        | k <= m ==> !bytes_at(buf, needle, m),
    decreases buf.len() + 1 - k,
{
    if !(k < 0 || k >= buf.len() || k + needle.len() > buf.len()) && !bytes_at(buf, needle, k) {
        lemma_first_occurrence_from_bounds(buf, needle, k + 1);
    }
}

/// The position of the first occurrence of a non-empty `needle` in `buffer`.
pub fn find_subsequence(buffer: &[u8], needle: &[u8]) -> (r: Option<usize>)
    ensures
        r matches Some(k) ==> first_occurrence(buffer@, needle@) == Some(k as int),
        r is None ==> first_occurrence(buffer@, needle@) is None,
{
    if needle.len() == 0 || needle.len() > buffer.len() {
        return None;
    }
    let last = buffer.len() - needle.len();
    let mut k: usize = 0;
    loop
        invariant
            0 < needle.len() <= buffer.len(),
            last == buffer.len() - needle.len(),
            k <= last,
            first_occurrence(buffer@, needle@) == first_occurrence_from(buffer@, needle@, k as int),
        decreases last - k,
    {
        if bytes_at_exec(buffer, needle, k) {
            return Some(k);
        }
        if k == last {
            assert(first_occurrence_from(buffer@, needle@, k + 1) is None);
            return None;
        }
        k = k + 1;
    }
}

/// The first end-of-image marker (`FF D9`) at or after `k`.
pub open spec fn eoi_from(b: Seq<u8>, k: int) -> Option<int>
    decreases b.len() - k,
{
    if k < 0 || k + 1 >= b.len() {
        None
    } else if b[k] == 0xFF && b[k + 1] == 0xD9 {
        Some(k)
    } else {
        eoi_from(b, k + 1)
    }
}

pub proof fn lemma_eoi_from_ge(b: Seq<u8>, k: int)
    ensures
        eoi_from(b, k) matches Some(j) ==> k <= j && j + 1 < b.len(),
    decreases b.len() - k,
{
    if !(k < 0 || k + 1 >= b.len()) && !(b[k] == 0xFF && b[k + 1] == 0xD9) {
        lemma_eoi_from_ge(b, k + 1);
    }
}

/// Starts with a JPEG start-of-image marker (`FF D8 FF`) at `i`.
pub open spec fn jpeg_soi_at(b: Seq<u8>, i: int) -> bool {
    b[i] == 0xFF && b[i + 1] == 0xD8 && b[i + 2] == 0xFF
}

/// The JPEG images found by scanning `b` from position `i`: each runs from a
/// start-of-image marker to the first end-of-image marker after it, and is
/// kept when it is at least `MIN_PDF_IMAGE_BYTES` long; scanning resumes after
/// each image.
pub open spec fn jpeg_ranges_from(b: Seq<u8>, i: int) -> Seq<(int, int, Seq<char>)>
    decreases b.len() - i,
{
    if i < 0 || i + 3 >= b.len() {
        Seq::empty()
    } else if jpeg_soi_at(b, i) {
        match eoi_from(b, i + 3) {
            Some(k) => {
                proof {
                    lemma_eoi_from_ge(b, i + 3);
                }
                let end = k + 2;
                let rest = jpeg_ranges_from(b, end);
                if end - i >= MIN_PDF_IMAGE_BYTES {
                    seq![(i, end, "image/jpeg"@)] + rest
                } else {
                    rest
                }
            },
            None => Seq::empty(),
        }
    } else {
        jpeg_ranges_from(b, i + 1)
    }
}

/// The spans of JPEG images embedded in `bytes`, in order.
pub fn find_embedded_jpeg_ranges(bytes: &[u8]) -> (r: Vec<ImageRange>)
    ensures
        ranges_view(r@) == jpeg_ranges_from(bytes@, 0),
{
    let mut ranges: Vec<ImageRange> = Vec::new();
    let mut index: usize = 0;
    let len = bytes.len();
    while len > 3 && index < len - 3
        invariant
            len == bytes@.len(),
            ranges_view(ranges@) + jpeg_ranges_from(bytes@, index as int) == jpeg_ranges_from(
                bytes@,
                0,
            ),
        decreases len - index,
    {
        if bytes[index] == 0xFF && bytes[index + 1] == 0xD8 && bytes[index + 2] == 0xFF {
            let start = index;
            index = index + 3;
            let mut found = false;
            while !found && index < len - 1
                invariant
                    len == bytes@.len(),
                    len > 3,
                    start + 3 <= index <= len,
                    start + 3 < len,
                    jpeg_soi_at(bytes@, start as int),
                    !found ==> eoi_from(bytes@, start + 3) == eoi_from(bytes@, index as int),
                    !found ==> ranges_view(ranges@) + jpeg_ranges_from(bytes@, start as int)
                        == jpeg_ranges_from(bytes@, 0),
                    found ==> ranges_view(ranges@) + jpeg_ranges_from(bytes@, index as int)
                        == jpeg_ranges_from(bytes@, 0),
                    found ==> index > start,
                decreases len - index,
            {
                if bytes[index] == 0xFF && bytes[index + 1] == 0xD9 {
                    let end = index + 2;
                    proof {
                        lemma_eoi_from_ge(bytes@, start + 3);
                    }
                    if end - start >= MIN_PDF_IMAGE_BYTES {
                        let ghost before = ranges@;
                        ranges.push(ImageRange { start, end, mime: "image/jpeg" });
                        assert(ranges_view(ranges@) =~= ranges_view(before) + seq![
                            (start as int, end as int, "image/jpeg"@),
                        ]);
                    }
                    index = end;
                    found = true;
                } else {
                    index = index + 1;
                }
            }
            if !found {
                proof {
                    assert(eoi_from(bytes@, index as int) is None);
                    assert(jpeg_ranges_from(bytes@, index as int) == Seq::<(int, int, Seq<char>)>::empty());
                }
                assert(ranges_view(ranges@) + jpeg_ranges_from(bytes@, index as int) =~= ranges_view(ranges@));
            }
        } else {
            index = index + 1;
        }
    }
    proof {
        assert(jpeg_ranges_from(bytes@, index as int) == Seq::<(int, int, Seq<char>)>::empty());
        assert(ranges_view(ranges@) + Seq::<(int, int, Seq<char>)>::empty() =~= ranges_view(ranges@));
    }
    ranges
}


/// The PNG images found by scanning `b` from position `i`: each runs from a
/// PNG signature to the end of the first `IEND` chunk marker after it, and is
/// kept when it is at least `MIN_PDF_IMAGE_BYTES` long; scanning resumes after
/// each image.
pub open spec fn png_ranges_from(b: Seq<u8>, i: int) -> Seq<(int, int, Seq<char>)>
    decreases b.len() - i,
{
    if i < 0 || i + 8 > b.len() {
        Seq::empty()
    } else if bytes_at(b, png_signature(), i) && first_occurrence(b.skip(i + 8), png_iend_marker())
        is Some {
        let rel = first_occurrence(b.skip(i + 8), png_iend_marker())->0;
        proof {
            lemma_first_occurrence_from_bounds(b.skip(i + 8), png_iend_marker(), 0);
        }
        let end = i + 8 + rel + 8;
        let rest = png_ranges_from(b, end);
        if end - i >= MIN_PDF_IMAGE_BYTES {
            seq![(i, end, "image/png"@)] + rest
        } else {
            rest
        }
    } else {
        png_ranges_from(b, i + 1)
    }
}

/// The spans of PNG images embedded in `bytes`, in order.
pub fn find_embedded_png_ranges(bytes: &[u8]) -> (r: Vec<ImageRange>)
    ensures
        ranges_view(r@) == png_ranges_from(bytes@, 0),
{
    let mut ranges: Vec<ImageRange> = Vec::new();
    let mut index: usize = 0;
    let len = bytes.len();
    let signature: [u8; 8] = [0x89, 0x50, 0x4E, 0x47, 0x0D, 0x0A, 0x1A, 0x0A];
    let iend_marker: [u8; 8] = [0x49, 0x45, 0x4E, 0x44, 0xAE, 0x42, 0x60, 0x82];
    assert(signature@ =~= png_signature());
    assert(iend_marker@ =~= png_iend_marker());
    while len >= 8 && index <= len - 8
        invariant
            len == bytes@.len(),
            signature@ == png_signature(),
            iend_marker@ == png_iend_marker(),
            ranges_view(ranges@) + png_ranges_from(bytes@, index as int) == png_ranges_from(
                bytes@,
                0,
            ),
        decreases len - index,
    {
        if bytes_at_exec(bytes, &signature, index) {
            let tail = &bytes[index + 8..len];
            assert(tail@ =~= bytes@.skip(index + 8));
            match find_subsequence(tail, &iend_marker) {
                Some(relative_end) => {
                    proof {
                        lemma_first_occurrence_from_bounds(bytes@.skip(index + 8), png_iend_marker(), 0);
                    }
                    let end = index + 8 + relative_end + 8;
                    if end - index >= MIN_PDF_IMAGE_BYTES {
                        let ghost before = ranges@;
                        ranges.push(ImageRange { start: index, end, mime: "image/png" });
                        assert(ranges_view(ranges@) =~= ranges_view(before) + seq![
                            (index as int, end as int, "image/png"@),
                        ]);
                    }
                    index = end;
                    continue;
                },
                None => {},
            }
        }
        index = index + 1;
    }
    proof {
        assert(png_ranges_from(bytes@, index as int) == Seq::<(int, int, Seq<char>)>::empty());
        assert(ranges_view(ranges@) + Seq::<(int, int, Seq<char>)>::empty() =~= ranges_view(ranges@));
    }
    ranges
}

/// The length of a span, or 0 for an inverted one (`end.saturating_sub(start)`).
pub open spec fn range_len(r: (int, int, Seq<char>)) -> int {
    if r.1 >= r.0 {
        r.1 - r.0
    } else {
        0
    }
}

/// The index of the longest of the first `n` spans; among equally long ones
/// the last (as `Iterator::max_by_key` picks).
pub open spec fn longest_range_index(c: Seq<(int, int, Seq<char>)>, n: int) -> int
    decreases n,
{
    if n <= 1 {
        0
    } else {
        let b = longest_range_index(c, n - 1);
        if range_len(c[n - 1]) >= range_len(c[b]) {
            n - 1
        } else {
            b
        }
    }
}

pub proof fn lemma_longest_range_index_bounds(c: Seq<(int, int, Seq<char>)>, n: int)
    requires
        n >= 1,
    ensures
        0 <= longest_range_index(c, n) < n,
        forall|j: int| 0 <= j < n ==> range_len(#[trigger] c[j]) <= range_len(c[longest_range_index(c, n)]),
    decreases n,
{
    if n > 1 {
        lemma_longest_range_index_bounds(c, n - 1);
    }
}

/// `data:` URI of a cover image, unless it is empty or larger than
/// `MAX_COVER_IMAGE_BYTES`.
pub open spec fn encode_data_uri_spec(bytes: Seq<u8>, mime: Seq<char>) -> Option<Seq<char>> {
    if bytes.len() == 0 || bytes.len() > MAX_COVER_IMAGE_BYTES {
        None
    } else {
        Some(data_uri_spec(mime, bytes))
    }
}

pub fn encode_data_uri(bytes: &[u8], mime_type: &[char]) -> (r: Option<String>)
    ensures
        r.deep_view() == encode_data_uri_spec(bytes@, mime_type@),
{
    if bytes.len() == 0 || bytes.len() > MAX_COVER_IMAGE_BYTES {
        return None;
    }
    let uri = data_uri(mime_type, bytes);
    Some(string_of(&uri))
}

/// The cover that a PDF's bytes yield: the longest embedded JPEG or PNG
/// image (the last of equally long ones, JPEGs listed before PNGs).
pub open spec fn pdf_cover_spec(b: Seq<u8>) -> Option<Seq<char>> {
    let c = jpeg_ranges_from(b, 0) + png_ranges_from(b, 0);
    if b.len() == 0 || c.len() == 0 {
        None
    } else {
        let best = c[longest_range_index(c, c.len() as int)];
        if best.1 <= best.0 || best.1 > b.len() {
            None
        } else {
            encode_data_uri_spec(b.subrange(best.0, best.1), best.2)
        }
    }
}

pub fn extract_pdf_cover_data_uri(bytes: &[u8]) -> (r: Option<String>)
    ensures
        r.deep_view() == pdf_cover_spec(bytes@),
{
    if bytes.len() == 0 {
        return None;
    }
    let mut candidates = find_embedded_jpeg_ranges(bytes);
    let mut png = find_embedded_png_ranges(bytes);
    let ghost jv = candidates@;
    let ghost pv = png@;
    candidates.append(&mut png);
    let ghost c = ranges_view(candidates@);
    assert(c =~= jpeg_ranges_from(bytes@, 0) + png_ranges_from(bytes@, 0)) by {
        assert(candidates@ =~= jv + pv);
    }
    if candidates.len() == 0 {
        return None;
    }
    let mut best: usize = 0;
    let mut i: usize = 1;
    while i < candidates.len()
        invariant
            1 <= i <= candidates.len(),
            c == ranges_view(candidates@),
            best as int == longest_range_index(c, i as int),
            best < i,
        decreases candidates.len() - i,
    {
        proof {
            lemma_longest_range_index_bounds(c, i as int);
        }
        let cand = &candidates[i];
        let cur = &candidates[best];
        let cand_len = if cand.end >= cand.start { cand.end - cand.start } else { 0 };
        let cur_len = if cur.end >= cur.start { cur.end - cur.start } else { 0 };
        if cand_len >= cur_len {
            best = i;
        }
        i = i + 1;
    }
    proof {
        lemma_longest_range_index_bounds(c, candidates.len() as int);
    }
    let start = candidates[best].start;
    let end = candidates[best].end;
    let mime = candidates[best].mime;
    if end <= start || end > bytes.len() {
        return None;
    }
    let image = &bytes[start..end];
    encode_data_uri(image, &chars_of(mime))
}


/// The package document's path that a container document names: the
/// `full-path` of the first `rootfile` node, normalized, unless empty.
pub open spec fn cover_opf_path_spec(container_xml: Seq<char>) -> Option<Seq<char>> {
    match xml_document(container_xml) {
        None => None,
        Some(nodes) => match first_named(nodes, "rootfile"@, false, 0, nodes.len() as int) {
            None => None,
            Some(i) => match attribute_spec(nodes[i].attributes, "full-path"@) {
                None => None,
                Some(p) => {
                    let q = normalize_archive_path_spec(p);
                    if q.len() == 0 {
                        None
                    } else {
                        Some(q)
                    }
                },
            },
        },
    }
}

pub fn find_opf_path(container_xml: &str) -> (r: Option<Vec<char>>)
    ensures
        r.deep_view() == cover_opf_path_spec(container_xml@),
{
    let nodes = match parse_xml(container_xml) {
        Ok(n) => n,
        Err(_) => return None,
    };
    let i = match find_named(&nodes, "rootfile", false, 0, nodes.len()) {
        Some(i) => i,
        None => return None,
    };
    assert(nodes_view(nodes@)[i as int] == nodes@[i as int]@);
    let raw = match attribute(&nodes[i], "full-path") {
        Some(p) => p,
        None => return None,
    };
    let q = normalize_archive_path(&raw);
    if q.len() == 0 {
        return None;
    }
    Some(q)
}

/// A manifest entry as the cover search reads it.
pub struct CoverManifestItem {
    pub id: Vec<char>,
    pub href: Vec<char>,
    pub media_type: Option<Vec<char>>,
    pub properties: Option<Vec<char>>,
}

pub type CoverItemView = (Seq<char>, Seq<char>, Option<Seq<char>>, Option<Seq<char>>);

impl View for CoverManifestItem {
    type V = CoverItemView;

    open spec fn view(&self) -> CoverItemView {
        (self.id@, self.href@, self.media_type.deep_view(), self.properties.deep_view())
    }
}

/// An `item` node with a non-blank `id` and `href` (both trimmed), with its
/// `media-type` and `properties` as given.
pub open spec fn cover_item_of(n: XmlNodeView) -> Option<CoverItemView> {
    if n.name != "item"@ {
        None
    } else {
        match (attribute_spec(n.attributes, "id"@), attribute_spec(n.attributes, "href"@)) {
            (Some(id), Some(href)) => {
                let id = trim(id);
                let href = trim(href);
                if id.len() == 0 || href.len() == 0 {
                    None
                } else {
                    Some(
                        (
                            id,
                            href,
                            attribute_spec(n.attributes, "media-type"@),
                            attribute_spec(n.attributes, "properties"@),
                        ),
                    )
                }
            },
            _ => None,
        }
    }
}

/// The manifest entries among `nodes`, in document order.
pub open spec fn cover_manifest(nodes: Seq<XmlNodeView>) -> Seq<CoverItemView>
    decreases nodes.len(),
{
    if nodes.len() == 0 {
        Seq::empty()
    } else {
        let r = cover_manifest(nodes.drop_last());
        match cover_item_of(nodes.last()) {
            Some(it) => r.push(it),
            None => r,
        }
    }
}

fn cover_item_of_exec(n: &XmlNode) -> (r: Option<CoverManifestItem>)
    ensures
        match r {
            Some(it) => cover_item_of(n@) == Some(it@),
            None => cover_item_of(n@) is None,
        },
{
    let nm = chars_of(n.name.as_str());
    if !crate::text::eq_str(&nm, "item") {
        return None;
    }
    let id = match attribute(n, "id") {
        Some(v) => v,
        None => return None,
    };
    let href = match attribute(n, "href") {
        Some(v) => v,
        None => return None,
    };
    let id = trim_chars(&id);
    let href = trim_chars(&href);
    if id.len() == 0 || href.len() == 0 {
        return None;
    }
    Some(
        CoverManifestItem {
            id,
            href,
            media_type: attribute(n, "media-type"),
            properties: attribute(n, "properties"),
        },
    )
}

pub open spec fn items_view(v: Seq<CoverManifestItem>) -> Seq<CoverItemView> {
    v.map_values(|it: CoverManifestItem| it@)
}

fn cover_manifest_exec(nodes: &Vec<XmlNode>) -> (r: Vec<CoverManifestItem>)
    ensures
        items_view(r@) == cover_manifest(nodes_view(nodes@)),
{
    let ghost nv = nodes_view(nodes@);
    let mut items: Vec<CoverManifestItem> = Vec::new();
    let mut i: usize = 0;
    while i < nodes.len()
        invariant
            i <= nodes.len(),
            nv == nodes_view(nodes@),
            items_view(items@) == cover_manifest(nv.take(i as int)),
        decreases nodes.len() - i,
    {
        proof {
            assert(nv.take(i + 1).drop_last() =~= nv.take(i as int));
            assert(nv.take(i + 1).last() == nodes@[i as int]@);
        }
        match cover_item_of_exec(&nodes[i]) {
            Some(it) => {
                let ghost before = items@;
                items.push(it);
                assert(items_view(items@) =~= items_view(before).push(items@.last()@));
            },
            None => {},
        }
        i = i + 1;
    }
    assert(nv.take(nodes.len() as int) =~= nv);
    items
}


/// A `meta` node whose `name` is `cover`, ignoring ASCII case.
pub open spec fn cover_meta_pred() -> spec_fn(XmlNodeView) -> bool {
    |n: XmlNodeView|
        n.name == "meta"@ && match attribute_spec(n.attributes, "name"@) {
            Some(v) => eq_ignore_ascii_case(v, "cover"@),
            None => false,
        }
}

/// A `reference` node whose `type` is `cover`, ignoring ASCII case.
pub open spec fn cover_reference_pred() -> spec_fn(XmlNodeView) -> bool {
    |n: XmlNodeView|
        n.name == "reference"@ && match attribute_spec(n.attributes, "type"@) {
            Some(v) => eq_ignore_ascii_case(v, "cover"@),
            None => false,
        }
}

/// A manifest entry with the given id.
pub open spec fn item_id_pred(id: Seq<char>) -> spec_fn(CoverItemView) -> bool {
    |it: CoverItemView| it.0 == id
}

/// A manifest entry whose properties list the word `cover-image`.
pub open spec fn cover_image_item_pred() -> spec_fn(CoverItemView) -> bool {
    |it: CoverItemView|
        match it.3 {
            Some(p) => has_word(p, "cover-image"@),
            None => false,
        }
}

/// A manifest entry that is an image (by its media type, or else by its
/// extension) and whose path, lowercased, contains `cover`.
pub open spec fn named_cover_image_pred() -> spec_fn(CoverItemView) -> bool {
    |it: CoverItemView|
        (match it.2 {
            Some(m) => starts_with(m, "image/"@),
            None => mime_from_path_spec(it.1) is Some,
        }) && contains(crate::text::lowercase(it.1), "cover"@)
}

/// The id that the first cover `meta` node's `content` gives, trimmed, unless blank.
pub open spec fn cover_id_of(nodes: Seq<XmlNodeView>) -> Option<Seq<char>> {
    match first_index(nodes, cover_meta_pred()) {
        None => None,
        Some(i) => match attribute_spec(nodes[i].attributes, "content"@) {
            None => None,
            Some(c) => if trim(c).len() == 0 {
                None
            } else {
                Some(trim(c))
            },
        },
    }
}

/// The `href` of the first cover `reference` node, trimmed, unless blank.
pub open spec fn cover_reference_href(nodes: Seq<XmlNodeView>) -> Option<Seq<char>> {
    match first_index(nodes, cover_reference_pred()) {
        None => None,
        Some(i) => match attribute_spec(nodes[i].attributes, "href"@) {
            None => None,
            Some(h) => if trim(h).len() == 0 {
                None
            } else {
                Some(trim(h))
            },
        },
    }
}

/// The cover image a package document names, as (href, media type), tried in
/// this order: the manifest entry that the cover `meta` names; the first entry
/// marked `cover-image`; the cover `reference`; the first image entry whose
/// path mentions `cover`.
pub open spec fn cover_entry_in(nodes: Seq<XmlNodeView>) -> Option<(Seq<char>, Option<Seq<char>>)> {
    let items = cover_manifest(nodes);
    let by_id = match cover_id_of(nodes) {
        Some(id) => first_index(items, item_id_pred(id)),
        None => None,
    };
    if by_id is Some {
        Some((items[by_id->0].1, items[by_id->0].2))
    } else if first_index(items, cover_image_item_pred()) is Some {
        let i = first_index(items, cover_image_item_pred())->0;
        Some((items[i].1, items[i].2))
    } else if cover_reference_href(nodes) is Some {
        Some((cover_reference_href(nodes)->0, None))
    } else {
        match first_index(items, named_cover_image_pred()) {
            Some(i) => Some((items[i].1, items[i].2)),
            None => None,
        }
    }
}

pub open spec fn cover_entry_spec(opf_xml: Seq<char>) -> Option<(Seq<char>, Option<Seq<char>>)> {
    match xml_document(opf_xml) {
        None => None,
        Some(nodes) => cover_entry_in(nodes),
    }
}

/// Whether `n` is a cover `meta` node (`meta_node`) or a cover `reference` node.
fn is_cover_marker(n: &XmlNode, meta_node: bool) -> (r: bool)
    ensures
        r == (if meta_node { cover_meta_pred() } else { cover_reference_pred() })(n@),
{
    let nm = chars_of(n.name.as_str());
    let is_tag = if meta_node {
        crate::text::eq_str(&nm, "meta")
    } else {
        crate::text::eq_str(&nm, "reference")
    };
    if !is_tag {
        return false;
    }
    let a = if meta_node {
        attribute(n, "name")
    } else {
        attribute(n, "type")
    };
    match a {
        Some(v) => eq_ignore_ascii_case_exec(&v, "cover"),
        None => false,
    }
}

/// The first cover `meta` node's `content` (`meta_node`), or the first cover
/// `reference` node's `href`, trimmed, unless missing or blank.
fn cover_marker_value(nodes: &Vec<XmlNode>, meta_node: bool) -> (r: Option<Vec<char>>)
    ensures
        r.deep_view() == (if meta_node {
            cover_id_of(nodes_view(nodes@))
        } else {
            cover_reference_href(nodes_view(nodes@))
        }),
{
    let ghost nv = nodes_view(nodes@);
    let ghost pred = if meta_node { cover_meta_pred() } else { cover_reference_pred() };
    let mut i: usize = 0;
    while i < nodes.len()
        invariant
            i <= nodes.len(),
            nv == nodes_view(nodes@),
            pred == (if meta_node { cover_meta_pred() } else { cover_reference_pred() }),
            first_index(nv, pred) == first_index_from(nv, pred, i as int),
        decreases nodes.len() - i,
    {
        assert(nv[i as int] == nodes@[i as int]@);
        if is_cover_marker(&nodes[i], meta_node) {
            assert(pred(nv[i as int]));
            let v = if meta_node {
                attribute(&nodes[i], "content")
            } else {
                attribute(&nodes[i], "href")
            };
            return match v {
                Some(c) => {
                    let t = trim_chars(&c);
                    if t.len() == 0 {
                        None
                    } else {
                        Some(t)
                    }
                },
                None => None,
            };
        }
        assert(!pred(nv[i as int]));
        i = i + 1;
    }
    None
}

/// The first manifest entry that `which` selects: 0 for the entry with id
/// `id`, 1 for one marked `cover-image`, 2 for an image entry named like a cover.
fn find_cover_item(items: &Vec<CoverManifestItem>, which: u8, id: &[char]) -> (r: Option<usize>)
    requires
        which <= 2,
    ensures
        ({
            let p = if which == 0 {
                item_id_pred(id@)
            } else if which == 1 {
                cover_image_item_pred()
            } else {
                named_cover_image_pred()
            };
            &&& r matches Some(i) ==> first_index(items_view(items@), p) == Some(i as int) && i
                < items.len()
            &&& r is None ==> first_index(items_view(items@), p) is None
        }),
{
    let ghost iv = items_view(items@);
    let ghost p = if which == 0 {
        item_id_pred(id@)
    } else if which == 1 {
        cover_image_item_pred()
    } else {
        named_cover_image_pred()
    };
    let mut i: usize = 0;
    while i < items.len()
        invariant
            i <= items.len(),
            which <= 2,
            iv == items_view(items@),
            p == (if which == 0 {
                item_id_pred(id@)
            } else if which == 1 {
                cover_image_item_pred()
            } else {
                named_cover_image_pred()
            }),
            first_index(iv, p) == first_index_from(iv, p, i as int),
        decreases items.len() - i,
    {
        let it = &items[i];
        assert(iv[i as int] == it@);
        let hit = if which == 0 {
            crate::text::eq_chars(&it.id, id)
        } else if which == 1 {
            match &it.properties {
                Some(props) => has_word_exec(props, "cover-image"),
                None => false,
            }
        } else {
            let is_image = match &it.media_type {
                Some(m) => starts_with_chars(m, &chars_of("image/")),
                None => mime_from_path(&it.href).is_some(),
            };
            is_image && contains_chars(&to_lowercase(&it.href), &chars_of("cover"))
        };
        if hit {
            assert(p(iv[i as int]));
            return Some(i);
        }
        assert(!p(iv[i as int]));
        i = i + 1;
    }
    None
}

/// The cover image that a package document names, as (href, media type).
pub fn find_epub_cover_entry(opf_xml: &str) -> (r: Option<(Vec<char>, Option<Vec<char>>)>)
    ensures
        r.deep_view() == cover_entry_spec(opf_xml@),
{
    let nodes = match parse_xml(opf_xml) {
        Ok(n) => n,
        Err(_) => return None,
    };
    let ghost nv = nodes_view(nodes@);
    let items = cover_manifest_exec(&nodes);
    let cover_id = cover_marker_value(&nodes, true);
    if let Some(id) = &cover_id {
        if let Some(i) = find_cover_item(&items, 0, id) {
            assert(items_view(items@)[i as int] == items@[i as int]@);
            return Some((items[i].href.clone(), items[i].media_type.clone()));
        }
    }
    let empty: Vec<char> = Vec::new();
    if let Some(i) = find_cover_item(&items, 1, &empty) {
        assert(items_view(items@)[i as int] == items@[i as int]@);
        return Some((items[i].href.clone(), items[i].media_type.clone()));
    }
    let reference = cover_marker_value(&nodes, false);
    if let Some(h) = reference {
        return Some((h, None));
    }
    match find_cover_item(&items, 2, &empty) {
        Some(i) => {
            assert(items_view(items@)[i as int] == items@[i as int]@);
            Some((items[i].href.clone(), items[i].media_type.clone()))
        },
        None => None,
    }
}


/// The text of an archive entry, where it reads and is UTF-8.
pub open spec fn read_text_spec(source: Seq<u8>, name: Seq<char>) -> Option<Seq<char>> {
    match zip_entry_read(source, name) {
        EntryRead::Data(v) => if valid_utf8(v) {
            Some(decode_utf8(v))
        } else {
            None
        },
        _ => None,
    }
}

/// The contents of an archive entry, where it reads.
pub open spec fn read_binary_spec(source: Seq<u8>, name: Seq<char>) -> Option<Seq<u8>> {
    match zip_entry_read(source, name) {
        EntryRead::Data(v) => Some(v),
        _ => None,
    }
}

/// The text of the entry at `path` once normalized (none for an empty path).
pub open spec fn cover_read_text_spec(source: Seq<u8>, path: Seq<char>) -> Option<Seq<char>> {
    let n = normalize_archive_path_spec(path);
    if n.len() == 0 {
        None
    } else {
        read_text_spec(source, n)
    }
}

/// The contents of the entry at `path` once normalized (none for an empty path).
pub open spec fn cover_read_binary_spec(source: Seq<u8>, path: Seq<char>) -> Option<Seq<u8>> {
    let n = normalize_archive_path_spec(path);
    if n.len() == 0 {
        None
    } else {
        read_binary_spec(source, n)
    }
}

pub fn read_zip_text(archive: &mut Archive, path: &[char]) -> (r: Option<Vec<char>>)
    ensures
        final(archive).source() == old(archive).source(),
        r.deep_view() == cover_read_text_spec(old(archive).source(), path@),
{
    let normalized = normalize_archive_path(path);
    if normalized.len() == 0 {
        return None;
    }
    let name = string_of(&normalized);
    match archive_read_text(archive, name.as_str()) {
        Some(Ok(content)) => Some(chars_of(content.as_str())),
        _ => None,
    }
}

pub fn read_zip_binary(archive: &mut Archive, path: &[char]) -> (r: Option<Vec<u8>>)
    ensures
        final(archive).source() == old(archive).source(),
        r.deep_view() == cover_read_binary_spec(old(archive).source(), path@),
{
    let normalized = normalize_archive_path(path);
    if normalized.len() == 0 {
        return None;
    }
    let name = string_of(&normalized);
    match archive_read_bytes(archive, name.as_str()) {
        Some(Ok(content)) => {
            assert(content.deep_view() =~= content@);
            Some(content)
        },
        _ => None,
    }
}

/// The pieces of `parts` that are neither empty nor `.`.
pub open spec fn path_components(parts: Seq<Seq<char>>) -> Seq<Seq<char>>
    decreases parts.len(),
{
    if parts.len() == 0 {
        Seq::empty()
    } else {
        let r = path_components(parts.drop_last());
        if parts.last().len() == 0 || parts.last() == seq!['.'] {
            r
        } else {
            r.push(parts.last())
        }
    }
}

/// The components of `path` without its last one: what `Path::parent` keeps
/// of a path (its root and any leading `.` aside, which normalization drops).
pub open spec fn parent_components(path: Seq<char>) -> Seq<Seq<char>> {
    let c = path_components(split_any(path, slash()));
    if c.len() == 0 {
        c
    } else {
        c.drop_last()
    }
}

/// `href` taken relative to the directory of the package document at
/// `opf_path`, normalized.
pub open spec fn resolve_relative_archive_path_spec(opf_path: Seq<char>, href: Seq<char>) -> Seq<char> {
    let clean = normalize_archive_path_spec(href);
    if clean.len() == 0 {
        clean
    } else {
        normalize_archive_path_spec(join(parent_components(opf_path), slash()) + slash() + clean)
    }
}

pub fn resolve_relative_archive_path(opf_path: &[char], href: &[char]) -> (r: Vec<char>)
    ensures
        r@ == resolve_relative_archive_path_spec(opf_path@, href@),
{
    let clean = normalize_archive_path(href);
    if clean.len() == 0 {
        return clean;
    }
    let sep = vec!['/'];
    assert(sep@ =~= slash());
    let parts = split_any_chars(opf_path, &sep);
    let ghost pv = parts.deep_view();
    let mut comps: Vec<Vec<char>> = Vec::new();
    let mut i: usize = 0;
    while i < parts.len()
        invariant
            i <= parts.len(),
            pv == parts.deep_view(),
            comps.deep_view() == path_components(pv.take(i as int)),
        decreases parts.len() - i,
    {
        proof {
            assert(pv.take(i + 1).drop_last() =~= pv.take(i as int));
            assert(pv.take(i + 1).last() == parts@[i as int]@);
        }
        let p = &parts[i];
        let is_dot = p.len() == 1 && p[0] == '.';
        if is_dot {
            assert(p@ =~= seq!['.']);
        } else if p.len() == 1 {
            assert(p@[0] != seq!['.'][0]);
        } else {
            assert(p@.len() != seq!['.'].len());
        }
        if !(p.len() == 0 || is_dot) {
            let ghost before = comps.deep_view();
            comps.push(p.clone());
            assert(comps.deep_view() =~= before.push(p@));
        }
        i = i + 1;
    }
    assert(pv.take(parts.len() as int) =~= pv);
    if comps.len() > 0 {
        let ghost before = comps.deep_view();
        comps.pop();
        assert(comps.deep_view() =~= before.drop_last());
    }
    let mut joined = join_chars(&comps, &sep);
    push_chars(&mut joined, &sep);
    push_chars(&mut joined, &clean);
    normalize_archive_path(&joined)
}

/// The media type a cover is served with: the manifest's if it is an image
/// type, else the one its path's extension names, else the one its bytes announce.
pub open spec fn cover_mime_spec(media_type: Option<Seq<char>>, path: Seq<char>, bytes: Seq<u8>) -> Option<Seq<char>> {
    match media_type {
        Some(m) if starts_with(m, "image/"@) => Some(m),
        _ => match mime_from_path_spec(path) {
            Some(m) => Some(m),
            None => sniff_image_mime_spec(bytes),
        },
    }
}

/// The cover of the EPUB in `bytes`: the package document that the container
/// names, the cover entry it names, read and embedded as a data URI.
pub open spec fn epub_cover_spec(bytes: Seq<u8>) -> Option<Seq<char>> {
    if zip_listing(bytes) is None {
        None
    } else {
        match cover_read_text_spec(bytes, "META-INF/container.xml"@) {
            None => None,
            Some(container) => match cover_opf_path_spec(container) {
                None => None,
                Some(opf_path) => match cover_read_text_spec(bytes, opf_path) {
                    None => None,
                    Some(opf) => match cover_entry_spec(opf) {
                        None => None,
                        Some(entry) => {
                            let cover_path = resolve_relative_archive_path_spec(opf_path, entry.0);
                            match cover_read_binary_spec(bytes, cover_path) {
                                None => None,
                                Some(image) => match cover_mime_spec(entry.1, cover_path, image) {
                                    None => None,
                                    Some(mime) => encode_data_uri_spec(image, mime),
                                },
                            }
                        },
                    },
                },
            },
        }
    }
}

pub fn extract_epub_cover_data_uri(bytes: Vec<u8>) -> (r: Option<String>)
    ensures
        r.deep_view() == epub_cover_spec(bytes@),
{
    let ghost source = bytes@;
    let mut archive = match archive_open(bytes) {
        Ok(a) => a,
        Err(_) => return None,
    };
    let container_path = chars_of("META-INF/container.xml");
    let container_xml = match read_zip_text(&mut archive, &container_path) {
        Some(t) => t,
        None => return None,
    };
    let opf_path = match find_opf_path(string_of(&container_xml).as_str()) {
        Some(p) => p,
        None => return None,
    };
    let opf_xml = match read_zip_text(&mut archive, &opf_path) {
        Some(t) => t,
        None => return None,
    };
    let (cover_href, media_type) = match find_epub_cover_entry(string_of(&opf_xml).as_str()) {
        Some(e) => e,
        None => return None,
    };
    let cover_path = resolve_relative_archive_path(&opf_path, &cover_href);
    let image = match read_zip_binary(&mut archive, &cover_path) {
        Some(b) => b,
        None => return None,
    };
    let ghost entry = cover_entry_spec(opf_xml@)->0;
    assert(cover_path@ == resolve_relative_archive_path_spec(opf_path@, entry.0));
    assert(media_type.deep_view() == entry.1);
    assert(cover_read_binary_spec(source, cover_path@) == Some(image@));
    let image_prefix = chars_of("image/");
    let mime: Vec<char> = match media_type {
        Some(m) if starts_with_chars(&m, &image_prefix) => m,
        _ => match mime_from_path(&cover_path) {
            Some(m) => chars_of(m),
            None => match sniff_image_mime_type(&image) {
                Some(m) => chars_of(m),
                None => return None,
            },
        },
    };
    assert(cover_mime_spec(entry.1, cover_path@, image@) == Some(mime@));
    encode_data_uri(&image, &mime)
}

/// The cover that a book file's bytes yield, for the formats that carry one.
pub open spec fn cover_image_spec(file_bytes: Seq<u8>, format: Seq<char>) -> Option<Seq<char>> {
    if format == "EPUB"@ {
        epub_cover_spec(file_bytes)
    } else if format == "PDF"@ {
        pdf_cover_spec(file_bytes)
    } else {
        None
    }
}

/// The cover image of a book file, as a `data:` URI: for an EPUB the image
/// its package document names, for a PDF the largest embedded JPEG or PNG.
pub fn extract_cover_image_data_uri(file_bytes: Vec<u8>, format: &str) -> (r: Option<String>)
    ensures
        r.deep_view() == cover_image_spec(file_bytes@, format@),
{
    let f = chars_of(format);
    if eq_str(&f, "EPUB") {
        extract_epub_cover_data_uri(file_bytes)
    } else if eq_str(&f, "PDF") {
        extract_pdf_cover_data_uri(&file_bytes)
    } else {
        None
    }
}

/// When the cover `meta` names no manifest entry, the cover is the first
/// manifest entry whose properties list the word `cover-image`, with its
/// media type.
pub proof fn lemma_cover_image_property(nodes: Seq<XmlNodeView>, k: int)
    requires
        0 <= k < cover_manifest(nodes).len(),
        cover_manifest(nodes)[k].3 matches Some(p) && has_word(p, "cover-image"@),
        forall|j: int| 0 <= j < k ==> !(#[trigger] cover_manifest(nodes)[j].3 matches Some(p) && has_word(p, "cover-image"@)),
        forall|j: int| 0 <= j < cover_manifest(nodes).len() && cover_id_of(nodes) is Some ==> #[trigger] cover_manifest(nodes)[j].0 != cover_id_of(nodes)->0,
    ensures
        cover_entry_in(nodes) == Some((cover_manifest(nodes)[k].1, cover_manifest(nodes)[k].2)),
{
    let items = cover_manifest(nodes);
    let p = cover_image_item_pred();
    lemma_first_index_from(items, p, 0);
    assert(p(items[k]));
    if let Some(i) = first_index(items, p) {
        if i < k {
            assert(!p(items[i]));
        }
        if i > k {
            assert(!p(items[k]));
        }
    }
    if let Some(id) = cover_id_of(nodes) {
        lemma_first_index_from(items, item_id_pred(id), 0);
        if let Some(i) = first_index(items, item_id_pred(id)) {
            assert(items[i].0 != id);
        }
    }
}

} // verus!
