//! Turning an EPUB's content documents into the chapters a reader shows:
//! which documents are read and in what order, local images embedded as data
//! URIs, and each chapter's title.
use vstd::prelude::*;
use vstd::utf8::encode_utf8;
use crate::archive::{archive_open, zip_listing, Archive};
use crate::encoding::{data_uri, data_uri_spec, percent_decode, percent_decode_bytes, utf8_lossy};
use crate::epub::{
    built_view, dedupe_paths, dedupe_spec, epub_error_text, dtos_view, entry_bytes_spec, entry_text_spec,
    epub_opf_path_spec, extract_heading_title, find_epub_opf_path, find_html_paths,
    heading_title_spec, html_path_pred, image_media_type, image_media_type_spec,
    is_local_epub_resource, is_local_resource_spec, is_navigation_path, is_navigation_path_spec,
    listed_paths, merge_spec, merge_untitled_chapters, navigation_titles_spec, ncx_titles_spec,
    package_spec, pairs_view, parse_navigation_titles, parse_ncx_titles, parse_package_document,
    read_zip_binary_entry, read_zip_text_entry, BuiltChapter, BuiltView, TitleEntry,
};
use crate::html::{
    chapter_title_from_path, chapter_title_from_path_spec, decode_basic_html_entities,
    decode_entities_spec, fallback_title_for_path, fallback_title_spec, has_image_tag,
    has_image_tag_spec, html_to_text_spec, is_useful_title_chars, is_useful_title_spec,
    sanitize_epub_html, sanitize_epub_html_to_text, sanitize_html_spec,
};
use crate::lexical::{sort_texts, text_order};
use crate::paths::{
    normalize_epub_path, normalize_epub_path_spec, parent_dir, parent_dir_spec, strip_fragment,
    strip_fragment_spec,
};
use crate::regexes::{captures_all, compile, regex_captures_result, regex_compiles, Group};
use crate::text::{
    error_text, starts_with, chars_of, copy_chars, ends_with, ends_with_chars, eq_chars, first_index, first_index_from,
    is_blank, is_blank_chars, lemma_chars_deep_view, lemma_split_any_nonempty, push_chars,
    push_str, split_any, split_any_chars, string_of, trim, trim_chars,
};
use crate::types::EpubChapterDto;

verus! {

broadcast use lemma_chars_deep_view;

/// A content document of the book: its path in the archive and its markup.
pub struct EpubSection {
    pub path: Vec<char>,
    pub html: Vec<char>,
}

impl View for EpubSection {
    type V = (Seq<char>, Seq<char>);

    open spec fn view(&self) -> (Seq<char>, Seq<char>) {
        (self.path@, self.html@)
    }
}

pub open spec fn sections_view(v: Seq<EpubSection>) -> Seq<(Seq<char>, Seq<char>)> {
    v.map_values(|s: EpubSection| s@)
}

/// A path that is not a navigation document.
pub open spec fn not_navigation() -> spec_fn(Seq<char>) -> bool {
    |p: Seq<char>| !is_navigation_path_spec(p)
}

/// The documents to read, in reading order: the spine without repeats; or,
/// with no spine, the archive's HTML files that are not navigation documents,
/// sorted by path. `None` where listing the archive fails.
pub open spec fn ordered_paths_spec(source: Seq<u8>, spine: Seq<Seq<char>>) -> Option<Seq<Seq<char>>> {
    if spine.len() == 0 {
        match listed_paths(zip_listing(source)->0, html_path_pred()) {
            None => None,
            Some(ps) => Some(ps.filter(not_navigation()).sort_by(text_order())),
        }
    } else {
        Some(dedupe_spec(spine))
    }
}

/// The documents among `paths` that exist and are not blank, read in order;
/// `None` where one cannot be read.
pub open spec fn sections_from(source: Seq<u8>, paths: Seq<Seq<char>>) -> Option<Seq<(Seq<char>, Seq<char>)>>
    decreases paths.len(),
{
    if paths.len() == 0 {
        Some(Seq::empty())
    } else {
        match sections_from(source, paths.drop_last()) {
            None => None,
            Some(r) => match entry_text_spec(source, paths.last()) {
                None => None,
                Some(None) => Some(r),
                Some(Some(html)) => if is_blank(html) {
                    Some(r)
                } else {
                    Some(r.push((paths.last(), html)))
                },
            },
        }
    }
}

pub open spec fn sections_spec(source: Seq<u8>, spine: Seq<Seq<char>>) -> Option<Seq<(Seq<char>, Seq<char>)>> {
    match ordered_paths_spec(source, spine) {
        None => None,
        Some(ps) => sections_from(source, ps),
    }
}

fn drop_navigation_paths(paths: &Vec<Vec<char>>) -> (r: Vec<Vec<char>>)
    ensures
        r.deep_view() == paths.deep_view().filter(not_navigation()),
{
    let ghost pv = paths.deep_view();
    let mut kept: Vec<Vec<char>> = Vec::new();
    let mut i: usize = 0;
    while i < paths.len()
        invariant
            i <= paths.len(),
            pv == paths.deep_view(),
            kept.deep_view() == pv.take(i as int).filter(not_navigation()),
        decreases paths.len() - i,
    {
        proof {
            reveal_with_fuel(Seq::<_>::filter, 1);
            assert(pv.take(i + 1).drop_last() =~= pv.take(i as int));
            assert(pv.take(i + 1).last() == paths@[i as int]@);
        }
        if !is_navigation_path(&paths[i]) {
            let ghost before = kept.deep_view();
            kept.push(copy_chars(&paths[i]));
            assert(kept.deep_view() =~= before.push(paths@[i as int]@));
        }
        i = i + 1;
    }
    assert(pv.take(paths.len() as int) =~= pv);
    kept
}

/// The book's content documents, in reading order.
pub fn read_content_sections(archive: &mut Archive, spine_paths: &Vec<Vec<char>>) -> (r: Result<Vec<EpubSection>, String>)
    ensures
        r matches Err(e) ==> epub_error_text(e@),
        final(archive).source() == old(archive).source(),
        match sections_spec(old(archive).source(), spine_paths.deep_view()) {
            Some(o) => r matches Ok(v) && sections_view(v@) == o,
            None => r is Err,
        },
{
    let ghost source = archive.source();
    let ordered = if spine_paths.len() == 0 {
        let found = find_html_paths(archive)?;
        let kept = drop_navigation_paths(&found);
        sort_texts(&kept)
    } else {
        dedupe_paths(spine_paths)
    };
    let ghost ov = ordered.deep_view();
    assert(ordered_paths_spec(source, spine_paths.deep_view()) == Some(ov));
    let mut sections: Vec<EpubSection> = Vec::new();
    let mut i: usize = 0;
    while i < ordered.len()
        invariant
            i <= ordered.len(),
            ov == ordered.deep_view(),
            archive.source() == source,
            source == old(archive).source(),
            sections_spec(source, spine_paths.deep_view()) == sections_from(source, ov),
            sections_from(source, ov.take(i as int)) == Some(sections_view(sections@)),
        decreases ordered.len() - i,
    {
        proof {
            assert(ov.take(i + 1).drop_last() =~= ov.take(i as int));
            assert(ov.take(i + 1).last() == ordered@[i as int]@);
        }
        let content = match read_zip_text_entry(archive, &ordered[i]) {
            Ok(c) => c,
            Err(e) => {
                proof {
                    lemma_sections_error(source, ov, i as int);
                }
                return Err(e);
            },
        };
        if let Some(html) = content {
            if !is_blank_chars(&html) {
                let ghost before = sections_view(sections@);
                sections.push(EpubSection { path: copy_chars(&ordered[i]), html });
                assert(sections_view(sections@) =~= before.push((ordered@[i as int]@, html@)));
            }
        }
        i = i + 1;
    }
    assert(ov.take(ordered.len() as int) =~= ov);
    Ok(sections)
}

proof fn lemma_sections_error(source: Seq<u8>, ps: Seq<Seq<char>>, i: int)
    requires
        0 <= i < ps.len(),
        entry_text_spec(source, ps[i]) is None,
    ensures
        sections_from(source, ps) is None,
    decreases ps.len(),
{
    if i < ps.len() - 1 {
        assert(ps.drop_last()[i] == ps[i]);
        lemma_sections_error(source, ps.drop_last(), i);
    }
}

/// The pattern of an image source attribute; the source is in group 3
/// (double quotes), 4 (single quotes) or 5 (bare).
pub open spec fn image_src_pattern() -> Seq<char> {
    r#"(?i)\s+(src)\s*=\s*("([^"]*)"|'([^']*)'|([^\s>]+))"#@
}

/// Group `g` of a match (start, end, text), where it took part.
pub open spec fn grp(m: Seq<Group>, g: int) -> (usize, usize, Seq<char>) {
    m[g]->0
}

/// The source an attribute match names (empty if no group holds it).
pub open spec fn raw_src(m: Seq<Group>) -> Seq<char> {
    if m.len() > 3 && m[3] is Some {
        grp(m, 3).2
    } else if m.len() > 4 && m[4] is Some {
        grp(m, 4).2
    } else if m.len() > 5 && m[5] is Some {
        grp(m, 5).2
    } else {
        Seq::empty()
    }
}

/// The image file a source refers to: entities decoded, percent-escapes
/// decoded, the query or fragment cut off, resolved against `base_dir`.
pub open spec fn image_path_spec(base_dir: Seq<char>, src: Seq<char>) -> Seq<char> {
    let decoded = utf8_lossy(percent_decode_bytes(encode_utf8(decode_entities_spec(trim(src)))));
    normalize_epub_path_spec(base_dir, split_any(decoded, seq!['#', '?'])[0])
}

/// The data URI of the local image a source refers to, when it is an image
/// by extension and its entry holds some bytes.
pub open spec fn image_data_uri_spec(source: Seq<u8>, base_dir: Seq<char>, src: Seq<char>) -> Option<Seq<char>> {
    if !is_local_resource_spec(src) {
        None
    } else {
        let path = image_path_spec(base_dir, src);
        match image_media_type_spec(path) {
            None => None,
            Some(mime) => match entry_bytes_spec(source, path) {
                Some(Some(bytes)) => if bytes.len() > 0 {
                    Some(data_uri_spec(mime, bytes))
                } else {
                    None
                },
                _ => None,
            },
        }
    }
}

fn image_data_uri(archive: &mut Archive, base_dir: &[char], src: &[char]) -> (r: Option<Vec<char>>)
    ensures
        final(archive).source() == old(archive).source(),
        r.deep_view() == image_data_uri_spec(old(archive).source(), base_dir@, src@),
{
    if !is_local_epub_resource(src) {
        return None;
    }
    let entities = decode_basic_html_entities(&trim_chars(src));
    let decoded = chars_of(percent_decode(string_of(&entities).as_str()).as_str());
    let seps = vec!['#', '?'];
    assert(seps@ =~= seq!['#', '?']);
    let pieces = split_any_chars(&decoded, &seps);
    proof {
        lemma_split_any_nonempty(decoded@, seps@);
    }
    assert(pieces.deep_view()[0] == pieces@[0]@);
    let path = normalize_epub_path(base_dir, &pieces[0]);
    let mime = match image_media_type(&path) {
        Some(m) => m,
        None => return None,
    };
    let bytes = match read_zip_binary_entry(archive, &path) {
        Ok(Some(b)) => b,
        _ => return None,
    };
    assert(bytes.deep_view() =~= bytes@);
    if bytes.len() == 0 {
        return None;
    }
    Some(data_uri(&chars_of(mime), &bytes))
}

/// Where the match before the `n`th ends (0 before the first).
pub open spec fn match_end(caps: Seq<Seq<Group>>, n: int) -> int {
    if n <= 0 {
        0
    } else {
        grp(caps[n - 1], 0).1 as int
    }
}

/// What an attribute match becomes: ` src="<data URI>"` for an embeddable
/// image, else the match as it was.
pub open spec fn replacement_of(source: Seq<u8>, base_dir: Seq<char>, m: Seq<Group>) -> Seq<char> {
    match image_data_uri_spec(source, base_dir, raw_src(m)) {
        Some(uri) => " src=\""@ + uri + "\""@,
        None => grp(m, 0).2,
    }
}

/// The markup up to the end of the `n`th match, matches replaced.
pub open spec fn spliced_upto(source: Seq<u8>, base_dir: Seq<char>, input: Seq<char>, caps: Seq<Seq<Group>>, n: int) -> Seq<char>
    decreases n,
{
    if n <= 0 {
        Seq::empty()
    } else {
        spliced_upto(source, base_dir, input, caps, n - 1) + input.subrange(match_end(caps, n - 1), grp(caps[n - 1], 0).0 as int)
            + replacement_of(source, base_dir, caps[n - 1])
    }
}

/// The markup with each matched source attribute replaced.
pub open spec fn spliced(source: Seq<u8>, base_dir: Seq<char>, input: Seq<char>, caps: Seq<Seq<Group>>) -> Seq<char> {
    spliced_upto(source, base_dir, input, caps, caps.len() as int) + input.subrange(match_end(caps, caps.len() as int), input.len() as int)
}

/// What the regex crate reports of a list of matches over `input`: each has
/// its whole match, the text of each group is the input between its offsets,
/// and matches come in order without overlapping.
pub open spec fn well_placed(input: Seq<char>, caps: Seq<Seq<Group>>) -> bool {
    &&& forall|k: int| 0 <= k < caps.len() ==> (#[trigger] caps[k]).len() >= 1 && caps[k][0] is Some
    &&& forall|k: int, g: int| 0 <= k < caps.len() && 0 <= g < caps[k].len() && (#[trigger] caps[k][g]) is Some ==> {
        let m = caps[k][g]->0;
        m.0 <= m.1 <= input.len() && m.2 == input.subrange(m.0 as int, m.1 as int)
    }
    &&& forall|k: int| 0 <= k && k + 1 < caps.len() ==> #[trigger] grp(caps[k], 0).1 <= grp(caps[k + 1], 0).0
}

fn push_range(out: &mut Vec<char>, input: &[char], from: usize, to: usize)
    requires
        from <= to <= input.len(),
    ensures
        final(out)@ == old(out)@ + input@.subrange(from as int, to as int),
{
    let mut i = from;
    while i < to
        invariant
            from <= i <= to <= input.len(),
            out@ == old(out)@ + input@.subrange(from as int, i as int),
        decreases to - i,
    {
        out.push(input[i]);
        assert(input@.subrange(from as int, i + 1) =~= input@.subrange(from as int, i as int).push(input@[i as int]));
        i = i + 1;
    }
}

fn group_text(m: &Vec<Option<(usize, usize, String)>>, g: usize) -> (r: Option<Vec<char>>)
    ensures
        r.deep_view() == (if g < m.len() && m.deep_view()[g as int] is Some {
            Some(grp(m.deep_view(), g as int).2)
        } else {
            None
        }),
{
    if g < m.len() {
        assert(m.deep_view()[g as int] == m@[g as int].deep_view());
        match &m[g] {
            Some(t) => Some(chars_of(t.2.as_str())),
            None => None,
        }
    } else {
        None
    }
}

/// Appends the markup from `from` up to the match `m`, then what the match
/// becomes; returns where the match ends.
fn splice_match(
    archive: &mut Archive,
    base_dir: &[char],
    input: &[char],
    m: &Vec<Option<(usize, usize, String)>>,
    out: &mut Vec<char>,
    from: usize,
) -> (end: usize)
    requires
        m.deep_view().len() >= 1,
        m.deep_view()[0] is Some,
        from <= grp(m.deep_view(), 0).0 <= grp(m.deep_view(), 0).1 <= input@.len(),
        grp(m.deep_view(), 0).2 == input@.subrange(grp(m.deep_view(), 0).0 as int, grp(m.deep_view(), 0).1 as int),
    ensures
        final(archive).source() == old(archive).source(),
        end == grp(m.deep_view(), 0).1,
        final(out)@ == old(out)@ + input@.subrange(from as int, grp(m.deep_view(), 0).0 as int)
            + replacement_of(old(archive).source(), base_dir@, m.deep_view()),
{
    let ghost mv = m.deep_view();
    assert(mv[0] == m@[0].deep_view());
    let (start, end) = match &m[0] {
        Some(w) => (w.0, w.1),
        None => {
            assert(false);
            (0, 0)
        },
    };
    push_range(out, input, from, start);
    let g3 = group_text(m, 3);
    let g4 = group_text(m, 4);
    let g5 = group_text(m, 5);
    let src = match g3 {
        Some(s) => s,
        None => match g4 {
            Some(s) => s,
            None => match g5 {
                Some(s) => s,
                None => Vec::new(),
            },
        },
    };
    assert(src@ == raw_src(mv));
    match image_data_uri(archive, base_dir, &src) {
        Some(uri) => {
            let ghost mid = out@;
            push_str(out, " src=\"");
            push_chars(out, &uri);
            push_str(out, "\"");
            assert(out@ =~= mid + (" src=\""@ + uri@ + "\""@));
        },
        None => {
            push_range(out, input, start, end);
        },
    }
    end
}

/// Replaces, in `input`, each matched image source by the data URI of the
/// image it refers to, given the matches of the source pattern.
pub fn splice_image_sources(
    archive: &mut Archive,
    base_dir: &[char],
    input: &[char],
    caps: &Vec<Vec<Option<(usize, usize, String)>>>,
) -> (r: Vec<char>)
    requires
        well_placed(input@, caps.deep_view()),
    ensures
        final(archive).source() == old(archive).source(),
        r@ == spliced(old(archive).source(), base_dir@, input@, caps.deep_view()),
{
    let ghost source = archive.source();
    let ghost cv = caps.deep_view();
    let mut out: Vec<char> = Vec::new();
    let mut last_end: usize = 0;
    let mut k: usize = 0;
    while k < caps.len()
        invariant
            k <= caps.len(),
            cv == caps.deep_view(),
            well_placed(input@, cv),
            archive.source() == source,
            source == old(archive).source(),
            last_end == match_end(cv, k as int),
            last_end <= input.len(),
            out@ == spliced_upto(source, base_dir@, input@, cv, k as int),
        decreases caps.len() - k,
    {
        assert(cv[k as int] == caps@[k as int].deep_view());
        assert(cv[k as int].len() >= 1 && cv[k as int][0] is Some);
        proof {
            if k > 0 {
                assert(grp(cv[k - 1], 0).1 <= grp(cv[k as int], 0).0);
            }
            let m = grp(cv[k as int], 0);
            assert(m.0 <= m.1 <= input@.len());
        }
        let ghost before = out@;
        last_end = splice_match(archive, base_dir, input, &caps[k], &mut out, last_end);
        assert(out@ =~= spliced_upto(source, base_dir@, input@, cv, k + 1));
        k = k + 1;
    }
    push_range(&mut out, input, last_end, input.len());
    out
}

/// The markup with its local images embedded; `None` where the source
/// pattern does not compile.
pub open spec fn embed_images_spec(source: Seq<u8>, section_path: Seq<char>, input: Seq<char>) -> Option<Seq<char>> {
    if regex_compiles(image_src_pattern()) {
        Some(spliced(source, parent_dir_spec(section_path), input, regex_captures_result(image_src_pattern(), input)))
    } else {
        None
    }
}

/// Embeds the local images that a chapter's markup refers to as data URIs.
pub fn embed_epub_images(archive: &mut Archive, section_path: &[char], input: &[char]) -> (r: Result<Vec<char>, String>)
    ensures
        r matches Err(e) ==> starts_with(e@, "failed to compile image source regex: "@),
        final(archive).source() == old(archive).source(),
        match embed_images_spec(old(archive).source(), section_path@, input@) {
            Some(o) => r matches Ok(v) && v@ == o,
            None => r is Err,
        },
{
    let text = string_of(input);
    let pattern = match compile(r#"(?i)\s+(src)\s*=\s*("([^"]*)"|'([^']*)'|([^\s>]+))"#) {
        Ok(p) => p,
        Err(err) => return Err(error_text("failed to compile image source regex: ", err.as_str())),
    };
    let caps = captures_all(&pattern, text.as_str());
    proof {
        let cv = caps.deep_view();
        assert forall|k: int| 0 <= k < cv.len() implies (#[trigger] cv[k]).len() >= 1 && cv[k][0] is Some by {
            assert(cv[k] == caps@[k].deep_view());
            assert(cv[k][0] == caps@[k]@[0].deep_view());
        }
        assert forall|k: int, g: int| 0 <= k < cv.len() && 0 <= g < cv[k].len() && (#[trigger] cv[k][g]) is Some implies {
            let m = cv[k][g]->0;
            m.0 <= m.1 <= input@.len() && m.2 == input@.subrange(m.0 as int, m.1 as int)
        } by {
            assert(cv[k] == caps@[k].deep_view());
            assert(cv[k][g] == caps@[k]@[g].deep_view());
            assert(caps@[k]@[g] is Some);
        }
        assert forall|k: int| 0 <= k && k + 1 < cv.len() implies #[trigger] grp(cv[k], 0).1 <= grp(cv[k + 1], 0).0 by {
            assert(cv[k][0] == caps@[k]@[0].deep_view());
            assert(cv[k + 1][0] == caps@[k + 1]@[0].deep_view());
            assert(caps@[k]@[0] is Some && caps@[k + 1]@[0] is Some);
        }
    }
    let base_dir = parent_dir(section_path);
    Ok(splice_image_sources(archive, &base_dir, input, &caps))
}

/// The title the first title entry for `key` gives (the first entry wins, as
/// in a map filled with `entry(..).or_insert(..)`).
pub open spec fn title_lookup(titles: Seq<TitleEntry>, key: Seq<char>) -> Option<Seq<char>> {
    match first_index(titles, |e: TitleEntry| e.0 == key) {
        None => None,
        Some(i) => Some(titles[i].1),
    }
}

pub open spec fn useful(t: Option<Seq<char>>) -> Option<Seq<char>> {
    match t {
        Some(x) => if is_useful_title_spec(x) {
            Some(x)
        } else {
            None
        },
        None => None,
    }
}

/// The title the navigation gives a document: under its path, else under
/// its path without a fragment; kept when useful.
pub open spec fn toc_title_spec(titles: Seq<TitleEntry>, path: Seq<char>) -> Option<Seq<char>> {
    useful(
        match title_lookup(titles, path) {
            Some(t) => Some(t),
            None => title_lookup(titles, strip_fragment_spec(path)),
        },
    )
}

pub open spec fn first_some(a: Option<Seq<char>>, b: Option<Seq<char>>, c: Option<Seq<char>>) -> Option<Seq<char>> {
    if a is Some {
        a
    } else if b is Some {
        b
    } else {
        c
    }
}

/// The chapter a document gives (`Some(None)` when it holds neither text nor
/// images): its title from the navigation, else its first heading, else its
/// file name, each when useful; its fallback title by position; its markup
/// sanitized with images embedded. `None` where a pattern does not compile.
pub open spec fn chapter_spec(source: Seq<u8>, section: (Seq<char>, Seq<char>), index: nat, titles: Seq<TitleEntry>) -> Option<Option<BuiltView>> {
    let (path, raw) = section;
    match sanitize_html_spec(raw) {
        None => None,
        Some(s) => match embed_images_spec(source, path, s) {
            None => None,
            Some(html) => match html_to_text_spec(html) {
                None => None,
                Some(content) => if content.len() == 0 && !has_image_tag_spec(html) {
                    Some(None)
                } else {
                    let title = first_some(
                        toc_title_spec(titles, path),
                        useful(heading_title_spec(raw)),
                        useful(chapter_title_from_path_spec(path)),
                    );
                    Some(Some((title, fallback_title_spec(path, index), html)))
                },
            },
        },
    }
}

fn find_title(titles: &Vec<(Vec<char>, Vec<char>)>, key: &[char]) -> (r: Option<Vec<char>>)
    ensures
        r.deep_view() == title_lookup(pairs_view(titles@), key@),
{
    let ghost tv = pairs_view(titles@);
    let ghost pred = |e: TitleEntry| e.0 == key@;
    let mut i: usize = 0;
    while i < titles.len()
        invariant
            i <= titles.len(),
            tv == pairs_view(titles@),
            pred == (|e: TitleEntry| e.0 == key@),
            first_index(tv, pred) == first_index_from(tv, pred, i as int),
        decreases titles.len() - i,
    {
        assert(tv[i as int] == (titles@[i as int].0@, titles@[i as int].1@));
        if eq_chars(&titles[i].0, key) {
            return Some(copy_chars(&titles[i].1));
        }
        i = i + 1;
    }
    None
}

fn keep_useful(t: Option<Vec<char>>) -> (r: Option<Vec<char>>)
    ensures
        r.deep_view() == useful(t.deep_view()),
{
    match t {
        Some(x) => if is_useful_title_chars(&x) {
            Some(x)
        } else {
            None
        },
        None => None,
    }
}

/// Builds the chapter for one content document.
pub fn build_chapter(
    archive: &mut Archive,
    section: &EpubSection,
    fallback_index: usize,
    titles: &Vec<(Vec<char>, Vec<char>)>,
) -> (r: Result<Option<BuiltChapter>, String>)
    ensures
        r matches Err(e) ==> epub_error_text(e@),
        final(archive).source() == old(archive).source(),
        match chapter_spec(old(archive).source(), section@, fallback_index as nat, pairs_view(titles@)) {
            Some(o) => r matches Ok(c) && match (c, o) {
                (Some(x), Some(y)) => x@ == y,
                (None, None) => true,
                _ => false,
            },
            None => r is Err,
        },
{
    let sanitized = sanitize_epub_html(&section.html)?;
    let html = embed_epub_images(archive, &section.path, &sanitized)?;
    let content = sanitize_epub_html_to_text(&html)?;
    if content.len() == 0 && !has_image_tag(&html) {
        return Ok(None);
    }
    let toc = match find_title(titles, &section.path) {
        Some(t) => Some(t),
        None => find_title(titles, &strip_fragment(&section.path)),
    };
    let toc_title = keep_useful(toc);
    let title = if toc_title.is_some() {
        toc_title
    } else {
        let html_title = keep_useful(extract_heading_title(string_of(&section.html).as_str()));
        if html_title.is_some() {
            html_title
        } else {
            keep_useful(chapter_title_from_path(&section.path))
        }
    };
    let title = match title {
        Some(t) => Some(string_of(&t)),
        None => None,
    };
    let fallback = fallback_title_for_path(&section.path, fallback_index);
    Ok(Some(BuiltChapter { title, fallback_title: string_of(&fallback), html: string_of(&html) }))
}

/// The titles the navigation documents give, in order (NCX documents by
/// their `.ncx` ending); a document that is missing gives none; `None` where
/// one cannot be read.
pub open spec fn titles_spec(source: Seq<u8>, docs: Seq<Seq<char>>) -> Option<Seq<TitleEntry>>
    decreases docs.len(),
{
    if docs.len() == 0 {
        Some(Seq::empty())
    } else {
        match titles_spec(source, docs.drop_last()) {
            None => None,
            Some(r) => {
                let path = docs.last();
                match entry_text_spec(source, path) {
                    None => None,
                    Some(None) => Some(r),
                    Some(Some(content)) => Some(
                        r + if ends_with(path, ".ncx"@) {
                            ncx_titles_spec(content, parent_dir_spec(path))
                        } else {
                            navigation_titles_spec(content, parent_dir_spec(path))
                        },
                    ),
                }
            },
        }
    }
}

proof fn lemma_titles_error(source: Seq<u8>, docs: Seq<Seq<char>>, i: int)
    requires
        0 <= i < docs.len(),
        entry_text_spec(source, docs[i]) is None,
    ensures
        titles_spec(source, docs) is None,
    decreases docs.len(),
{
    if i < docs.len() - 1 {
        assert(docs.drop_last()[i] == docs[i]);
        lemma_titles_error(source, docs.drop_last(), i);
    }
}

/// Gathers the titles that the navigation and NCX documents give.
pub fn collect_titles(archive: &mut Archive, docs: &Vec<Vec<char>>) -> (r: Result<Vec<(Vec<char>, Vec<char>)>, String>)
    ensures
        r matches Err(e) ==> epub_error_text(e@),
        final(archive).source() == old(archive).source(),
        match titles_spec(old(archive).source(), docs.deep_view()) {
            Some(o) => r matches Ok(v) && pairs_view(v@) == o,
            None => r is Err,
        },
{
    let ghost source = archive.source();
    let ghost dv = docs.deep_view();
    let mut titles: Vec<(Vec<char>, Vec<char>)> = Vec::new();
    let mut i: usize = 0;
    while i < docs.len()
        invariant
            i <= docs.len(),
            dv == docs.deep_view(),
            archive.source() == source,
            source == old(archive).source(),
            titles_spec(source, dv.take(i as int)) == Some(pairs_view(titles@)),
        decreases docs.len() - i,
    {
        proof {
            assert(dv.take(i + 1).drop_last() =~= dv.take(i as int));
            assert(dv.take(i + 1).last() == docs@[i as int]@);
        }
        let path = &docs[i];
        let content = match read_zip_text_entry(archive, path) {
            Ok(c) => c,
            Err(e) => {
                proof {
                    lemma_titles_error(source, dv, i as int);
                }
                return Err(e);
            },
        };
        if let Some(content) = content {
            let base_dir = parent_dir(path);
            let text = string_of(&content);
            let mut parsed = if ends_with_chars(path, &chars_of(".ncx")) {
                parse_ncx_titles(text.as_str(), &base_dir)
            } else {
                parse_navigation_titles(text.as_str(), &base_dir)
            };
            let ghost before = pairs_view(titles@);
            let ghost added = pairs_view(parsed@);
            titles.append(&mut parsed);
            assert(pairs_view(titles@) =~= before + added);
        }
        i = i + 1;
    }
    assert(dv.take(docs.len() as int) =~= dv);
    Ok(titles)
}

/// The chapters the documents give, numbered from 1 by position; `None`
/// where one fails.
pub open spec fn chapters_spec(source: Seq<u8>, sections: Seq<(Seq<char>, Seq<char>)>, titles: Seq<TitleEntry>) -> Option<Seq<BuiltView>>
    decreases sections.len(),
{
    if sections.len() == 0 {
        Some(Seq::empty())
    } else {
        match chapters_spec(source, sections.drop_last(), titles) {
            None => None,
            Some(r) => match chapter_spec(source, sections.last(), sections.len(), titles) {
                None => None,
                Some(None) => Some(r),
                Some(Some(c)) => Some(r.push(c)),
            },
        }
    }
}

proof fn lemma_chapters_error(source: Seq<u8>, sections: Seq<(Seq<char>, Seq<char>)>, titles: Seq<TitleEntry>, i: int)
    requires
        0 <= i < sections.len(),
        chapter_spec(source, sections[i], (i + 1) as nat, titles) is None,
    ensures
        chapters_spec(source, sections, titles) is None,
    decreases sections.len(),
{
    if i < sections.len() - 1 {
        assert(sections.drop_last()[i] == sections[i]);
        lemma_chapters_error(source, sections.drop_last(), titles, i);
    }
}

fn build_chapters(archive: &mut Archive, sections: &Vec<EpubSection>, titles: &Vec<(Vec<char>, Vec<char>)>) -> (r: Result<Vec<BuiltChapter>, String>)
    ensures
        r matches Err(e) ==> epub_error_text(e@),
        final(archive).source() == old(archive).source(),
        match chapters_spec(old(archive).source(), sections_view(sections@), pairs_view(titles@)) {
            Some(o) => r matches Ok(v) && built_view(v@) == o,
            None => r is Err,
        },
{
    let ghost source = archive.source();
    let ghost sv = sections_view(sections@);
    let ghost tv = pairs_view(titles@);
    let mut built: Vec<BuiltChapter> = Vec::new();
    let mut i: usize = 0;
    while i < sections.len()
        invariant
            i <= sections.len(),
            sv == sections_view(sections@),
            tv == pairs_view(titles@),
            archive.source() == source,
            source == old(archive).source(),
            chapters_spec(source, sv.take(i as int), tv) == Some(built_view(built@)),
        decreases sections.len() - i,
    {
        proof {
            assert(sv.take(i + 1).drop_last() =~= sv.take(i as int));
            assert(sv.take(i + 1).last() == sections@[i as int]@);
            assert(sv.take(i + 1).len() == i + 1);
        }
        let c = match build_chapter(archive, &sections[i], i + 1, titles) {
            Ok(c) => c,
            Err(e) => {
                proof {
                    lemma_chapters_error(source, sv, tv, i as int);
                }
                return Err(e);
            },
        };
        if let Some(c) = c {
            let ghost before = built_view(built@);
            let ghost cv = c@;
            built.push(c);
            assert(built_view(built@) =~= before.push(cv));
        }
        i = i + 1;
    }
    assert(sv.take(sections.len() as int) =~= sv);
    Ok(built)
}

/// The chapters of the book in the archive made of `source`, untitled ones
/// merged; `None` where a step fails: the package document cannot be found,
/// read or parsed, an entry cannot be read, or a pattern does not compile.
pub open spec fn epub_chapters_spec(source: Seq<u8>) -> Option<Seq<(Seq<char>, Seq<char>)>> {
    match epub_opf_path_spec(source) {
        None => None,
        Some(opf) => {
            let package = match opf {
                None => Some((Seq::<Seq<char>>::empty(), Seq::<Seq<char>>::empty(), Seq::<Seq<char>>::empty())),
                Some(p) => package_spec(source, p),
            };
            match package {
                None => None,
                Some((spine, nav, ncx)) => match titles_spec(source, nav + ncx) {
                    None => None,
                    Some(titles) => match sections_spec(source, spine) {
                        None => None,
                        Some(sections) => match chapters_spec(source, sections, titles) {
                            None => None,
                            Some(built) => Some(merge_spec(built)),
                        },
                    },
                },
            }
        },
    }
}

/// Reads the chapters of the EPUB whose bytes are `bytes`.
pub fn read_epub_file(bytes: Vec<u8>) -> (r: Result<Vec<EpubChapterDto>, String>)
    ensures
        r matches Err(e) ==> epub_error_text(e@) || starts_with(e@, "failed to read EPUB archive: "@) || e@ == "não foi possível extrair conteúdo textual deste EPUB"@,
        zip_listing(bytes@) is None ==> (r matches Err(e) && crate::text::starts_with(e@, "failed to read EPUB archive: "@)),
        zip_listing(bytes@) is Some ==> match epub_chapters_spec(bytes@) {
            None => r is Err,
            Some(chapters) => if chapters.len() == 0 {
                r matches Err(e) && e@ == "não foi possível extrair conteúdo textual deste EPUB"@
            } else {
                r matches Ok(v) && dtos_view(v@) == chapters
            },
        },
{
    let mut archive = match archive_open(bytes) {
        Ok(a) => a,
        Err(err) => return Err(error_text("failed to read EPUB archive: ", err.as_str())),
    };
    let ghost source = archive.source();
    let opf_path = find_epub_opf_path(&mut archive)?;
    let (spine_paths, nav_paths, ncx_paths) = match &opf_path {
        Some(p) => parse_package_document(&mut archive, p)?,
        None => (Vec::new(), Vec::new(), Vec::new()),
    };
    let mut docs: Vec<Vec<char>> = Vec::new();
    let mut nav = nav_paths;
    let mut ncx = ncx_paths;
    let ghost nav_v = nav.deep_view();
    let ghost ncx_v = ncx.deep_view();
    docs.append(&mut nav);
    docs.append(&mut ncx);
    assert(docs.deep_view() =~= nav_v + ncx_v);
    let titles = collect_titles(&mut archive, &docs)?;
    let sections = read_content_sections(&mut archive, &spine_paths)?;
    let built = build_chapters(&mut archive, &sections, &titles)?;
    let chapters = merge_untitled_chapters(built);
    if chapters.len() == 0 {
        let mut m: Vec<char> = Vec::new();
        push_str(&mut m, "não foi possível extrair conteúdo textual deste EPUB");
        return Err(string_of(&m));
    }
    Ok(chapters)
}

/// Without a spine the documents are read in the order of their paths, and
/// none is a navigation document; with one, each spine document is read once.
pub proof fn lemma_reading_order(source: Seq<u8>, spine: Seq<Seq<char>>)
    ensures
        ordered_paths_spec(source, spine) matches Some(ps) ==> (spine.len() == 0 ==> {
            &&& vstd::relations::sorted_by(ps, text_order())
            &&& forall|i: int| 0 <= i < ps.len() ==> !is_navigation_path_spec(#[trigger] ps[i])
        }) && (spine.len() > 0 ==> forall|i: int, j: int| 0 <= i < j < ps.len() ==> ps[i] != ps[j]),
{
    if spine.len() == 0 {
        if let Some(listed) = listed_paths(zip_listing(source)->0, html_path_pred()) {
            let kept = listed.filter(not_navigation());
            crate::lexical::lemma_text_order_total();
            kept.lemma_sort_by_ensures(text_order());
            let ps = kept.sort_by(text_order());
            assert forall|i: int| 0 <= i < ps.len() implies !is_navigation_path_spec(#[trigger] ps[i]) by {
                assert(ps.contains(ps[i]));
                assert(kept.contains(ps[i]));
                let k = choose|k: int| 0 <= k < kept.len() && kept[k] == ps[i];
                listed.lemma_filter_pred(not_navigation(), k);
            }
        }
    } else {
        crate::epub::lemma_dedupe_unique(spine);
    }
}

/// A chapter's own title, when it has one, is a useful title.
pub proof fn lemma_chapter_title_useful(source: Seq<u8>, section: (Seq<char>, Seq<char>), index: nat, titles: Seq<TitleEntry>)
    ensures
        chapter_spec(source, section, index, titles) matches Some(Some(c)) ==> (c.0 matches Some(t) ==> is_useful_title_spec(t)),
{
}

/// How a chapter's title is chosen: the navigation's useful title for the
/// document wins; failing that, the first heading of the document when its
/// text is a useful title; failing both, the useful title its file name
/// gives (none if that is not useful either).
pub proof fn lemma_chapter_title_choice(source: Seq<u8>, section: (Seq<char>, Seq<char>), index: nat, titles: Seq<TitleEntry>)
    ensures
        chapter_spec(source, section, index, titles) matches Some(Some(c)) ==> {
            &&& toc_title_spec(titles, section.0) matches Some(t) ==> c.0 == Some(t)
            &&& toc_title_spec(titles, section.0) is None ==> (heading_title_spec(section.1) matches Some(h) ==> (
                is_useful_title_spec(h) ==> c.0 == Some(h)))
            &&& (toc_title_spec(titles, section.0) is None && (heading_title_spec(section.1) is None
                || !is_useful_title_spec(heading_title_spec(section.1)->0))) ==> c.0 == match chapter_title_from_path_spec(section.0) {
                Some(p) => if is_useful_title_spec(p) {
                    Some(p)
                } else {
                    None
                },
                None => None,
            }
        },
{
}

} // verus!
