//! The rules of the book library that lie between the database and the files:
//! how tags and metadata are normalized, what a saved reading position may
//! hold, which books still need a cover, how tags are attached to the books
//! listed, and how an imported file is named, typed and titled.
use vstd::prelude::*;
use crate::epub::{contains_path, last_chapter_index_spec, parse_last_chapter_index};
use crate::paths::{extension, extension_spec, file_name, file_name_spec, file_stem, file_stem_spec};
use crate::text::{
    chars_of, copy_chars, decimal, decimal_exec, eq_chars, eq_str, lemma_chars_deep_view,
    lemma_trim_idempotent, lowercase, map_chars, map_chars_exec, push_chars, push_str, string_of,
    to_lowercase, trim, trim_chars,
};
use crate::types::{BookDto, EpubChapterDto, EpubReadDto, ImportRejection, UpdateBookMetadataInput};

verus! {

broadcast use lemma_chars_deep_view;

/// The title a book gets when it has none.
pub open spec fn untitled() -> Seq<char> {
    "Livro sem título"@
}

/// The author a book gets when it has none.
pub open spec fn unknown_author() -> Seq<char> {
    "Autor desconhecido"@
}

pub open spec fn lower_keys(ts: Seq<Seq<char>>) -> Seq<Seq<char>> {
    ts.map_values(|t: Seq<char>| lowercase(t))
}

/// Tags trimmed, blank ones dropped, and each kept only the first time it
/// occurs ignoring case, in their order.
pub open spec fn normalize_tags_spec(tags: Seq<Seq<char>>) -> Seq<Seq<char>>
    decreases tags.len(),
{
    if tags.len() == 0 {
        Seq::empty()
    } else {
        let r = normalize_tags_spec(tags.drop_last());
        let t = trim(tags.last());
        if t.len() == 0 || lower_keys(r).contains(lowercase(t)) {
            r
        } else {
            r.push(t)
        }
    }
}

/// Normalizes a book's tags.
pub fn normalize_tags(tags: &Vec<String>) -> (r: Vec<String>)
    ensures
        r.deep_view() == normalize_tags_spec(tags.deep_view()),
{
    let ghost tv = tags.deep_view();
    let mut deduped: Vec<String> = Vec::new();
    let mut seen: Vec<Vec<char>> = Vec::new();
    let mut i: usize = 0;
    while i < tags.len()
        invariant
            i <= tags.len(),
            tv == tags.deep_view(),
            deduped.deep_view() == normalize_tags_spec(tv.take(i as int)),
            seen.deep_view() == lower_keys(deduped.deep_view()),
        decreases tags.len() - i,
    {
        proof {
            assert(tv.take(i + 1).drop_last() =~= tv.take(i as int));
            assert(tv.take(i + 1).last() == tags@[i as int]@);
        }
        let normalized = trim_chars(&chars_of(tags[i].as_str()));
        if normalized.len() > 0 {
            let key = to_lowercase(&normalized);
            if !contains_path(&seen, &key) {
                let ghost before = deduped.deep_view();
                let ghost seen_before = seen.deep_view();
                deduped.push(string_of(&normalized));
                seen.push(key);
                assert(deduped.deep_view() =~= before.push(normalized@));
                assert(seen.deep_view() =~= seen_before.push(key@));
                assert(lower_keys(before.push(normalized@)) =~= lower_keys(before).push(lowercase(normalized@)));
            }
        }
        i = i + 1;
    }
    assert(tv.take(tags.len() as int) =~= tv);
    deduped
}

/// Normalized tags are trimmed and not blank, and no two of them are the same
/// ignoring case.
pub proof fn lemma_normalized_tags_clean(tags: Seq<Seq<char>>)
    ensures
        forall|i: int| 0 <= i < normalize_tags_spec(tags).len() ==> {
            let t = #[trigger] normalize_tags_spec(tags)[i];
            t.len() > 0 && trim(t) == t
        },
        forall|i: int, j: int| 0 <= i < j < normalize_tags_spec(tags).len() ==>
            lowercase(#[trigger] normalize_tags_spec(tags)[i]) != lowercase(#[trigger] normalize_tags_spec(tags)[j]),
    decreases tags.len(),
{
    if tags.len() > 0 {
        let r = normalize_tags_spec(tags.drop_last());
        lemma_normalized_tags_clean(tags.drop_last());
        let t = trim(tags.last());
        lemma_trim_idempotent(tags.last());
        if !(t.len() == 0 || lower_keys(r).contains(lowercase(t))) {
            let n = r.push(t);
            assert(n == normalize_tags_spec(tags));
            assert forall|i: int, j: int| 0 <= i < j < n.len() implies lowercase(#[trigger] n[i]) != lowercase(#[trigger] n[j]) by {
                if j == n.len() - 1 {
                    assert(lower_keys(r)[i] == lowercase(r[i]));
                }
            }
        }
    }
}

/// Every tag that is not blank is kept, or one equal to it ignoring case was
/// kept before it.
pub proof fn lemma_normalized_tags_cover(tags: Seq<Seq<char>>, k: int)
    requires
        0 <= k < tags.len(),
        trim(tags[k]).len() > 0,
    ensures
        lower_keys(normalize_tags_spec(tags)).contains(lowercase(trim(tags[k]))),
    decreases tags.len(),
{
    let r = normalize_tags_spec(tags.drop_last());
    if k < tags.len() - 1 {
        assert(tags.drop_last()[k] == tags[k]);
        lemma_normalized_tags_cover(tags.drop_last(), k);
        let key = lowercase(trim(tags[k]));
        let w = choose|w: int| 0 <= w < lower_keys(r).len() && lower_keys(r)[w] == key;
        let n = normalize_tags_spec(tags);
        if n != r {
            assert(lower_keys(n)[w] == lower_keys(r)[w]);
        }
    } else {
        let n = normalize_tags_spec(tags);
        let t = trim(tags.last());
        if !lower_keys(r).contains(lowercase(t)) {
            assert(lower_keys(n)[n.len() - 1] == lowercase(t));
        }
    }
}

/// Normalizing tags a second time changes nothing.
pub proof fn lemma_normalize_tags_idempotent(tags: Seq<Seq<char>>)
    ensures
        normalize_tags_spec(normalize_tags_spec(tags)) == normalize_tags_spec(tags),
{
    let n = normalize_tags_spec(tags);
    lemma_normalized_tags_clean(tags);
    lemma_normalize_clean_prefix(n, n.len() as int);
    assert(n.take(n.len() as int) =~= n);
}

proof fn lemma_normalize_clean_prefix(n: Seq<Seq<char>>, k: int)
    requires
        0 <= k <= n.len(),
        forall|i: int| 0 <= i < n.len() ==> (#[trigger] n[i]).len() > 0 && trim(n[i]) == n[i],
        forall|i: int, j: int| 0 <= i < j < n.len() ==> lowercase(#[trigger] n[i]) != lowercase(#[trigger] n[j]),
    ensures
        normalize_tags_spec(n.take(k)) == n.take(k),
    decreases k,
{
    if k > 0 {
        lemma_normalize_clean_prefix(n, k - 1);
        let p = n.take(k);
        assert(p.drop_last() =~= n.take(k - 1));
        assert(p.last() == n[k - 1]);
        let r = n.take(k - 1);
        if lower_keys(r).contains(lowercase(n[k - 1])) {
            let w = choose|w: int| 0 <= w < lower_keys(r).len() && lower_keys(r)[w] == lowercase(n[k - 1]);
            assert(lowercase(n[w]) == lowercase(n[k - 1]));
        }
        assert(r.push(n[k - 1]) =~= p);
    }
}

/// A book's metadata as it is stored: title and author trimmed, with a
/// default when blank; description trimmed; tags normalized.
pub struct NormalizedMetadata {
    pub book_id: i64,
    pub title: String,
    pub author: String,
    pub description: String,
    pub tags: Vec<String>,
}

pub open spec fn or_default(s: Seq<char>, default: Seq<char>) -> Seq<char> {
    if trim(s).len() == 0 {
        default
    } else {
        trim(s)
    }
}

fn trimmed_or(s: &String, default: &str) -> (r: String)
    ensures
        r@ == or_default(s@, default@),
{
    let t = trim_chars(&chars_of(s.as_str()));
    if t.len() == 0 {
        default.to_string()
    } else {
        string_of(&t)
    }
}

/// What an update of a book's metadata writes.
pub fn normalize_metadata(payload: &UpdateBookMetadataInput) -> (r: NormalizedMetadata)
    ensures
        r.book_id == payload.book_id,
        r.title@ == or_default(payload.title@, untitled()),
        r.author@ == or_default(payload.author@, unknown_author()),
        r.description@ == trim(payload.description@),
        r.tags.deep_view() == normalize_tags_spec(payload.tags.deep_view()),
{
    let title = trimmed_or(&payload.title, "Livro sem título");
    let author = trimmed_or(&payload.author, "Autor desconhecido");
    let description = string_of(&trim_chars(&chars_of(payload.description.as_str())));
    NormalizedMetadata {
        book_id: payload.book_id,
        title,
        author,
        description,
        tags: normalize_tags(&payload.tags),
    }
}

/// Stored metadata always has a title and an author that are not blank.
pub proof fn lemma_metadata_never_blank(s: Seq<char>)
    ensures
        or_default(s, untitled()).len() > 0,
        or_default(s, unknown_author()).len() > 0,
{
    reveal_strlit("Livro sem título");
    reveal_strlit("Autor desconhecido");
}

/// The outcome of a statement that changes one book: an error when no row
/// was changed, since the book does not exist.
pub fn require_book_changed(rows_affected: usize) -> (r: Result<(), String>)
    ensures
        r is Ok <==> rows_affected > 0,
        r matches Err(e) ==> e@ == "book not found"@,
{
    if rows_affected == 0 {
        Err("book not found".to_string())
    } else {
        Ok(())
    }
}

/// A reading progress held to the range 0 to 100.
pub open spec fn bounded_progress_spec(p: int) -> int {
    if p < 0 {
        0
    } else if p > 100 {
        100
    } else {
        p
    }
}

/// The progress percent that is saved for a reported one.
pub fn bounded_progress(progress_percent: i64) -> (r: i64)
    ensures
        r == bounded_progress_spec(progress_percent as int),
        0 <= r <= 100,
        0 <= progress_percent <= 100 ==> r == progress_percent,
{
    if progress_percent < 0 {
        0
    } else if progress_percent > 100 {
        100
    } else {
        progress_percent
    }
}

pub open spec fn text_or_empty(o: Option<Seq<char>>) -> Seq<char> {
    match o {
        Some(s) => s,
        None => Seq::empty(),
    }
}

/// The books still without a cover that have a source to take one from:
/// each row's format and path (empty where missing), rows with either empty
/// dropped.
pub open spec fn cover_sources_spec(rows: Seq<(i64, Option<Seq<char>>, Option<Seq<char>>)>) -> Seq<(i64, Seq<char>, Seq<char>)>
    decreases rows.len(),
{
    if rows.len() == 0 {
        Seq::empty()
    } else {
        let r = cover_sources_spec(rows.drop_last());
        let (id, format, path) = rows.last();
        if text_or_empty(format).len() == 0 || text_or_empty(path).len() == 0 {
            r
        } else {
            r.push((id, text_or_empty(format), text_or_empty(path)))
        }
    }
}

/// Keeps the rows of books without a cover that name both a format and a
/// file path.
pub fn missing_cover_sources(rows: Vec<(i64, Option<String>, Option<String>)>) -> (r: Vec<(i64, String, String)>)
    ensures
        r.deep_view() == cover_sources_spec(rows.deep_view()),
{
    let ghost rv = rows.deep_view();
    let mut books: Vec<(i64, String, String)> = Vec::new();
    let mut i: usize = 0;
    while i < rows.len()
        invariant
            i <= rows.len(),
            rv == rows.deep_view(),
            books.deep_view() == cover_sources_spec(rv.take(i as int)),
        decreases rows.len() - i,
    {
        proof {
            assert(rv.take(i + 1).drop_last() =~= rv.take(i as int));
            assert(rv.take(i + 1).last() == rows@[i as int].deep_view());
        }
        let row = &rows[i];
        let format = match &row.1 {
            Some(f) => f.clone(),
            None => String::new(),
        };
        let path = match &row.2 {
            Some(p) => p.clone(),
            None => String::new(),
        };
        assert(format@ == text_or_empty(rv[i as int].1));
        assert(path@ == text_or_empty(rv[i as int].2));
        if chars_of(format.as_str()).len() > 0 && chars_of(path.as_str()).len() > 0 {
            let ghost before = books.deep_view();
            books.push((row.0, format, path));
            assert(books.deep_view() =~= before.push((rv[i as int].0, text_or_empty(rv[i as int].1), text_or_empty(rv[i as int].2))));
        }
        i = i + 1;
    }
    assert(rv.take(rows.len() as int) =~= rv);
    books
}

/// The names of the tags on the book with id `id`, in row order.
pub open spec fn tags_of(rows: Seq<(i64, Seq<char>)>, id: i64) -> Seq<Seq<char>>
    decreases rows.len(),
{
    if rows.len() == 0 {
        Seq::empty()
    } else {
        let r = tags_of(rows.drop_last(), id);
        if rows.last().0 == id {
            r.push(rows.last().1)
        } else {
            r
        }
    }
}

/// A book id that an earlier book in the list already has (its tags went to
/// that book).
pub open spec fn id_seen_before(ids: Seq<i64>, k: int) -> bool {
    exists|j: int| 0 <= j < k && ids[j] == ids[k]
}

pub open spec fn book_ids(books: Seq<BookDto>) -> Seq<i64> {
    books.map_values(|b: BookDto| b.id)
}

fn tag_names_for(rows: &Vec<(i64, String)>, id: i64) -> (r: Vec<String>)
    ensures
        r.deep_view() == tags_of(rows.deep_view(), id),
{
    let ghost rv = rows.deep_view();
    let mut names: Vec<String> = Vec::new();
    let mut i: usize = 0;
    while i < rows.len()
        invariant
            i <= rows.len(),
            rv == rows.deep_view(),
            names.deep_view() == tags_of(rv.take(i as int), id),
        decreases rows.len() - i,
    {
        proof {
            assert(rv.take(i + 1).drop_last() =~= rv.take(i as int));
            assert(rv.take(i + 1).last() == rows@[i as int].deep_view());
        }
        if rows[i].0 == id {
            let ghost before = names.deep_view();
            names.push(rows[i].1.clone());
            assert(names.deep_view() =~= before.push(rows@[i as int].1@));
        }
        i = i + 1;
    }
    assert(rv.take(rows.len() as int) =~= rv);
    names
}

/// Gives each listed book the tags that the tag rows assign to its id, in
/// row order; a book whose id an earlier book already has gets none.
pub fn attach_tags(books: Vec<BookDto>, tag_rows: &Vec<(i64, String)>) -> (r: Vec<BookDto>)
    ensures
        r.len() == books.len(),
        forall|k: int| #![trigger r@[k]] 0 <= k < r.len() ==> {
            &&& r@[k].id == books@[k].id
            &&& r@[k].title == books@[k].title
            &&& r@[k].author == books@[k].author
            &&& r@[k].description == books@[k].description
            &&& r@[k].cover_image_data == books@[k].cover_image_data
            &&& r@[k].format == books@[k].format
            &&& r@[k].year == books@[k].year
            &&& r@[k].progress == books@[k].progress
            &&& r@[k].is_epub_available == books@[k].is_epub_available
            &&& r@[k].tags.deep_view() == if id_seen_before(book_ids(books@), k) {
                Seq::empty()
            } else {
                tags_of(tag_rows.deep_view(), books@[k].id)
            }
        },
{
    let ghost ids = book_ids(books@);
    let ghost given = books@;
    let mut out: Vec<BookDto> = Vec::new();
    let mut seen: Vec<i64> = Vec::new();
    let mut k: usize = 0;
    let n = books.len();
    while k < n
        invariant
            k <= n == given.len(),
            books@ == given,
            ids == book_ids(given),
            out.len() == k,
            seen@ == ids.take(k as int),
            forall|j: int| #![trigger out@[j]] 0 <= j < k ==> {
                &&& out@[j].id == given[j].id
                &&& out@[j].title == given[j].title
                &&& out@[j].author == given[j].author
                &&& out@[j].description == given[j].description
                &&& out@[j].cover_image_data == given[j].cover_image_data
                &&& out@[j].format == given[j].format
                &&& out@[j].year == given[j].year
                &&& out@[j].progress == given[j].progress
                &&& out@[j].is_epub_available == given[j].is_epub_available
                &&& out@[j].tags.deep_view() == if id_seen_before(ids, j) {
                    Seq::empty()
                } else {
                    tags_of(tag_rows.deep_view(), given[j].id)
                }
            },
        decreases n - k,
    {
        let id = books[k].id;
        assert(ids[k as int] == id);
        let mut found = false;
        let mut s: usize = 0;
        while s < seen.len()
            invariant
                s <= seen.len() == k,
                k < ids.len(),
                seen@ == ids.take(k as int),
                ids[k as int] == id,
                found <==> exists|j: int| 0 <= j < s && ids[j] == id,
            decreases seen.len() - s,
        {
            assert(seen@[s as int] == ids[s as int]);
            if seen[s] == id {
                found = true;
            }
            s = s + 1;
        }
        assert(found == id_seen_before(ids, k as int));
        let tags = if found {
            Vec::new()
        } else {
            tag_names_for(tag_rows, id)
        };
        let b = &books[k];
        let cover = match &b.cover_image_data {
            Some(c) => Some(c.clone()),
            None => None,
        };
        let book = BookDto {
            id: b.id,
            title: b.title.clone(),
            author: b.author.clone(),
            description: b.description.clone(),
            cover_image_data: cover,
            format: b.format.clone(),
            year: b.year,
            progress: b.progress,
            tags,
            is_epub_available: b.is_epub_available,
        };
        out.push(book);
        seen.push(id);
        assert(seen@ =~= ids.take(k + 1));
        k = k + 1;
    }
    out
}

/// The name an import reports for a file: the path's file name, or
/// `arquivo` when it has none.
pub open spec fn import_file_name_spec(raw_path: Seq<char>) -> Seq<char> {
    match file_name_spec(raw_path) {
        Some(n) => n,
        None => "arquivo"@,
    }
}

pub fn import_file_name(raw_path: &str) -> (r: String)
    ensures
        r@ == import_file_name_spec(raw_path@),
{
    match file_name(&chars_of(raw_path)) {
        Some(n) => string_of(&n),
        None => "arquivo".to_string(),
    }
}

/// The format of a book file by its extension, ignoring case: `EPUB` or
/// `PDF`; none for any other.
pub open spec fn format_of(path: Seq<char>) -> Option<Seq<char>> {
    match extension_spec(path) {
        None => None,
        Some(e) => if lowercase(e) == "epub"@ {
            Some("EPUB"@)
        } else if lowercase(e) == "pdf"@ {
            Some("PDF"@)
        } else {
            None
        },
    }
}

pub fn resolve_format(path: &str) -> (r: Option<&'static str>)
    ensures
        crate::text::opt_str_view(r) == format_of(path@),
{
    let e = match extension(&chars_of(path)) {
        Some(e) => e,
        None => return None,
    };
    let l = to_lowercase(&e);
    if eq_str(&l, "epub") {
        Some("EPUB")
    } else if eq_str(&l, "pdf") {
        Some("PDF")
    } else {
        None
    }
}

/// The title an imported book gets: the file's stem, trimmed, with `_` and
/// `-` read as spaces and trimmed again; `Livro sem título` when nothing is
/// left or the path has no stem.
pub open spec fn book_title_spec(path: Seq<char>) -> Seq<char> {
    let stem = match file_stem_spec(path) {
        Some(s) => s,
        None => untitled(),
    };
    let n = trim(map_chars(trim(stem), seq!['_', '-'], ' '));
    if n.len() == 0 {
        untitled()
    } else {
        n
    }
}

pub fn normalize_book_title(path: &str) -> (r: String)
    ensures
        r@ == book_title_spec(path@),
        r@.len() > 0,
{
    proof {
        reveal_strlit("Livro sem título");
    }
    let stem = match file_stem(&chars_of(path)) {
        Some(s) => s,
        None => chars_of("Livro sem título"),
    };
    let seps = vec!['_', '-'];
    assert(seps@ =~= seq!['_', '-']);
    let n = trim_chars(&map_chars_exec(&trim_chars(&stem), &seps, ' '));
    if n.len() == 0 {
        "Livro sem título".to_string()
    } else {
        string_of(&n)
    }
}

/// The file name tried for the `counter`th attempt to place an imported
/// file: its stem (or `arquivo`) and its extension, with `-<counter>` between
/// them after the first attempt.
pub open spec fn destination_name_spec(source: Seq<char>, counter: nat) -> Seq<char> {
    let stem = match file_stem_spec(source) {
        Some(s) => s,
        None => "arquivo"@,
    };
    let ext = match extension_spec(source) {
        Some(e) => "."@ + e,
        None => Seq::empty(),
    };
    if counter == 0 {
        stem + ext
    } else {
        stem + "-"@ + decimal(counter) + ext
    }
}

pub fn destination_file_name(source: &str, counter: u32) -> (r: String)
    ensures
        r@ == destination_name_spec(source@, counter as nat),
{
    let src = chars_of(source);
    let stem = match file_stem(&src) {
        Some(s) => s,
        None => chars_of("arquivo"),
    };
    let mut name: Vec<char> = Vec::new();
    push_chars(&mut name, &stem);
    if counter > 0 {
        push_str(&mut name, "-");
        push_chars(&mut name, &decimal_exec(counter as usize));
    }
    match extension(&src) {
        Some(e) => {
            push_str(&mut name, ".");
            push_chars(&mut name, &e);
        },
        None => {},
    }
    proof {
        reveal_strlit(".");
        reveal_strlit("-");
    }
    let ghost ext = match extension_spec(source@) {
        Some(e) => "."@ + e,
        None => Seq::<char>::empty(),
    };
    assert(name@ =~= destination_name_spec(source@, counter as nat));
    string_of(&name)
}

/// One step of the search for a free name for an imported file: the name
/// tried with `counter` is taken (`None`) when nothing exists under it;
/// otherwise the search goes on with the next counter.
pub fn destination_search_step(counter: u32, candidate_exists: bool) -> (r: Option<u32>)
    requires
        candidate_exists ==> counter < u32::MAX,
    ensures
        !candidate_exists ==> r is None,
        candidate_exists ==> r == Some((counter + 1) as u32),
{
    if candidate_exists {
        Some(counter + 1)
    } else {
        None
    }
}

proof fn lemma_decimal_nonempty(n: nat)
    ensures
        decimal(n).len() >= 1,
        n >= 10 ==> decimal(n).len() >= 2,
    decreases n,
{
    if n >= 10 {
        lemma_decimal_nonempty(n / 10);
    }
}

proof fn lemma_digit_char(d: nat)
    requires
        d < 10,
    ensures
        (('0' as int + d) as char) as int == '0' as int + d,
{
    assert(0x30 <= '0' as int + d <= 0x39);
}

proof fn lemma_decimal_injective(a: nat, b: nat)
    requires
        decimal(a) == decimal(b),
    ensures
        a == b,
    decreases a,
{
    lemma_decimal_nonempty(a);
    lemma_decimal_nonempty(b);
    if a < 10 && b < 10 {
        assert(decimal(a) == seq![('0' as int + a) as char]);
        assert(decimal(b) == seq![('0' as int + b) as char]);
        let ca = ('0' as int + a) as char;
        let cb = ('0' as int + b) as char;
        assert(decimal(a)[0] == ca);
        assert(decimal(b)[0] == cb);
        assert(ca == cb);
        lemma_digit_char(a);
        lemma_digit_char(b);
        assert(ca as int == cb as int);
    } else if a >= 10 && b >= 10 {
        assert(decimal(a) == decimal(a / 10).push(('0' as int + a % 10) as char));
        assert(decimal(b) == decimal(b / 10).push(('0' as int + b % 10) as char));
        let ca = ('0' as int + a % 10) as char;
        let cb = ('0' as int + b % 10) as char;
        assert(decimal(a).last() == ca);
        assert(decimal(b).last() == cb);
        assert(ca == cb);
        lemma_digit_char((a % 10) as nat);
        lemma_digit_char((b % 10) as nat);
        assert(ca as int == cb as int);
        assert(decimal(a).drop_last() =~= decimal(a / 10));
        assert(decimal(b).drop_last() =~= decimal(b / 10));
        lemma_decimal_injective(a / 10, b / 10);
        assert(a % 10 == b % 10);
        assert(a == (a / 10) * 10 + a % 10) by (nonlinear_arith);
        assert(b == (b / 10) * 10 + b % 10) by (nonlinear_arith);
        assert(a == b);
    } else if a < 10 {
        assert(decimal(a).len() == 1);
    } else {
        assert(decimal(b).len() == 1);
    }
}

/// Each attempt to place an imported file tries a name no other attempt
/// tries, so the search for a free name never repeats itself.
pub proof fn lemma_destination_names_distinct(source: Seq<char>, c: nat, d: nat)
    requires
        c != d,
    ensures
        destination_name_spec(source, c) != destination_name_spec(source, d),
{
    let stem = match file_stem_spec(source) {
        Some(s) => s,
        None => "arquivo"@,
    };
    let ext = match extension_spec(source) {
        Some(e) => "."@ + e,
        None => Seq::<char>::empty(),
    };
    reveal_strlit("-");
    lemma_decimal_nonempty(c);
    lemma_decimal_nonempty(d);
    let nc = destination_name_spec(source, c);
    let nd = destination_name_spec(source, d);
    if c > 0 && d > 0 && nc == nd {
        let dc = decimal(c);
        let dd = decimal(d);
        assert(nc == stem + "-"@ + dc + ext);
        assert(nd == stem + "-"@ + dd + ext);
        assert(dc.len() == dd.len());
        assert forall|i: int| 0 <= i < dc.len() implies dc[i] == dd[i] by {
            assert(nc[stem.len() + 1 + i] == dc[i]);
            assert(nd[stem.len() + 1 + i] == dd[i]);
        }
        assert(dc =~= dd);
        lemma_decimal_injective(c, d);
    } else if c == 0 && d > 0 {
        assert(nd.len() == stem.len() + 1 + decimal(d).len() + ext.len());
        assert(nc.len() == stem.len() + ext.len());
    } else if d == 0 && c > 0 {
        assert(nc.len() == stem.len() + 1 + decimal(c).len() + ext.len());
        assert(nd.len() == stem.len() + ext.len());
    }
}

/// Why an import turns a file down before copying it, if it does: it is not
/// an existing file, or its extension names no known format. Otherwise the
/// file's format.
pub fn check_import_source(raw_path: &str, is_existing_file: bool) -> (r: Result<&'static str, ImportRejection>)
    ensures
        !is_existing_file ==> (r matches Err(j) && j.file_name@ == import_file_name_spec(raw_path@)
            && j.reason@ == "arquivo não encontrado"@),
        is_existing_file ==> match format_of(raw_path@) {
            Some(f) => r matches Ok(x) && x@ == f,
            None => r matches Err(j) && j.file_name@ == import_file_name_spec(raw_path@)
                && j.reason@ == "extensão não suportada (use EPUB ou PDF)"@,
        },
{
    let file_name = import_file_name(raw_path);
    if !is_existing_file {
        return Err(ImportRejection { file_name, reason: "arquivo não encontrado".to_string() });
    }
    match resolve_format(raw_path) {
        Some(f) => Ok(f),
        None => Err(ImportRejection { file_name, reason: "extensão não suportada (use EPUB ou PDF)".to_string() }),
    }
}

/// The rejection of a file that could not be copied into the library.
pub fn copy_failure(file_name: &str, error: &str) -> (r: ImportRejection)
    ensures
        r.file_name@ == file_name@,
        r.reason@ == "falha ao copiar arquivo: "@ + error@,
{
    let mut reason: Vec<char> = Vec::new();
    push_str(&mut reason, "falha ao copiar arquivo: ");
    push_str(&mut reason, error);
    ImportRejection { file_name: file_name.to_string(), reason: string_of(&reason) }
}

/// Whether a table's column names (as `PRAGMA table_info` lists them)
/// include `column`.
pub fn has_column(column_names: &Vec<String>, column: &str) -> (r: bool)
    ensures
        r == column_names.deep_view().contains(column@),
{
    let ghost names = column_names.deep_view();
    let target = chars_of(column);
    let mut i: usize = 0;
    while i < column_names.len()
        invariant
            i <= column_names.len(),
            names == column_names.deep_view(),
            target@ == column@,
            forall|j: int| 0 <= j < i ==> names[j] != column@,
        decreases column_names.len() - i,
    {
        assert(names[i as int] == column_names@[i as int]@);
        if eq_chars(&chars_of(column_names[i].as_str()), &target) {
            return true;
        }
        i = i + 1;
    }
    false
}

/// The EPUB a reader opens: its chapters, and the chapter to resume at from
/// the saved reading position.
pub fn build_epub_read(
    book_id: i64,
    book_title: String,
    chapters: Vec<EpubChapterDto>,
    last_position: Option<String>,
    progress_percent: i64,
) -> (r: EpubReadDto)
    requires
        chapters.len() <= 9223372036854775808,
    ensures
        r.book_id == book_id,
        r.book_title == book_title,
        r.chapters@ == chapters@,
        r.last_chapter_index == last_chapter_index_spec(last_position.deep_view(), chapters.len() as int),
        r.progress_percent == progress_percent,
{
    let last_chapter_index = parse_last_chapter_index(last_position, chapters.len());
    EpubReadDto { book_id, book_title, chapters, last_chapter_index, progress_percent }
}

/// A title or author that is not blank is stored as given, only its
/// surrounding white space trimmed; a blank one is stored as the default.
pub proof fn lemma_metadata_text_kept(given: Seq<char>, default: Seq<char>)
    ensures
        trim(given).len() > 0 ==> or_default(given, default) == trim(given),
        trim(given).len() == 0 ==> or_default(given, default) == default,
{
}

} // verus!
