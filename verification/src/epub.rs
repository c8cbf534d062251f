//! Reading an EPUB: its package document, its navigation, and the chapters it
//! holds, with images embedded and untitled fragments merged.
use vstd::prelude::*;
use crate::text::{
    error_text, occurs_at, is_ws, chars_of, copy_chars, decimal, decimal_exec, eq_str, is_blank, is_blank_chars, join, join_chars,
    lemma_chars_deep_view, push_chars, push_str, starts_with, string_of,
};
use crate::types::EpubChapterDto;
use crate::archive::{
    archive_entry_info, archive_len, archive_read_bytes, archive_read_text, zip_entry_read,
    zip_listing, Archive, EntryRead,
};
use vstd::utf8::{decode_utf8, valid_utf8};
use crate::text::{
    contains, contains_chars, ends_with, ends_with_chars, eq_chars, lowercase, to_lowercase, trim,
    trim_chars, first_index, first_index_from,
};
use crate::paths::{
    parent_dir, parent_dir_spec,    extension, extension_spec, normalize_epub_path, normalize_epub_path_spec, strip_fragment,
    strip_fragment_spec,
};
use crate::xml::{
    attribute, attribute_spec, descendants_end, find_named, first_named, lemma_first_named_bounds,
    nodes_view, parse_xml, subtree_end, xml_document, XmlNode, XmlNodeView,
};
use crate::html::{
    is_useful_title_chars, is_useful_title_spec, normalize_text, normalize_text_spec,
};

verus! {

broadcast use lemma_chars_deep_view;

/// A chapter as it is built, before untitled ones are merged.
#[derive(Debug, Clone)]
pub struct BuiltChapter {
    pub title: Option<String>,
    pub fallback_title: String,
    pub html: String,
}

pub type BuiltView = (Option<Seq<char>>, Seq<char>, Seq<char>);

impl View for BuiltChapter {
    type V = BuiltView;

    open spec fn view(&self) -> BuiltView {
        (self.title.deep_view(), self.fallback_title@, self.html@)
    }
}

/// The fragments that are not blank.
pub open spec fn non_blank(fs: Seq<Seq<char>>) -> Seq<Seq<char>> {
    fs.filter(|f: Seq<char>| !is_blank(f))
}

/// Fragments joined by line breaks, blank ones left out.
pub open spec fn join_fragments_spec(fs: Seq<Seq<char>>) -> Seq<char> {
    join(non_blank(fs), "\n"@)
}

pub fn join_html_fragments(fragments: &Vec<Vec<char>>) -> (r: Vec<char>)
    ensures
        r@ == join_fragments_spec(fragments.deep_view()),
{
    let mut kept: Vec<Vec<char>> = Vec::new();
    let mut i: usize = 0;
    while i < fragments.len()
        invariant
            i <= fragments.len(),
            kept.deep_view() == non_blank(fragments.deep_view().take(i as int)),
        decreases fragments.len() - i,
    {
        proof {
            reveal_with_fuel(Seq::<_>::filter, 1);
            assert(fragments.deep_view().take(i + 1).drop_last() =~= fragments.deep_view().take(i as int));
            assert(fragments.deep_view().take(i + 1).last() == fragments@[i as int]@);
        }
        if !is_blank_chars(&fragments[i]) {
            let ghost before = kept.deep_view();
            kept.push(copy_chars(&fragments[i]));
            assert(kept.deep_view() =~= before.push(fragments@[i as int]@));
        }
        i = i + 1;
    }
    assert(fragments.deep_view().take(fragments.len() as int) =~= fragments.deep_view());
    let nl = chars_of("\n");
    join_chars(&kept, &nl)
}

/// Untitled chapters folded into what comes before them: the chapters built
/// so far and the untitled fragments that came before any titled one.
pub open spec fn merge_state(chs: Seq<BuiltView>) -> (Seq<(Seq<char>, Seq<char>)>, Seq<Seq<char>>)
    decreases chs.len(),
{
    if chs.len() == 0 {
        (Seq::empty(), Seq::empty())
    } else {
        let (m, lead) = merge_state(chs.drop_last());
        let c = chs.last();
        match c.0 {
            Some(t) => {
                let html = if lead.len() == 0 {
                    c.2
                } else {
                    join_fragments_spec(lead.push(c.2))
                };
                (m.push((t, html)), Seq::empty())
            },
            None => if m.len() > 0 {
                (m.update(m.len() - 1, (m.last().0, join_fragments_spec(seq![m.last().1, c.2]))), lead)
            } else {
                (m, lead.push(c.2))
            },
        }
    }
}

/// No chapter has a title of its own.
pub open spec fn all_untitled(chs: Seq<BuiltView>) -> bool {
    forall|i: int| 0 <= i < chs.len() ==> (#[trigger] chs[i]).0 is None
}

/// The chapters a reader sees: if none has a title, each under its fallback
/// title; otherwise each untitled chapter joined to the titled one before it
/// (those before the first titled one to that one), and leftover fragments
/// gathered as one more chapter.
pub open spec fn merge_spec(chs: Seq<BuiltView>) -> Seq<(Seq<char>, Seq<char>)> {
    if all_untitled(chs) {
        chs.map_values(|c: BuiltView| (c.1, c.2))
    } else {
        let (m, lead) = merge_state(chs);
        if lead.len() > 0 {
            m.push(("Capítulo "@ + decimal((m.len() + 1) as nat), join_fragments_spec(lead)))
        } else {
            m
        }
    }
}

/// Fragments are left waiting only while no titled chapter has come.
pub proof fn lemma_leading_only_untitled(chs: Seq<BuiltView>)
    ensures
        merge_state(chs).1.len() > 0 ==> all_untitled(chs) && merge_state(chs).0.len() == 0,
    decreases chs.len(),
{
    if chs.len() > 0 {
        lemma_leading_only_untitled(chs.drop_last());
        if merge_state(chs).1.len() > 0 {
            assert forall|i: int| 0 <= i < chs.len() implies (#[trigger] chs[i]).0 is None by {
                if i < chs.len() - 1 {
                    assert(chs[i] == chs.drop_last()[i]);
                }
            }
        }
    }
}

/// The titles of the chapters that have one, in order.
pub open spec fn titles_of(chs: Seq<BuiltView>) -> Seq<Seq<char>>
    decreases chs.len(),
{
    if chs.len() == 0 {
        Seq::empty()
    } else {
        match chs.last().0 {
            Some(t) => titles_of(chs.drop_last()).push(t),
            None => titles_of(chs.drop_last()),
        }
    }
}

pub open spec fn first_parts(m: Seq<(Seq<char>, Seq<char>)>) -> Seq<Seq<char>> {
    m.map_values(|p: (Seq<char>, Seq<char>)| p.0)
}

proof fn lemma_merge_state_titles(chs: Seq<BuiltView>)
    ensures
        first_parts(merge_state(chs).0) == titles_of(chs),
    decreases chs.len(),
{
    if chs.len() > 0 {
        lemma_merge_state_titles(chs.drop_last());
        let (m, lead) = merge_state(chs.drop_last());
        let c = chs.last();
        match c.0 {
            Some(t) => {
                let html = if lead.len() == 0 {
                    c.2
                } else {
                    join_fragments_spec(lead.push(c.2))
                };
                assert(first_parts(m.push((t, html))) =~= first_parts(m).push(t));
            },
            None => {
                if m.len() > 0 {
                    let u = m.update(m.len() - 1, (m.last().0, join_fragments_spec(seq![m.last().1, c.2])));
                    assert(first_parts(u) =~= first_parts(m));
                }
            },
        }
    }
}

/// When some chapter has a title of its own, the reader gets exactly the
/// titled chapters, under their titles and in order (untitled ones are folded
/// into them); when none has, it gets every chapter under its fallback title.
pub proof fn lemma_merge_titles(chs: Seq<BuiltView>)
    ensures
        !all_untitled(chs) ==> first_parts(merge_spec(chs)) == titles_of(chs),
        all_untitled(chs) ==> merge_spec(chs).len() == chs.len() && forall|i: int|
            0 <= i < chs.len() ==> #[trigger] merge_spec(chs)[i] == (chs[i].1, chs[i].2),
{
    lemma_leading_only_untitled(chs);
    lemma_merge_state_titles(chs);
}

proof fn lemma_contains_self(s: Seq<char>)
    ensures
        contains(s, s),
{
    assert(s.subrange(0, s.len() as int) =~= s);
    assert(occurs_at(s, s, 0));
}

proof fn lemma_contains_concat(a: Seq<char>, b: Seq<char>, f: Seq<char>)
    ensures
        contains(a, f) ==> contains(a + b, f),
        contains(b, f) ==> contains(a + b, f),
{
    if contains(a, f) {
        let i = choose|i: int| occurs_at(a, f, i);
        assert((a + b).subrange(i, i + f.len()) =~= a.subrange(i, i + f.len()));
        assert(occurs_at(a + b, f, i));
    }
    if contains(b, f) {
        let i = choose|i: int| occurs_at(b, f, i);
        assert((a + b).subrange(a.len() + i, a.len() + i + f.len()) =~= b.subrange(i, i + f.len()));
        assert(occurs_at(a + b, f, a.len() + i));
    }
}

proof fn lemma_contains_trans(x: Seq<char>, y: Seq<char>, z: Seq<char>)
    requires
        contains(x, y),
        contains(y, z),
    ensures
        contains(x, z),
{
    let i = choose|i: int| occurs_at(x, y, i);
    let j = choose|j: int| occurs_at(y, z, j);
    let xs = x.subrange(i + j, i + j + z.len());
    let ys = y.subrange(j, j + z.len());
    assert(xs =~= ys) by {
        assert forall|t: int| 0 <= t < z.len() implies #[trigger] xs[t] == ys[t] by {
            assert(x.subrange(i, i + y.len())[j + t] == y[j + t]);
        }
    }
    assert(occurs_at(x, z, i + j));
}

proof fn lemma_contains_not_blank(x: Seq<char>, f: Seq<char>)
    requires
        contains(x, f),
        !is_blank(f),
    ensures
        !is_blank(x),
{
    let i = choose|i: int| occurs_at(x, f, i);
    let t = choose|t: int| 0 <= t < f.len() && !is_ws(f[t]);
    assert(x.subrange(i, i + f.len())[t] == x[i + t]);
}

proof fn lemma_join_contains(parts: Seq<Seq<char>>, sep: Seq<char>, j: int)
    requires
        0 <= j < parts.len(),
    ensures
        contains(join(parts, sep), parts[j]),
    decreases parts.len(),
{
    if parts.len() == 1 {
        lemma_contains_self(parts[0]);
    } else {
        let front = join(parts.drop_last(), sep) + sep;
        if j == parts.len() - 1 {
            lemma_contains_self(parts.last());
            lemma_contains_concat(front, parts.last(), parts[j]);
        } else {
            assert(parts.drop_last()[j] == parts[j]);
            lemma_join_contains(parts.drop_last(), sep, j);
            lemma_contains_concat(join(parts.drop_last(), sep), sep, parts[j]);
            lemma_contains_concat(front, parts.last(), parts[j]);
        }
    }
}

/// A fragment that is not blank is found in the fragments joined.
proof fn lemma_fragments_join_contains(fs: Seq<Seq<char>>, j: int)
    requires
        0 <= j < fs.len(),
        !is_blank(fs[j]),
    ensures
        contains(join_fragments_spec(fs), fs[j]),
{
    let pred = |f: Seq<char>| !is_blank(f);
    fs.lemma_filter_contains(pred, j);
    let kept = non_blank(fs);
    assert(kept == fs.filter(pred));
    let k = choose|k: int| 0 <= k < kept.len() && kept[k] == fs[j];
    lemma_join_contains(kept, "\n"@, k);
}

/// What `merge_state` keeps of a chapter's markup that is not blank: it is
/// inside some merged chapter, or one of the fragments still waiting.
proof fn lemma_merge_state_keeps(chs: Seq<BuiltView>, i: int)
    requires
        0 <= i < chs.len(),
        !is_blank(chs[i].2),
    ensures
        (exists|k: int| 0 <= k < merge_state(chs).0.len() && contains(#[trigger] merge_state(chs).0[k].1, chs[i].2))
            || merge_state(chs).1.contains(chs[i].2),
    decreases chs.len(),
{
    let f = chs[i].2;
    let (m, lead) = merge_state(chs.drop_last());
    let c = chs.last();
    let (m2, lead2) = merge_state(chs);
    if i == chs.len() - 1 {
        match c.0 {
            Some(t) => {
                if lead.len() == 0 {
                    lemma_contains_self(c.2);
                } else {
                    assert(lead.push(c.2)[lead.len() as int] == c.2);
                    lemma_fragments_join_contains(lead.push(c.2), lead.len() as int);
                }
                assert(m2[m.len() as int].1 == m2.last().1);
                assert(contains(m2[m.len() as int].1, f));
            },
            None => {
                if m.len() > 0 {
                    let pair = seq![m.last().1, c.2];
                    lemma_fragments_join_contains(pair, 1);
                    assert(contains(m2[m.len() - 1].1, f));
                } else {
                    assert(lead2[lead.len() as int] == f);
                }
            },
        }
    } else {
        assert(chs.drop_last()[i] == chs[i]);
        lemma_merge_state_keeps(chs.drop_last(), i);
        if lead.contains(f) {
            let w = choose|w: int| 0 <= w < lead.len() && lead[w] == f;
            match c.0 {
                Some(t) => {
                    assert(lead.push(c.2)[w] == f);
                    lemma_fragments_join_contains(lead.push(c.2), w);
                    assert(contains(m2[m.len() as int].1, f));
                },
                None => {
                    if m.len() > 0 {
                        assert(lead2 == lead);
                    } else {
                        assert(lead2[w] == f);
                    }
                },
            }
        } else {
            let k = choose|k: int| 0 <= k < m.len() && contains(#[trigger] m[k].1, f);
            match c.0 {
                Some(t) => {
                    assert(m2[k] == m[k]);
                },
                None => {
                    if k < m.len() - 1 {
                        assert(m2[k] == m[k]);
                    } else {
                        let pair = seq![m.last().1, c.2];
                        lemma_contains_not_blank(m.last().1, f);
                        lemma_fragments_join_contains(pair, 0);
                        lemma_contains_trans(join_fragments_spec(pair), m.last().1, f);
                        assert(contains(m2[k].1, f));
                    }
                },
            }
        }
    }
}

/// Merging loses nothing a reader could see: the markup of every chapter
/// that is not blank ends up inside the markup of one of the chapters the
/// reader gets.
pub proof fn lemma_merge_keeps_content(chs: Seq<BuiltView>, i: int)
    requires
        0 <= i < chs.len(),
        !is_blank(chs[i].2),
    ensures
        exists|k: int| 0 <= k < merge_spec(chs).len() && contains(#[trigger] merge_spec(chs)[k].1, chs[i].2),
{
    if all_untitled(chs) {
        lemma_contains_self(chs[i].2);
        assert(merge_spec(chs)[i].1 == chs[i].2);
    } else {
        lemma_leading_only_untitled(chs);
        lemma_merge_state_keeps(chs, i);
        let (m, lead) = merge_state(chs);
        assert(lead.len() == 0);
        assert(!lead.contains(chs[i].2));
        let k = choose|k: int| 0 <= k < m.len() && contains(#[trigger] m[k].1, chs[i].2);
        assert(merge_spec(chs)[k] == m[k]);
    }
}

pub open spec fn dtos_view(v: Seq<EpubChapterDto>) -> Seq<(Seq<char>, Seq<char>)> {
    v.map_values(|d: EpubChapterDto| d@)
}

pub open spec fn built_view(v: Seq<BuiltChapter>) -> Seq<BuiltView> {
    v.map_values(|c: BuiltChapter| c@)
}

/// Joins each untitled chapter to the titled chapter before it.
pub fn merge_untitled_chapters(chapters: Vec<BuiltChapter>) -> (r: Vec<EpubChapterDto>)
    ensures
        dtos_view(r@) == merge_spec(built_view(chapters@)),
{
    let ghost cv = built_view(chapters@);
    let mut all_none = true;
    let mut k: usize = 0;
    while k < chapters.len()
        invariant
            k <= chapters.len(),
            cv == built_view(chapters@),
            all_none == forall|j: int| 0 <= j < k ==> (#[trigger] cv[j]).0 is None,
        decreases chapters.len() - k,
    {
        assert(cv[k as int] == chapters@[k as int]@);
        if chapters[k].title.is_some() {
            all_none = false;
        }
        k = k + 1;
    }
    if all_none {
        let mut out: Vec<EpubChapterDto> = Vec::new();
        let mut i: usize = 0;
        while i < chapters.len()
            invariant
                i <= chapters.len(),
                cv == built_view(chapters@),
                dtos_view(out@) == cv.take(i as int).map_values(|c: BuiltView| (c.1, c.2)),
            decreases chapters.len() - i,
        {
            let c = &chapters[i];
            let ghost before = out@;
            out.push(EpubChapterDto { title: c.fallback_title.clone(), html: c.html.clone() });
            assert(cv[i as int] == c@);
            assert(dtos_view(out@) =~= dtos_view(before).push((c@.1, c@.2)));
            assert(dtos_view(out@) =~= cv.take(i + 1).map_values(|c: BuiltView| (c.1, c.2)));
            i = i + 1;
        }
        assert(cv.take(chapters.len() as int) =~= cv);
        return out;
    }
    let mut merged: Vec<EpubChapterDto> = Vec::new();
    let mut leading: Vec<Vec<char>> = Vec::new();
    let mut i: usize = 0;
    while i < chapters.len()
        invariant
            i <= chapters.len(),
            cv == built_view(chapters@),
            (dtos_view(merged@), leading.deep_view()) == merge_state(cv.take(i as int)),
            merged.len() <= i,
        decreases chapters.len() - i,
    {
        let c = &chapters[i];
        proof {
            assert(cv.take(i + 1).drop_last() =~= cv.take(i as int));
            assert(cv.take(i + 1).last() == c@);
        }
        let html = chars_of(c.html.as_str());
        match &c.title {
            Some(title) => {
                let body = if leading.len() == 0 {
                    html
                } else {
                    let ghost lv = leading.deep_view();
                    leading.push(html);
                    assert(leading.deep_view() =~= lv.push(c@.2));
                    let j = join_html_fragments(&leading);
                    leading = Vec::new();
                    j
                };
                let ghost before = merged@;
                merged.push(EpubChapterDto { title: title.clone(), html: string_of(&body) });
                assert(dtos_view(merged@) =~= dtos_view(before).push((title@, body@)));
                assert(leading.deep_view() =~= Seq::<Seq<char>>::empty());
            },
            None => {
                if merged.len() > 0 {
                    let last = merged.len() - 1;
                    let ghost before = dtos_view(merged@);
                    let prev = chars_of(merged[last].html.as_str());
                    let mut pair: Vec<Vec<char>> = Vec::new();
                    pair.push(prev);
                    pair.push(html);
                    assert(pair.deep_view() =~= seq![before.last().1, c@.2]);
                    let joined = join_html_fragments(&pair);
                    let t = merged[last].title.clone();
                    merged.set(last, EpubChapterDto { title: t, html: string_of(&joined) });
                    assert(dtos_view(merged@) =~= before.update(before.len() - 1, (before.last().0, joined@)));
                } else {
                    let ghost lv = leading.deep_view();
                    leading.push(html);
                    assert(leading.deep_view() =~= lv.push(c@.2));
                }
            },
        }
        i = i + 1;
    }
    assert(cv.take(chapters.len() as int) =~= cv);
    proof {
        lemma_leading_only_untitled(cv);
    }
    if leading.len() > 0 {
        let mut t: Vec<char> = Vec::new();
        push_str(&mut t, "Capítulo ");
        let d = decimal_exec(merged.len() + 1);
        push_chars(&mut t, &d);
        let body = join_html_fragments(&leading);
        let ghost before = merged@;
        merged.push(EpubChapterDto { title: string_of(&t), html: string_of(&body) });
        assert(dtos_view(merged@) =~= dtos_view(before).push((t@, body@)));
    }
    merged
}


pub open spec fn is_digit(c: char) -> bool {
    '0' <= c && c <= '9'
}

pub open spec fn all_digits(s: Seq<char>) -> bool {
    forall|i: int| 0 <= i < s.len() ==> is_digit(#[trigger] s[i])
}

/// The number that a string of decimal digits spells.
pub open spec fn digits_value(s: Seq<char>) -> int
    decreases s.len(),
{
    if s.len() == 0 {
        0
    } else {
        digits_value(s.drop_last()) * 10 + (s.last() as int - '0' as int)
    }
}

/// `i64::from_str`: an optional `+` or `-`, then one or more ASCII digits,
/// with a value that fits.
pub open spec fn parse_i64_spec(s: Seq<char>) -> Option<i64> {
    let neg = s.len() > 0 && s[0] == '-';
    let ds = if s.len() > 0 && (s[0] == '-' || s[0] == '+') {
        s.drop_first()
    } else {
        s
    };
    if ds.len() == 0 || !all_digits(ds) {
        None
    } else {
        let v = if neg {
            -digits_value(ds)
        } else {
            digits_value(ds)
        };
        if i64::MIN <= v <= i64::MAX {
            Some(v as i64)
        } else {
            None
        }
    }
}

proof fn lemma_digits_value_prefix(ds: Seq<char>, k: int)
    requires
        all_digits(ds),
        0 <= k <= ds.len(),
    ensures
        0 <= digits_value(ds.take(k)) <= digits_value(ds),
    decreases ds.len(),
{
    if k == ds.len() {
        assert(ds.take(k) =~= ds);
        lemma_digits_value_nonneg(ds);
    } else {
        assert(all_digits(ds.drop_last()));
        lemma_digits_value_prefix(ds.drop_last(), k);
        assert(ds.drop_last().take(k) =~= ds.take(k));
        lemma_digits_value_nonneg(ds.drop_last());
    }
}

proof fn lemma_digits_value_nonneg(ds: Seq<char>)
    requires
        all_digits(ds),
    ensures
        digits_value(ds) >= 0,
    decreases ds.len(),
{
    if ds.len() > 0 {
        assert(all_digits(ds.drop_last()));
        lemma_digits_value_nonneg(ds.drop_last());
        assert(is_digit(ds[ds.len() - 1]));
    }
}

/// `str::parse::<i64>` over characters.
pub fn parse_i64(s: &[char]) -> (r: Option<i64>)
    ensures
        r == parse_i64_spec(s@),
{
    let neg = s.len() > 0 && s[0] == '-';
    let start: usize = if s.len() > 0 && (s[0] == '-' || s[0] == '+') { 1 } else { 0 };
    let ghost ds = if s@.len() > 0 && (s@[0] == '-' || s@[0] == '+') {
        s@.drop_first()
    } else {
        s@
    };
    assert(ds =~= s@.skip(start as int));
    if start >= s.len() {
        return None;
    }
    let mut acc: i128 = 0;
    let mut i: usize = start;
    while i < s.len()
        invariant
            start <= i <= s.len(),
            ds == s@.skip(start as int),
            ds == (if s@.len() > 0 && (s@[0] == '-' || s@[0] == '+') {
                s@.drop_first()
            } else {
                s@
            }),
            neg == (s@.len() > 0 && s@[0] == '-'),
            all_digits(ds.take(i - start)),
            acc == digits_value(ds.take(i - start)),
            0 <= acc <= 9223372036854775808,
        decreases s.len() - i,
    {
        let c = s[i];
        proof {
            assert(ds.take(i + 1 - start).drop_last() =~= ds.take(i - start));
            assert(ds.take(i + 1 - start).last() == c);
        }
        assert(ds[i - start] == s@[i as int]);
        if !('0' <= c && c <= '9') {
            assert(!is_digit(ds[i - start]));
            assert(!all_digits(ds));
            return None;
        }
        let d = (c as u32 - '0' as u32) as i128;
        let ghost old_acc = acc;
        acc = acc * 10 + d;
        i = i + 1;
        assert(acc == digits_value(ds.take(i - start)));
        assert(all_digits(ds.take(i - start)));
        if acc > 9223372036854775808 {
            proof {
                if all_digits(ds) {
                    lemma_digits_value_prefix(ds, i - start);
                }
            }
            return None;
        }
    }
    assert(ds.take(i - start) =~= ds);
    if neg {
        Some((0 - acc) as i64)
    } else if acc > 9223372036854775807 {
        None
    } else {
        Some(acc as i64)
    }
}

/// Where a reader resumes: the chapter index that the saved position
/// `chapter_index:<n>` names, clamped to the chapters there are; 0 when there
/// are none, no position is saved, or it cannot be read.
pub open spec fn last_chapter_index_spec(last_position: Option<Seq<char>>, chapter_count: int) -> int {
    if chapter_count == 0 {
        0
    } else {
        match last_position {
            None => 0,
            Some(raw) => {
                let parsed: int = if starts_with(raw, "chapter_index:"@) {
                    match parse_i64_spec(raw.skip("chapter_index:"@.len() as int)) {
                        Some(v) => v as int,
                        None => 0,
                    }
                } else {
                    0
                };
                if parsed < 0 {
                    0
                } else if parsed > chapter_count - 1 {
                    chapter_count - 1
                } else {
                    parsed
                }
            },
        }
    }
}

/// The chapter a reader resumes at, from the saved reading position.
pub fn parse_last_chapter_index(last_position: Option<String>, chapter_count: usize) -> (r: i64)
    requires
        chapter_count <= 9223372036854775808,
    ensures
        r == last_chapter_index_spec(last_position.deep_view(), chapter_count as int),
        0 <= r && (chapter_count > 0 ==> r < chapter_count),
{
    if chapter_count == 0 {
        return 0;
    }
    let raw = match last_position {
        Some(raw) => raw,
        None => return 0,
    };
    let chars = chars_of(raw.as_str());
    let prefix = chars_of("chapter_index:");
    let parsed: i64 = if crate::text::starts_with_chars(&chars, &prefix) {
        let mut rest: Vec<char> = Vec::new();
        let mut k = prefix.len();
        while k < chars.len()
            invariant
                prefix.len() <= k <= chars.len(),
                rest@ == chars@.subrange(prefix.len() as int, k as int),
            decreases chars.len() - k,
        {
            rest.push(chars[k]);
            k = k + 1;
        }
        assert(rest@ =~= chars@.skip(prefix@.len() as int));
        match parse_i64(&rest) {
            Some(v) => v,
            None => 0,
        }
    } else {
        0
    };
    let max_index = (chapter_count - 1) as i64;
    if parsed < 0 {
        0
    } else if parsed > max_index {
        max_index
    } else {
        parsed
    }
}


/// The media types of HTML content documents.
pub open spec fn is_html_media_type_spec(m: Seq<char>) -> bool {
    m == "application/xhtml+xml"@ || m == "text/html"@
}

pub fn is_html_media_type(media_type: &[char]) -> (r: bool)
    ensures
        r == is_html_media_type_spec(media_type@),
{
    eq_str(media_type, "application/xhtml+xml") || eq_str(media_type, "text/html")
}

/// A path with an HTML file's extension.
pub open spec fn is_html_path_spec(p: Seq<char>) -> bool {
    ends_with(p, ".xhtml"@) || ends_with(p, ".html"@) || ends_with(p, ".htm"@)
}

pub fn is_html_path(path: &[char]) -> (r: bool)
    ensures
        r == is_html_path_spec(path@),
{
    ends_with_chars(path, &chars_of(".xhtml")) || ends_with_chars(path, &chars_of(".html"))
        || ends_with_chars(path, &chars_of(".htm"))
}

/// A path that, lowercased, mentions a table of contents or navigation.
pub open spec fn is_navigation_path_spec(p: Seq<char>) -> bool {
    contains(lowercase(p), "toc"@) || contains(lowercase(p), "nav"@)
}

pub fn is_navigation_path(path: &[char]) -> (r: bool)
    ensures
        r == is_navigation_path_spec(path@),
{
    let lowered = to_lowercase(path);
    contains_chars(&lowered, &chars_of("toc")) || contains_chars(&lowered, &chars_of("nav"))
}

/// The paths in order, each kept at its first occurrence only.
pub open spec fn dedupe_spec(s: Seq<Seq<char>>) -> Seq<Seq<char>>
    decreases s.len(),
{
    if s.len() == 0 {
        Seq::empty()
    } else {
        let d = dedupe_spec(s.drop_last());
        if d.contains(s.last()) {
            d
        } else {
            d.push(s.last())
        }
    }
}

pub(crate) fn contains_path(paths: &Vec<Vec<char>>, p: &[char]) -> (r: bool)
    ensures
        r == paths.deep_view().contains(p@),
{
    let mut i: usize = 0;
    while i < paths.len()
        invariant
            i <= paths.len(),
            forall|j: int| 0 <= j < i ==> paths.deep_view()[j] != p@,
        decreases paths.len() - i,
    {
        if eq_chars(&paths[i], p) {
            assert(paths.deep_view()[i as int] == p@);
            return true;
        }
        i = i + 1;
    }
    false
}

pub fn dedupe_paths(paths: &Vec<Vec<char>>) -> (r: Vec<Vec<char>>)
    ensures
        r.deep_view() == dedupe_spec(paths.deep_view()),
{
    let mut deduped: Vec<Vec<char>> = Vec::new();
    let mut i: usize = 0;
    while i < paths.len()
        invariant
            i <= paths.len(),
            deduped.deep_view() == dedupe_spec(paths.deep_view().take(i as int)),
        decreases paths.len() - i,
    {
        proof {
            assert(paths.deep_view().take(i + 1).drop_last() =~= paths.deep_view().take(i as int));
            assert(paths.deep_view().take(i + 1).last() == paths@[i as int]@);
        }
        if !contains_path(&deduped, &paths[i]) {
            let ghost before = deduped.deep_view();
            deduped.push(copy_chars(&paths[i]));
            assert(deduped.deep_view() =~= before.push(paths@[i as int]@));
        }
        i = i + 1;
    }
    assert(paths.deep_view().take(paths.len() as int) =~= paths.deep_view());
    deduped
}

/// The paths without repeats hold each path once, and every path of the
/// input.
pub proof fn lemma_dedupe_unique(s: Seq<Seq<char>>)
    ensures
        forall|i: int, j: int| 0 <= i < j < dedupe_spec(s).len() ==> dedupe_spec(s)[i] != dedupe_spec(s)[j],
        forall|x: Seq<char>| s.contains(x) <==> #[trigger] dedupe_spec(s).contains(x),
    decreases s.len(),
{
    if s.len() > 0 {
        lemma_dedupe_unique(s.drop_last());
        let d = dedupe_spec(s.drop_last());
        assert forall|x: Seq<char>| s.contains(x) <==> #[trigger] dedupe_spec(s).contains(x) by {
            if s.contains(x) {
                let k = choose|k: int| 0 <= k < s.len() && s[k] == x;
                if k < s.len() - 1 {
                    assert(s.drop_last()[k] == x);
                    assert(s.drop_last().contains(x));
                    assert(d.contains(x));
                    let w = choose|w: int| 0 <= w < d.len() && d[w] == x;
                    if !d.contains(s.last()) {
                        assert(d.push(s.last())[w] == x);
                    }
                } else if !d.contains(s.last()) {
                    assert(d.push(s.last())[d.len() as int] == x);
                }
            }
            if dedupe_spec(s).contains(x) {
                let w = choose|w: int| 0 <= w < dedupe_spec(s).len() && dedupe_spec(s)[w] == x;
                if w < d.len() {
                    assert(d[w] == x);
                    assert(d.contains(x));
                    let k = choose|k: int| 0 <= k < s.drop_last().len() && s.drop_last()[k] == x;
                    assert(s[k] == x);
                } else {
                    assert(s[s.len() - 1] == x);
                }
            }
        }
    }
}

/// The media type of an image that a chapter may embed, by extension.
pub open spec fn image_media_type_spec(path: Seq<char>) -> Option<Seq<char>> {
    match extension_spec(path) {
        None => None,
        Some(e) => {
            let l = lowercase(e);
            if l == "avif"@ {
                Some("image/avif"@)
            } else if l == "bmp"@ {
                Some("image/bmp"@)
            } else if l == "gif"@ {
                Some("image/gif"@)
            } else if l == "jpe"@ || l == "jpeg"@ || l == "jpg"@ {
                Some("image/jpeg"@)
            } else if l == "png"@ {
                Some("image/png"@)
            } else if l == "webp"@ {
                Some("image/webp"@)
            } else {
                None
            }
        },
    }
}

pub fn image_media_type(path: &[char]) -> (r: Option<&'static str>)
    ensures
        crate::text::opt_str_view(r) == image_media_type_spec(path@),
{
    let e = match extension(path) {
        Some(e) => e,
        None => return None,
    };
    let l = to_lowercase(&e);
    if eq_str(&l, "avif") {
        Some("image/avif")
    } else if eq_str(&l, "bmp") {
        Some("image/bmp")
    } else if eq_str(&l, "gif") {
        Some("image/gif")
    } else if eq_str(&l, "jpe") || eq_str(&l, "jpeg") || eq_str(&l, "jpg") {
        Some("image/jpeg")
    } else if eq_str(&l, "png") {
        Some("image/png")
    } else if eq_str(&l, "webp") {
        Some("image/webp")
    } else {
        None
    }
}

/// A reference to a resource inside the book: not empty, not a fragment, not
/// data, and not a web or mail link (compared in lowercase, trimmed).
pub open spec fn is_local_resource_spec(src: Seq<char>) -> bool {
    let l = lowercase(trim(src));
    l.len() > 0 && !starts_with(l, "#"@) && !starts_with(l, "data:"@) && !starts_with(l, "http:"@)
        && !starts_with(l, "https:"@) && !starts_with(l, "mailto:"@)
}

pub fn is_local_epub_resource(src: &[char]) -> (r: bool)
    ensures
        r == is_local_resource_spec(src@),
{
    let l = to_lowercase(&trim_chars(src));
    l.len() > 0 && !crate::text::starts_with_chars(&l, &chars_of("#"))
        && !crate::text::starts_with_chars(&l, &chars_of("data:"))
        && !crate::text::starts_with_chars(&l, &chars_of("http:"))
        && !crate::text::starts_with_chars(&l, &chars_of("https:"))
        && !crate::text::starts_with_chars(&l, &chars_of("mailto:"))
}

/// The texts of the text nodes among `nodes`, in order.
pub open spec fn texts_of(nodes: Seq<XmlNodeView>) -> Seq<Seq<char>>
    decreases nodes.len(),
{
    if nodes.len() == 0 {
        Seq::empty()
    } else {
        let r = texts_of(nodes.drop_last());
        let n = nodes.last();
        if n.is_text && n.text is Some {
            r.push(n.text->0)
        } else {
            r
        }
    }
}

/// The text inside node `i`: its text nodes joined by spaces, normalized.
pub open spec fn node_text_spec(nodes: Seq<XmlNodeView>, i: int) -> Seq<char> {
    normalize_text_spec(join(texts_of(nodes.subrange(i, subtree_end(nodes, i, i + 1))), " "@))
}

pub fn extract_node_text(nodes: &Vec<XmlNode>, i: usize) -> (r: Vec<char>)
    requires
        i < nodes.len(),
    ensures
        r@ == node_text_spec(nodes_view(nodes@), i as int),
{
    let ghost nv = nodes_view(nodes@);
    let end = descendants_end(nodes, i);
    let mut texts: Vec<Vec<char>> = Vec::new();
    let mut j = i;
    while j < end
        invariant
            i <= j <= end <= nodes.len(),
            nv == nodes_view(nodes@),
            texts.deep_view() == texts_of(nv.subrange(i as int, j as int)),
        decreases end - j,
    {
        proof {
            assert(nv.subrange(i as int, j + 1).drop_last() =~= nv.subrange(i as int, j as int));
            assert(nv.subrange(i as int, j + 1).last() == nodes@[j as int]@);
        }
        let n = &nodes[j];
        if n.is_text {
            match &n.text {
                Some(t) => {
                    let ghost before = texts.deep_view();
                    texts.push(chars_of(t.as_str()));
                    assert(texts.deep_view() =~= before.push(t@));
                },
                None => {},
            }
        }
        j = j + 1;
    }
    let sp = chars_of(" ");
    let joined = join_chars(&texts, &sp);
    normalize_text(&joined)
}

/// An `h1`, `h2` or `h3` element.
pub open spec fn heading_pred() -> spec_fn(XmlNodeView) -> bool {
    |n: XmlNodeView| n.is_element && (n.name == "h1"@ || n.name == "h2"@ || n.name == "h3"@)
}

/// The text of node `i`, unless it is empty.
pub open spec fn non_empty_text(nodes: Seq<XmlNodeView>, i: Option<int>) -> Option<Seq<char>> {
    match i {
        None => None,
        Some(i) => if node_text_spec(nodes, i).len() > 0 {
            Some(node_text_spec(nodes, i))
        } else {
            None
        },
    }
}

/// A chapter's own title: the text of its first `h1`-`h3` heading, or else of
/// its `title` element, whichever is not empty.
pub open spec fn heading_title_spec(input: Seq<char>) -> Option<Seq<char>> {
    match xml_document(input) {
        None => None,
        Some(nodes) => {
            let h = non_empty_text(nodes, first_index(nodes, heading_pred()));
            if h is Some {
                h
            } else {
                non_empty_text(nodes, first_named(nodes, "title"@, true, 0, nodes.len() as int))
            }
        },
    }
}

fn find_heading(nodes: &Vec<XmlNode>) -> (r: Option<usize>)
    ensures
        r matches Some(i) ==> i < nodes.len() && first_index(nodes_view(nodes@), heading_pred()) == Some(
            i as int,
        ),
        r is None ==> first_index(nodes_view(nodes@), heading_pred()) is None,
{
    let ghost nv = nodes_view(nodes@);
    let ghost pred = heading_pred();
    let mut i: usize = 0;
    while i < nodes.len()
        invariant
            i <= nodes.len(),
            nv == nodes_view(nodes@),
            pred == heading_pred(),
            first_index(nv, pred) == first_index_from(nv, pred, i as int),
        decreases nodes.len() - i,
    {
        let n = &nodes[i];
        assert(nv[i as int] == n@);
        let nm = chars_of(n.name.as_str());
        if n.is_element && (eq_str(&nm, "h1") || eq_str(&nm, "h2") || eq_str(&nm, "h3")) {
            assert(pred(nv[i as int]));
            return Some(i);
        }
        assert(!pred(nv[i as int]));
        i = i + 1;
    }
    None
}

pub fn extract_heading_title(input: &str) -> (r: Option<Vec<char>>)
    ensures
        r.deep_view() == heading_title_spec(input@),
{
    let nodes = match parse_xml(input) {
        Ok(n) => n,
        Err(_) => return None,
    };
    if let Some(h) = find_heading(&nodes) {
        let t = extract_node_text(&nodes, h);
        if t.len() > 0 {
            return Some(t);
        }
    }
    match find_named(&nodes, "title", true, 0, nodes.len()) {
        Some(k) => {
            let t = extract_node_text(&nodes, k);
            if t.len() > 0 {
                Some(t)
            } else {
                None
            }
        },
        None => None,
    }
}


pub type TitleEntry = (Seq<char>, Seq<char>);

pub open spec fn pairs_view(v: Seq<(Vec<char>, Vec<char>)>) -> Seq<TitleEntry> {
    v.map_values(|p: (Vec<char>, Vec<char>)| (p.0@, p.1@))
}

/// The (target path, title) an `a` element of a navigation document gives,
/// when it has a link and text that makes a useful title.
pub open spec fn nav_entry(n: XmlNodeView, base_dir: Seq<char>) -> Option<TitleEntry> {
    if !(n.is_element && n.name == "a"@) {
        None
    } else {
        match (attribute_spec(n.attributes, "href"@), n.text) {
            (Some(href), Some(text)) => {
                let title = normalize_text_spec(text);
                if !is_useful_title_spec(title) {
                    None
                } else {
                    Some((strip_fragment_spec(normalize_epub_path_spec(base_dir, href)), title))
                }
            },
            _ => None,
        }
    }
}

pub open spec fn nav_entries(nodes: Seq<XmlNodeView>, base_dir: Seq<char>) -> Seq<TitleEntry>
    decreases nodes.len(),
{
    if nodes.len() == 0 {
        Seq::empty()
    } else {
        let r = nav_entries(nodes.drop_last(), base_dir);
        match nav_entry(nodes.last(), base_dir) {
            Some(e) => r.push(e),
            None => r,
        }
    }
}

/// The titles a navigation document gives its targets (none if it does not parse).
pub open spec fn navigation_titles_spec(input: Seq<char>, base_dir: Seq<char>) -> Seq<TitleEntry> {
    match xml_document(input) {
        None => Seq::empty(),
        Some(nodes) => nav_entries(nodes, base_dir),
    }
}

fn nav_entry_exec(n: &XmlNode, base_dir: &[char]) -> (r: Option<(Vec<char>, Vec<char>)>)
    ensures
        match r {
            Some(p) => nav_entry(n@, base_dir@) == Some((p.0@, p.1@)),
            None => nav_entry(n@, base_dir@) is None,
        },
{
    let nm = chars_of(n.name.as_str());
    if !(n.is_element && eq_str(&nm, "a")) {
        return None;
    }
    let href = match attribute(n, "href") {
        Some(h) => h,
        None => return None,
    };
    let text = match &n.text {
        Some(t) => chars_of(t.as_str()),
        None => return None,
    };
    let title = normalize_text(&text);
    if !is_useful_title_chars(&title) {
        return None;
    }
    let target = strip_fragment(&normalize_epub_path(base_dir, &href));
    Some((target, title))
}

pub fn parse_navigation_titles(input: &str, base_dir: &[char]) -> (r: Vec<(Vec<char>, Vec<char>)>)
    ensures
        pairs_view(r@) == navigation_titles_spec(input@, base_dir@),
{
    let nodes = match parse_xml(input) {
        Ok(n) => n,
        Err(_) => return Vec::new(),
    };
    let ghost nv = nodes_view(nodes@);
    let mut out: Vec<(Vec<char>, Vec<char>)> = Vec::new();
    let mut i: usize = 0;
    while i < nodes.len()
        invariant
            i <= nodes.len(),
            nv == nodes_view(nodes@),
            pairs_view(out@) == nav_entries(nv.take(i as int), base_dir@),
        decreases nodes.len() - i,
    {
        proof {
            assert(nv.take(i + 1).drop_last() =~= nv.take(i as int));
            assert(nv.take(i + 1).last() == nodes@[i as int]@);
        }
        match nav_entry_exec(&nodes[i], base_dir) {
            Some(p) => {
                let ghost before = out@;
                let ghost pv = (p.0@, p.1@);
                out.push(p);
                assert(pairs_view(out@) =~= pairs_view(before).push(pv));
            },
            None => {},
        }
        i = i + 1;
    }
    assert(nv.take(nodes.len() as int) =~= nv);
    out
}

/// The (target path, title) a `navPoint` element at `i` of an NCX document
/// gives: the `src` of the first `content` element inside it, and the text of
/// the first `text` element inside it, when that makes a useful title.
pub open spec fn ncx_entry(nodes: Seq<XmlNodeView>, i: int, base_dir: Seq<char>) -> Option<TitleEntry> {
    let n = nodes[i];
    if !(n.is_element && n.name == "navPoint"@) {
        None
    } else {
        let end = subtree_end(nodes, i, i + 1);
        match first_named(nodes, "content"@, true, i, end) {
            None => None,
            Some(c) => match attribute_spec(nodes[c].attributes, "src"@) {
                None => None,
                Some(src) => match first_named(nodes, "text"@, true, i, end) {
                    None => None,
                    Some(t) => match nodes[t].text {
                        None => None,
                        Some(text) => {
                            let title = normalize_text_spec(text);
                            if !is_useful_title_spec(title) {
                                None
                            } else {
                                Some((strip_fragment_spec(normalize_epub_path_spec(base_dir, src)), title))
                            }
                        },
                    },
                },
            },
        }
    }
}

pub open spec fn ncx_entries(nodes: Seq<XmlNodeView>, k: int, base_dir: Seq<char>) -> Seq<TitleEntry>
    decreases k,
{
    if k <= 0 {
        Seq::empty()
    } else {
        let r = ncx_entries(nodes, k - 1, base_dir);
        match ncx_entry(nodes, k - 1, base_dir) {
            Some(e) => r.push(e),
            None => r,
        }
    }
}

/// The titles an NCX document gives its targets (none if it does not parse).
pub open spec fn ncx_titles_spec(input: Seq<char>, base_dir: Seq<char>) -> Seq<TitleEntry> {
    match xml_document(input) {
        None => Seq::empty(),
        Some(nodes) => ncx_entries(nodes, nodes.len() as int, base_dir),
    }
}

fn ncx_entry_exec(nodes: &Vec<XmlNode>, i: usize, base_dir: &[char]) -> (r: Option<(Vec<char>, Vec<char>)>)
    requires
        i < nodes.len(),
    ensures
        match r {
            Some(p) => ncx_entry(nodes_view(nodes@), i as int, base_dir@) == Some((p.0@, p.1@)),
            None => ncx_entry(nodes_view(nodes@), i as int, base_dir@) is None,
        },
{
    let ghost nv = nodes_view(nodes@);
    let n = &nodes[i];
    assert(nv[i as int] == n@);
    let nm = chars_of(n.name.as_str());
    if !(n.is_element && eq_str(&nm, "navPoint")) {
        return None;
    }
    let end = descendants_end(nodes, i);
    let c = match find_named(nodes, "content", true, i, end) {
        Some(c) => c,
        None => return None,
    };
    assert(nv[c as int] == nodes@[c as int]@);
    let src = match attribute(&nodes[c], "src") {
        Some(s) => s,
        None => return None,
    };
    let t = match find_named(nodes, "text", true, i, end) {
        Some(t) => t,
        None => return None,
    };
    assert(nv[t as int] == nodes@[t as int]@);
    let text = match &nodes[t].text {
        Some(x) => chars_of(x.as_str()),
        None => return None,
    };
    let title = normalize_text(&text);
    if !is_useful_title_chars(&title) {
        return None;
    }
    let target = strip_fragment(&normalize_epub_path(base_dir, &src));
    Some((target, title))
}

pub fn parse_ncx_titles(input: &str, base_dir: &[char]) -> (r: Vec<(Vec<char>, Vec<char>)>)
    ensures
        pairs_view(r@) == ncx_titles_spec(input@, base_dir@),
{
    let nodes = match parse_xml(input) {
        Ok(n) => n,
        Err(_) => return Vec::new(),
    };
    let ghost nv = nodes_view(nodes@);
    let mut out: Vec<(Vec<char>, Vec<char>)> = Vec::new();
    let mut i: usize = 0;
    while i < nodes.len()
        invariant
            i <= nodes.len(),
            nv == nodes_view(nodes@),
            pairs_view(out@) == ncx_entries(nv, i as int, base_dir@),
        decreases nodes.len() - i,
    {
        match ncx_entry_exec(&nodes, i, base_dir) {
            Some(p) => {
                let ghost before = out@;
                let ghost pv = (p.0@, p.1@);
                out.push(p);
                assert(pairs_view(out@) =~= pairs_view(before).push(pv));
            },
            None => {},
        }
        i = i + 1;
    }
    out
}


/// Reading an entry as text: `Some(None)` when it cannot be opened,
/// `Some(Some(text))` when it reads as UTF-8, `None` (an error) otherwise.
pub open spec fn entry_text_spec(source: Seq<u8>, name: Seq<char>) -> Option<Option<Seq<char>>> {
    match zip_entry_read(source, name) {
        EntryRead::Missing => Some(None),
        EntryRead::Failed => None,
        EntryRead::Data(v) => if valid_utf8(v) {
            Some(Some(decode_utf8(v)))
        } else {
            None
        },
    }
}

/// Reading an entry's bytes: `Some(None)` when it cannot be opened, `None` (an
/// error) when it cannot be read.
pub open spec fn entry_bytes_spec(source: Seq<u8>, name: Seq<char>) -> Option<Option<Seq<u8>>> {
    match zip_entry_read(source, name) {
        EntryRead::Missing => Some(None),
        EntryRead::Failed => None,
        EntryRead::Data(v) => Some(Some(v)),
    }
}

/// An error text of the EPUB reader: it begins with one of the prefixes its
/// steps give their errors.
pub open spec fn epub_error_text(e: Seq<char>) -> bool {
    ||| starts_with(e, "failed to read EPUB entry as text: "@)
    ||| starts_with(e, "failed to read EPUB entry as binary: "@)
    ||| starts_with(e, "failed to inspect EPUB entry: "@)
    ||| starts_with(e, "failed to parse EPUB package document: "@)
    ||| starts_with(e, "failed to compile "@)
    ||| starts_with(e, "failed to compile image source regex: "@)
}

pub fn read_zip_text_entry(archive: &mut Archive, path: &[char]) -> (r: Result<Option<Vec<char>>, String>)
    ensures
        r matches Err(e) ==> starts_with(e@, "failed to read EPUB entry as text: "@),
        final(archive).source() == old(archive).source(),
        match entry_text_spec(old(archive).source(), path@) {
            Some(o) => r matches Ok(x) && x.deep_view() == o,
            None => r is Err,
        },
{
    let name = string_of(path);
    match archive_read_text(archive, name.as_str()) {
        None => Ok(None),
        Some(Ok(text)) => Ok(Some(chars_of(text.as_str()))),
        Some(Err(err)) => Err(error_text("failed to read EPUB entry as text: ", err.as_str())),
    }
}

pub fn read_zip_binary_entry(archive: &mut Archive, path: &[char]) -> (r: Result<Option<Vec<u8>>, String>)
    ensures
        r matches Err(e) ==> starts_with(e@, "failed to read EPUB entry as binary: "@),
        final(archive).source() == old(archive).source(),
        match entry_bytes_spec(old(archive).source(), path@) {
            Some(o) => r matches Ok(x) && x.deep_view() == o,
            None => r is Err,
        },
{
    let name = string_of(path);
    match archive_read_bytes(archive, name.as_str()) {
        None => Ok(None),
        Some(Ok(bytes)) => {
            assert(bytes.deep_view() =~= bytes@);
            Ok(Some(bytes))
        },
        Some(Err(err)) => Err(error_text("failed to read EPUB entry as binary: ", err.as_str())),
    }
}

/// The names of the listed file entries that satisfy `pred`, in order;
/// `None` (an error) where an entry cannot be opened.
pub open spec fn listed_paths(l: Seq<Option<(Seq<char>, bool)>>, pred: spec_fn(Seq<char>) -> bool) -> Option<Seq<Seq<char>>>
    decreases l.len(),
{
    if l.len() == 0 {
        Some(Seq::empty())
    } else {
        match listed_paths(l.drop_last(), pred) {
            None => None,
            Some(r) => match l.last() {
                None => None,
                Some(e) => if e.1 && pred(e.0) {
                    Some(r.push(e.0))
                } else {
                    Some(r)
                },
            },
        }
    }
}

pub open spec fn suffix_pred(suffix: Seq<char>) -> spec_fn(Seq<char>) -> bool {
    |n: Seq<char>| ends_with(n, suffix)
}

pub open spec fn html_path_pred() -> spec_fn(Seq<char>) -> bool {
    |n: Seq<char>| is_html_path_spec(n)
}

fn inspect_error(err: String) -> (r: String)
    ensures
        starts_with(r@, "failed to inspect EPUB entry: "@),
{
    error_text("failed to inspect EPUB entry: ", err.as_str())
}

/// The listed file entries whose names end with `suffix` (`html_only` false)
/// or are HTML paths (`html_only` true).
fn find_listed_paths(archive: &mut Archive, suffix: &[char], html_only: bool) -> (r: Result<Vec<Vec<char>>, String>)
    ensures
        r matches Err(e) ==> starts_with(e@, "failed to inspect EPUB entry: "@),
        final(archive).source() == old(archive).source(),
        match listed_paths(old(archive).listing(), if html_only { html_path_pred() } else { suffix_pred(suffix@) }) {
            Some(o) => r matches Ok(v) && v.deep_view() == o,
            None => r is Err,
        },
{
    let ghost l = archive.listing();
    let ghost pred = if html_only { html_path_pred() } else { suffix_pred(suffix@) };
    let n = archive_len(archive);
    let mut paths: Vec<Vec<char>> = Vec::new();
    let mut i: usize = 0;
    while i < n
        invariant
            i <= n == l.len(),
            l == archive.listing(),
            archive.source() == old(archive).source(),
            pred == (if html_only { html_path_pred() } else { suffix_pred(suffix@) }),
            listed_paths(l.take(i as int), pred) == Some(paths.deep_view()),
        decreases n - i,
    {
        proof {
            assert(l.take(i + 1).drop_last() =~= l.take(i as int));
            assert(l.take(i + 1).last() == l[i as int]);
        }
        let (name, is_file) = match archive_entry_info(archive, i) {
            Ok(e) => e,
            Err(err) => {
                proof {
                    lemma_listed_paths_error(l, pred, i as int);
                }
                return Err(inspect_error(err));
            },
        };
        let nc = chars_of(name.as_str());
        let hit = if html_only {
            is_html_path(&nc)
        } else {
            ends_with_chars(&nc, suffix)
        };
        if is_file && hit {
            let ghost before = paths.deep_view();
            paths.push(nc);
            assert(paths.deep_view() =~= before.push(name@));
        }
        i = i + 1;
    }
    assert(l.take(n as int) =~= l);
    Ok(paths)
}

proof fn lemma_listed_paths_error(l: Seq<Option<(Seq<char>, bool)>>, pred: spec_fn(Seq<char>) -> bool, i: int)
    requires
        0 <= i < l.len(),
        l[i] is None,
    ensures
        listed_paths(l, pred) is None,
    decreases l.len(),
{
    if i < l.len() - 1 {
        assert(l.drop_last()[i] == l[i]);
        lemma_listed_paths_error(l.drop_last(), pred, i);
    }
}

pub fn find_paths_by_suffix(archive: &mut Archive, suffix: &str) -> (r: Result<Vec<Vec<char>>, String>)
    ensures
        r matches Err(e) ==> starts_with(e@, "failed to inspect EPUB entry: "@),
        final(archive).source() == old(archive).source(),
        match listed_paths(old(archive).listing(), suffix_pred(suffix@)) {
            Some(o) => r matches Ok(v) && v.deep_view() == o,
            None => r is Err,
        },
{
    find_listed_paths(archive, &chars_of(suffix), false)
}

pub fn find_html_paths(archive: &mut Archive) -> (r: Result<Vec<Vec<char>>, String>)
    ensures
        r matches Err(e) ==> starts_with(e@, "failed to inspect EPUB entry: "@),
        final(archive).source() == old(archive).source(),
        match listed_paths(old(archive).listing(), html_path_pred()) {
            Some(o) => r matches Ok(v) && v.deep_view() == o,
            None => r is Err,
        },
{
    let empty: Vec<char> = Vec::new();
    find_listed_paths(archive, &empty, true)
}


/// A `rootfile` element that names a `full-path`.
pub open spec fn rootfile_pred() -> spec_fn(XmlNodeView) -> bool {
    |n: XmlNodeView| n.is_element && n.name == "rootfile"@ && attribute_spec(n.attributes, "full-path"@) is Some
}

/// The first listed file entry at or after `k` whose name satisfies `pred`:
/// `Some(None)` when there is none, `None` (an error) when an entry before it
/// cannot be opened.
pub open spec fn first_listed_from(l: Seq<Option<(Seq<char>, bool)>>, pred: spec_fn(Seq<char>) -> bool, k: int) -> Option<Option<Seq<char>>>
    decreases l.len() - k,
{
    if k < 0 || k >= l.len() {
        Some(None)
    } else {
        match l[k] {
            None => None,
            Some(e) => if e.1 && pred(e.0) {
                Some(Some(e.0))
            } else {
                first_listed_from(l, pred, k + 1)
            },
        }
    }
}

/// The package document's path named by the container's first `rootfile`
/// element with a `full-path`.
pub open spec fn container_opf_path(container: Option<Seq<char>>) -> Option<Seq<char>> {
    match container {
        None => None,
        Some(xml) => match xml_document(xml) {
            None => None,
            Some(nodes) => match first_index(nodes, rootfile_pred()) {
                None => None,
                Some(i) => attribute_spec(nodes[i].attributes, "full-path"@),
            },
        },
    }
}

/// Where the package document is: as the container names it, or else the
/// first file entry whose name ends with `.opf`. `None` is an error.
pub open spec fn epub_opf_path_spec(source: Seq<u8>) -> Option<Option<Seq<char>>> {
    match entry_text_spec(source, "META-INF/container.xml"@) {
        None => None,
        Some(c) => {
            let named = container_opf_path(c);
            if named is Some {
                Some(named)
            } else {
                first_listed_from(zip_listing(source)->0, suffix_pred(".opf"@), 0)
            }
        },
    }
}

fn find_rootfile(nodes: &Vec<XmlNode>) -> (r: Option<Vec<char>>)
    ensures
        r.deep_view() == (match first_index(nodes_view(nodes@), rootfile_pred()) {
            None => None,
            Some(i) => attribute_spec(nodes_view(nodes@)[i].attributes, "full-path"@),
        }),
{
    let ghost nv = nodes_view(nodes@);
    let ghost pred = rootfile_pred();
    let mut i: usize = 0;
    while i < nodes.len()
        invariant
            i <= nodes.len(),
            nv == nodes_view(nodes@),
            pred == rootfile_pred(),
            first_index(nv, pred) == first_index_from(nv, pred, i as int),
        decreases nodes.len() - i,
    {
        let n = &nodes[i];
        assert(nv[i as int] == n@);
        let nm = chars_of(n.name.as_str());
        if n.is_element && eq_str(&nm, "rootfile") {
            let p = attribute(n, "full-path");
            if p.is_some() {
                assert(pred(nv[i as int]));
                return p;
            }
        }
        assert(!pred(nv[i as int]));
        i = i + 1;
    }
    None
}

pub fn find_epub_opf_path(archive: &mut Archive) -> (r: Result<Option<Vec<char>>, String>)
    ensures
        r matches Err(e) ==> epub_error_text(e@),
        final(archive).source() == old(archive).source(),
        zip_listing(old(archive).source()) is Some ==> match epub_opf_path_spec(old(archive).source()) {
            Some(o) => r matches Ok(x) && x.deep_view() == o,
            None => r is Err,
        },
{
    let container_path = chars_of("META-INF/container.xml");
    let container = read_zip_text_entry(archive, &container_path)?;
    if let Some(xml) = &container {
        if let Ok(nodes) = parse_xml(string_of(xml).as_str()) {
            if let Some(p) = find_rootfile(&nodes) {
                return Ok(Some(p));
            }
        }
    }
    first_opf_entry(archive)
}

fn first_opf_entry(archive: &mut Archive) -> (r: Result<Option<Vec<char>>, String>)
    ensures
        r matches Err(e) ==> epub_error_text(e@),
        final(archive).source() == old(archive).source(),
        match first_listed_from(old(archive).listing(), suffix_pred(".opf"@), 0) {
            Some(o) => r matches Ok(x) && x.deep_view() == o,
            None => r is Err,
        },
{
    let ghost l = archive.listing();
    let ghost pred = suffix_pred(".opf"@);
    let suffix = chars_of(".opf");
    let n = archive_len(archive);
    let mut i: usize = 0;
    while i < n
        invariant
            i <= n == l.len(),
            l == archive.listing(),
            archive.source() == old(archive).source(),
            suffix@ == ".opf"@,
            pred == suffix_pred(".opf"@),
            first_listed_from(l, pred, 0) == first_listed_from(l, pred, i as int),
        decreases n - i,
    {
        let (name, is_file) = match archive_entry_info(archive, i) {
            Ok(e) => e,
            Err(err) => return Err(inspect_error(err)),
        };
        let nc = chars_of(name.as_str());
        if is_file && ends_with_chars(&nc, &suffix) {
            assert(pred(name@));
            return Ok(Some(nc));
        }
        assert(!(is_file && pred(name@)));
        i = i + 1;
    }
    Ok(None)
}


/// A manifest entry of the package document: id, path (resolved against the
/// package document's directory), media type and properties (empty if absent).
pub struct ManifestItem {
    pub id: Vec<char>,
    pub href: Vec<char>,
    pub media_type: Vec<char>,
    pub properties: Vec<char>,
}

pub type ManifestView = (Seq<char>, Seq<char>, Seq<char>, Seq<char>);

impl View for ManifestItem {
    type V = ManifestView;

    open spec fn view(&self) -> ManifestView {
        (self.id@, self.href@, self.media_type@, self.properties@)
    }
}

pub open spec fn manifest_view(v: Seq<ManifestItem>) -> Seq<ManifestView> {
    v.map_values(|m: ManifestItem| m@)
}

pub open spec fn or_empty(o: Option<Seq<char>>) -> Seq<char> {
    match o {
        Some(s) => s,
        None => Seq::empty(),
    }
}

/// The manifest entry an `item` element with an `id` and an `href` gives.
pub open spec fn manifest_item_of(n: XmlNodeView, opf_dir: Seq<char>) -> Option<ManifestView> {
    if !(n.is_element && n.name == "item"@) {
        None
    } else {
        match (attribute_spec(n.attributes, "id"@), attribute_spec(n.attributes, "href"@)) {
            (Some(id), Some(href)) => Some(
                (
                    id,
                    normalize_epub_path_spec(opf_dir, href),
                    or_empty(attribute_spec(n.attributes, "media-type"@)),
                    or_empty(attribute_spec(n.attributes, "properties"@)),
                ),
            ),
            _ => None,
        }
    }
}

pub open spec fn manifest_spec(nodes: Seq<XmlNodeView>, opf_dir: Seq<char>) -> Seq<ManifestView>
    decreases nodes.len(),
{
    if nodes.len() == 0 {
        Seq::empty()
    } else {
        let r = manifest_spec(nodes.drop_last(), opf_dir);
        match manifest_item_of(nodes.last(), opf_dir) {
            Some(m) => r.push(m),
            None => r,
        }
    }
}

fn manifest_item_exec(n: &XmlNode, opf_dir: &[char]) -> (r: Option<ManifestItem>)
    ensures
        match r {
            Some(m) => manifest_item_of(n@, opf_dir@) == Some(m@),
            None => manifest_item_of(n@, opf_dir@) is None,
        },
{
    let nm = chars_of(n.name.as_str());
    if !(n.is_element && eq_str(&nm, "item")) {
        return None;
    }
    let id = match attribute(n, "id") {
        Some(v) => v,
        None => return None,
    };
    let href = match attribute(n, "href") {
        Some(v) => v,
        None => return None,
    };
    let media_type = match attribute(n, "media-type") {
        Some(v) => v,
        None => Vec::new(),
    };
    let properties = match attribute(n, "properties") {
        Some(v) => v,
        None => Vec::new(),
    };
    Some(ManifestItem { id, href: normalize_epub_path(opf_dir, &href), media_type, properties })
}

fn manifest_exec(nodes: &Vec<XmlNode>, opf_dir: &[char]) -> (r: Vec<ManifestItem>)
    ensures
        manifest_view(r@) == manifest_spec(nodes_view(nodes@), opf_dir@),
{
    let ghost nv = nodes_view(nodes@);
    let mut items: Vec<ManifestItem> = Vec::new();
    let mut i: usize = 0;
    while i < nodes.len()
        invariant
            i <= nodes.len(),
            nv == nodes_view(nodes@),
            manifest_view(items@) == manifest_spec(nv.take(i as int), opf_dir@),
        decreases nodes.len() - i,
    {
        proof {
            assert(nv.take(i + 1).drop_last() =~= nv.take(i as int));
            assert(nv.take(i + 1).last() == nodes@[i as int]@);
        }
        match manifest_item_exec(&nodes[i], opf_dir) {
            Some(m) => {
                let ghost before = items@;
                items.push(m);
                assert(manifest_view(items@) =~= manifest_view(before).push(items@.last()@));
            },
            None => {},
        }
        i = i + 1;
    }
    assert(nv.take(nodes.len() as int) =~= nv);
    items
}

/// The last of the first `n` manifest entries with the given id (a map built
/// from the manifest keeps the last entry for an id).
pub open spec fn last_with_id(items: Seq<ManifestView>, id: Seq<char>, n: int) -> Option<int>
    decreases n,
{
    if n <= 0 {
        None
    } else if items[n - 1].0 == id {
        Some(n - 1)
    } else {
        last_with_id(items, id, n - 1)
    }
}

fn find_last_with_id(items: &Vec<ManifestItem>, id: &[char]) -> (r: Option<usize>)
    ensures
        r matches Some(k) ==> k < items.len() && last_with_id(manifest_view(items@), id@, items.len() as int) == Some(k as int),
        r is None ==> last_with_id(manifest_view(items@), id@, items.len() as int) is None,
{
    let ghost mv = manifest_view(items@);
    let mut n = items.len();
    while n > 0
        invariant
            n <= items.len(),
            mv == manifest_view(items@),
            last_with_id(mv, id@, items.len() as int) == last_with_id(mv, id@, n as int),
        decreases n,
    {
        assert(mv[n - 1] == items@[n - 1]@);
        if eq_chars(&items[n - 1].id, id) {
            return Some(n - 1);
        }
        n = n - 1;
    }
    None
}

/// The spine's content documents among the children of the spine element at
/// `s` up to node `k`: each `itemref`'s `idref` looked up in the manifest,
/// kept when it is HTML by media type or by path.
pub open spec fn spine_paths_upto(nodes: Seq<XmlNodeView>, items: Seq<ManifestView>, s: int, k: int) -> Seq<Seq<char>>
    decreases k - s,
{
    if k <= s + 1 {
        Seq::empty()
    } else {
        let r = spine_paths_upto(nodes, items, s, k - 1);
        let n = nodes[k - 1];
        if n.depth == nodes[s].depth + 1 && n.is_element && n.name == "itemref"@ {
            match attribute_spec(n.attributes, "idref"@) {
                None => r,
                Some(idref) => match last_with_id(items, idref, items.len() as int) {
                    None => r,
                    Some(m) => if is_html_media_type_spec(items[m].2) || is_html_path_spec(items[m].1) {
                        r.push(items[m].1)
                    } else {
                        r
                    },
                },
            }
        } else {
            r
        }
    }
}

/// The spine's content documents, in spine order (none without a spine).
pub open spec fn spine_paths_spec(nodes: Seq<XmlNodeView>, items: Seq<ManifestView>) -> Seq<Seq<char>> {
    match first_named(nodes, "spine"@, true, 0, nodes.len() as int) {
        None => Seq::empty(),
        Some(s) => spine_paths_upto(nodes, items, s, subtree_end(nodes, s, s + 1)),
    }
}

fn spine_paths_exec(nodes: &Vec<XmlNode>, items: &Vec<ManifestItem>, spine: usize) -> (r: Vec<Vec<char>>)
    requires
        spine < nodes.len(),
    ensures
        r.deep_view() == spine_paths_upto(nodes_view(nodes@), manifest_view(items@), spine as int,
            subtree_end(nodes_view(nodes@), spine as int, spine + 1)),
{
    let ghost nv = nodes_view(nodes@);
    let ghost mv = manifest_view(items@);
    let end = descendants_end(nodes, spine);
    let depth = nodes[spine].depth;
    assert(nv[spine as int] == nodes@[spine as int]@);
    let mut paths: Vec<Vec<char>> = Vec::new();
    let mut k = spine + 1;
    while k < end
        invariant
            spine < k <= end <= nodes.len(),
            nv == nodes_view(nodes@),
            mv == manifest_view(items@),
            depth == nv[spine as int].depth,
            paths.deep_view() == spine_paths_upto(nv, mv, spine as int, k as int),
        decreases end - k,
    {
        let n = &nodes[k];
        assert(nv[k as int] == n@);
        let nm = chars_of(n.name.as_str());
        if depth < usize::MAX && n.depth == depth + 1 && n.is_element && eq_str(&nm, "itemref") {
            if let Some(idref) = attribute(n, "idref") {
                if let Some(m) = find_last_with_id(items, &idref) {
                    assert(mv[m as int] == items@[m as int]@);
                    let item = &items[m];
                    if is_html_media_type(&item.media_type) || is_html_path(&item.href) {
                        let ghost before = paths.deep_view();
                        paths.push(copy_chars(&item.href));
                        assert(paths.deep_view() =~= before.push(item.href@));
                    }
                }
            }
        } else {
            assert(!(n@.depth == nv[spine as int].depth + 1 && n@.is_element && n@.name == "itemref"@));
        }
        k = k + 1;
    }
    paths
}

/// The paths of the manifest entries selected as navigation documents: those
/// whose properties list `nav` (`ncx` false), or NCX documents (`ncx` true):
/// the spine's `toc` entry, the NCX media type, or an `.ncx` path.
pub open spec fn manifest_paths(items: Seq<ManifestView>, ncx: bool, toc: Option<Seq<char>>) -> Seq<Seq<char>>
    decreases items.len(),
{
    if items.len() == 0 {
        Seq::empty()
    } else {
        let r = manifest_paths(items.drop_last(), ncx, toc);
        let m = items.last();
        let hit = if ncx {
            toc == Some(m.0) || m.2 == "application/x-dtbncx+xml"@ || ends_with(m.1, ".ncx"@)
        } else {
            crate::text::has_word(m.3, "nav"@)
        };
        if hit {
            r.push(m.1)
        } else {
            r
        }
    }
}

fn manifest_paths_exec(items: &Vec<ManifestItem>, ncx: bool, toc: &Option<Vec<char>>) -> (r: Vec<Vec<char>>)
    ensures
        r.deep_view() == manifest_paths(manifest_view(items@), ncx, toc.deep_view()),
{
    let ghost mv = manifest_view(items@);
    let mut paths: Vec<Vec<char>> = Vec::new();
    let mut i: usize = 0;
    while i < items.len()
        invariant
            i <= items.len(),
            mv == manifest_view(items@),
            paths.deep_view() == manifest_paths(mv.take(i as int), ncx, toc.deep_view()),
        decreases items.len() - i,
    {
        proof {
            assert(mv.take(i + 1).drop_last() =~= mv.take(i as int));
            assert(mv.take(i + 1).last() == items@[i as int]@);
        }
        let m = &items[i];
        let hit = if ncx {
            let toc_hit = match toc {
                Some(t) => eq_chars(t, &m.id),
                None => false,
            };
            toc_hit || eq_str(&m.media_type, "application/x-dtbncx+xml") || ends_with_chars(&m.href, &chars_of(".ncx"))
        } else {
            crate::text::has_word_exec(&m.properties, "nav")
        };
        if hit {
            let ghost before = paths.deep_view();
            paths.push(copy_chars(&m.href));
            assert(paths.deep_view() =~= before.push(m.href@));
        }
        i = i + 1;
    }
    assert(mv.take(items.len() as int) =~= mv);
    paths
}

/// The spine, navigation and NCX paths of the package document at `opf_path`;
/// all empty when that entry cannot be opened; `None` (an error) when it
/// cannot be read or parsed, or when listing the archive for NCX files fails.
pub open spec fn package_spec(source: Seq<u8>, opf_path: Seq<char>) -> Option<(Seq<Seq<char>>, Seq<Seq<char>>, Seq<Seq<char>>)> {
    match entry_text_spec(source, opf_path) {
        None => None,
        Some(None) => Some((Seq::empty(), Seq::empty(), Seq::empty())),
        Some(Some(xml)) => match xml_document(xml) {
            None => None,
            Some(nodes) => {
                let items = manifest_spec(nodes, parent_dir_spec(opf_path));
                let spine = first_named(nodes, "spine"@, true, 0, nodes.len() as int);
                let toc = match spine {
                    Some(s) => attribute_spec(nodes[s].attributes, "toc"@),
                    None => None,
                };
                let spine_paths = spine_paths_spec(nodes, items);
                let nav = manifest_paths(items, false, None);
                let ncx = manifest_paths(items, true, toc);
                if ncx.len() > 0 {
                    Some((spine_paths, nav, ncx))
                } else {
                    match listed_paths(zip_listing(source)->0, suffix_pred(".ncx"@)) {
                        None => None,
                        Some(extra) => Some((spine_paths, nav, extra)),
                    }
                }
            },
        },
    }
}

pub fn parse_package_document(archive: &mut Archive, opf_path: &[char]) -> (r: Result<(Vec<Vec<char>>, Vec<Vec<char>>, Vec<Vec<char>>), String>)
    ensures
        r matches Err(e) ==> epub_error_text(e@),
        final(archive).source() == old(archive).source(),
        match package_spec(old(archive).source(), opf_path@) {
            Some(o) => r matches Ok(t) && (t.0.deep_view(), t.1.deep_view(), t.2.deep_view()) == o,
            None => r is Err,
        },
{
    let opf_xml = match read_zip_text_entry(archive, opf_path)? {
        Some(x) => x,
        None => return Ok((Vec::new(), Vec::new(), Vec::new())),
    };
    let nodes = match parse_xml(string_of(&opf_xml).as_str()) {
        Ok(n) => n,
        Err(err) => return Err(error_text("failed to parse EPUB package document: ", err.as_str())),
    };
    let ghost nv = nodes_view(nodes@);
    let opf_dir = parent_dir(opf_path);
    let manifest = manifest_exec(&nodes, &opf_dir);
    let spine = find_named(&nodes, "spine", true, 0, nodes.len());
    let (spine_paths, toc) = match spine {
        Some(s) => {
            assert(nv[s as int] == nodes@[s as int]@);
            (spine_paths_exec(&nodes, &manifest, s), attribute(&nodes[s], "toc"))
        },
        None => (Vec::new(), None),
    };
    let nav_paths = manifest_paths_exec(&manifest, false, &None);
    let mut ncx_paths = manifest_paths_exec(&manifest, true, &toc);
    if ncx_paths.len() == 0 {
        ncx_paths = find_paths_by_suffix(archive, ".ncx")?;
    }
    Ok((spine_paths, nav_paths, ncx_paths))
}

proof fn lemma_titled_merges_nonempty(chs: Seq<BuiltView>)
    requires
        !all_untitled(chs),
    ensures
        merge_state(chs).0.len() > 0,
    decreases chs.len(),
{
    if chs.last().0 is None {
        assert(!all_untitled(chs.drop_last())) by {
            let i = choose|i: int| 0 <= i < chs.len() && !((#[trigger] chs[i]).0 is None);
            assert(chs.drop_last()[i] == chs[i]);
        }
        lemma_titled_merges_nonempty(chs.drop_last());
    }
}

proof fn lemma_join_two(x: Seq<char>, y: Seq<char>)
    requires
        !is_blank(x),
        !is_blank(y),
    ensures
        join_fragments_spec(seq![x, y]) == x + "\n"@ + y,
{
    reveal_with_fuel(Seq::<_>::filter, 3);
    let s = seq![x, y];
    let pred = |f: Seq<char>| !is_blank(f);
    assert(s.drop_last() =~= seq![x]);
    assert(seq![x].drop_last() =~= Seq::<Seq<char>>::empty());
    assert(Seq::<Seq<char>>::empty().filter(pred) =~= Seq::<Seq<char>>::empty());
    assert(seq![x].last() == x && pred(x));
    assert(seq![x].filter(pred) =~= seq![x]);
    assert(s.last() == y && pred(y));
    assert(s.filter(pred) =~= s);
    assert(non_blank(s) == s);
    assert(join(seq![x], "\n"@) == x);
    assert(join(s, "\n"@) == join(s.drop_last(), "\n"@) + "\n"@ + s.last());
}

/// An untitled chapter that follows titled ones is appended to the last
/// chapter the reader gets: that chapter's markup, then a line break, then
/// the untitled chapter's markup; every other chapter stays as it was.
pub proof fn lemma_merge_appends_untitled(chs: Seq<BuiltView>, b: BuiltView)
    requires
        !all_untitled(chs),
        b.0 is None,
        !is_blank(b.2),
        !is_blank(merge_spec(chs).last().1),
    ensures
        merge_spec(chs).len() > 0,
        merge_spec(chs.push(b)) == merge_spec(chs).update(
            merge_spec(chs).len() - 1,
            (merge_spec(chs).last().0, merge_spec(chs).last().1 + "\n"@ + b.2),
        ),
{
    let n = chs.push(b);
    assert(!all_untitled(n)) by {
        let i = choose|i: int| 0 <= i < chs.len() && !((#[trigger] chs[i]).0 is None);
        assert(n[i] == chs[i]);
    }
    lemma_leading_only_untitled(chs);
    lemma_leading_only_untitled(n);
    lemma_titled_merges_nonempty(chs);
    let (m, lead) = merge_state(chs);
    assert(lead.len() == 0);
    assert(merge_spec(chs) == m);
    assert(n.drop_last() =~= chs);
    assert(n.last() == b);
    lemma_join_two(m.last().1, b.2);
    assert(merge_state(n).0 == m.update(m.len() - 1, (m.last().0, join_fragments_spec(seq![m.last().1, b.2]))));
    assert(merge_state(n).1.len() == 0);
    assert(merge_spec(n) == merge_state(n).0);
}

/// The images a chapter may embed are exactly those whose extension, in
/// lowercase, is `avif`, `bmp`, `gif`, `jpe`, `jpeg`, `jpg`, `png` or
/// `webp`, each with its media type.
pub proof fn lemma_image_media_types(path: Seq<char>)
    ensures
        extension_spec(path) is None ==> image_media_type_spec(path) is None,
        extension_spec(path) matches Some(e) ==> {
            let l = lowercase(e);
            &&& l == "avif"@ ==> image_media_type_spec(path) == Some("image/avif"@)
            &&& l == "bmp"@ ==> image_media_type_spec(path) == Some("image/bmp"@)
            &&& l == "gif"@ ==> image_media_type_spec(path) == Some("image/gif"@)
            &&& (l == "jpe"@ || l == "jpeg"@ || l == "jpg"@) ==> image_media_type_spec(path) == Some("image/jpeg"@)
            &&& l == "png"@ ==> image_media_type_spec(path) == Some("image/png"@)
            &&& l == "webp"@ ==> image_media_type_spec(path) == Some("image/webp"@)
            &&& image_media_type_spec(path) is Some ==> (l == "avif"@ || l == "bmp"@ || l == "gif"@ || l == "jpe"@
                || l == "jpeg"@ || l == "jpg"@ || l == "png"@ || l == "webp"@)
        },
{
    reveal_strlit("avif");
    reveal_strlit("bmp");
    reveal_strlit("gif");
    reveal_strlit("jpe");
    reveal_strlit("jpeg");
    reveal_strlit("jpg");
    reveal_strlit("png");
    reveal_strlit("webp");
    assert("avif"@.len() == 4 && "avif"@[0] == 'a' && "avif"@[2] == 'i');
    assert("bmp"@.len() == 3 && "bmp"@[0] == 'b' && "bmp"@[2] == 'p');
    assert("gif"@.len() == 3 && "gif"@[0] == 'g' && "gif"@[2] == 'f');
    assert("jpe"@.len() == 3 && "jpe"@[0] == 'j' && "jpe"@[2] == 'e');
    assert("jpeg"@.len() == 4 && "jpeg"@[0] == 'j' && "jpeg"@[2] == 'e');
    assert("jpg"@.len() == 3 && "jpg"@[0] == 'j' && "jpg"@[2] == 'g');
    assert("png"@.len() == 3 && "png"@[0] == 'p' && "png"@[2] == 'g');
    assert("webp"@.len() == 4 && "webp"@[0] == 'w' && "webp"@[2] == 'b');
}

} // verus!
