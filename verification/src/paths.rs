//! Path arithmetic on the '/'-separated paths of an archive and of the file system.
use vstd::prelude::*;
use crate::text::{
    copy_chars,    eq_chars, join, join_chars, lemma_chars_deep_view, lemma_split_any_nonempty, push_chars, split_any,
    split_any_chars, starts_with, starts_with_chars,
};

verus! {

broadcast use lemma_chars_deep_view;

pub open spec fn slash() -> Seq<char> {
    seq!['/']
}

/// What is left of a list of path segments after `.` and empty segments are
/// dropped and each `..` removes the segment before it (if any).
pub open spec fn fold_segments(parts: Seq<Seq<char>>) -> Seq<Seq<char>>
    decreases parts.len(),
{
    if parts.len() == 0 {
        Seq::empty()
    } else {
        let acc = fold_segments(parts.drop_last());
        let p = parts.last();
        if p.len() == 0 || p == seq!['.'] {
            acc
        } else if p == seq!['.', '.'] {
            if acc.len() > 0 {
                acc.drop_last()
            } else {
                acc
            }
        } else {
            acc.push(p)
        }
    }
}

/// A segment that survives normalization: not empty, not `.`, not `..`.
pub open spec fn is_plain_segment(p: Seq<char>) -> bool {
    p.len() > 0 && p != seq!['.'] && p != seq!['.', '.']
}

pub proof fn lemma_fold_segments_plain(parts: Seq<Seq<char>>)
    ensures
        forall|i: int|
            0 <= i < fold_segments(parts).len() ==> is_plain_segment(
                #[trigger] fold_segments(parts)[i],
            ),
        forall|i: int|
            0 <= i < fold_segments(parts).len() ==> exists|j: int|
                0 <= j < parts.len() && parts[j] == #[trigger] fold_segments(parts)[i],
    decreases parts.len(),
{
    if parts.len() > 0 {
        lemma_fold_segments_plain(parts.drop_last());
        let acc = fold_segments(parts.drop_last());
        assert forall|i: int| 0 <= i < fold_segments(parts).len() implies exists|j: int|
            0 <= j < parts.len() && parts[j] == #[trigger] fold_segments(parts)[i] by {
            if i < acc.len() && fold_segments(parts)[i] == acc[i] {
                let j = choose|j: int| 0 <= j < parts.drop_last().len() && parts.drop_last()[j] == acc[i];
                assert(parts[j] == parts.drop_last()[j]);
            } else {
                assert(parts[parts.len() - 1] == parts.last());
            }
        }
    }
}

/// Folding segments that are all plain changes nothing.
pub proof fn lemma_fold_segments_identity(parts: Seq<Seq<char>>)
    requires
        forall|i: int| 0 <= i < parts.len() ==> is_plain_segment(#[trigger] parts[i]),
    ensures
        fold_segments(parts) == parts,
    decreases parts.len(),
{
    if parts.len() > 0 {
        assert(is_plain_segment(parts[parts.len() - 1]));
        lemma_fold_segments_identity(parts.drop_last());
        assert(parts.drop_last().push(parts.last()) =~= parts);
    }
}

/// Applies the `.`/`..` rules of `fold_segments` to split pieces.
pub fn fold_segments_exec(parts: &Vec<Vec<char>>) -> (r: Vec<Vec<char>>)
    ensures
        r.deep_view() == fold_segments(parts.deep_view()),
{
    let mut acc: Vec<Vec<char>> = Vec::new();
    let mut i: usize = 0;
    let dot = vec!['.'];
    let dotdot = vec!['.', '.'];
    assert(dot@ =~= seq!['.']);
    assert(dotdot@ =~= seq!['.', '.']);
    while i < parts.len()
        invariant
            i <= parts.len(),
            dot@ == seq!['.'],
            dotdot@ == seq!['.', '.'],
            acc.deep_view() == fold_segments(parts.deep_view().take(i as int)),
        decreases parts.len() - i,
    {
        proof {
            assert(parts.deep_view().take(i + 1).drop_last() =~= parts.deep_view().take(i as int));
            assert(parts.deep_view().take(i + 1).last() == parts@[i as int]@);
        }
        let p = &parts[i];
        if p.len() == 0 || eq_chars(p, &dot) {
        } else if eq_chars(p, &dotdot) {
            if acc.len() > 0 {
                let ghost before = acc.deep_view();
                acc.pop();
                assert(acc.deep_view() =~= before.drop_last());
            }
        } else {
            let ghost before = acc.deep_view();
            acc.push(p.clone());
            assert(acc.deep_view() =~= before.push(p@));
        }
        i = i + 1;
    }
    assert(parts.deep_view().take(parts.len() as int) =~= parts.deep_view());
    acc
}

/// `path.split('#').next()`: the part of a path before any fragment.
pub open spec fn strip_fragment_spec(path: Seq<char>) -> Seq<char> {
    split_any(path, seq!['#'])[0]
}

/// The part of `path` before its first `#`.
pub fn strip_fragment(path: &[char]) -> (r: Vec<char>)
    ensures
        r@ == strip_fragment_spec(path@),
{
    let hash = vec!['#'];
    assert(hash@ =~= seq!['#']);
    let mut parts = split_any_chars(path, &hash);
    proof {
        lemma_split_any_nonempty(path@, seq!['#']);
    }
    parts.swap_remove(0)
}

/// `path.rsplit_once('/')`'s first half, or the empty string.
pub open spec fn parent_dir_spec(path: Seq<char>) -> Seq<char> {
    join(split_any(path, slash()).drop_last(), slash())
}

/// The directory part of `path`: everything before its last `/`.
pub fn parent_dir(path: &[char]) -> (r: Vec<char>)
    ensures
        r@ == parent_dir_spec(path@),
{
    let sep = vec!['/'];
    assert(sep@ =~= slash());
    let mut parts = split_any_chars(path, &sep);
    proof {
        lemma_split_any_nonempty(path@, slash());
    }
    let ghost whole = parts.deep_view();
    parts.pop();
    assert(parts.deep_view() =~= whole.drop_last());
    join_chars(&parts, &sep)
}

/// `s` without its leading `c` characters (`trim_start_matches(c)`).
pub open spec fn trim_leading(s: Seq<char>, c: char) -> Seq<char>
    decreases s.len(),
{
    if s.len() > 0 && s[0] == c {
        trim_leading(s.drop_first(), c)
    } else {
        s
    }
}

pub fn trim_leading_chars(s: &[char], c: char) -> (r: Vec<char>)
    ensures
        r@ == trim_leading(s@, c),
{
    let mut i: usize = 0;
    assert(s@.subrange(0, s@.len() as int) == s@);
    while i < s.len() && s[i] == c
        invariant
            i <= s.len(),
            trim_leading(s@, c) == trim_leading(s@.subrange(i as int, s@.len() as int), c),
        decreases s.len() - i,
    {
        assert(s@.subrange(i as int, s@.len() as int).drop_first() == s@.subrange(
            i + 1,
            s@.len() as int,
        ));
        i = i + 1;
    }
    let mut r: Vec<char> = Vec::new();
    let mut k: usize = i;
    while k < s.len()
        invariant
            i <= k <= s.len(),
            r@ == s@.subrange(i as int, k as int),
        decreases s.len() - k,
    {
        r.push(s[k]);
        k = k + 1;
    }
    r
}

/// The path that `href` names relative to the directory `base_dir` inside an
/// EPUB, without its fragment and with `.`/`..` segments resolved.
pub open spec fn normalize_epub_path_spec(base_dir: Seq<char>, href: Seq<char>) -> Seq<char> {
    let h = strip_fragment_spec(href);
    let combined = if base_dir.len() == 0 || starts_with(h, slash()) {
        trim_leading(h, '/')
    } else {
        base_dir + slash() + h
    };
    join(fold_segments(split_any(combined, slash())), slash())
}

pub fn normalize_epub_path(base_dir: &[char], href: &[char]) -> (r: Vec<char>)
    ensures
        r@ == normalize_epub_path_spec(base_dir@, href@),
{
    let h = strip_fragment(href);
    let sep = vec!['/'];
    assert(sep@ =~= slash());
    let combined = if base_dir.len() == 0 || starts_with_chars(&h, &sep) {
        trim_leading_chars(&h, '/')
    } else {
        let mut c: Vec<char> = Vec::new();
        push_chars(&mut c, base_dir);
        push_chars(&mut c, &sep);
        push_chars(&mut c, &h);
        c
    };
    let parts = split_any_chars(&combined, &sep);
    let segments = fold_segments_exec(&parts);
    join_chars(&segments, &sep)
}

pub open spec fn archive_separators() -> Seq<char> {
    seq!['/', '\\']
}

/// An archive path with `/` and `\` both taken as separators, `.` and empty
/// segments dropped, `..` resolved, and `/` between the segments that remain.
pub open spec fn normalize_archive_path_spec(raw: Seq<char>) -> Seq<char> {
    join(fold_segments(split_any(raw, archive_separators())), slash())
}

pub fn normalize_archive_path(raw: &[char]) -> (r: Vec<char>)
    ensures
        r@ == normalize_archive_path_spec(raw@),
{
    let seps = vec!['/', '\\'];
    assert(seps@ =~= archive_separators());
    let parts = split_any_chars(raw, &seps);
    let segments = fold_segments_exec(&parts);
    let sep = vec!['/'];
    assert(sep@ =~= slash());
    join_chars(&segments, &sep)
}


/// No character of `s` belongs to `seps`.
pub open spec fn free_of(s: Seq<char>, seps: Seq<char>) -> bool {
    forall|i: int| 0 <= i < s.len() ==> !seps.contains(#[trigger] s[i])
}

proof fn lemma_separators(c: char)
    ensures
        archive_separators().contains(c) <==> (c == '/' || c == '\\'),
        slash().contains(c) <==> c == '/',
{
    if c == '/' {
        assert(archive_separators()[0] == c);
        assert(slash()[0] == c);
    }
    if c == '\\' {
        assert(archive_separators()[1] == c);
    }
}

proof fn lemma_split_pieces_free(s: Seq<char>, seps: Seq<char>)
    ensures
        forall|k: int| 0 <= k < split_any(s, seps).len() ==> free_of(#[trigger] split_any(s, seps)[k], seps),
    decreases s.len(),
{
    if s.len() > 0 {
        lemma_split_pieces_free(s.drop_last(), seps);
        lemma_split_any_nonempty(s.drop_last(), seps);
        let r = split_any(s.drop_last(), seps);
        let n = split_any(s, seps);
        if !seps.contains(s.last()) {
            assert forall|k: int| 0 <= k < n.len() implies free_of(#[trigger] n[k], seps) by {
                if k < r.len() - 1 {
                    assert(n[k] == r[k]);
                } else {
                    let piece = r.last().push(s.last());
                    assert(n[k] == piece);
                    assert(free_of(r[r.len() - 1], seps));
                    assert forall|i: int| 0 <= i < piece.len() implies !seps.contains(#[trigger] piece[i]) by {
                        if i < piece.len() - 1 {
                            assert(piece[i] == r.last()[i]);
                        }
                    }
                }
            }
        } else {
            assert forall|k: int| 0 <= k < n.len() implies free_of(#[trigger] n[k], seps) by {
                if k < r.len() {
                    assert(n[k] == r[k]);
                }
            }
        }
    }
}

proof fn lemma_split_append_free(x: Seq<char>, b: Seq<char>, seps: Seq<char>)
    requires
        free_of(b, seps),
    ensures
        split_any(x + b, seps) == split_any(x, seps).update(
            split_any(x, seps).len() - 1,
            split_any(x, seps).last() + b,
        ),
    decreases b.len(),
{
    lemma_split_any_nonempty(x, seps);
    let sx = split_any(x, seps);
    if b.len() == 0 {
        assert(x + b =~= x);
        assert(sx.update(sx.len() - 1, sx.last() + b) =~= sx);
    } else {
        let b0 = b.drop_last();
        let c = b.last();
        assert(!seps.contains(b[b.len() - 1]));
        assert(free_of(b0, seps)) by {
            assert forall|i: int| 0 <= i < b0.len() implies !seps.contains(#[trigger] b0[i]) by {
                assert(b0[i] == b[i]);
            }
        }
        lemma_split_append_free(x, b0, seps);
        assert((x + b).drop_last() =~= x + b0);
        assert((x + b).last() == c);
        let r = split_any(x + b0, seps);
        assert(split_any(x + b, seps) == r.update(r.len() - 1, r.last().push(c)));
        assert((sx.last() + b0).push(c) =~= sx.last() + b);
        assert(split_any(x + b, seps) =~= sx.update(sx.len() - 1, sx.last() + b));
    }
}

proof fn lemma_split_join(parts: Seq<Seq<char>>, c: char, seps: Seq<char>)
    requires
        parts.len() >= 1,
        seps.contains(c),
        forall|k: int| 0 <= k < parts.len() ==> free_of(#[trigger] parts[k], seps),
    ensures
        split_any(join(parts, seq![c]), seps) == parts,
    decreases parts.len(),
{
    if parts.len() == 1 {
        let e = Seq::<char>::empty();
        assert(split_any(e, seps) == seq![e]);
        assert(free_of(parts[0], seps));
        lemma_split_append_free(e, parts[0], seps);
        assert(e + parts[0] =~= parts[0]);
        assert(seq![e].update(0, e + parts[0]) =~= parts);
    } else {
        let front = parts.drop_last();
        assert forall|k: int| 0 <= k < front.len() implies free_of(#[trigger] front[k], seps) by {
            assert(front[k] == parts[k]);
        }
        lemma_split_join(front, c, seps);
        let a = join(front, seq![c]);
        assert((a + seq![c]).drop_last() =~= a);
        assert((a + seq![c]).last() == c);
        assert(split_any(a + seq![c], seps) == front.push(Seq::<char>::empty()));
        assert(free_of(parts[parts.len() - 1], seps));
        lemma_split_append_free(a + seq![c], parts.last(), seps);
        let e = Seq::<char>::empty();
        assert(front.push(e).update(front.len() as int, e + parts.last()) =~= parts);
    }
}

proof fn lemma_join_without(parts: Seq<Seq<char>>, sep: Seq<char>, ch: char)
    requires
        forall|k: int, i: int| 0 <= k < parts.len() && 0 <= i < parts[k].len() ==> #[trigger] parts[k][i] != ch,
        forall|i: int| 0 <= i < sep.len() ==> sep[i] != ch,
    ensures
        forall|i: int| 0 <= i < join(parts, sep).len() ==> #[trigger] join(parts, sep)[i] != ch,
    decreases parts.len(),
{
    if parts.len() > 1 {
        let front = parts.drop_last();
        assert forall|k: int, i: int| 0 <= k < front.len() && 0 <= i < front[k].len() implies #[trigger] front[k][i] != ch by {
            assert(front[k] == parts[k]);
        }
        lemma_join_without(front, sep, ch);
        let a = join(front, sep);
        let j = join(parts, sep);
        let l = parts.last();
        assert(j == a + sep + l);
        assert forall|i: int| 0 <= i < j.len() implies #[trigger] j[i] != ch by {
            if i < a.len() {
                assert(j[i] == a[i]);
            } else if i < a.len() + sep.len() {
                assert(j[i] == sep[i - a.len()]);
            } else {
                assert(j[i] == l[i - a.len() - sep.len()]);
                assert(parts[parts.len() - 1][i - a.len() - sep.len()] != ch);
            }
        }
    }
}

/// A normalized archive path is already normal: normalizing it again changes
/// nothing, it holds no `\`, and each of its `/`-separated segments is
/// neither empty, `.` nor `..`.
pub proof fn lemma_normalized_archive_path(raw: Seq<char>)
    ensures
        normalize_archive_path_spec(normalize_archive_path_spec(raw)) == normalize_archive_path_spec(raw),
        forall|i: int| 0 <= i < normalize_archive_path_spec(raw).len() ==> #[trigger] normalize_archive_path_spec(raw)[i] != '\\',
        normalize_archive_path_spec(raw).len() > 0 ==> forall|k: int|
            0 <= k < split_any(normalize_archive_path_spec(raw), slash()).len() ==> is_plain_segment(
                #[trigger] split_any(normalize_archive_path_spec(raw), slash())[k],
            ),
{
    let seps = archive_separators();
    let pieces = split_any(raw, seps);
    let p = fold_segments(pieces);
    let out = join(p, slash());
    assert(out == normalize_archive_path_spec(raw));
    lemma_split_pieces_free(raw, seps);
    lemma_fold_segments_plain(pieces);
    assert forall|k: int| 0 <= k < p.len() implies free_of(#[trigger] p[k], seps) by {
        let j = choose|j: int| 0 <= j < pieces.len() && pieces[j] == p[k];
        assert(free_of(pieces[j], seps));
    }
    assert forall|k: int| 0 <= k < p.len() implies free_of(#[trigger] p[k], slash()) by {
        assert(free_of(p[k], seps));
        assert forall|i: int| 0 <= i < p[k].len() implies !slash().contains(#[trigger] p[k][i]) by {
            lemma_separators(p[k][i]);
        }
    }
    assert forall|k: int, i: int| 0 <= k < p.len() && 0 <= i < p[k].len() implies #[trigger] p[k][i] != '\\' by {
        assert(free_of(p[k], seps));
        assert(!seps.contains(p[k][i]));
        lemma_separators(p[k][i]);
    }
    lemma_join_without(p, slash(), '\\');
    lemma_separators('/');
    if p.len() == 0 {
        assert(out =~= Seq::<char>::empty());
        let e = Seq::<char>::empty();
        assert(split_any(e, seps) == seq![e]);
        assert(fold_segments(seq![e]) =~= Seq::<Seq<char>>::empty()) by {
            assert(seq![e].drop_last() =~= Seq::<Seq<char>>::empty());
            assert(fold_segments(seq![e].drop_last()) == Seq::<Seq<char>>::empty());
            assert(seq![e].last() == e);
            assert(seq![e].last().len() == 0);
        }
    } else {
        lemma_split_join(p, '/', seps);
        lemma_fold_segments_identity(p);
        lemma_split_join(p, '/', slash());
    }
}

/// The last segment of `parts` that is neither empty nor `.`: the last
/// component of a path, as `std::path::Path` reads it.
pub open spec fn last_component(parts: Seq<Seq<char>>) -> Option<Seq<char>>
    decreases parts.len(),
{
    if parts.len() == 0 {
        None
    } else if parts.last().len() == 0 || parts.last() == seq!['.'] {
        last_component(parts.drop_last())
    } else {
        Some(parts.last())
    }
}

/// `Path::file_name`: the final component, unless it is `..` or missing.
pub open spec fn file_name_spec(path: Seq<char>) -> Option<Seq<char>> {
    match last_component(split_any(path, slash())) {
        Some(c) => if c == seq!['.', '.'] {
            None
        } else {
            Some(c)
        },
        None => None,
    }
}

/// A file name cut at its last `.`: the stem, and the extension if there is one.
/// A name whose only `.` is its first character has no extension.
pub open spec fn split_extension(name: Seq<char>) -> (Seq<char>, Option<Seq<char>>) {
    let pieces = split_any(name, seq!['.']);
    if pieces.len() <= 1 {
        (name, None)
    } else {
        let before = join(pieces.drop_last(), seq!['.']);
        if before.len() == 0 {
            (name, None)
        } else {
            (before, Some(pieces.last()))
        }
    }
}

/// `Path::file_stem`.
pub open spec fn file_stem_spec(path: Seq<char>) -> Option<Seq<char>> {
    match file_name_spec(path) {
        Some(n) => Some(split_extension(n).0),
        None => None,
    }
}

/// `Path::extension`.
pub open spec fn extension_spec(path: Seq<char>) -> Option<Seq<char>> {
    match file_name_spec(path) {
        Some(n) => split_extension(n).1,
        None => None,
    }
}

/// The final component of a path.
pub fn file_name(path: &[char]) -> (r: Option<Vec<char>>)
    ensures
        r.deep_view() == file_name_spec(path@),
{
    let sep = vec!['/'];
    assert(sep@ =~= slash());
    let parts = split_any_chars(path, &sep);
    let ghost all = parts.deep_view();
    let mut n: usize = parts.len();
    assert(all.take(n as int) =~= all);
    while n > 0 && (parts[n - 1].len() == 0 || (parts[n - 1].len() == 1 && parts[n - 1][0] == '.'))
        invariant
            n <= parts.len(),
            all == parts.deep_view(),
            last_component(all) == last_component(all.take(n as int)),
        decreases n,
    {
        proof {
            assert(all.take(n as int).drop_last() =~= all.take(n - 1));
            assert(all.take(n as int).last() == parts@[n - 1]@);
            if parts@[n - 1]@.len() == 1 {
                assert(parts@[n - 1]@ =~= seq!['.']);
            }
        }
        n = n - 1;
    }
    if n == 0 {
        assert(all.take(0) =~= Seq::<Seq<char>>::empty());
        return None;
    }
    proof {
        assert(all.take(n as int).last() == parts@[n - 1]@);
        if parts@[n - 1]@.len() == 1 {
            assert(parts@[n - 1]@ != seq!['.']);
        }
    }
    let last = &parts[n - 1];
    if last.len() == 2 && last[0] == '.' && last[1] == '.' {
        assert(last@ =~= seq!['.', '.']);
        None
    } else {
        assert(last@ != seq!['.', '.']);
        Some(last.clone())
    }
}

/// The stem and extension of a file name.
pub fn split_extension_exec(name: &[char]) -> (r: (Vec<char>, Option<Vec<char>>))
    ensures
        r.0@ == split_extension(name@).0,
        r.1.deep_view() == split_extension(name@).1,
{
    let dot = vec!['.'];
    assert(dot@ =~= seq!['.']);
    let mut pieces = split_any_chars(name, &dot);
    if pieces.len() <= 1 {
        return (copy_chars(name), None);
    }
    let ghost whole = pieces.deep_view();
    let last = pieces.pop().unwrap();
    assert(pieces.deep_view() =~= whole.drop_last());
    let before = join_chars(&pieces, &dot);
    if before.len() == 0 {
        (copy_chars(name), None)
    } else {
        (before, Some(last))
    }
}

/// `Path::file_stem`.
pub fn file_stem(path: &[char]) -> (r: Option<Vec<char>>)
    ensures
        r.deep_view() == file_stem_spec(path@),
{
    match file_name(path) {
        Some(n) => Some(split_extension_exec(&n).0),
        None => None,
    }
}

/// `Path::extension`.
pub fn extension(path: &[char]) -> (r: Option<Vec<char>>)
    ensures
        r.deep_view() == extension_spec(path@),
{
    match file_name(path) {
        Some(n) => split_extension_exec(&n).1,
        None => None,
    }
}

} // verus!
