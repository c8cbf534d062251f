//! Markup handling: what is kept of a chapter's HTML, its text, and the titles
//! read from text.
use vstd::prelude::*;
use crate::text::{
    error_text, starts_with, chars_of, contains, contains_chars, copy_chars, decimal, decimal_exec, eq_str, is_blank,
    is_blank_chars, join, join_chars, lemma_chars_deep_view, lowercase, map_chars, map_chars_exec,
    push_chars, push_str, remove_char, remove_char_exec, replace_chars, replace_spec, string_of,
    to_lowercase, to_uppercase_char, trim, trim_chars, uppercase_char, words, words_exec,
    split_any, split_any_chars, lemma_split_any_nonempty,
};
use crate::regexes::{
    capture, compile, is_match, regex_capture_result, regex_compiles, regex_is_match_result,
    regex_replace_all_result, replace_all,
};
use crate::paths::{extension, extension_spec, file_stem, file_stem_spec};

verus! {

broadcast use lemma_chars_deep_view;

/// The few named and numeric character references that chapter text decodes.
pub open spec fn decode_entities_spec(s: Seq<char>) -> Seq<char> {
    let s = replace_spec(s, "&nbsp;"@, " "@);
    let s = replace_spec(s, "&#160;"@, " "@);
    let s = replace_spec(s, "&amp;"@, "&"@);
    let s = replace_spec(s, "&lt;"@, "<"@);
    let s = replace_spec(s, "&gt;"@, ">"@);
    let s = replace_spec(s, "&quot;"@, "\""@);
    replace_spec(s, "&#39;"@, "'"@)
}

pub fn decode_basic_html_entities(input: &[char]) -> (r: Vec<char>)
    ensures
        r@ == decode_entities_spec(input@),
{
    proof {
        reveal_strlit("&nbsp;");
        reveal_strlit("&#160;");
        reveal_strlit("&amp;");
        reveal_strlit("&lt;");
        reveal_strlit("&gt;");
        reveal_strlit("&quot;");
        reveal_strlit("&#39;");
    }
    let s = replace_chars(input, "&nbsp;", " ");
    let s = replace_chars(&s, "&#160;", " ");
    let s = replace_chars(&s, "&amp;", "&");
    let s = replace_chars(&s, "&lt;", "<");
    let s = replace_chars(&s, "&gt;", ">");
    let s = replace_chars(&s, "&quot;", "\"");
    replace_chars(&s, "&#39;", "'")
}

/// Runs of white space collapsed to one space (where the pattern compiles),
/// the entities decoded, and the ends trimmed.
pub open spec fn normalize_text_spec(s: Seq<char>) -> Seq<char> {
    let collapsed = if regex_compiles(r"\s+"@) {
        regex_replace_all_result(r"\s+"@, s, " "@)
    } else {
        s
    };
    trim(decode_entities_spec(collapsed))
}

pub fn normalize_text(input: &[char]) -> (r: Vec<char>)
    ensures
        r@ == normalize_text_spec(input@),
{
    let collapsed = match compile(r"\s+") {
        Ok(p) => chars_of(replace_all(&p, string_of(input).as_str(), " ").as_str()),
        Err(_) => copy_chars(input),
    };
    let decoded = decode_basic_html_entities(&collapsed);
    trim_chars(&decoded)
}

/// A step of a chain of replacements that stops at the first pattern that
/// does not compile.
pub open spec fn then_replace(prev: Option<Seq<char>>, pattern: Seq<char>, replacement: Seq<char>) -> Option<Seq<char>> {
    match prev {
        Some(s) => if regex_compiles(pattern) {
            Some(regex_replace_all_result(pattern, s, replacement))
        } else {
            None
        },
        None => None,
    }
}

/// Replaces every match of `pattern`, or reports that it does not compile as
/// `failed to compile <what> regex: <error>`.
fn replace_step(pattern: &str, input: &[char], replacement: &str, what: &str) -> (r: Result<Vec<char>, String>)
    ensures
        r matches Err(e) ==> starts_with(e@, "failed to compile "@),
        match then_replace(Some(input@), pattern@, replacement@) {
            Some(o) => r matches Ok(v) && v@ == o,
            None => r is Err,
        },
{
    match compile(pattern) {
        Ok(p) => Ok(chars_of(replace_all(&p, string_of(input).as_str(), replacement).as_str())),
        Err(err) => {
            let mut m: Vec<char> = Vec::new();
            push_str(&mut m, what);
            push_str(&mut m, " regex: ");
            push_str(&mut m, err.as_str());
            Err(error_text("failed to compile ", string_of(&m).as_str()))
        },
    }
}

/// What is kept of a chapter's markup: script, style and embedded blocks,
/// comments, event handlers, `javascript:` links, the XML declaration and the
/// doctype removed; then the body's contents if there is a body; trimmed.
/// `None` where a pattern does not compile.
pub open spec fn sanitize_html_spec(input: Seq<char>) -> Option<Seq<char>> {
    let s = then_replace(Some(input), r"(?is)<(script|style|iframe|object|embed|svg|math)[^>]*>.*?</(script|style|iframe|object|embed|svg|math)>"@, " "@);
    let s = then_replace(s, r"(?is)<!--.*?-->"@, " "@);
    let s = then_replace(s, r#"(?i)\s+on[a-z]+\s*=\s*("[^"]*"|'[^']*'|[^\s>]+)"#@, ""@);
    let s = then_replace(s, r#"(?i)\s+(href|src)\s*=\s*("javascript:[^"]*"|'javascript:[^']*'|javascript:[^\s>]+)"#@, ""@);
    let s = then_replace(s, r"(?is)<\?xml[^>]*>"@, ""@);
    let s = then_replace(s, r"(?is)<!doctype[^>]*>"@, ""@);
    match s {
        None => None,
        Some(d) => if !regex_compiles(r"(?is)<body[^>]*>(.*?)</body>"@) {
            None
        } else {
            match regex_capture_result(r"(?is)<body[^>]*>(.*?)</body>"@, d, 1) {
                Some(body) => Some(trim(body)),
                None => Some(trim(d)),
            }
        },
    }
}

pub fn sanitize_epub_html(input: &[char]) -> (r: Result<Vec<char>, String>)
    ensures
        r matches Err(e) ==> starts_with(e@, "failed to compile "@),
        match sanitize_html_spec(input@) {
            Some(o) => r matches Ok(v) && v@ == o,
            None => r is Err,
        },
{
    let s = replace_step(r"(?is)<(script|style|iframe|object|embed|svg|math)[^>]*>.*?</(script|style|iframe|object|embed|svg|math)>", input, " ", "unsafe block")?;
    let s = replace_step(r"(?is)<!--.*?-->", &s, " ", "comment")?;
    let s = replace_step(r#"(?i)\s+on[a-z]+\s*=\s*("[^"]*"|'[^']*'|[^\s>]+)"#, &s, "", "event attribute")?;
    let s = replace_step(r#"(?i)\s+(href|src)\s*=\s*("javascript:[^"]*"|'javascript:[^']*'|javascript:[^\s>]+)"#, &s, "", "javascript URL")?;
    let s = replace_step(r"(?is)<\?xml[^>]*>", &s, "", "XML")?;
    let s = replace_step(r"(?is)<!doctype[^>]*>", &s, "", "doctype")?;
    match compile(r"(?is)<body[^>]*>(.*?)</body>") {
        Ok(p) => match capture(&p, string_of(&s).as_str(), 1) {
            Some(body) => Ok(trim_chars(&chars_of(body.as_str()))),
            None => Ok(trim_chars(&s)),
        },
        Err(err) => {
            let mut m: Vec<char> = Vec::new();
            push_str(&mut m, "body regex: ");
            push_str(&mut m, err.as_str());
            Err(error_text("failed to compile ", string_of(&m).as_str()))
        },
    }
}

/// Whether the markup holds an `<img` tag (false where the pattern does not compile).
pub open spec fn has_image_tag_spec(input: Seq<char>) -> bool {
    regex_compiles(r"(?i)<img\b"@) && regex_is_match_result(r"(?i)<img\b"@, input)
}

pub fn has_image_tag(input: &[char]) -> (r: bool)
    ensures
        r == has_image_tag_spec(input@),
{
    match compile(r"(?i)<img\b") {
        Ok(p) => is_match(&p, string_of(input).as_str()),
        Err(_) => false,
    }
}

/// The text of a chapter's markup: block ends and `<br>` become line breaks,
/// other tags spaces; entities decoded; runs of spaces and tabs collapsed;
/// three or more line breaks reduced to two; trimmed. `None` where a pattern
/// does not compile.
pub open spec fn html_to_text_spec(input: Seq<char>) -> Option<Seq<char>> {
    let s = then_replace(Some(input), r"(?i)</(p|div|section|article|h[1-6]|li|blockquote|tr)>"@, "\n"@);
    let s = then_replace(s, r"(?i)<br\s*/?>"@, "\n"@);
    let s = then_replace(s, r"(?is)<[^>]+>"@, " "@);
    match s {
        None => None,
        Some(t) => {
            let s = then_replace(Some(decode_entities_spec(t)), r"[ \t]+"@, " "@);
            let s = then_replace(s, r"\n{3,}"@, "\n\n"@);
            match s {
                None => None,
                Some(u) => Some(trim(u)),
            }
        },
    }
}

pub fn sanitize_epub_html_to_text(input: &[char]) -> (r: Result<Vec<char>, String>)
    ensures
        r matches Err(e) ==> starts_with(e@, "failed to compile "@),
        match html_to_text_spec(input@) {
            Some(o) => r matches Ok(v) && v@ == o,
            None => r is Err,
        },
{
    let s = replace_step(r"(?i)</(p|div|section|article|h[1-6]|li|blockquote|tr)>", input, "\n", "block")?;
    let s = replace_step(r"(?i)<br\s*/?>", &s, "\n", "br")?;
    let s = replace_step(r"(?is)<[^>]+>", &s, " ", "tag")?;
    let decoded = decode_basic_html_entities(&s);
    let s = replace_step(r"[ \t]+", &decoded, " ", "whitespace")?;
    let s = replace_step(r"\n{3,}", &s, "\n\n", "line break")?;
    Ok(trim_chars(&s))
}

/// A word with its first character upper-cased.
pub open spec fn capitalize(w: Seq<char>) -> Seq<char> {
    if w.len() == 0 {
        Seq::empty()
    } else {
        uppercase_char(w[0]) + w.skip(1)
    }
}

/// The words of `s`, each capitalized, joined by single spaces.
pub open spec fn title_case_spec(s: Seq<char>) -> Seq<char> {
    join(words(s).map_values(|w: Seq<char>| capitalize(w)), " "@)
}

pub fn title_case_words(input: &[char]) -> (r: Vec<char>)
    ensures
        r@ == title_case_spec(input@),
{
    let ws = words_exec(input);
    let mut caps: Vec<Vec<char>> = Vec::new();
    let mut i: usize = 0;
    while i < ws.len()
        invariant
            i <= ws.len(),
            caps.deep_view() == ws.deep_view().take(i as int).map_values(|w: Seq<char>| capitalize(w)),
        decreases ws.len() - i,
    {
        let w = &ws[i];
        let mut c: Vec<char> = Vec::new();
        if w.len() > 0 {
            c = to_uppercase_char(w[0]);
            let mut k: usize = 1;
            while k < w.len()
                invariant
                    1 <= k <= w.len(),
                    c@ == uppercase_char(w@[0]) + w@.subrange(1, k as int),
                decreases w.len() - k,
            {
                c.push(w[k]);
                k = k + 1;
            }
            assert(w@.subrange(1, w@.len() as int) =~= w@.skip(1));
        }
        assert(c@ == capitalize(w@));
        assert(ws.deep_view()[i as int] == w@);
        let ghost before = caps.deep_view();
        let ghost cv = c@;
        caps.push(c);
        assert(caps.deep_view() =~= before.push(cv));
        assert(ws.deep_view().take(i + 1) =~= ws.deep_view().take(i as int).push(ws.deep_view()[i as int]));
        assert(caps.deep_view() =~= ws.deep_view().take(i + 1).map_values(|w: Seq<char>| capitalize(w)));
        i = i + 1;
    }
    assert(ws.deep_view().take(ws.len() as int) =~= ws.deep_view());
    let sp = chars_of(" ");
    join_chars(&caps, &sp)
}

/// A title made from a file name: its stem with `_` and `-` read as spaces,
/// normalized and title-cased; none when nothing is left.
pub open spec fn chapter_title_from_path_spec(path: Seq<char>) -> Option<Seq<char>> {
    match file_stem_spec(path) {
        None => None,
        Some(stem) => {
            let n = normalize_text_spec(map_chars(stem, seq!['_', '-'], ' '));
            if n.len() == 0 {
                None
            } else {
                Some(title_case_spec(n))
            }
        },
    }
}

pub fn chapter_title_from_path(path: &[char]) -> (r: Option<Vec<char>>)
    ensures
        r.deep_view() == chapter_title_from_path_spec(path@),
{
    let stem = match file_stem(path) {
        Some(s) => s,
        None => return None,
    };
    let seps = vec!['_', '-'];
    assert(seps@ =~= seq!['_', '-']);
    let n = normalize_text(&map_chars_exec(&stem, &seps, ' '));
    if n.len() == 0 {
        None
    } else {
        Some(title_case_words(&n))
    }
}

/// The title a section gets when nothing better is found: `Seção <n>` for a
/// file whose lowercased stem mentions a section, else `Capítulo <n>`.
pub open spec fn fallback_title_spec(path: Seq<char>, index: nat) -> Seq<char> {
    let stem = match file_stem_spec(path) {
        Some(s) => s,
        None => Seq::empty(),
    };
    let l = lowercase(stem);
    if contains(l, "section"@) || contains(l, "secao"@) || contains(l, "seção"@) {
        "Seção "@ + decimal(index)
    } else {
        "Capítulo "@ + decimal(index)
    }
}

pub fn fallback_title_for_path(path: &[char], index: usize) -> (r: Vec<char>)
    ensures
        r@ == fallback_title_spec(path@, index as nat),
{
    let stem = match file_stem(path) {
        Some(s) => s,
        None => Vec::new(),
    };
    let l = to_lowercase(&stem);
    let mut r: Vec<char> = Vec::new();
    if contains_chars(&l, &chars_of("section")) || contains_chars(&l, &chars_of("secao"))
        || contains_chars(&l, &chars_of("seção")) {
        push_str(&mut r, "Seção ");
    } else {
        push_str(&mut r, "Capítulo ");
    }
    let d = decimal_exec(index);
    push_chars(&mut r, &d);
    r
}

/// Titles that name nothing: placeholders in English and Portuguese.
pub open spec fn is_generic_title(l: Seq<char>) -> bool {
    l == "unknown"@ || l == "untitled"@ || l == "sem titulo"@ || l == "sem título"@ || l
        == "titulo desconhecido"@ || l == "título desconhecido"@
}

/// Whether `pattern` compiles and matches somewhere in `input`.
pub open spec fn matches_pattern(pattern: Seq<char>, input: Seq<char>) -> bool {
    regex_compiles(pattern) && regex_is_match_result(pattern, input)
}

fn matches_exec(pattern: &str, input: &str) -> (r: bool)
    ensures
        r == matches_pattern(pattern@, input@),
{
    match compile(pattern) {
        Ok(p) => is_match(&p, input),
        Err(_) => false,
    }
}

/// A title that looks like a file name or a numbered part: an HTML file
/// extension, a placeholder, or (with spaces, `_` and `-` taken out) a word
/// like `chapter12`, a short code like `a2`, or a number.
pub open spec fn is_technical_title_spec(title: Seq<char>) -> bool {
    let normalized = normalize_text_spec(title);
    let raw_lowered = lowercase(trim(normalized));
    let lowered = map_chars(raw_lowered, seq!['_', '-'], ' ');
    let compact = remove_char(lowered, ' ');
    let without_fragment = split_any(raw_lowered, seq!['#'])[0];
    let ext = match extension_spec(without_fragment) {
        Some(e) => e,
        None => Seq::empty(),
    };
    ||| ext == "xhtml"@ || ext == "html"@ || ext == "htm"@
    ||| is_generic_title(lowered)
    ||| matches_pattern(r"^(part|section|chapter|chap|text|body|file|page|html|xhtml)0*\d+$"@, compact)
    ||| matches_pattern(r"^[a-z]{1,3}0*\d+[a-z]?$"@, compact)
    ||| matches_pattern(r"^\d+$"@, compact)
}

pub fn is_technical_title(title: &[char]) -> (r: bool)
    ensures
        r == is_technical_title_spec(title@),
{
    let normalized = normalize_text(title);
    let raw_lowered = to_lowercase(&trim_chars(&normalized));
    let seps = vec!['_', '-'];
    assert(seps@ =~= seq!['_', '-']);
    let lowered = map_chars_exec(&raw_lowered, &seps, ' ');
    let compact = remove_char_exec(&lowered, ' ');
    let hash = vec!['#'];
    assert(hash@ =~= seq!['#']);
    let pieces = split_any_chars(&raw_lowered, &hash);
    proof {
        lemma_split_any_nonempty(raw_lowered@, seq!['#']);
    }
    let ext = match extension(&pieces[0]) {
        Some(e) => e,
        None => Vec::new(),
    };
    if eq_str(&ext, "xhtml") || eq_str(&ext, "html") || eq_str(&ext, "htm") {
        return true;
    }
    if eq_str(&lowered, "unknown") || eq_str(&lowered, "untitled") || eq_str(&lowered, "sem titulo")
        || eq_str(&lowered, "sem título") || eq_str(&lowered, "titulo desconhecido") || eq_str(
        &lowered,
        "título desconhecido",
    ) {
        return true;
    }
    let compact_s = string_of(&compact);
    matches_exec(r"^(part|section|chapter|chap|text|body|file|page|html|xhtml)0*\d+$", compact_s.as_str())
        || matches_exec(r"^[a-z]{1,3}0*\d+[a-z]?$", compact_s.as_str())
        || matches_exec(r"^\d+$", compact_s.as_str())
}

/// A title worth showing: not empty once normalized, and not technical.
pub open spec fn is_useful_title_spec(title: Seq<char>) -> bool {
    let n = normalize_text_spec(title);
    n.len() > 0 && !is_technical_title_spec(n)
}

/// Whether a title is worth showing to a reader.
pub fn is_useful_title(title: &str) -> (r: bool)
    ensures
        r == is_useful_title_spec(title@),
{
    let t = chars_of(title);
    is_useful_title_chars(&t)
}

pub fn is_useful_title_chars(title: &[char]) -> (r: bool)
    ensures
        r == is_useful_title_spec(title@),
{
    let n = normalize_text(title);
    n.len() > 0 && !is_technical_title(&n)
}

} // verus!
