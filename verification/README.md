# diameter_library

The verified core of Diameter, a desktop e-book library: it imports EPUB and
PDF files, keeps their metadata, tags and reading progress in SQLite, finds
their covers, and opens EPUBs as a list of readable chapters.

`src/` is the library, written in Verus. Its functions carry contracts that
Verus proves, except the wrappers around the outside crates and std (marked
`#[verifier::external_body]`), whose contracts are trusted: each states what
the wrapped function's documentation or source shows.

- `text`, `lexical`, `paths`, `encoding`: character sequences, the order of
  texts, archive paths, Base64 data URIs, percent-escapes.
- `xml`, `archive`, `regexes`: the documents, ZIP archives and regular
  expressions the library reads, through the `roxmltree`, `zip` and `regex`
  crates.
- `html`: sanitizing chapter markup, its text, and which titles are useful.
- `epub`: the package document, navigation titles, and merging untitled
  chapters.
- `reader`: reading order, embedded images, chapter building, and reading a
  whole EPUB.
- `cover`: cover images of EPUB and PDF files.
- `library`: tags, metadata, progress, covers to fill in, tags of listed
  books, and the naming of imported files.

`app/` holds the application around it: the SQLite store, the files of the
local library and the commands the interface calls. `tests/` exercises the
library on concrete books and values.
