//! ZIP archives (the container of an EPUB) held in memory, with what the
//! library reads of them: the list of entries and the contents of an entry.
use vstd::prelude::*;
use vstd::utf8::{decode_utf8, valid_utf8};
use std::io::Cursor;
use std::io::Read;

verus! {

#[verifier::external_type_specification]
#[verifier::external_body]
#[verifier::reject_recursive_types(T)]
pub struct ExCursor<T>(std::io::Cursor<T>);

#[verifier::external_type_specification]
#[verifier::external_body]
#[verifier::reject_recursive_types(R)]
pub struct ExZipArchive<R>(zip::ZipArchive<R>);

/// What reading the entry of a given name out of an archive comes to.
pub enum EntryRead {
    /// No entry can be opened under that name.
    Missing,
    /// The entry opens but its contents cannot be read.
    Failed,
    /// The entry's contents.
    Data(Seq<u8>),
}

/// The name of the entries that the `zip` crate lists in the archive made of
/// `bytes`, by index: each as (name, is a file), or `None` where the entry at
/// that index cannot be opened; the whole is `None` where the bytes are not an
/// archive it accepts.
pub uninterp spec fn zip_listing(bytes: Seq<u8>) -> Option<Seq<Option<(Seq<char>, bool)>>>;

/// The name of what opening the entry called `name` in the archive made of
/// `bytes` and reading it to its end gives.
pub uninterp spec fn zip_entry_read(bytes: Seq<u8>, name: Seq<char>) -> EntryRead;

/// An archive opened from bytes held in memory.
pub struct Archive {
    zip: zip::ZipArchive<Cursor<Vec<u8>>>,
    source: Ghost<Seq<u8>>,
}

impl Archive {
    /// The bytes the archive was opened from.
    pub closed spec fn source(&self) -> Seq<u8> {
        self.source@
    }

    /// The entries of the archive, by index.
    pub open spec fn listing(&self) -> Seq<Option<(Seq<char>, bool)>> {
        zip_listing(self.source())->0
    }

    /// Opens the archive whose bytes are `bytes`; an error where they are not
    /// an archive.
    pub fn open(bytes: Vec<u8>) -> (r: Result<Archive, String>)
        ensures
            r matches Ok(a) ==> a.source() == bytes@,
            r is Ok <==> zip_listing(bytes@) is Some,
    {
        archive_open(bytes)
    }
}

/// Opens the archive in `bytes` with `zip::ZipArchive::new` over a
/// `std::io::Cursor`; an error comes back as its display text. The contract
/// claims that it opens exactly where `zip_listing` names a listing.
#[verifier::external_body]
pub(crate) fn archive_open(bytes: Vec<u8>) -> (r: Result<Archive, String>)
    ensures
        r matches Ok(a) ==> a.source() == bytes@,
        r is Ok <==> zip_listing(bytes@) is Some,
{
    let source = Ghost(bytes@);
    match zip::ZipArchive::new(Cursor::new(bytes)) {
        Ok(zip) => Ok(Archive { zip, source }),
        Err(err) => Err(err.to_string()),
    }
}

/// `ZipArchive::len`: the number of entries.
#[verifier::external_body]
pub(crate) fn archive_len(a: &Archive) -> (r: usize)
    ensures
        r == a.listing().len(),
{
    a.zip.len()
}

/// `ZipArchive::by_index`, reading the entry's `name()` and `is_file()`;
/// an error comes back as its display text. The contract claims the result is
/// the listing's entry at that index.
#[verifier::external_body]
pub(crate) fn archive_entry_info(a: &mut Archive, index: usize) -> (r: Result<(String, bool), String>)
    requires
        index < old(a).listing().len(),
    ensures
        final(a).source() == old(a).source(),
        match old(a).listing()[index as int] {
            Some((name, is_file)) => r matches Ok((n, f)) && n@ == name && f == is_file,
            None => r is Err,
        },
{
    match a.zip.by_index(index) {
        Ok(entry) => Ok((entry.name().to_string(), entry.is_file())),
        Err(err) => Err(err.to_string()),
    }
}

/// `ZipArchive::by_name` and `Read::read_to_end` on the entry; a read error
/// comes back as its display text. The contract claims the outcome is the one
/// `zip_entry_read` names.
#[verifier::external_body]
pub(crate) fn archive_read_bytes(a: &mut Archive, name: &str) -> (r: Option<Result<Vec<u8>, String>>)
    ensures
        final(a).source() == old(a).source(),
        match zip_entry_read(old(a).source(), name@) {
            EntryRead::Missing => r is None,
            EntryRead::Failed => r matches Some(Err(_)),
            EntryRead::Data(v) => r matches Some(Ok(b)) && b@ == v,
        },
{
    let mut entry = match a.zip.by_name(name) {
        Ok(entry) => entry,
        Err(_) => return None,
    };
    let mut content = Vec::new();
    Some(match entry.read_to_end(&mut content) {
        Ok(_) => Ok(content),
        Err(err) => Err(err.to_string()),
    })
}

/// `ZipArchive::by_name` and `Read::read_to_string` on the entry; a read
/// error comes back as its display text. `read_to_string` is documented to
/// read to the end and to fail on bytes that are not UTF-8: the contract
/// states that over the outcome `zip_entry_read` names.
#[verifier::external_body]
pub(crate) fn archive_read_text(a: &mut Archive, name: &str) -> (r: Option<Result<String, String>>)
    ensures
        final(a).source() == old(a).source(),
        match zip_entry_read(old(a).source(), name@) {
            EntryRead::Missing => r is None,
            EntryRead::Failed => r matches Some(Err(_)),
            EntryRead::Data(v) => if valid_utf8(v) {
                r matches Some(Ok(s)) && s@ == decode_utf8(v)
            } else {
                r matches Some(Err(_))
            },
        },
{
    let mut entry = match a.zip.by_name(name) {
        Ok(entry) => entry,
        Err(_) => return None,
    };
    let mut content = String::new();
    Some(match entry.read_to_string(&mut content) {
        Ok(_) => Ok(content),
        Err(err) => Err(err.to_string()),
    })
}

} // verus!
