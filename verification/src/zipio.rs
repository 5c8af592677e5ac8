//! Trusted access to the zip archive reader.
//!
//! The archive is parsed from an in-memory byte buffer. What the outside
//! crate yields is named as a function of that buffer alone: the entry
//! list by [`zip_parse`], the outcome of opening by [`zip_openable`],
//! and the outcome of reading one entry by [`zip_entry_readable`].
//! Everything done with the entries afterwards is verified code in the
//! ingest module.

use vstd::prelude::*;

verus! {

#[verifier::external_type_specification]
#[verifier::external_body]
#[verifier::reject_recursive_types(T)]
pub struct ExCursor<T>(std::io::Cursor<T>);

#[verifier::external_type_specification]
#[verifier::external_body]
#[verifier::reject_recursive_types(R)]
pub struct ExZipArchive<R>(zip::ZipArchive<R>);

#[verifier::external_type_specification]
#[verifier::external_body]
pub struct ExZipError(zip::result::ZipError);

/// The entries a parsed archive yields, in index order: each a pair of
/// the entry's stored raw name and its decompressed bytes.
pub uninterp spec fn zip_entries(a: zip::ZipArchive<std::io::Cursor<Vec<u8>>>) -> Seq<
    (Seq<u8>, Seq<u8>),
>;

/// What parsing an archive's bytes yields: a function of the bytes alone.
pub uninterp spec fn zip_parse(bytes: Seq<u8>) -> Seq<(Seq<u8>, Seq<u8>)>;

/// Whether the bytes open as an archive: a function of the bytes alone.
pub uninterp spec fn zip_openable(bytes: Seq<u8>) -> bool;

/// Whether entry `i` of the archive these bytes hold decompresses and
/// checks out in full: a function of the bytes and the index alone.
pub uninterp spec fn zip_entry_readable(bytes: Seq<u8>, i: int) -> bool;

/// The byte buffer an archive value was opened over.
pub uninterp spec fn zip_source_bytes(a: zip::ZipArchive<std::io::Cursor<Vec<u8>>>) -> Seq<u8>;

/// The bytes hold a fully readable archive: they open, and every entry
/// of the list they parse to can be read.
pub open spec fn zip_readable(bytes: Seq<u8>) -> bool {
    &&& zip_openable(bytes)
    &&& forall|i: int| 0 <= i < zip_parse(bytes).len() ==> zip_entry_readable(bytes, i)
}

/// Relies on zip::ZipArchive::new: it reads the archive held in the byte
/// buffer through its central directory, so whether it succeeds and the
/// entry list it collects are determined by the bytes alone, and the
/// buffer itself rides along inside the returned value.
#[verifier::external_body]
pub fn zip_open(bytes: Vec<u8>) -> (r: Result<
    zip::ZipArchive<std::io::Cursor<Vec<u8>>>,
    zip::result::ZipError,
>)
    ensures
        (r is Ok) == zip_openable(bytes@),
        r matches Ok(a) ==> zip_entries(a) == zip_parse(bytes@) && zip_source_bytes(a) == bytes@,
{
    zip::ZipArchive::new(std::io::Cursor::new(bytes))
}

/// Relies on zip::ZipArchive::len: the number of entries in the archive.
#[verifier::external_body]
pub fn zip_count(a: &zip::ZipArchive<std::io::Cursor<Vec<u8>>>) -> (n: usize)
    ensures
        n == zip_entries(*a).len(),
{
    a.len()
}

/// Relies on zip::ZipArchive::by_index, zip::read::ZipFile::name_raw and
/// std::io::Read::read_to_end: reading entry `i` yields its stored raw
/// name and its decompressed bytes. The read decompresses from the
/// in-memory buffer, so whether it succeeds is determined by the buffer
/// and the index alone; it leaves the entry list and the buffer
/// unchanged.
#[verifier::external_body]
pub fn zip_entry(a: &mut zip::ZipArchive<std::io::Cursor<Vec<u8>>>, i: usize) -> (r: Result<
    (Vec<u8>, Vec<u8>),
    zip::result::ZipError,
>)
    requires
        i < zip_entries(*old(a)).len(),
    ensures
        zip_entries(*final(a)) == zip_entries(*old(a)),
        zip_source_bytes(*final(a)) == zip_source_bytes(*old(a)),
        (r is Ok) == zip_entry_readable(zip_source_bytes(*old(a)), i as int),
        r matches Ok(e) ==> e.0@ == zip_entries(*old(a))[i as int].0 && e.1@ == zip_entries(
            *old(a),
        )[i as int].1,
{
    match a.by_index(i) {
        Ok(mut f) => {
            let mut data = Vec::new();
            match std::io::Read::read_to_end(&mut f, &mut data) {
                Ok(_) => Ok((f.name_raw().to_vec(), data)),
                Err(e) => Err(zip::result::ZipError::Io(e)),
            }
        },
        Err(e) => Err(e),
    }
}

} // verus!
