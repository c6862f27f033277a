//! Zip archives in memory: reading entries by name, and writing stored entries one by one.
use std::io::{Read, Write};

use vstd::prelude::*;

verus! {

/// An archive that was opened for reading.
#[verifier::external_type_specification]
#[verifier::external_body]
#[verifier::reject_recursive_types(R)]
pub struct ExZipArchive<R>(zip::ZipArchive<R>);

/// A position in a buffer.
#[verifier::external_type_specification]
#[verifier::external_body]
#[verifier::reject_recursive_types(T)]
pub struct ExCursor<T>(std::io::Cursor<T>);

/// An archive that is being written: a `zip::ZipWriter` over a buffer.
#[verifier::external_body]
pub struct Writer {
    inner: zip::ZipWriter<std::io::Cursor<Vec<u8>>>,
}

/// Why an archive could not be read or written.
#[verifier::external_type_specification]
#[verifier::external_body]
pub struct ExZipError(zip::result::ZipError);

/// What can be read from an opened archive: for each name, the bytes of its entry, or nothing
/// where the entry cannot be read.
pub uninterp spec fn archive_contents(archive: zip::ZipArchive<std::io::Cursor<Vec<u8>>>) -> Map<
    Seq<char>,
    Option<Seq<u8>>,
>;

/// What can be read from the archive that `bytes` hold, on a machine with addresses of so many
/// bits, or nothing where they hold none. How wide addresses are matters for an archive of more
/// entries than memory can list.
pub uninterp spec fn zip_read(bytes: Seq<u8>, address_bits: u32) -> Option<
    Map<Seq<char>, Option<Seq<u8>>>,
>;

/// What can be read from the archive that `bytes` hold, on this machine.
pub open spec fn zip_opened(bytes: Seq<u8>) -> Option<Map<Seq<char>, Option<Seq<u8>>>> {
    zip_read(bytes, usize::BITS)
}

/// The entries of an archive that is being written, each with its name and its bytes so far.
pub uninterp spec fn writer_entries(writer: Writer) -> Seq<
    (Seq<char>, Seq<u8>),
>;

/// Whether no call has failed on an archive that is being written, so that it takes further
/// entries.
pub uninterp spec fn writer_open(writer: Writer) -> bool;

/// Opens an archive by `zip::ZipArchive::new`. Whether `bytes` hold an archive, and what can be
/// read from it, depends on the bytes and on the width of addresses alone.
#[verifier::external_body]
pub(crate) fn open_archive(bytes: Vec<u8>) -> (r: Result<
    zip::ZipArchive<std::io::Cursor<Vec<u8>>>,
    zip::result::ZipError,
>)
    ensures
        match r {
            Ok(archive) => zip_read(bytes@, usize::BITS) == Some(archive_contents(archive)),
            Err(_) => zip_read(bytes@, usize::BITS) is None,
        },
{
    zip::ZipArchive::new(std::io::Cursor::new(bytes))
}

/// Reads the entry `name` to its end, by `zip::ZipArchive::by_name` and the `Read` of the file
/// that it hands out. Reading changes nothing of what the archive holds.
#[verifier::external_body]
pub(crate) fn read_entry(
    archive: &mut zip::ZipArchive<std::io::Cursor<Vec<u8>>>,
    name: &str,
) -> (r: Result<Vec<u8>, zip::result::ZipError>)
    ensures
        archive_contents(*final(archive)) == archive_contents(*old(archive)),
        match r {
            Ok(bytes) => archive_contents(*old(archive)).contains_key(name@) && archive_contents(
                *old(archive),
            )[name@] == Some(bytes@),
            Err(_) => !archive_contents(*old(archive)).contains_key(name@) || archive_contents(
                *old(archive),
            )[name@] is None,
        },
{
    let bytes: Result<Vec<u8>, std::io::Error> = archive.by_name(name)?.bytes().collect();
    Ok(bytes?)
}

/// The names of all the entries, by `zip::ZipArchive::file_names`.
#[verifier::external_body]
pub(crate) fn entry_names(archive: &zip::ZipArchive<std::io::Cursor<Vec<u8>>>) -> (r: Vec<String>)
    ensures
        forall|i: int|
            0 <= i < r@.len() ==> archive_contents(*archive).contains_key(#[trigger] r@[i]@),
        forall|name: Seq<char>| #[trigger]
            archive_contents(*archive).contains_key(name) ==> exists|i: int|
                0 <= i < r@.len() && #[trigger] r@[i]@ == name,
{
    archive.file_names().map(|name| name.to_owned()).collect()
}

/// A name of small letters and dots, of fewer than sixteen characters: every reader takes it for
/// what it is. Where the last entry has a name of sixteen, the twenty bytes before the end of the
/// list of entries can look like a pointer to a longer list.
pub open spec fn is_plain_name(name: Seq<char>) -> bool {
    &&& 0 < name.len() < 16
    &&& forall|i: int|
        0 <= i < name.len() ==> (#[trigger] name[i] == '.' || 'a' <= name[i] <= 'z')
}

/// Starts an archive without entries, by `zip::ZipWriter::new`.
#[verifier::external_body]
pub(crate) fn new_writer() -> (r: Writer)
    ensures
        writer_entries(r) == Seq::<(Seq<char>, Seq<u8>)>::empty(),
        writer_open(r),
{
    Writer { inner: zip::ZipWriter::new(std::io::Cursor::new(Vec::new())) }
}

/// Whether no entry has this name.
pub open spec fn is_new_name(entries: Seq<(Seq<char>, Seq<u8>)>, name: Seq<char>) -> bool {
    forall|i: int| 0 <= i < entries.len() ==> (#[trigger] entries[i]).0 != name
}

/// Starts an entry that is stored as it is, by `zip::ZipWriter::start_file`. It succeeds on an
/// open archive that has no entry of that name. Where it succeeds the entry stands last, without
/// bytes, and no earlier entry had its name. Nothing is said of the writer where it fails.
#[verifier::external_body]
pub(crate) fn start_stored_file(
    writer: &mut Writer,
    name: &str,
) -> (r: Result<(), zip::result::ZipError>)
    requires
        is_plain_name(name@),
    ensures
        r is Ok ==> writer_entries(*final(writer)) == writer_entries(*old(writer)).push(
            (name@, Seq::<u8>::empty()),
        ),
        r is Ok ==> is_new_name(writer_entries(*old(writer)), name@),
        writer_open(*old(writer)) && is_new_name(writer_entries(*old(writer)), name@) ==> r is Ok
            && writer_open(*final(writer)),
{
    let options = zip::write::SimpleFileOptions::default().compression_method(
        zip::CompressionMethod::Stored,
    );
    writer.inner.start_file(name, options)
}

/// Appends to the last entry, by the `write_all` of `zip::ZipWriter`. It fails where the
/// entry gets longer than 32 bits count, and succeeds on an open archive where it does not.
/// Nothing is said of the writer where it fails.
#[verifier::external_body]
pub(crate) fn write_bytes(
    writer: &mut Writer,
    bytes: &Vec<u8>,
) -> (r: Result<(), zip::result::ZipError>)
    requires
        0 < writer_entries(*old(writer)).len(),
    ensures
        r is Ok ==> writer_entries(*final(writer)) == writer_entries(*old(writer)).update(
            writer_entries(*old(writer)).len() - 1,
            (
                writer_entries(*old(writer)).last().0,
                writer_entries(*old(writer)).last().1 + bytes@,
            ),
        ),
        r is Ok ==> writer_entries(*old(writer)).last().1.len() + bytes@.len() <= u32::MAX,
        writer_open(*old(writer)) && writer_entries(*old(writer)).last().1.len() + bytes@.len()
            <= u32::MAX ==> r is Ok && writer_open(*final(writer)),
{
    writer.inner.write_all(bytes)?;
    Ok(())
}

/// `contents` are exactly the entries, each readable under its name.
pub open spec fn holds_entries(
    contents: Map<Seq<char>, Option<Seq<u8>>>,
    entries: Seq<(Seq<char>, Seq<u8>)>,
) -> bool {
    &&& forall|i: int|
        0 <= i < entries.len() ==> contents.contains_key((#[trigger] entries[i]).0)
            && contents[entries[i].0] == Some(entries[i].1)
    &&& forall|name: Seq<char>| #[trigger]
        contents.contains_key(name) ==> exists|i: int|
            0 <= i < entries.len() && (#[trigger] entries[i]).0 == name
}

/// Where the entry numbered `i` starts, as long as no entry before it starts where 32 bits do not
/// count: each takes a header of thirty bytes, its name and its bytes.
pub open spec fn entry_start(entries: Seq<(Seq<char>, Seq<u8>)>, i: int) -> int
    decreases i,
{
    if i <= 0 {
        0
    } else {
        entry_start(entries, i - 1) + 30 + entries[i - 1].0.len() + entries[i - 1].1.len()
    }
}

/// Whether entries are read back as they were written: there are fewer than 16 bits count, and
/// none is as long as 32 bits count, unless it starts before so many bytes. One that starts later
/// is taken for an entry whose length stands elsewhere.
pub open spec fn are_readable(entries: Seq<(Seq<char>, Seq<u8>)>) -> bool {
    &&& entries.len() < u16::MAX
    &&& forall|i: int|
        0 <= i < entries.len() ==> (#[trigger] entries[i]).1.len() < u32::MAX || (
        entries[i].1.len() == u32::MAX && entry_start(entries, i) < u32::MAX)
}

/// Ends the archive, by `zip::ZipWriter::finish`. It succeeds on an open archive, and where its
/// entries are readable, the bytes, opened again, hold the entries that were written. Of other
/// archives nothing is said.
#[verifier::external_body]
pub(crate) fn finish(writer: Writer) -> (r: Result<Vec<u8>, zip::result::ZipError>)
    ensures
        writer_open(writer) ==> r is Ok,
        r matches Ok(bytes) ==> writer_open(writer) && are_readable(writer_entries(writer)) ==> (
        zip_read(bytes@, usize::BITS) matches Some(contents) && holds_entries(
            contents,
            writer_entries(writer),
        )),
{
    let cursor = writer.inner.finish()?;
    Ok(cursor.into_inner())
}

} // verus!
