//! The zip archive as the library sees it: a row of entries, each with a
//! name, a declared size and the tokens of its text.

use vstd::prelude::*;
use crate::scanner::TokenView;

verus! {

/// `std::io::Cursor`, over which the archive reader goes through bytes in
/// memory.
#[verifier::external_type_specification]
#[verifier::external_body]
#[verifier::reject_recursive_types(T)]
pub struct ExCursor<T>(std::io::Cursor<T>);

/// `zip::ZipArchive`, an archive whose directory was read.
#[verifier::external_type_specification]
#[verifier::external_body]
#[verifier::reject_recursive_types(R)]
pub struct ExZipArchive<R>(zip::ZipArchive<R>);

/// `zip::read::ZipFile`, the handle on one entry that was opened.
#[verifier::external_type_specification]
#[verifier::external_body]
pub struct ExZipFile<'a>(zip::read::ZipFile<'a>);

/// `zip::result::ZipError`, what the archive reader gives when it fails.
#[verifier::external_type_specification]
#[verifier::external_body]
pub struct ExZipError(zip::result::ZipError);

/// An entry that can be opened, as a mathematical value.
pub ghost struct FileView {
    /// The entry's name.
    pub name: Seq<char>,
    /// The size that the archive declares for the entry's content.
    pub size: u64,
    /// The tokens of the entry's content, up to and with the one that ends
    /// it, text being trimmed of the white space around it.
    pub tokens: Seq<TokenView>,
}

/// The entries of the archive that `bytes` hold, in the order of its
/// directory, or nothing where `bytes` hold no archive that can be read. An
/// entry that cannot be opened stands as nothing in its place.
pub uninterp spec fn archive_of(bytes: Seq<u8>) -> Option<Seq<Option<FileView>>>;

/// The entries of an archive that was opened.
pub uninterp spec fn entries(archive: zip::ZipArchive<std::io::Cursor<Vec<u8>>>) -> Seq<
    Option<FileView>,
>;

/// The entry that a handle stands for.
pub uninterp spec fn entry_of(file: zip::read::ZipFile<'_>) -> FileView;

/// Whether an entry of this name is a directory: its name ends in a slash
/// or a backslash.
pub open spec fn is_dir_name(name: Seq<char>) -> bool {
    name.len() > 0 && (name.last() == '/' || name.last() == '\\')
}

/// Reads the directory of the archive in `bytes` with `ZipArchive::new`.
/// It succeeds exactly on the bytes that hold a readable archive, and the
/// archive that comes back has that archive's entries.
#[verifier::external_body]
pub(crate) fn open_archive(bytes: Vec<u8>) -> (opened: Result<
    zip::ZipArchive<std::io::Cursor<Vec<u8>>>,
    zip::result::ZipError,
>)
    ensures
        match opened {
            Ok(archive) => archive_of(bytes@) == Some(entries(archive)),
            Err(_) => archive_of(bytes@) is None,
        },
{
    zip::ZipArchive::new(std::io::Cursor::new(bytes))
}

/// The number of entries, from `ZipArchive::len`.
#[verifier::external_body]
pub(crate) fn entry_count(archive: &zip::ZipArchive<std::io::Cursor<Vec<u8>>>) -> (n: usize)
    ensures
        n == entries(*archive).len(),
{
    archive.len()
}

/// Opens the entry at `index` with `ZipArchive::by_index_decrypt`, which,
/// unlike `by_index`, reports every entry that it cannot open instead of
/// stopping the program on some. The archive holds the same entries
/// afterwards. The handle stands for the entry at `index`; no handle comes
/// back exactly where that entry cannot be opened, with the archive's error
/// where it gave one.
#[verifier::external_body]
pub(crate) fn open_entry<'a>(
    archive: &'a mut zip::ZipArchive<std::io::Cursor<Vec<u8>>>,
    index: usize,
    password: &[u8],
) -> (opened: Result<zip::read::ZipFile<'a>, Option<zip::result::ZipError>>)
    requires
        index < entries(*old(archive)).len(),
        password@.len() == 0,
    ensures
        entries(*final(archive)) == entries(*old(archive)),
        match opened {
            Ok(file) => entries(*old(archive))[index as int] == Some(entry_of(file)),
            Err(_) => entries(*old(archive))[index as int] is None,
        },
{
    match archive.by_index_decrypt(index, password) {
        Ok(Ok(file)) => Ok(file),
        Ok(Err(_)) => Err(None),
        Err(e) => Err(Some(e)),
    }
}

/// The entry's name, from `ZipFile::name`.
#[verifier::external_body]
pub(crate) fn entry_name(file: &zip::read::ZipFile<'_>) -> (name: String)
    ensures
        name@ == entry_of(*file).name,
{
    file.name().to_string()
}

/// The size that the archive declares for the entry's content, from
/// `ZipFile::size`.
#[verifier::external_body]
pub(crate) fn entry_size(file: &zip::read::ZipFile<'_>) -> (size: u64)
    ensures
        size == entry_of(*file).size,
{
    file.size()
}

/// Whether the entry is a directory, from `ZipFile::is_dir`, which looks at
/// the last character of the name.
#[verifier::external_body]
pub(crate) fn entry_is_dir(file: &zip::read::ZipFile<'_>) -> (dir: bool)
    ensures
        dir == is_dir_name(entry_of(*file).name),
{
    file.is_dir()
}

/// What the archive says of an error, from its `Display`. Nothing is
/// promised of the text.
#[verifier::external_body]
pub(crate) fn failure_text(error: &zip::result::ZipError) -> (text: String) {
    error.to_string()
}

} // verus!
