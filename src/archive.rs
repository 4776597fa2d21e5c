//! Reading the entries of a downloaded archive. The zip container is decoded by
//! the `zip` crate; what this library learns of it comes through the calls
//! below, each a function of the archive's bytes.
use vstd::prelude::*;

verus! {

#[verifier::external_type_specification]
#[verifier::external_body]
#[verifier::reject_recursive_types(R)]
pub struct ExZipArchive<R>(zip::ZipArchive<R>);

#[verifier::external_type_specification]
#[verifier::external_body]
#[verifier::reject_recursive_types(T)]
pub struct ExCursor<T>(std::io::Cursor<T>);

#[verifier::external_type_specification]
#[verifier::external_body]
pub struct ExZipError(zip::result::ZipError);

/// Whether `zip` accepts the bytes as an archive.
pub uninterp spec fn zip_opens(bytes: Seq<u8>) -> bool;

/// The number of entries of the archive.
pub uninterp spec fn zip_entry_count(bytes: Seq<u8>) -> nat;

/// Entry `index` of the archive: its stored name, its Unix mode if any, and its
/// decompressed contents; `None` where it cannot be read.
pub uninterp spec fn zip_entry(bytes: Seq<u8>, index: nat) -> Option<(Seq<char>, Option<u32>, Seq<u8>)>;

/// One entry of an archive, as read.
pub struct ZipEntry {
    /// The name stored in the archive, `/`-separated; directories end in `/`.
    pub name: String,
    /// Whether the name is a relative path that stays inside the extraction root.
    pub enclosed: bool,
    /// The Unix mode bits, where the archive records them.
    pub unix_mode: Option<u32>,
    /// The decompressed bytes (the link target, for a symbolic link).
    pub contents: Vec<u8>,
}

/// Relies on `zip::ZipArchive::new`: it succeeds or fails depending on the bytes alone.
/// Release 0.6.6, the one this crate depends on, checks the offset arithmetic of
/// a crafted central directory and reports it as an error instead of overflowing.
#[verifier::external_body]
fn open_zip(bytes: Vec<u8>) -> (r: Result<zip::ZipArchive<std::io::Cursor<Vec<u8>>>, zip::result::ZipError>)
    ensures
        r is Ok <==> zip_opens(bytes@),
{
    zip::ZipArchive::new(std::io::Cursor::new(bytes))
}

/// An opened archive together with the bytes it was opened from.
pub struct ArchiveReader {
    bytes: Ghost<Seq<u8>>,
    zip: zip::ZipArchive<std::io::Cursor<Vec<u8>>>,
}

impl View for ArchiveReader {
    type V = Seq<u8>;

    /// The bytes the archive was opened from.
    closed spec fn view(&self) -> Seq<u8> {
        self.bytes@
    }
}

impl ArchiveReader {
    /// Opens the archive held in `bytes`; `None` where it is not a zip archive.
    pub fn open(bytes: Vec<u8>) -> (r: Option<ArchiveReader>)
        ensures
            match r {
                Some(a) => zip_opens(bytes@) && a@ == bytes@,
                None => !zip_opens(bytes@),
            },
    {
        let ghost b = bytes@;
        match open_zip(bytes) {
            Ok(zip) => Some(ArchiveReader { bytes: Ghost(b), zip }),
            Err(_) => None,
        }
    }

    /// Relies on `zip::ZipArchive::len`: the number of entries.
    #[verifier::external_body]
    pub(crate) fn len(&self) -> (r: usize)
        ensures
            r == zip_entry_count(self@),
    {
        self.zip.len()
    }

    /// Relies on `zip::ZipArchive::by_index_decrypt` with the empty password, and on
    /// reading the entry it returns: which entry comes out depends on the bytes and
    /// the index alone. For an entry not flagged as encrypted the password is
    /// discarded and the entry reads as with `by_index`; unlike `by_index`, an AES
    /// field on such an entry comes back as an error value instead of a panic. An
    /// entry flagged as encrypted reads only if the empty password opens it. Whether
    /// the name stays enclosed is decided by `zip::read::ZipFile::enclosed_name` on
    /// the host's path rules, so nothing is claimed of it.
    #[verifier::external_body]
    pub(crate) fn entry(&mut self, index: usize) -> (r: Option<ZipEntry>)
        requires
            index < zip_entry_count(old(self)@),
        ensures
            final(self)@ == old(self)@,
            match r {
                Some(e) => zip_entry(old(self)@, index as nat) == Some((e.name@, e.unix_mode, e.contents@)),
                None => zip_entry(old(self)@, index as nat) is None,
            },
    {
        let mut file = self.zip.by_index_decrypt(index, b"").ok()?.ok()?;
        let mut contents = Vec::new();
        std::io::Read::read_to_end(&mut file, &mut contents).ok()?;
        let enclosed = file.enclosed_name().is_some();
        Some(ZipEntry { name: file.name().to_string(), enclosed, unix_mode: file.unix_mode(), contents })
    }
}

} // verus!
