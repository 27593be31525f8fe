//! Reading and writing the ZIP container of a DOCX document.
use vstd::prelude::*;
use vstd::utf8::encode_utf8;
use std::io::Cursor;
use std::io::Read;
use std::io::Write;
use zip::result::ZipError;
use zip::write::SimpleFileOptions;
use zip::{CompressionMethod, ZipArchive, ZipWriter};

verus! {

#[verifier::external_type_specification]
#[verifier::external_body]
#[verifier::reject_recursive_types(T)]
pub struct ExCursor<T>(Cursor<T>);

#[verifier::external_type_specification]
#[verifier::external_body]
#[verifier::reject_recursive_types(R)]
pub struct ExZipArchive<R>(ZipArchive<R>);

/// An archive under construction, writing into memory. `zip::ZipWriter`
/// is bounded by `std::io::Write + Seek`, which cannot stand in a declaration
/// here, so it is held in a field that verified code does not see.
#[verifier::external_body]
pub struct ArchiveWriter {
    inner: ZipWriter<Cursor<Vec<u8>>>,
}

#[verifier::external_type_specification]
#[verifier::external_body]
pub struct ExZipError(ZipError);

#[verifier::external_type_specification]
#[verifier::external_body]
pub struct ExIoError(std::io::Error);

/// The model of an archive entry: its name, its uncompressed content, and
/// whether its header (name) and its content can be read.
pub struct EntryView {
    pub name: Seq<char>,
    pub content: Seq<u8>,
    pub header_ok: bool,
    pub data_ok: bool,
}

/// Whether an entry name denotes a directory: it ends in `/` or `\`.
pub open spec fn marks_dir(name: Seq<char>) -> bool {
    name.len() > 0 && (name.last() == '/' || name.last() == '\\')
}

/// Whether bytes open as a ZIP archive (its central directory can be read).
pub uninterp spec fn zip_opens(data: Seq<u8>) -> bool;

/// The entries that the bytes of a ZIP archive hold, in the order of its
/// central directory.
pub uninterp spec fn zip_listing(data: Seq<u8>) -> Seq<EntryView>;

/// Whether every entry of an archive can be read: the archive opens, each
/// entry's header can be read, and so can the content of each entry that is
/// not a directory.
pub open spec fn zip_readable(data: Seq<u8>) -> bool {
    &&& zip_opens(data)
    &&& forall|i: int|
        0 <= i < zip_listing(data).len() ==> (#[trigger] zip_listing(data)[i]).header_ok && (
        marks_dir(zip_listing(data)[i].name) || zip_listing(data)[i].data_ok)
}

/// The entries of an opened archive.
pub uninterp spec fn archive_entries(a: ZipArchive<Cursor<Vec<u8>>>) -> Seq<EntryView>;

/// The entries written so far to an archive under construction.
pub uninterp spec fn writer_entries(w: ArchiveWriter) -> Seq<EntryView>;

/// One member of a ZIP archive.
pub struct ArchiveEntry {
    pub name: String,
    pub content: Vec<u8>,
    pub is_dir: bool,
}

/// An archive member as this library reads it: a directory's content is
/// never read, so it is empty.
pub open spec fn as_read(e: EntryView) -> ArchiveEntryView {
    ArchiveEntryView {
        name: e.name,
        content: if marks_dir(e.name) {
            Seq::empty()
        } else {
            e.content
        },
        is_dir: marks_dir(e.name),
    }
}

/// The model of an [`ArchiveEntry`].
pub struct ArchiveEntryView {
    pub name: Seq<char>,
    pub content: Seq<u8>,
    pub is_dir: bool,
}

impl View for ArchiveEntry {
    type V = ArchiveEntryView;

    open spec fn view(&self) -> ArchiveEntryView {
        ArchiveEntryView { name: self.name@, content: self.content@, is_dir: self.is_dir }
    }
}

/// The models of a sequence of entries.
pub open spec fn entry_views(es: Seq<ArchiveEntry>) -> Seq<ArchiveEntryView> {
    es.map_values(|e: ArchiveEntry| e@)
}

/// Why an archive could not be read or written.
#[derive(Debug)]
pub enum ArchiveError {
    Zip(ZipError),
    Io(std::io::Error),
}

/// Opens a ZIP archive held in memory (`zip::ZipArchive::new`). It succeeds
/// exactly on bytes that open as an archive, and its entries are then those
/// that the bytes hold.
#[verifier::external_body]
fn zip_open(data: Vec<u8>) -> (res: Result<ZipArchive<Cursor<Vec<u8>>>, ZipError>)
    ensures
        res is Ok <==> zip_opens(data@),
        res matches Ok(a) ==> archive_entries(a) == zip_listing(data@),
{
    ZipArchive::new(Cursor::new(data))
}

/// The number of entries of an archive (`zip::ZipArchive::len`).
#[verifier::external_body]
fn zip_len(a: &ZipArchive<Cursor<Vec<u8>>>) -> (n: usize)
    ensures
        n == archive_entries(*a).len(),
{
    a.len()
}

/// The name of entry `i` and whether it is a directory (`ZipArchive::by_index`,
/// then `ZipFile::name` and `ZipFile::is_dir`, which tests the name's last
/// byte). It succeeds exactly when the entry's header can be read; the
/// archive's entries stay as they were.
#[verifier::external_body]
fn zip_entry_header(a: &mut ZipArchive<Cursor<Vec<u8>>>, i: usize) -> (res: Result<(String, bool), ZipError>)
    requires
        i < archive_entries(*old(a)).len(),
    ensures
        archive_entries(*final(a)) == archive_entries(*old(a)),
        res is Ok <==> archive_entries(*old(a))[i as int].header_ok,
        res matches Ok((name, dir)) ==> name@ == archive_entries(*old(a))[i as int].name && dir
            == marks_dir(name@),
{
    let f = a.by_index(i)?;
    let name = f.name()?.to_string();
    Ok((name, f.is_dir()))
}

/// The uncompressed content of entry `i` (`ZipArchive::by_index`, then
/// `Read::read_to_end` on the entry). It succeeds exactly when the entry's
/// content can be read; the archive's entries stay as they were.
#[verifier::external_body]
fn zip_entry_data(a: &mut ZipArchive<Cursor<Vec<u8>>>, i: usize) -> (res: Result<Vec<u8>, ZipError>)
    requires
        i < archive_entries(*old(a)).len(),
    ensures
        archive_entries(*final(a)) == archive_entries(*old(a)),
        res is Ok <==> archive_entries(*old(a))[i as int].data_ok,
        res matches Ok(content) ==> content@ == archive_entries(*old(a))[i as int].content,
{
    let mut f = a.by_index(i)?;
    let mut content = Vec::new();
    f.read_to_end(&mut content)?;
    Ok(content)
}

/// Reads every entry of a ZIP archive held in memory, in order; a
/// directory's content is left empty. It succeeds exactly when the archive
/// opens and every entry can be read.
pub fn read_archive(data: &[u8]) -> (res: Result<Vec<ArchiveEntry>, ArchiveError>)
    ensures
        res is Ok <==> zip_readable(data@),
        res matches Ok(es) ==> entry_views(es@) == zip_listing(data@).map_values(
            |e: EntryView| as_read(e),
        ),
{
    let bytes = vstd::slice::slice_to_vec(data);
    let mut archive = match zip_open(bytes) {
        Ok(a) => a,
        Err(e) => return Err(ArchiveError::Zip(e)),
    };
    assert(zip_opens(data@));
    let ghost listing = archive_entries(archive);
    let n = zip_len(&archive);
    let mut entries: Vec<ArchiveEntry> = Vec::new();
    let mut i: usize = 0;
    while i < n
        invariant
            n == listing.len(),
            listing == zip_listing(data@),
            archive_entries(archive) == listing,
            i <= n,
            zip_opens(data@),
            entries@.len() == i,
            forall|j: int|
                0 <= j < i ==> (#[trigger] entries@[j])@ == as_read(listing[j]),
            forall|j: int|
                0 <= j < i ==> (#[trigger] listing[j]).header_ok && (marks_dir(listing[j].name)
                    || listing[j].data_ok),
        decreases n - i,
    {
        let (name, is_dir) = match zip_entry_header(&mut archive, i) {
            Ok(h) => h,
            Err(e) => {
                assert(!listing[i as int].header_ok);
                return Err(ArchiveError::Zip(e));
            },
        };
        let content = if is_dir {
            Vec::new()
        } else {
            match zip_entry_data(&mut archive, i) {
                Ok(c) => c,
                Err(e) => {
                    assert(!listing[i as int].data_ok);
                    return Err(ArchiveError::Zip(e));
                },
            }
        };
        entries.push(ArchiveEntry { name, content, is_dir });
        i = i + 1;
    }
    assert(entry_views(entries@) =~= zip_listing(data@).map_values(|e: EntryView| as_read(e)));
    Ok(entries)
}

/// How an entry's content is stored.
pub enum Compression {
    Stored,
    Deflated,
}

/// Whether no operation on the writer has failed so far.
pub uninterp spec fn writer_healthy(w: ArchiveWriter) -> bool;

/// Whether the entry last started is a file that takes content.
pub uninterp spec fn writing_file(w: ArchiveWriter) -> bool;

/// The names of entries.
pub open spec fn entry_names(es: Seq<EntryView>) -> Seq<Seq<char>> {
    es.map_values(|e: EntryView| e.name)
}

/// A bound on the bytes that writing the entries puts in memory: for each
/// entry twice its content (deflate adds at most about 14 %, as zlib-rs
/// documents for its bound), twice the UTF-8 bytes of its name (local and
/// central header) and 256 bytes of headers, ZIP64 fields and descriptors.
pub open spec fn written_size(es: Seq<EntryView>) -> int
    decreases es.len(),
{
    if es.len() == 0 {
        0
    } else {
        written_size(es.drop_last()) + 2 * es.last().content.len() + 2 * encode_utf8(
            es.last().name,
        ).len() + 256
    }
}

/// The most bytes the archive may take in memory: a `Vec<u8>` holds at most
/// `isize::MAX` bytes, less room for the end records.
pub open spec fn size_limit() -> int {
    isize::MAX as int - 256
}

/// The largest content of one file: under the default options (no
/// large-file option) the writer refuses a file whose content or deflated
/// form reaches 4 GiB, and deflated content stays under it below 3.5 GiB.
pub open spec fn file_size_limit() -> int {
    0xE000_0000
}

/// Whether the entries fit: no file's content reaches [`file_size_limit`],
/// and all of them together fit in memory.
pub open spec fn sizes_fit(es: Seq<EntryView>) -> bool {
    &&& forall|i: int| 0 <= i < es.len() ==> (#[trigger] es[i]).content.len() < file_size_limit()
    &&& written_size(es) <= size_limit()
}

/// A name short enough for an entry header: the local header (30 bytes)
/// with the name's UTF-8 bytes stays under 64 KiB.
pub open spec fn name_fits(name: Seq<char>) -> bool {
    encode_utf8(name).len() + 30 < 0xFFFF
}

/// The entry a directory is recorded as.
pub open spec fn dir_entry(name: Seq<char>) -> EntryView {
    EntryView { name: dir_entry_name(name), content: Seq::empty(), header_ok: true, data_ok: true }
}

/// The entry a file is recorded as when it is started.
pub open spec fn file_entry(name: Seq<char>) -> EntryView {
    EntryView { name, content: Seq::empty(), header_ok: true, data_ok: true }
}

/// A new, empty archive writing into memory (`zip::ZipWriter::new`).
#[verifier::external_body]
fn zip_writer_new() -> (w: ArchiveWriter)
    ensures
        writer_entries(w) == Seq::<EntryView>::empty(),
        writer_healthy(w),
        !writing_file(w),
{
    ArchiveWriter { inner: ZipWriter::new(Cursor::new(Vec::new())) }
}

/// The name that `ZipWriter::add_directory` records: a `/` is appended
/// unless the name already ends in `/` or `\`.
pub open spec fn dir_entry_name(name: Seq<char>) -> Seq<char> {
    if marks_dir(name) {
        name
    } else {
        name.push('/')
    }
}

/// Adds a directory entry (`ZipWriter::add_directory`, which always stores
/// directories uncompressed). On success one empty entry is added, under a
/// name no earlier entry has (the writer refuses a duplicate name). It
/// succeeds on a writer where nothing failed, for a new name that fits in a
/// header, while the sizes fit (see [`sizes_fit`]).
#[verifier::external_body]
fn zip_add_directory(w: &mut ArchiveWriter, name: &str) -> (res: Result<(), ZipError>)
    ensures
        res is Ok ==> writer_entries(*final(w)) == writer_entries(*old(w)).push(dir_entry(name@))
            && !entry_names(writer_entries(*old(w))).contains(dir_entry_name(name@))
            && !writing_file(*final(w)) && writer_healthy(*final(w)) == writer_healthy(*old(w)),
        writer_healthy(*old(w)) && !entry_names(writer_entries(*old(w))).contains(
            dir_entry_name(name@),
        ) && name_fits(dir_entry_name(name@)) && sizes_fit(
            writer_entries(*old(w)).push(dir_entry(name@)),
        ) ==> res is Ok,
{
    w.inner.add_directory(name, SimpleFileOptions::default())
}

/// Starts a file entry (`ZipWriter::start_file`) with the given storage. On
/// success one empty entry under exactly that name is added, a name no
/// earlier entry has. It succeeds on a writer where nothing failed, for a new
/// name that fits in a header, while the sizes fit (see [`sizes_fit`]).
#[verifier::external_body]
fn zip_start_file(w: &mut ArchiveWriter, name: &str, method: Compression) -> (res: Result<(), ZipError>)
    ensures
        res is Ok ==> writer_entries(*final(w)) == writer_entries(*old(w)).push(file_entry(name@))
            && !entry_names(writer_entries(*old(w))).contains(name@) && writing_file(*final(w))
            && writer_healthy(*final(w)) == writer_healthy(*old(w)),
        writer_healthy(*old(w)) && !entry_names(writer_entries(*old(w))).contains(name@)
            && name_fits(name@) && sizes_fit(writer_entries(*old(w)).push(file_entry(name@)))
            ==> res is Ok,
{
    let method = match method {
        Compression::Stored => CompressionMethod::Stored,
        Compression::Deflated => CompressionMethod::Deflated,
    };
    w.inner.start_file(name, SimpleFileOptions::default().compression_method(method))
}

/// The entries after bytes are appended to the last one's content.
pub open spec fn appended(es: Seq<EntryView>, data: Seq<u8>) -> Seq<EntryView> {
    es.update(
        es.len() - 1,
        EntryView {
            name: es.last().name,
            content: es.last().content + data,
            header_ok: es.last().header_ok,
            data_ok: es.last().data_ok,
        },
    )
}

/// Appends bytes to the entry last started (`Write::write_all` on the
/// writer). It succeeds on a writer where nothing failed and whose last entry
/// is a file, while the sizes fit (no file reaches the 4 GiB that needs
/// the large-file option).
#[verifier::external_body]
fn zip_write_all(w: &mut ArchiveWriter, data: &[u8]) -> (res: Result<(), std::io::Error>)
    requires
        writer_entries(*old(w)).len() > 0,
    ensures
        res is Ok ==> writer_entries(*final(w)) == appended(writer_entries(*old(w)), data@)
            && writing_file(*final(w)) == writing_file(*old(w)) && writer_healthy(*final(w))
            == writer_healthy(*old(w)),
        writer_healthy(*old(w)) && writing_file(*old(w)) && sizes_fit(
            appended(writer_entries(*old(w)), data@),
        ) ==> res is Ok,
{
    w.inner.write_all(data)
}

/// Finishes the archive and hands back its bytes (`ZipWriter::finish`). The
/// bytes open as an archive, and what they hold, read again, is what was
/// written: the same entries, in the same order, each readable. It succeeds on
/// a writer where nothing failed while the sizes fit; beyond 4 GiB and
/// 65535 entries it adds ZIP64 records by itself. The
/// bytes themselves (timestamps, compressed form) are not stated.
#[verifier::external_body]
fn zip_finish(w: ArchiveWriter) -> (res: Result<Vec<u8>, ZipError>)
    ensures
        res matches Ok(bytes) ==> zip_opens(bytes@) && zip_listing(bytes@) == writer_entries(w),
        writer_healthy(w) && sizes_fit(writer_entries(w)) ==> res is Ok,
{
    Ok(w.inner.finish()?.into_inner())
}

/// The entry that writing `e` records: directories under their name with a
/// trailing separator and no content, files under their name with their content.
pub open spec fn as_written(e: ArchiveEntryView) -> EntryView {
    if e.is_dir {
        dir_entry(e.name)
    } else {
        EntryView { name: e.name, content: e.content, header_ok: true, data_ok: true }
    }
}

/// Whether the zip writer takes the entries: their names (as recorded) are
/// pairwise distinct and fit in a header, and the sizes fit.
pub open spec fn archive_writable(es: Seq<EntryView>) -> bool {
    &&& entry_names(es).no_duplicates()
    &&& forall|i: int| 0 <= i < es.len() ==> name_fits(#[trigger] es[i].name)
    &&& sizes_fit(es)
}

proof fn lemma_written_size_prefix(es: Seq<EntryView>, k: int)
    requires
        0 <= k <= es.len(),
    ensures
        0 <= written_size(es.take(k)) <= written_size(es),
    decreases es.len() - k,
{
    if k < es.len() {
        assert(es.drop_last().take(k) =~= es.take(k));
        lemma_written_size_prefix(es.drop_last(), k);
    } else {
        assert(es.take(k) =~= es);
        lemma_written_size_nonneg(es);
    }
}

proof fn lemma_written_size_nonneg(es: Seq<EntryView>)
    ensures
        written_size(es) >= 0,
    decreases es.len(),
{
    if es.len() > 0 {
        lemma_written_size_nonneg(es.drop_last());
    }
}

proof fn lemma_writable_step(target: Seq<EntryView>, k: int)
    requires
        archive_writable(target),
        0 <= k < target.len(),
    ensures
        !entry_names(target.take(k)).contains(target[k].name),
        name_fits(target[k].name),
        sizes_fit(target.take(k + 1)),
        target.take(k + 1).drop_last() == target.take(k),
{
    assert(target.take(k + 1).drop_last() =~= target.take(k));
    lemma_written_size_prefix(target, k + 1);
    if entry_names(target.take(k)).contains(target[k].name) {
        let j = choose|j: int| 0 <= j < k && entry_names(target.take(k))[j] == target[k].name;
        assert(entry_names(target)[j] == entry_names(target)[k]);
    }
}

proof fn lemma_names_push(es: Seq<EntryView>, e: EntryView)
    requires
        entry_names(es).no_duplicates(),
        !entry_names(es).contains(e.name),
    ensures
        entry_names(es.push(e)).no_duplicates(),
{
    let n = entry_names(es.push(e));
    assert(n =~= entry_names(es).push(e.name));
    assert forall|i: int, j: int| 0 <= i < n.len() && 0 <= j < n.len() && i != j implies n[i]
        != n[j] by {
        if i == es.len() {
            assert(entry_names(es)[j] == n[j]);
        } else if j == es.len() {
            assert(entry_names(es)[i] == n[i]);
        }
    }
}

/// Writes the entries, in order, into a new ZIP archive: directories stored,
/// files deflated. What the resulting bytes hold is the written entries. It
/// succeeds whenever the zip writer takes the entries (distinct names that fit
/// in a header, each file under 3.5 GiB, all of it within memory), and
/// only for distinct names.
pub fn write_archive(entries: &Vec<ArchiveEntry>) -> (res: Result<Vec<u8>, ArchiveError>)
    ensures
        res matches Ok(bytes) ==> zip_opens(bytes@) && zip_listing(bytes@) == entry_views(
            entries@,
        ).map_values(|e: ArchiveEntryView| as_written(e)),
        res is Ok ==> entry_names(
            entry_views(entries@).map_values(|e: ArchiveEntryView| as_written(e)),
        ).no_duplicates(),
        archive_writable(entry_views(entries@).map_values(|e: ArchiveEntryView| as_written(e)))
            ==> res is Ok,
{
    let mut w = zip_writer_new();
    let ghost target = entry_views(entries@).map_values(|e: ArchiveEntryView| as_written(e));
    let mut i: usize = 0;
    assert(entry_names(target.take(0)).no_duplicates()) by {
        assert(entry_names(target.take(0)) =~= Seq::<Seq<char>>::empty());
    }
    while i < entries.len()
        invariant
            i <= entries@.len(),
            target == entry_views(entries@).map_values(|e: ArchiveEntryView| as_written(e)),
            writer_entries(w) == target.take(i as int),
            writer_healthy(w),
            entry_names(target.take(i as int)).no_duplicates(),
        decreases entries@.len() - i,
    {
        let e = &entries[i];
        let ghost k = i as int;
        assert(target[k] == as_written(entries@[k]@));
        proof {
            if archive_writable(target) {
                lemma_writable_step(target, k);
            }
            assert(target.take(k + 1) =~= target.take(k).push(target[k]));
            assert(target.take(k).push(file_entry(entries@[k]@.name)).drop_last() =~= target.take(
                k,
            ));
            assert(target.take(k + 1).drop_last() =~= target.take(k));
        }
        if e.is_dir {
            match zip_add_directory(&mut w, e.name.as_str()) {
                Ok(()) => {},
                Err(err) => return Err(ArchiveError::Zip(err)),
            }
        } else {
            match zip_start_file(&mut w, e.name.as_str(), Compression::Deflated) {
                Ok(()) => {},
                Err(err) => return Err(ArchiveError::Zip(err)),
            }
            assert(appended(writer_entries(w), e.content@) =~= target.take(k + 1));
            match zip_write_all(&mut w, e.content.as_slice()) {
                Ok(()) => {},
                Err(err) => return Err(ArchiveError::Io(err)),
            }
        }
        proof {
            lemma_names_push(target.take(k), target[k]);
            assert(writer_entries(w) =~= target.take(k + 1));
        }
        i = i + 1;
    }
    assert(target.take(i as int) =~= target);
    match zip_finish(w) {
        Ok(bytes) => Ok(bytes),
        Err(err) => Err(ArchiveError::Zip(err)),
    }
}

/// An entry whose directory flag agrees with its name and, if it is a
/// directory, has no content.
pub open spec fn entry_consistent(e: ArchiveEntryView) -> bool {
    e.is_dir == marks_dir(e.name) && (e.is_dir ==> e.content.len() == 0)
}

/// What is written is what is read back: if the bytes hold the entries that
/// [`write_archive`] recorded, [`read_archive`] can read every one of them and
/// finds exactly those entries again, provided each entry's directory flag
/// agrees with its name.
pub proof fn lemma_written_archive_reads_back(entries: Seq<ArchiveEntryView>, bytes: Seq<u8>)
    requires
        forall|i: int| 0 <= i < entries.len() ==> entry_consistent(#[trigger] entries[i]),
        zip_opens(bytes),
        zip_listing(bytes) == entries.map_values(|e: ArchiveEntryView| as_written(e)),
    ensures
        zip_readable(bytes),
        zip_listing(bytes).map_values(|e: EntryView| as_read(e)) == entries,
{
    let back = zip_listing(bytes).map_values(|e: EntryView| as_read(e));
    assert forall|i: int| 0 <= i < entries.len() implies back[i] == entries[i] by {
        let e = entries[i];
        assert(entry_consistent(e));
        if e.is_dir {
            assert(e.content =~= Seq::<u8>::empty());
        }
    }
    assert(back =~= entries);
}

} // verus!
