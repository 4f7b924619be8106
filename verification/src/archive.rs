//! The archive codec: a directory tree, given as a list of items with
//! relative paths, is serialized into one compressed archive, and an
//! archive is turned back into the writes that restore the tree. The
//! container format and the compression are the zip crate's; what the
//! archive holds, and that extraction never writes outside its root,
//! is specified and proved here.

use vstd::prelude::*;

use std::io::Cursor;

use vstd::utf8::valid_utf8;

use crate::PkgError;
use crate::paths::{check_safe_rel_path, safe_rel_path};

verus! {

/// One archive entry: a name (forward-slash separated, with a trailing
/// slash marking a directory) and the uncompressed content.
#[derive(Clone, Debug, PartialEq, Eq)]
pub struct ArchiveEntry {
    pub name: Vec<u8>,
    pub data: Vec<u8>,
}

/// The mathematical shape of an archive entry.
pub ghost struct EntryModel {
    pub name: Seq<u8>,
    pub data: Seq<u8>,
}

impl View for ArchiveEntry {
    type V = EntryModel;

    open spec fn view(&self) -> EntryModel {
        EntryModel { name: self.name@, data: self.data@ }
    }
}

/// The entry list as the specification sees it.
pub open spec fn entries_view(es: Seq<ArchiveEntry>) -> Seq<EntryModel> {
    es.map_values(|e: ArchiveEntry| e@)
}

/// One item of a directory walk: a path relative to the walked root
/// (empty for the root itself), whether it is a directory, and, for a
/// file, its content.
#[derive(Clone, Debug, PartialEq, Eq)]
pub struct FsItem {
    pub path: Vec<u8>,
    pub is_dir: bool,
    pub data: Vec<u8>,
}

/// The mathematical shape of a walk item.
pub ghost struct FsItemModel {
    pub path: Seq<u8>,
    pub is_dir: bool,
    pub data: Seq<u8>,
}

impl View for FsItem {
    type V = FsItemModel;

    open spec fn view(&self) -> FsItemModel {
        FsItemModel { path: self.path@, is_dir: self.is_dir, data: self.data@ }
    }
}

/// The item list as the specification sees it.
pub open spec fn items_view(items: Seq<FsItem>) -> Seq<FsItemModel> {
    items.map_values(|it: FsItem| it@)
}

/// Path separators normalized to the forward slash.
pub open spec fn normalize_seps(p: Seq<u8>) -> Seq<u8> {
    p.map_values(
        |c: u8|
            if c == 92 {
                47u8
            } else {
                c
            },
    )
}

/// The entry a walk item becomes: a directory gets a trailing slash and
/// no content, a file keeps its content.
pub open spec fn entry_of_item(it: FsItemModel) -> EntryModel {
    if it.is_dir {
        EntryModel { name: normalize_seps(it.path) + seq![47u8], data: Seq::empty() }
    } else {
        EntryModel { name: normalize_seps(it.path), data: it.data }
    }
}

/// The entries an item list becomes: one per item, in walk order, the
/// root itself (the empty path) skipped.
pub open spec fn entries_of(items: Seq<FsItemModel>) -> Seq<EntryModel>
    decreases items.len(),
{
    if items.len() == 0 {
        Seq::empty()
    } else if items[0].path.len() == 0 {
        entries_of(items.drop_first())
    } else {
        seq![entry_of_item(items[0])] + entries_of(items.drop_first())
    }
}

/// A walk item the writer accepts: its entry name is valid UTF-8 and
/// fits the format's two-byte name-length field, a file's name does not
/// masquerade as a directory's, and its content stays far enough under
/// the format's four-gigabyte size field that even the worst-case
/// compressed form fits.
pub open spec fn item_encodable(it: FsItemModel) -> bool {
    it.path.len() > 0 ==> {
        &&& valid_utf8(entry_of_item(it).name)
        &&& entry_of_item(it).name.len() <= 0xffff
        &&& entry_of_item(it).data.len() < 0x80000000
        &&& (!it.is_dir ==> entry_of_item(it).name[entry_of_item(it).name.len() - 1] != 47)
    }
}

/// A walk the writer accepts whole: every item is acceptable and no two
/// items (the root aside) share an entry name.
pub open spec fn items_encodable(items: Seq<FsItemModel>) -> bool {
    &&& forall|i: int| 0 <= i < items.len() ==> item_encodable(#[trigger] items[i])
    &&& forall|i: int, j: int|
        0 <= i < j < items.len() && items[i].path.len() > 0 && items[j].path.len() > 0
            ==> entry_of_item(items[i]).name != entry_of_item(items[j]).name
}

/// Every entry of the walked list comes from some non-root item.
proof fn lemma_entries_of_index(items: Seq<FsItemModel>, k: int)
    requires
        0 <= k < entries_of(items).len(),
    ensures
        exists|j: int|
            0 <= j < items.len() && items[j].path.len() > 0 && entries_of(items)[k]
                == entry_of_item(#[trigger] items[j]),
    decreases items.len(),
{
    let rest = items.drop_first();
    if items[0].path.len() == 0 {
        lemma_entries_of_index(rest, k);
        let j = choose|j: int|
            0 <= j < rest.len() && rest[j].path.len() > 0 && entries_of(rest)[k] == entry_of_item(
                #[trigger] rest[j],
            );
        assert(items[j + 1] == rest[j]);
        assert(entries_of(items)[k] == entry_of_item(items[j + 1]));
    } else if k == 0 {
        assert(entries_of(items)[0] == entry_of_item(items[0]));
    } else {
        lemma_entries_of_index(rest, k - 1);
        let j = choose|j: int|
            0 <= j < rest.len() && rest[j].path.len() > 0 && entries_of(rest)[k - 1]
                == entry_of_item(#[trigger] rest[j]);
        assert(items[j + 1] == rest[j]);
        assert(entries_of(items)[k] == (seq![entry_of_item(items[0])] + entries_of(rest))[k]);
        assert(entries_of(items)[k] == entry_of_item(items[j + 1]));
    }
}

/// An entry the writer can produce: a non-empty valid-UTF-8 name that
/// fits the format's two-byte name-length field, and content far enough
/// under the four-gigabyte size field that its compressed form fits.
pub open spec fn entry_encodable(e: EntryModel) -> bool {
    &&& e.name.len() > 0
    &&& e.name.len() <= 0xffff
    &&& valid_utf8(e.name)
    &&& e.data.len() < 0x80000000
}

/// An entry list the writer can produce whole: every entry producible
/// and no two entries sharing a name.
pub open spec fn entries_encodable(es: Seq<EntryModel>) -> bool {
    &&& forall|i: int| 0 <= i < es.len() ==> entry_encodable(#[trigger] es[i])
    &&& forall|i: int, j: int| 0 <= i < j < es.len() ==> es[i].name != es[j].name
}

/// A walk the writer accepts whole yields a producible entry list, so
/// the bytes `create_archive` returns for it fall under the reader's
/// guarantees: they decode and extract to exactly what was archived.
pub proof fn lemma_encodable_entries(items: Seq<FsItemModel>)
    requires
        items_encodable(items),
    ensures
        entries_encodable(entries_of(items)),
    decreases items.len(),
{
    if items.len() > 0 {
        let rest = items.drop_first();
        assert(items_encodable(rest)) by {
            assert forall|i: int| 0 <= i < rest.len() implies item_encodable(
                #[trigger] rest[i],
            ) by {
                assert(rest[i] == items[i + 1]);
                assert(item_encodable(items[i + 1]));
            }
            assert forall|i: int, j: int|
                0 <= i < j < rest.len() && rest[i].path.len() > 0 && rest[j].path.len()
                    > 0 implies entry_of_item(rest[i]).name != entry_of_item(rest[j]).name by {
                assert(rest[i] == items[i + 1] && rest[j] == items[j + 1]);
                assert(entry_of_item(items[i + 1]).name != entry_of_item(items[j + 1]).name);
            }
        }
        lemma_encodable_entries(rest);
        if items[0].path.len() == 0 {
            assert(entries_of(items) == entries_of(rest));
        } else {
            let e0 = entry_of_item(items[0]);
            let es = entries_of(items);
            assert(es == seq![e0] + entries_of(rest));
            assert(item_encodable(items[0]));
            assert(e0.name.len() > 0) by {
                assert(normalize_seps(items[0].path).len() == items[0].path.len());
            }
            assert(entry_encodable(e0));
            assert forall|i: int| 0 <= i < es.len() implies entry_encodable(#[trigger] es[i]) by {
                if i > 0 {
                    assert(es[i] == entries_of(rest)[i - 1]);
                    assert(entry_encodable(entries_of(rest)[i - 1]));
                }
            }
            assert forall|i: int, j: int| 0 <= i < j < es.len() implies es[i].name
                != es[j].name by {
                if i == 0 {
                    assert(es[j] == entries_of(rest)[j - 1]);
                    lemma_entries_of_index(rest, j - 1);
                    let q = choose|q: int|
                        0 <= q < rest.len() && rest[q].path.len() > 0 && entries_of(rest)[j - 1]
                            == entry_of_item(#[trigger] rest[q]);
                    assert(rest[q] == items[q + 1]);
                    assert(entry_of_item(items[0]).name != entry_of_item(items[q + 1]).name);
                } else {
                    assert(es[i] == entries_of(rest)[i - 1] && es[j] == entries_of(rest)[j - 1]);
                    assert(entries_of(rest)[i - 1].name != entries_of(rest)[j - 1].name);
                }
            }
        }
    } else {
        assert(entries_encodable(entries_of(items)));
    }
}

/// The archive bytes the zip writer produces for this entry list, with
/// one entry written after the other and fixed options: the timestamp
/// is a constant, the compression level is fixed, and the one
/// platform-dependent header byte is a constant of the running build.
/// The bytes record every name and every content in order, so they
/// determine the list.
pub uninterp spec fn zip_encoding(entries: Seq<EntryModel>) -> Seq<u8>;

/// Holds the zip writer while an archive is being produced; opaque to
/// the verifier, which sees it only through `writer_entries`.
#[verifier::external_body]
pub struct ArchiveWriter {
    inner: zip::ZipWriter<Cursor<Vec<u8>>>,
}

/// What the zip writer has been given so far.
pub uninterp spec fn writer_entries(w: ArchiveWriter) -> Seq<EntryModel>;

/// What the opened zip archive holds.
pub uninterp spec fn archive_entries(a: zip::ZipArchive<Cursor<Vec<u8>>>) -> Seq<EntryModel>;

/// Whether the opened archive is one that the zip writer produced; the
/// crate reads every entry of its own output back.
pub uninterp spec fn archive_from_writer(a: zip::ZipArchive<Cursor<Vec<u8>>>) -> bool;

#[verifier::external_type_specification]
#[verifier::external_body]
#[verifier::reject_recursive_types(T)]
pub struct ExCursor<T>(Cursor<T>);

#[verifier::external_type_specification]
#[verifier::external_body]
#[verifier::reject_recursive_types(R)]
pub struct ExZipArchive<R>(zip::ZipArchive<R>);

/// Relies on zip::ZipWriter::new: a fresh writer over an in-memory
/// buffer holds no entries.
#[verifier::external_body]
fn writer_new() -> (w: ArchiveWriter)
    ensures
        writer_entries(w) == Seq::<EntryModel>::empty(),
{
    ArchiveWriter { inner: zip::ZipWriter::new(Cursor::new(Vec::new())) }
}

/// Relies on zip::ZipWriter::start_file and std::io::Write::write_all:
/// on success they append one file entry with this name and content.
/// The name may not end with a slash: the trailing slash is what tells a
/// directory entry from a file entry, so with this rule the entry list
/// determines what was written, and the archive bytes are a function of
/// the list alone. The call succeeds whenever the name is valid UTF-8,
/// fits the format's two-byte name-length field and is not yet taken,
/// and this and every earlier entry's content stays under two
/// gigabytes: over an in-memory buffer nothing else can fail. (The
/// writer refuses an over-long name when sizing the header, refuses a
/// duplicate name outright, and an entry's size fields are two-byte and
/// four-byte; deflate adds at most a fraction of a percent, so content
/// under two gigabytes can never overflow the compressed-size field,
/// which an earlier oversized entry would make the next call report.)
#[verifier::external_body]
fn writer_add_file(w: &mut ArchiveWriter, name: &Vec<u8>, data: &Vec<u8>) -> (r:
    Result<(), PkgError>)
    requires
        name@.len() > 0,
        name@[name@.len() - 1] != 47,
    ensures
        r matches Ok(()) ==> writer_entries(*final(w)) == writer_entries(*old(w)).push(
            EntryModel { name: name@, data: data@ },
        ),
        r matches Err(e) ==> e == PkgError::IoError,
        (valid_utf8(name@) && name@.len() <= 0xffff && data@.len() < 0x80000000 && (forall|k: int|
            0 <= k < writer_entries(*old(w)).len() ==> (#[trigger] writer_entries(*old(w))[k]).name
                != name@ && writer_entries(*old(w))[k].data.len() < 0x80000000)) ==> r is Ok,
{
    let s = match String::from_utf8(name.clone()) {
        Ok(s) => s,
        Err(_) => {
            return Err(PkgError::IoError);
        },
    };
    let options: zip::write::SimpleFileOptions = zip::write::FileOptions::default()
        .compression_method(zip::CompressionMethod::Deflated);
    if w.inner.start_file(s, options).is_err() {
        return Err(PkgError::IoError);
    }
    match std::io::Write::write_all(&mut w.inner, data.as_slice()) {
        Ok(()) => Ok(()),
        Err(_) => Err(PkgError::IoError),
    }
}

/// Relies on zip::ZipWriter::add_directory: on success it appends one
/// directory entry with this name, which already carries its trailing
/// slash, and no content. The call succeeds whenever the name is valid
/// UTF-8, fits the two-byte name-length field and is not yet taken,
/// and every earlier entry's content stays under two gigabytes (the
/// same limits as for a file entry; finishing the previous entry
/// happens at the start of this call).
#[verifier::external_body]
fn writer_add_dir(w: &mut ArchiveWriter, name: &Vec<u8>) -> (r: Result<
    (),
    PkgError,
>)
    requires
        name@.len() > 0,
        name@[name@.len() - 1] == 47,
    ensures
        r matches Ok(()) ==> writer_entries(*final(w)) == writer_entries(*old(w)).push(
            EntryModel { name: name@, data: Seq::empty() },
        ),
        r matches Err(e) ==> e == PkgError::IoError,
        (valid_utf8(name@) && name@.len() <= 0xffff && (forall|k: int|
            0 <= k < writer_entries(*old(w)).len() ==> (#[trigger] writer_entries(*old(w))[k]).name
                != name@ && writer_entries(*old(w))[k].data.len() < 0x80000000)) ==> r is Ok,
{
    let s = match String::from_utf8(name.clone()) {
        Ok(s) => s,
        Err(_) => {
            return Err(PkgError::IoError);
        },
    };
    let options: zip::write::SimpleFileOptions = zip::write::FileOptions::default();
    match w.inner.add_directory(s, options) {
        Ok(()) => Ok(()),
        Err(_) => Err(PkgError::IoError),
    }
}

/// Relies on zip::ZipWriter::finish: the finished buffer holds the
/// archive bytes for exactly the entries given to the writer. The call
/// succeeds whenever every entry's content stays under two gigabytes:
/// over an in-memory buffer neither writes nor seeks can fail, the
/// writer is never encrypted or closed before this, a refused entry is
/// aborted and rewritten over, and only an entry whose compressed form
/// overflows the four-byte size field — impossible below two gigabytes,
/// deflate adding at most a fraction of a percent — can make finishing
/// the last entry fail.
#[verifier::external_body]
fn writer_finish(w: ArchiveWriter) -> (r: Result<Vec<u8>, PkgError>)
    ensures
        (forall|k: int|
            0 <= k < writer_entries(w).len() ==> (#[trigger] writer_entries(w)[k]).data.len()
                < 0x80000000) ==> r is Ok,
        r matches Ok(bytes) ==> bytes@ == zip_encoding(writer_entries(w)),
        r matches Err(e) ==> e == PkgError::IoError,
{
    match w.inner.finish() {
        Ok(cursor) => Ok(cursor.into_inner()),
        Err(_) => Err(PkgError::IoError),
    }
}

/// Relies on zip::ZipArchive::new: bytes that the writer produced for a
/// producible entry list open successfully and hold exactly the entries
/// that were written (the bytes record every name and content in
/// order); other byte streams open only if they parse as an archive.
#[verifier::external_body]
fn archive_open(bytes: &Vec<u8>) -> (r: Result<zip::ZipArchive<Cursor<Vec<u8>>>, PkgError>)
    ensures
        (exists|es: Seq<EntryModel>| entries_encodable(es) && bytes@ == zip_encoding(es)) ==> r
            is Ok,
        r matches Ok(a) ==> (forall|es: Seq<EntryModel>|
            entries_encodable(es) && bytes@ == zip_encoding(es) ==> archive_entries(a) == es
                && archive_from_writer(a)),
        r matches Err(e) ==> e == PkgError::CorruptArchive,
{
    match zip::ZipArchive::new(Cursor::new(bytes.clone())) {
        Ok(a) => Ok(a),
        Err(_) => Err(PkgError::CorruptArchive),
    }
}

/// Relies on zip::ZipArchive::len: the number of entries the archive
/// holds.
#[verifier::external_body]
fn archive_len(a: &zip::ZipArchive<Cursor<Vec<u8>>>) -> (n: usize)
    ensures
        n == archive_entries(*a).len(),
{
    a.len()
}

/// Relies on zip::ZipArchive::by_index, zip::read::ZipFile::name and
/// std::io::Read::read_to_end: entry `i` read with its name and its
/// decompressed content; on the writer's own output the read succeeds.
#[verifier::external_body]
fn archive_entry_at(a: &mut zip::ZipArchive<Cursor<Vec<u8>>>, i: usize) -> (r: Result<
    ArchiveEntry,
    PkgError,
>)
    requires
        i < archive_entries(*old(a)).len(),
    ensures
        archive_entries(*final(a)) == archive_entries(*old(a)),
        archive_from_writer(*final(a)) == archive_from_writer(*old(a)),
        r matches Ok(e) ==> e@ == archive_entries(*old(a))[i as int],
        archive_from_writer(*old(a)) ==> r is Ok,
        r matches Err(e) ==> e == PkgError::CorruptArchive,
{
    let mut f = match a.by_index(i) {
        Ok(f) => f,
        Err(_) => {
            return Err(PkgError::CorruptArchive);
        },
    };
    let name = f.name().to_owned().into_bytes();
    let mut data: Vec<u8> = Vec::new();
    if std::io::Read::read_to_end(&mut f, &mut data).is_err() {
        return Err(PkgError::CorruptArchive);
    }
    Ok(ArchiveEntry { name, data })
}

/// The path of the walk item, separators normalized, a directory given
/// its trailing slash.
fn item_entry_name(path: &Vec<u8>, is_dir: bool) -> (r: Vec<u8>)
    ensures
        is_dir ==> r@ == normalize_seps(path@) + seq![47u8],
        !is_dir ==> r@ == normalize_seps(path@),
{
    let mut out: Vec<u8> = Vec::new();
    let n = path.len();
    for i in 0..n
        invariant
            n == path@.len(),
            out@ == normalize_seps(path@).take(i as int),
    {
        let c = path[i];
        if c == 92 {
            out.push(47);
        } else {
            out.push(c);
        }
        proof {
            assert(out@ =~= normalize_seps(path@).take(i as int + 1));
        }
    }
    proof {
        assert(normalize_seps(path@).take(n as int) =~= normalize_seps(path@));
    }
    if is_dir {
        out.push(47);
    }
    out
}

/// Appending an item to the walk appends its entry (or nothing, for the
/// root).
proof fn lemma_entries_of_push(items: Seq<FsItemModel>, it: FsItemModel)
    ensures
        it.path.len() == 0 ==> entries_of(items.push(it)) == entries_of(items),
        it.path.len() > 0 ==> entries_of(items.push(it)) == entries_of(items).push(
            entry_of_item(it),
        ),
    decreases items.len(),
{
    let p = items.push(it);
    if items.len() == 0 {
        assert(p[0] == it);
        assert(p.drop_first() =~= Seq::<FsItemModel>::empty());
        assert(entries_of(Seq::<FsItemModel>::empty()) == Seq::<EntryModel>::empty());
        assert(entries_of(items) == Seq::<EntryModel>::empty());
        if it.path.len() == 0 {
            assert(entries_of(p) == Seq::<EntryModel>::empty());
        } else {
            assert(entries_of(p) == seq![entry_of_item(it)] + Seq::<EntryModel>::empty());
            assert(seq![entry_of_item(it)] + Seq::<EntryModel>::empty() =~= entries_of(
                items,
            ).push(entry_of_item(it)));
        }
    } else {
        lemma_entries_of_push(items.drop_first(), it);
        assert(p.drop_first() =~= items.drop_first().push(it));
        assert(entries_of(p.drop_first()) == entries_of(items.drop_first().push(it)));
        assert(p[0] == items[0]);
        if it.path.len() == 0 {
            assert(entries_of(p.drop_first()) == entries_of(items.drop_first()));
            if items[0].path.len() == 0 {
                assert(entries_of(p) == entries_of(p.drop_first()));
                assert(entries_of(items) == entries_of(items.drop_first()));
            } else {
                assert(entries_of(p) == seq![entry_of_item(items[0])] + entries_of(
                    p.drop_first(),
                ));
                assert(entries_of(items) == seq![entry_of_item(items[0])] + entries_of(
                    items.drop_first(),
                ));
            }
        } else {
            assert(entries_of(p.drop_first()) == entries_of(items.drop_first()).push(
                entry_of_item(it),
            ));
            if items[0].path.len() == 0 {
                assert(entries_of(p) == entries_of(p.drop_first()));
                assert(entries_of(items) == entries_of(items.drop_first()));
            } else {
                assert(entries_of(p) == seq![entry_of_item(items[0])] + entries_of(
                    p.drop_first(),
                ));
                assert(entries_of(items) == seq![entry_of_item(items[0])] + entries_of(
                    items.drop_first(),
                ));
                assert(seq![entry_of_item(items[0])] + entries_of(items.drop_first()).push(
                    entry_of_item(it),
                ) =~= (seq![entry_of_item(items[0])] + entries_of(items.drop_first())).push(
                    entry_of_item(it),
                ));
            }
        }
    }
}

/// From a refused entry, the walk itself breaks the acceptance rule:
/// the offending item is unacceptable, or an earlier item already took
/// its entry name, or an earlier item's content is oversized.
proof fn lemma_refused_entry(
    items: Seq<FsItemModel>,
    i: int,
    dupe_in_prefix: bool,
    oversized_in_prefix: bool,
)
    requires
        0 <= i < items.len(),
        items[i].path.len() > 0,
        !item_encodable(items[i]) || dupe_in_prefix || oversized_in_prefix,
        dupe_in_prefix ==> exists|k: int|
            0 <= k < entries_of(items.take(i)).len() && (#[trigger] entries_of(
                items.take(i),
            )[k]).name == entry_of_item(items[i]).name,
        oversized_in_prefix ==> exists|k: int|
            0 <= k < entries_of(items.take(i)).len() && (#[trigger] entries_of(
                items.take(i),
            )[k]).data.len() >= 0x80000000,
    ensures
        !items_encodable(items),
{
    if !item_encodable(items[i]) {
        assert(!items_encodable(items));
    } else if dupe_in_prefix {
        let pre = items.take(i);
        let k = choose|k: int|
            0 <= k < entries_of(pre).len() && (#[trigger] entries_of(pre)[k]).name
                == entry_of_item(items[i]).name;
        lemma_entries_of_index(pre, k);
        let j = choose|j: int|
            0 <= j < pre.len() && pre[j].path.len() > 0 && entries_of(pre)[k] == entry_of_item(
                #[trigger] pre[j],
            );
        assert(pre[j] == items[j]);
        assert(entry_of_item(items[j]).name == entry_of_item(items[i]).name);
        assert(items[j].path.len() > 0 && items[i].path.len() > 0 && j < i);
        assert(!items_encodable(items));
    } else {
        let pre = items.take(i);
        let k = choose|k: int|
            0 <= k < entries_of(pre).len() && (#[trigger] entries_of(pre)[k]).data.len()
                >= 0x80000000;
        lemma_entries_of_index(pre, k);
        let j = choose|j: int|
            0 <= j < pre.len() && pre[j].path.len() > 0 && entries_of(pre)[k] == entry_of_item(
                #[trigger] pre[j],
            );
        assert(pre[j] == items[j]);
        assert(entry_of_item(items[j]).data.len() >= 0x80000000);
        assert(!item_encodable(items[j]));
        assert(!items_encodable(items));
    }
}

/// Serializes a directory tree, given as a walk over its items, into
/// one compressed archive: one entry per item in walk order, the root
/// itself skipped, every file's content kept byte for byte. A walk the
/// writer accepts whole (valid UTF-8 entry names that fit the format's
/// name-length field, no duplicate names, file names without a trailing
/// slash, contents under two gigabytes each) is always archived.
pub fn create_archive(items: &Vec<FsItem>) -> (r: Result<Vec<u8>, PkgError>)
    ensures
        r matches Ok(bytes) ==> bytes@ == zip_encoding(entries_of(items_view(items@))),
        r matches Err(e) ==> e == PkgError::IoError,
        items_encodable(items_view(items@)) ==> r is Ok,
{
    let mut w = writer_new();
    let n = items.len();
    proof {
        assert(entries_of(items_view(items@).take(0)) =~= Seq::<EntryModel>::empty());
    }
    for i in 0..n
        invariant
            n == items@.len(),
            writer_entries(w) == entries_of(items_view(items@).take(i as int)),
    {
        let ghost itv = items_view(items@);
        let ghost pre = itv.take(i as int);
        let ghost it = items@[i as int]@;
        proof {
            assert(it == itv[i as int]);
            assert(pre.push(it) =~= itv.take(i as int + 1));
            lemma_entries_of_push(pre, it);
        }
        if items[i].path.len() == 0 {
        } else {
            let name = item_entry_name(&items[i].path, items[i].is_dir);
            proof {
                assert(name@ == entry_of_item(it).name);
            }
            if items[i].is_dir {
                match writer_add_dir(&mut w, &name) {
                    Ok(()) => {},
                    Err(e) => {
                        proof {
                            if valid_utf8(name@) && name@.len() <= 0xffff {
                                assert(exists|k: int|
                                    0 <= k < entries_of(pre).len() && ((#[trigger] entries_of(
                                        pre,
                                    )[k]).name == entry_of_item(it).name || entries_of(
                                        pre,
                                    )[k].data.len() >= 0x80000000));
                                let k = choose|k: int|
                                    0 <= k < entries_of(pre).len() && ((#[trigger] entries_of(
                                        pre,
                                    )[k]).name == entry_of_item(it).name || entries_of(
                                        pre,
                                    )[k].data.len() >= 0x80000000);
                                if entries_of(pre)[k].name == entry_of_item(it).name {
                                    lemma_refused_entry(itv, i as int, true, false);
                                } else {
                                    lemma_refused_entry(itv, i as int, false, true);
                                }
                            } else {
                                assert(!item_encodable(itv[i as int]));
                                lemma_refused_entry(itv, i as int, false, false);
                            }
                        }
                        return Err(e);
                    },
                }
            } else {
                if name[name.len() - 1] == 47 {
                    proof {
                        assert(!item_encodable(itv[i as int]));
                        lemma_refused_entry(itv, i as int, false, false);
                    }
                    return Err(PkgError::IoError);
                }
                match writer_add_file(&mut w, &name, &items[i].data) {
                    Ok(()) => {},
                    Err(e) => {
                        proof {
                            if valid_utf8(name@) && name@.len() <= 0xffff && it.data.len()
                                < 0x80000000 {
                                assert(exists|k: int|
                                    0 <= k < entries_of(pre).len() && ((#[trigger] entries_of(
                                        pre,
                                    )[k]).name == entry_of_item(it).name || entries_of(
                                        pre,
                                    )[k].data.len() >= 0x80000000));
                                let k = choose|k: int|
                                    0 <= k < entries_of(pre).len() && ((#[trigger] entries_of(
                                        pre,
                                    )[k]).name == entry_of_item(it).name || entries_of(
                                        pre,
                                    )[k].data.len() >= 0x80000000);
                                if entries_of(pre)[k].name == entry_of_item(it).name {
                                    lemma_refused_entry(itv, i as int, true, false);
                                } else {
                                    lemma_refused_entry(itv, i as int, false, true);
                                }
                            } else {
                                assert(!item_encodable(itv[i as int]));
                                lemma_refused_entry(itv, i as int, false, false);
                            }
                        }
                        return Err(e);
                    },
                }
            }
            proof {
                assert(writer_entries(w) == entries_of(pre).push(entry_of_item(it)));
            }
        }
    }
    proof {
        assert(items_view(items@).take(n as int) =~= items_view(items@));
    }
    match writer_finish(w) {
        Ok(bytes) => Ok(bytes),
        Err(e) => {
            proof {
                let ghost itv = items_view(items@);
                assert(exists|k: int|
                    0 <= k < entries_of(itv).len() && (#[trigger] entries_of(itv)[k]).data.len()
                        >= 0x80000000);
                let k = choose|k: int|
                    0 <= k < entries_of(itv).len() && (#[trigger] entries_of(itv)[k]).data.len()
                        >= 0x80000000;
                lemma_entries_of_index(itv, k);
                let j = choose|j: int|
                    0 <= j < itv.len() && itv[j].path.len() > 0 && entries_of(itv)[k]
                        == entry_of_item(#[trigger] itv[j]);
                assert(entry_of_item(itv[j]).data.len() >= 0x80000000);
                assert(!item_encodable(itv[j]));
                assert(!items_encodable(itv));
            }
            Err(e)
        },
    }
}

/// Turns archive bytes back into the entry list they hold. Bytes that
/// the writer produced for a producible entry list decode to exactly
/// the entries that were written; bytes that do not parse as an archive
/// fail as corrupt.
pub fn decode_archive(bytes: &Vec<u8>) -> (r: Result<Vec<ArchiveEntry>, PkgError>)
    ensures
        (exists|es: Seq<EntryModel>| entries_encodable(es) && bytes@ == zip_encoding(es)) ==> r
            is Ok,
        r matches Ok(v) ==> (forall|es: Seq<EntryModel>|
            entries_encodable(es) && bytes@ == zip_encoding(es) ==> entries_view(v@) == es),
        r matches Err(e) ==> e == PkgError::CorruptArchive,
{
    let mut a = match archive_open(bytes) {
        Ok(a) => a,
        Err(e) => {
            return Err(e);
        },
    };
    let ghost initial = archive_entries(a);
    let ghost fw = archive_from_writer(a);
    let n = archive_len(&a);
    let mut out: Vec<ArchiveEntry> = Vec::new();
    proof {
        assert(entries_view(out@) =~= initial.take(0));
    }
    for i in 0..n
        invariant
            n == initial.len(),
            archive_entries(a) == initial,
            archive_from_writer(a) == fw,
            entries_view(out@) == initial.take(i as int),
            out@.len() == i,
            forall|es: Seq<EntryModel>|
                entries_encodable(es) && bytes@ == zip_encoding(es) ==> es == initial && fw,
    {
        let ghost prev = out@;
        match archive_entry_at(&mut a, i) {
            Ok(e) => {
                out.push(e);
                proof {
                    assert(out@ == prev.push(e));
                    assert(e@ == initial[i as int]);
                    assert forall|k: int| 0 <= k < out@.len() implies entries_view(out@)[k]
                        == initial.take(i as int + 1)[k] by {
                        assert(entries_view(out@)[k] == out@[k]@);
                        assert(initial.take(i as int + 1)[k] == initial[k]);
                        if k < prev.len() {
                            assert(out@[k] == prev[k]);
                            assert(entries_view(prev)[k] == prev[k]@);
                            assert(entries_view(prev)[k] == initial.take(i as int)[k]);
                            assert(initial.take(i as int)[k] == initial[k]);
                        } else {
                            assert(k == i as int);
                            assert(out@[k] == e);
                        }
                    }
                    assert(entries_view(out@) =~= initial.take(i as int + 1));
                }
            },
            Err(e) => {
                proof {
                    assert(!fw);
                    assert forall|es: Seq<EntryModel>| !(entries_encodable(es) && bytes@
                        == zip_encoding(es)) by {
                        if entries_encodable(es) && bytes@ == zip_encoding(es) {
                            assert(fw);
                        }
                    }
                }
                return Err(e);
            },
        }
    }
    proof {
        assert(initial.take(n as int) =~= initial);
    }
    Ok(out)
}

/// One step of restoring a tree: make a directory, or write a file with
/// the given content, at a path relative to the extraction root.
#[derive(Clone, Debug, PartialEq, Eq)]
pub enum ExtractAction {
    MakeDir { path: Vec<u8> },
    WriteFile { path: Vec<u8>, data: Vec<u8> },
}

/// The mathematical shape of an extraction step.
pub ghost enum ActionModel {
    MakeDir { path: Seq<u8> },
    WriteFile { path: Seq<u8>, data: Seq<u8> },
}

impl View for ExtractAction {
    type V = ActionModel;

    open spec fn view(&self) -> ActionModel {
        match self {
            ExtractAction::MakeDir { path } => ActionModel::MakeDir { path: path@ },
            ExtractAction::WriteFile { path, data } => ActionModel::WriteFile {
                path: path@,
                data: data@,
            },
        }
    }
}

/// The action list as the specification sees it.
pub open spec fn actions_view(acts: Seq<ExtractAction>) -> Seq<ActionModel> {
    acts.map_values(|a: ExtractAction| a@)
}

/// The path an action touches.
pub open spec fn action_path(a: ActionModel) -> Seq<u8> {
    match a {
        ActionModel::MakeDir { path } => path,
        ActionModel::WriteFile { path, data } => path,
    }
}

/// A trailing slash marks a directory entry.
pub open spec fn entry_is_dir(e: EntryModel) -> bool {
    e.name.len() > 0 && e.name[e.name.len() - 1] == 47
}

/// The entry's path, the directory marker taken off, is safe to join
/// under the extraction root.
pub open spec fn entry_safe(e: EntryModel) -> bool {
    if entry_is_dir(e) {
        safe_rel_path(e.name.drop_last())
    } else {
        safe_rel_path(e.name)
    }
}

/// Every entry of the archive is safe to extract.
pub open spec fn all_safe(entries: Seq<EntryModel>) -> bool {
    forall|i: int| 0 <= i < entries.len() ==> entry_safe(#[trigger] entries[i])
}

/// The step that restores one entry.
pub open spec fn action_of(e: EntryModel) -> ActionModel {
    if entry_is_dir(e) {
        ActionModel::MakeDir { path: e.name.drop_last() }
    } else {
        ActionModel::WriteFile { path: e.name, data: e.data }
    }
}

/// The steps that restore the whole entry list, in order.
pub open spec fn plan_of(entries: Seq<EntryModel>) -> Seq<ActionModel> {
    entries.map_values(|e: EntryModel| action_of(e))
}

/// What extracting an entry list does: the restoring steps when every
/// entry is safe, and a refusal when any entry would escape the root.
pub open spec fn extraction_of(entries: Seq<EntryModel>) -> Option<Seq<ActionModel>> {
    if all_safe(entries) {
        Some(plan_of(entries))
    } else {
        None
    }
}

/// The first `to` bytes of `v`.
fn prefix_bytes(v: &Vec<u8>, to: usize) -> (r: Vec<u8>)
    requires
        to <= v@.len(),
    ensures
        r@ == v@.take(to as int),
{
    let mut out: Vec<u8> = Vec::new();
    for i in 0..to
        invariant
            to <= v@.len(),
            out@ == v@.take(to as int).take(i as int),
    {
        out.push(v[i]);
        proof {
            assert(v@.take(to as int).take(i as int).push(v@[i as int]) =~= v@.take(
                to as int,
            ).take(i as int + 1));
        }
    }
    proof {
        assert(v@.take(to as int).take(to as int) =~= v@.take(to as int));
    }
    out
}

/// All of the bytes of `v`.
pub fn copy_bytes(v: &Vec<u8>) -> (r: Vec<u8>)
    ensures
        r@ == v@,
{
    let n = v.len();
    let r = prefix_bytes(v, n);
    proof {
        assert(v@.take(n as int) =~= v@);
    }
    r
}

/// Turns the decoded entries into the steps that restore the tree,
/// refusing the whole archive if any entry's path would resolve outside
/// the extraction root.
pub fn plan_extraction(entries: &Vec<ArchiveEntry>) -> (r: Result<Vec<ExtractAction>, PkgError>)
    ensures
        r matches Ok(acts) ==> extraction_of(entries_view(entries@)) == Some(actions_view(acts@)),
        r matches Err(e) ==> e == PkgError::PathTraversal && extraction_of(
            entries_view(entries@),
        ) is None,
{
    let n = entries.len();
    let mut acts: Vec<ExtractAction> = Vec::new();
    proof {
        assert(actions_view(acts@) =~= plan_of(entries_view(entries@).take(0)));
    }
    for i in 0..n
        invariant
            n == entries@.len(),
            acts@.len() == i,
            actions_view(acts@) == plan_of(entries_view(entries@).take(i as int)),
            forall|k: int| 0 <= k < i ==> entry_safe(#[trigger] entries_view(entries@)[k]),
    {
        let ghost em = entries_view(entries@)[i as int];
        let name_len = entries[i].name.len();
        let is_dir = name_len > 0 && entries[i].name[name_len - 1] == 47;
        proof {
            assert(em == entries@[i as int]@);
            assert(is_dir == entry_is_dir(em));
        }
        let act: ExtractAction = if is_dir {
            let stem = prefix_bytes(&entries[i].name, name_len - 1);
            proof {
                assert(stem@ =~= em.name.drop_last());
            }
            if !check_safe_rel_path(&stem) {
                proof {
                    assert(!entry_safe(em));
                    assert(!all_safe(entries_view(entries@)));
                }
                return Err(PkgError::PathTraversal);
            }
            ExtractAction::MakeDir { path: stem }
        } else {
            let name = copy_bytes(&entries[i].name);
            if !check_safe_rel_path(&name) {
                proof {
                    assert(!entry_safe(em));
                    assert(!all_safe(entries_view(entries@)));
                }
                return Err(PkgError::PathTraversal);
            }
            let data = copy_bytes(&entries[i].data);
            ExtractAction::WriteFile { path: name, data }
        };
        proof {
            assert(act@ == action_of(em));
            assert(entry_safe(em));
        }
        acts.push(act);
        proof {
            let ghost evs = entries_view(entries@);
            assert forall|k: int| 0 <= k < acts@.len() implies actions_view(acts@)[k] == plan_of(
                evs.take(i as int + 1),
            )[k] by {
                assert(actions_view(acts@)[k] == acts@[k]@);
                assert(plan_of(evs.take(i as int + 1))[k] == action_of(evs[k]));
                if k < i {
                    assert(actions_view(acts@)[k] == plan_of(evs.take(i as int))[k]);
                }
            }
            assert(actions_view(acts@) =~= plan_of(evs.take(i as int + 1)));
        }
    }
    proof {
        assert(entries_view(entries@).take(n as int) =~= entries_view(entries@));
        assert(all_safe(entries_view(entries@)));
    }
    Ok(acts)
}

/// Extracts archive bytes: decodes the entries and plans the restoring
/// steps, refusing a corrupt byte stream and any entry whose path would
/// resolve outside the extraction root. On bytes that `create_archive`
/// produced for safe entries, the steps restore exactly what was
/// archived.
pub fn extract_archive(bytes: &Vec<u8>) -> (r: Result<Vec<ExtractAction>, PkgError>)
    ensures
        r matches Err(e) ==> e == PkgError::CorruptArchive || e == PkgError::PathTraversal,
        forall|es: Seq<EntryModel>|
            entries_encodable(es) && bytes@ == zip_encoding(es) ==> (match extraction_of(es) {
                Some(p) => r matches Ok(acts) && actions_view(acts@) == p,
                None => r matches Err(e) && e == PkgError::PathTraversal,
            }),
{
    let entries = match decode_archive(bytes) {
        Ok(v) => v,
        Err(e) => {
            return Err(e);
        },
    };
    match plan_extraction(&entries) {
        Ok(acts) => {
            proof {
                assert forall|es: Seq<EntryModel>|
                    entries_encodable(es) && bytes@ == zip_encoding(es) implies match
                    extraction_of(es) {
                    Some(p) => actions_view(acts@) == p,
                    None => false,
                } by {
                    assert(entries_view(entries@) == es);
                }
            }
            Ok(acts)
        },
        Err(e) => {
            proof {
                assert forall|es: Seq<EntryModel>|
                    entries_encodable(es) && bytes@ == zip_encoding(es) implies extraction_of(
                    es,
                ) is None by {
                    assert(entries_view(entries@) == es);
                }
            }
            Err(e)
        },
    }
}

/// An archive holding an entry whose path would resolve outside the
/// extraction root is refused whole: extraction plans no step at all,
/// so nothing is written outside (or even inside) the target.
pub proof fn lemma_extraction_rejects_traversal(entries: Seq<EntryModel>)
    requires
        exists|i: int| 0 <= i < entries.len() && !entry_safe(#[trigger] entries[i]),
    ensures
        extraction_of(entries) is None,
{
}

/// Every step of an accepted extraction plan touches a safe relative
/// path: joined under the extraction root, it names something below
/// the root.
pub proof fn lemma_extraction_writes_stay_inside(entries: Seq<EntryModel>)
    ensures
        extraction_of(entries) matches Some(acts) ==> forall|i: int|
            0 <= i < acts.len() ==> safe_rel_path(action_path(#[trigger] acts[i])),
{
    if all_safe(entries) {
        let acts = plan_of(entries);
        assert forall|i: int| 0 <= i < acts.len() implies safe_rel_path(
            action_path(#[trigger] acts[i]),
        ) by {
            assert(acts[i] == action_of(entries[i]));
            assert(entry_safe(entries[i]));
        }
    }
}

/// A walk item the round trip speaks of: a path already in normal form
/// (no backslash), safe to recreate, named non-trivially for files, and
/// carrying content only for files.
pub open spec fn item_wf(it: FsItemModel) -> bool {
    &&& forall|k: int| 0 <= k < it.path.len() ==> it.path[k] != 92
    &&& (it.path.len() > 0 ==> safe_rel_path(it.path))
    &&& (!it.is_dir ==> it.path.len() > 0)
    &&& (it.is_dir ==> it.data.len() == 0)
}

/// The steps that recreate the walked tree itself: one directory made,
/// or one file written back with its exact content, per item, the root
/// skipped.
pub open spec fn restore_of(items: Seq<FsItemModel>) -> Seq<ActionModel>
    decreases items.len(),
{
    if items.len() == 0 {
        Seq::empty()
    } else if items[0].path.len() == 0 {
        restore_of(items.drop_first())
    } else if items[0].is_dir {
        seq![ActionModel::MakeDir { path: items[0].path }] + restore_of(items.drop_first())
    } else {
        seq![ActionModel::WriteFile { path: items[0].path, data: items[0].data }] + restore_of(
            items.drop_first(),
        )
    }
}

/// Paths already in normal form are left unchanged.
proof fn lemma_normalize_id(p: Seq<u8>)
    requires
        forall|k: int| 0 <= k < p.len() ==> p[k] != 92,
    ensures
        normalize_seps(p) == p,
{
    assert(normalize_seps(p) =~= p);
}

/// The round trip: archiving a tree of well-formed items and extracting
/// the archive is accepted and restores exactly the tree — every file
/// with byte-identical content at its relative path, every directory
/// recreated, in walk order. Together with the contracts of
/// `create_archive` and `extract_archive`, extraction of a created
/// archive yields exactly these steps.
pub proof fn lemma_archive_round_trip(items: Seq<FsItemModel>)
    requires
        forall|i: int| 0 <= i < items.len() ==> item_wf(#[trigger] items[i]),
    ensures
        extraction_of(entries_of(items)) == Some(restore_of(items)),
    decreases items.len(),
{
    if items.len() == 0 {
        assert(all_safe(entries_of(items)));
        assert(plan_of(entries_of(items)) =~= restore_of(items));
    } else {
        let rest = items.drop_first();
        assert forall|i: int| 0 <= i < rest.len() implies item_wf(#[trigger] rest[i]) by {
            assert(rest[i] == items[i + 1]);
        }
        lemma_archive_round_trip(rest);
        assert(all_safe(entries_of(rest)));
        let it = items[0];
        assert(item_wf(it));
        if it.path.len() == 0 {
            assert(entries_of(items) == entries_of(rest));
            assert(restore_of(items) == restore_of(rest));
        } else {
            lemma_normalize_id(it.path);
            let e = entry_of_item(it);
            if it.is_dir {
                assert(e.name == it.path + seq![47u8]);
                assert(e.name[e.name.len() - 1] == 47);
                assert(entry_is_dir(e));
                assert(e.name.drop_last() =~= it.path);
                assert(entry_safe(e));
                assert(action_of(e) == ActionModel::MakeDir { path: it.path });
            } else {
                assert(e.name == it.path);
                assert(it.path[it.path.len() - 1] != 47);
                assert(!entry_is_dir(e));
                assert(entry_safe(e));
                assert(action_of(e) == ActionModel::WriteFile { path: it.path, data: it.data });
            }
            let es = entries_of(items);
            assert(es == seq![e] + entries_of(rest));
            assert forall|i: int| 0 <= i < es.len() implies entry_safe(#[trigger] es[i]) by {
                if i == 0 {
                    assert(es[0] == e);
                } else {
                    assert(es[i] == entries_of(rest)[i - 1]);
                    assert(entry_safe(entries_of(rest)[i - 1]));
                }
            }
            assert(all_safe(es));
            assert(plan_of(es) =~= seq![action_of(e)] + plan_of(entries_of(rest))) by {
                assert forall|k: int| 0 <= k < es.len() implies plan_of(es)[k] == (seq![
                    action_of(e),
                ] + plan_of(entries_of(rest)))[k] by {
                    if k > 0 {
                        assert(es[k] == entries_of(rest)[k - 1]);
                        assert(plan_of(entries_of(rest))[k - 1] == action_of(entries_of(rest)[k - 1]));
                    }
                }
            }
            assert(extraction_of(entries_of(rest)) == Some(plan_of(entries_of(rest))));
            assert(plan_of(entries_of(rest)) == restore_of(rest));
            assert(restore_of(items) == seq![action_of(e)] + restore_of(rest));
        }
    }
}

} // verus!

