//! The registry's transfer protocol: the upload request (a multipart
//! form carrying a `manifest` part and a `file` part) decoded into a
//! stored package and an echoed manifest, the download and listing
//! lookups, and the relative paths under which the registry's directory
//! tree keeps packages and loader assets.

use vstd::prelude::*;

use crate::PkgError;
use crate::manifest::{Manifest, manifest_wf, vec_u8_eq};
use crate::manifest_text::parse_manifest_text;
use crate::archive::copy_bytes;
use crate::store::{ContentStore, id_byte_ok, id_shape_ok, store_has};

verus! {

/// One decoded part of the upload form: its field name and its content.
pub struct Part {
    pub name: Vec<u8>,
    pub data: Vec<u8>,
}

impl View for Part {
    type V = (Seq<u8>, Seq<u8>);

    open spec fn view(&self) -> (Seq<u8>, Seq<u8>) {
        (self.name@, self.data@)
    }
}

/// The parts as the specification sees them.
pub open spec fn parts_view(parts: Seq<Part>) -> Seq<(Seq<u8>, Seq<u8>)> {
    parts.map_values(|p: Part| p@)
}

/// The field name of the manifest part: `manifest`.
pub open spec fn manifest_field() -> Seq<u8> {
    seq![109u8, 97u8, 110u8, 105u8, 102u8, 101u8, 115u8, 116u8]
}

/// The field name of the archive part: `file`.
pub open spec fn file_field() -> Seq<u8> {
    seq![102u8, 105u8, 108u8, 101u8]
}

/// The content of the last part under this field name, if any: a
/// repeated field is overwritten by its later occurrence, an unknown
/// field name is ignored.
pub open spec fn find_last(parts: Seq<(Seq<u8>, Seq<u8>)>, name: Seq<u8>) -> Option<Seq<u8>>
    decreases parts.len(),
{
    if parts.len() == 0 {
        None
    } else if parts[parts.len() - 1].0 == name {
        Some(parts[parts.len() - 1].1)
    } else {
        find_last(parts.drop_last(), name)
    }
}

/// The content of the last part under this field name.
fn find_last_part<'a>(parts: &'a Vec<Part>, name: &Vec<u8>) -> (r: Option<&'a Vec<u8>>)
    ensures
        r matches Some(d) ==> find_last(parts_view(parts@), name@) == Some(d@),
        r is None ==> find_last(parts_view(parts@), name@) is None,
{
    let n = parts.len();
    let mut found: Option<&'a Vec<u8>> = None;
    proof {
        assert(parts_view(parts@).take(0) =~= Seq::<(Seq<u8>, Seq<u8>)>::empty());
    }
    for i in 0..n
        invariant
            n == parts@.len(),
            match found {
                Some(d) => find_last(parts_view(parts@).take(i as int), name@) == Some(d@),
                None => find_last(parts_view(parts@).take(i as int), name@) is None,
            },
    {
        proof {
            let ghost pre = parts_view(parts@).take(i as int + 1);
            assert(pre.drop_last() =~= parts_view(parts@).take(i as int));
            assert(pre[pre.len() - 1] == parts@[i as int]@);
        }
        if vec_u8_eq(&parts[i].name, name) {
            found = Some(&parts[i].data);
        }
    }
    proof {
        assert(parts_view(parts@).take(n as int) =~= parts_view(parts@));
    }
    found
}

/// The registry: its content store, fed and read by the protocol.
pub struct Registry {
    pub store: ContentStore,
}

impl Registry {
    /// A registry over an empty store.
    pub fn new() -> (r: Registry)
        ensures
            r.store.wf(),
            r.store@ == Seq::<(Seq<u8>, Seq<u8>)>::empty(),
    {
        Registry { store: ContentStore::new() }
    }

    /// Handles one upload request, its form already decoded into parts.
    /// The last `manifest` part is parsed and echoed back; the last
    /// `file` part is stored whole under a fresh id, which is returned
    /// beside the echo; unknown field names are ignored. A request
    /// without a manifest part is a bad request; manifest text that does
    /// not parse is malformed; on any failure the store is unchanged.
    pub fn handle_upload(&mut self, parts: &Vec<Part>) -> (r: Result<
        (Manifest, Option<Vec<u8>>),
        PkgError,
    >)
        requires
            old(self).store.wf(),
        ensures
            final(self).store.wf(),
            r matches Err(_) ==> final(self).store@ == old(self).store@,
            r matches Err(e) && e == PkgError::BadRequest <==> find_last(
                parts_view(parts@),
                manifest_field(),
            ) is None,
            r matches Err(e) ==> (e == PkgError::BadRequest || e == PkgError::MalformedManifest
                || e == PkgError::Conflict),
            r matches Err(e) && e == PkgError::Conflict ==> find_last(
                parts_view(parts@),
                file_field(),
            ) is Some && old(self).store@.len() > 0,
            (match find_last(parts_view(parts@), manifest_field()) {
                Some(t) => (match parse_manifest_text(t) {
                    Some(mm) => !manifest_wf(mm),
                    None => true,
                }),
                None => false,
            }) ==> (r matches Err(e) && e == PkgError::MalformedManifest),
            r matches Err(e) && e == PkgError::MalformedManifest ==> (match find_last(
                parts_view(parts@),
                manifest_field(),
            ) {
                Some(t) => (match parse_manifest_text(t) {
                    Some(mm) => !manifest_wf(mm),
                    None => true,
                }),
                None => false,
            }),
            r matches Ok(p) ==> (match find_last(parts_view(parts@), manifest_field()) {
                Some(t) => parse_manifest_text(t) == Some(p.0@) && manifest_wf(p.0@),
                None => false,
            }),
            r matches Ok(p) ==> (match find_last(parts_view(parts@), file_field()) {
                Some(d) => (match p.1 {
                    Some(id) => !store_has(old(self).store@, id@) && id_shape_ok(id@)
                        && final(self).store@ == old(self).store@.push((id@, d)),
                    None => false,
                }),
                None => p.1 is None && final(self).store@ == old(self).store@,
            }),
    {
        let mut mf: Vec<u8> = Vec::new();
        mf.push(109);
        mf.push(97);
        mf.push(110);
        mf.push(105);
        mf.push(102);
        mf.push(101);
        mf.push(115);
        mf.push(116);
        proof {
            assert(mf@ =~= manifest_field());
        }
        let manifest_text = match find_last_part(parts, &mf) {
            None => {
                return Err(PkgError::BadRequest);
            },
            Some(t) => t,
        };
        let m = match Manifest::parse(manifest_text) {
            Err(e) => {
                return Err(e);
            },
            Ok(m) => m,
        };
        let mut ff: Vec<u8> = Vec::new();
        ff.push(102);
        ff.push(105);
        ff.push(108);
        ff.push(101);
        proof {
            assert(ff@ =~= file_field());
        }
        match find_last_part(parts, &ff) {
            None => Ok((m, None)),
            Some(d) => {
                let data = copy_bytes(d);
                match self.store.put(data) {
                    Err(e) => Err(e),
                    Ok(id) => Ok((m, Some(id))),
                }
            },
        }
    }

    /// Handles one download request: the stored archive bytes for the
    /// id, or `NotFound` (a 404) for an id nobody stored.
    pub fn handle_download(&self, id: &Vec<u8>) -> (r: Result<&Vec<u8>, PkgError>)
        requires
            self.store.wf(),
        ensures
            r matches Ok(d) ==> store_has(self.store@, id@) && d@ == crate::store::store_value(
                self.store@,
                id@,
            ),
            r matches Err(e) ==> e == PkgError::NotFound && !store_has(self.store@, id@),
    {
        self.store.get(id)
    }

    /// Handles one listing request: every stored id, in storage order.
    pub fn handle_list(&self) -> (r: Vec<Vec<u8>>)
        ensures
            r@.len() == self.store@.len(),
            forall|i: int| 0 <= i < r@.len() ==> #[trigger] r@[i]@ == self.store@[i].0,
    {
        self.store.list()
    }
}

/// A version string that may stand as one directory name: non-empty,
/// without separators or drive marks on any platform, and not a
/// dot-name.
pub open spec fn component_ok(v: Seq<u8>) -> bool {
    &&& v.len() > 0
    &&& forall|i: int| 0 <= i < v.len() ==> #[trigger] v[i] != 47 && v[i] != 92 && v[i] != 58
    &&& v != seq![46u8]
    &&& v != seq![46u8, 46u8]
}

/// True exactly when the bytes may stand as one directory name.
pub fn check_component(v: &Vec<u8>) -> (r: bool)
    ensures
        r == component_ok(v@),
{
    let n = v.len();
    if n == 0 {
        return false;
    }
    if n == 1 && v[0] == 46 {
        proof {
            assert(v@ =~= seq![46u8]);
        }
        return false;
    }
    if n == 2 && v[0] == 46 && v[1] == 46 {
        proof {
            assert(v@ =~= seq![46u8, 46u8]);
        }
        return false;
    }
    for i in 0..n
        invariant
            n == v@.len(),
            forall|k: int| 0 <= k < i ==> #[trigger] v@[k] != 47 && v@[k] != 92 && v@[k] != 58,
    {
        if v[i] == 47 || v[i] == 92 || v[i] == 58 {
            return false;
        }
    }
    proof {
        if v@ == seq![46u8] {
            assert(v@.len() == 1);
        }
        if v@ == seq![46u8, 46u8] {
            assert(v@.len() == 2);
        }
    }
    true
}

/// The relative path under which a package's archive is kept:
/// `storage/ID/package.zip`.
pub open spec fn package_path_spec(id: Seq<u8>) -> Seq<u8> {
    seq![115u8, 116u8, 111u8, 114u8, 97u8, 103u8, 101u8, 47u8] + id + seq![
        47u8,
        112u8,
        97u8,
        99u8,
        107u8,
        97u8,
        103u8,
        101u8,
        46u8,
        122u8,
        105u8,
        112u8,
    ]
}

/// An id that could have been generated: its bytes are hex digits and
/// hyphens, so it stays one directory name.
pub open spec fn id_ok(id: Seq<u8>) -> bool {
    id.len() > 0 && forall|i: int| 0 <= i < id.len() ==> id_byte_ok(#[trigger] id[i])
}

/// The relative path of the archive stored under an id. An id that
/// could not have been generated names nothing in the store, so it is
/// reported absent before any path is formed.
pub fn package_rel_path(id: &Vec<u8>) -> (r: Result<Vec<u8>, PkgError>)
    ensures
        r matches Ok(p) ==> id_ok(id@) && p@ == package_path_spec(id@),
        r matches Err(e) ==> e == PkgError::NotFound && !id_ok(id@),
{
    let n = id.len();
    if n == 0 {
        return Err(PkgError::NotFound);
    }
    for i in 0..n
        invariant
            n == id@.len(),
            forall|k: int| 0 <= k < i ==> id_byte_ok(#[trigger] id@[k]),
    {
        let c = id[i];
        if !((c >= 48 && c <= 57) || (c >= 97 && c <= 102) || c == 45) {
            proof {
                assert(!id_byte_ok(id@[i as int]));
            }
            return Err(PkgError::NotFound);
        }
    }
    let mut out: Vec<u8> = Vec::new();
    out.push(115);
    out.push(116);
    out.push(111);
    out.push(114);
    out.push(97);
    out.push(103);
    out.push(101);
    out.push(47);
    let ghost head = seq![115u8, 116u8, 111u8, 114u8, 97u8, 103u8, 101u8, 47u8];
    proof {
        assert(out@ =~= head);
    }
    for i in 0..n
        invariant
            n == id@.len(),
            out@ == head + id@.take(i as int),
    {
        out.push(id[i]);
        proof {
            assert(head + id@.take(i as int) + seq![id@[i as int]] =~= head + id@.take(
                i as int + 1,
            ));
        }
    }
    proof {
        assert(head + id@.take(n as int) =~= head + id@);
    }
    out.push(47);
    out.push(112);
    out.push(97);
    out.push(99);
    out.push(107);
    out.push(97);
    out.push(103);
    out.push(101);
    out.push(46);
    out.push(122);
    out.push(105);
    out.push(112);
    proof {
        assert(out@ =~= package_path_spec(id@));
    }
    Ok(out)
}

/// The relative path of a loader asset: `loader/VERSION/bootstrap.mjs`
/// for the first slot, `loader/VERSION/mpkg-loader.mjs` for the second.
pub open spec fn loader_path_spec(version: Seq<u8>, second_slot: bool) -> Seq<u8> {
    seq![108u8, 111u8, 97u8, 100u8, 101u8, 114u8, 47u8] + version + (if second_slot {
        seq![
            47u8,
            109u8,
            112u8,
            107u8,
            103u8,
            45u8,
            108u8,
            111u8,
            97u8,
            100u8,
            101u8,
            114u8,
            46u8,
            109u8,
            106u8,
            115u8,
        ]
    } else {
        seq![47u8, 98u8, 111u8, 111u8, 116u8, 115u8, 116u8, 114u8, 97u8, 112u8, 46u8, 109u8, 106u8, 115u8]
    })
}

/// The relative path of the loader asset for a version and a slot. A
/// version string that cannot stand as one directory name names
/// nothing, so it is reported absent before any path is formed.
pub fn loader_rel_path(version: &Vec<u8>, second_slot: bool) -> (r: Result<Vec<u8>, PkgError>)
    ensures
        r matches Ok(p) ==> component_ok(version@) && p@ == loader_path_spec(
            version@,
            second_slot,
        ),
        r matches Err(e) ==> e == PkgError::NotFound && !component_ok(version@),
{
    if !check_component(version) {
        return Err(PkgError::NotFound);
    }
    let mut out: Vec<u8> = Vec::new();
    out.push(108);
    out.push(111);
    out.push(97);
    out.push(100);
    out.push(101);
    out.push(114);
    out.push(47);
    let ghost head = seq![108u8, 111u8, 97u8, 100u8, 101u8, 114u8, 47u8];
    proof {
        assert(out@ =~= head);
    }
    let n = version.len();
    for i in 0..n
        invariant
            n == version@.len(),
            out@ == head + version@.take(i as int),
    {
        out.push(version[i]);
        proof {
            assert(head + version@.take(i as int) + seq![version@[i as int]] =~= head
                + version@.take(i as int + 1));
        }
    }
    proof {
        assert(head + version@.take(n as int) =~= head + version@);
    }
    if second_slot {
        out.push(47);
        out.push(109);
        out.push(112);
        out.push(107);
        out.push(103);
        out.push(45);
        out.push(108);
        out.push(111);
        out.push(97);
        out.push(100);
        out.push(101);
        out.push(114);
        out.push(46);
        out.push(109);
        out.push(106);
        out.push(115);
    } else {
        out.push(47);
        out.push(98);
        out.push(111);
        out.push(111);
        out.push(116);
        out.push(115);
        out.push(116);
        out.push(114);
        out.push(97);
        out.push(112);
        out.push(46);
        out.push(109);
        out.push(106);
        out.push(115);
    }
    proof {
        assert(out@ =~= loader_path_spec(version@, second_slot));
    }
    Ok(out)
}

} // verus!
