//! The registry's content store: archives keyed by a freshly generated
//! identifier, one per stored package. The store state is the list of
//! id/content records in storage order, with no two records sharing an
//! id; the registry's directory tree on disk realises exactly this
//! state, one subdirectory per id holding one archive file.

use vstd::prelude::*;

use crate::PkgError;

verus! {

/// Whether some record carries this id.
pub open spec fn store_has(entries: Seq<(Seq<u8>, Seq<u8>)>, id: Seq<u8>) -> bool {
    exists|i: int| 0 <= i < entries.len() && entries[i].0 == id
}

/// The content under this id (at any index that carries it).
pub open spec fn store_value(entries: Seq<(Seq<u8>, Seq<u8>)>, id: Seq<u8>) -> Seq<u8> {
    entries[choose|i: int| 0 <= i < entries.len() && entries[i].0 == id].1
}

/// No two records share an id.
pub open spec fn store_ids_unique(entries: Seq<(Seq<u8>, Seq<u8>)>) -> bool {
    forall|i: int, j: int| 0 <= i < j < entries.len() ==> entries[i].0 != entries[j].0
}

/// A byte of a generated identifier: a lowercase hex digit or a hyphen.
pub open spec fn id_byte_ok(c: u8) -> bool {
    (48 <= c <= 57) || (97 <= c <= 102) || c == 45
}

/// The shape of a generated identifier: 36 bytes of hex digits and
/// hyphens, so an id never names anything outside its own directory.
pub open spec fn id_shape_ok(id: Seq<u8>) -> bool {
    id.len() == 36 && forall|i: int| 0 <= i < id.len() ==> id_byte_ok(#[trigger] id[i])
}

/// Relies on uuid::Uuid::new_v4 and its hyphenated text form: 36 ASCII
/// bytes, lowercase hex digits and hyphens. The value is random; nothing
/// relates two calls. (The generator aborts only if the operating
/// system's randomness source fails, an environmental fault on a par
/// with running out of memory.)
#[verifier::external_body]
fn fresh_id_bytes() -> (r: Vec<u8>)
    ensures
        id_shape_ok(r@),
{
    uuid::Uuid::new_v4().to_string().into_bytes()
}

/// One stored package: its id and its archive bytes.
pub struct StoredPackage {
    pub id: Vec<u8>,
    pub data: Vec<u8>,
}

impl View for StoredPackage {
    type V = (Seq<u8>, Seq<u8>);

    open spec fn view(&self) -> (Seq<u8>, Seq<u8>) {
        (self.id@, self.data@)
    }
}

/// The id-keyed store of uploaded archives.
pub struct ContentStore {
    pub packages: Vec<StoredPackage>,
}

/// The store as the specification sees it: id/content records in
/// storage order.
pub open spec fn store_view(packages: Seq<StoredPackage>) -> Seq<(Seq<u8>, Seq<u8>)> {
    packages.map_values(|p: StoredPackage| p@)
}

impl View for ContentStore {
    type V = Seq<(Seq<u8>, Seq<u8>)>;

    open spec fn view(&self) -> Seq<(Seq<u8>, Seq<u8>)> {
        store_view(self.packages@)
    }
}

impl ContentStore {
    /// No two records share an id.
    pub open spec fn wf(&self) -> bool {
        store_ids_unique(self@)
    }

    /// An empty store.
    pub fn new() -> (r: ContentStore)
        ensures
            r.wf(),
            r@ == Seq::<(Seq<u8>, Seq<u8>)>::empty(),
    {
        let r = ContentStore { packages: Vec::new() };
        proof {
            assert(r@ =~= Seq::<(Seq<u8>, Seq<u8>)>::empty());
        }
        r
    }

    /// True exactly when some record carries this id.
    pub fn contains(&self, id: &Vec<u8>) -> (r: bool)
        ensures
            r == store_has(self@, id@),
    {
        let n = self.packages.len();
        for i in 0..n
            invariant
                n == self.packages@.len(),
                forall|k: int| 0 <= k < i ==> self@[k].0 != id@,
        {
            if crate::manifest::vec_u8_eq(&self.packages[i].id, id) {
                proof {
                    assert(self@[i as int].0 == id@);
                }
                return true;
            }
            proof {
                assert(self@[i as int].0 == self.packages@[i as int].id@);
            }
        }
        false
    }

    /// Stores content under the given id; an id already taken is
    /// refused and the store is unchanged.
    pub fn put_with_id(&mut self, id: Vec<u8>, data: Vec<u8>) -> (r: Result<(), PkgError>)
        requires
            old(self).wf(),
        ensures
            final(self).wf(),
            r matches Ok(()) ==> !store_has(old(self)@, id@) && final(self)@ == old(self)@.push(
                (id@, data@),
            ),
            r matches Err(e) ==> e == PkgError::Conflict && store_has(old(self)@, id@),
            r matches Err(_) ==> final(self)@ == old(self)@,
    {
        if self.contains(&id) {
            return Err(PkgError::Conflict);
        }
        let ghost before = self@;
        let ghost idv = id@;
        let ghost datav = data@;
        self.packages.push(StoredPackage { id, data });
        proof {
            assert(self@ =~= before.push((idv, datav)));
            assert forall|i: int, j: int| 0 <= i < j < self@.len() implies self@[i].0
                != self@[j].0 by {
                if j == self@.len() - 1 {
                    assert(self@[i] == before[i]);
                    assert(store_has(before, idv) || before[i].0 != idv) by {
                        if before[i].0 == idv {
                            assert(store_has(before, idv));
                        }
                    }
                } else {
                    assert(self@[i] == before[i] && self@[j] == before[j]);
                }
            }
        }
        Ok(())
    }

    /// Stores content under a freshly generated id and returns the id.
    /// The id generation is random; in the (practically impossible) case
    /// that the drawn id is already taken, the store is unchanged and
    /// the upload is refused rather than overwritten.
    pub fn put(&mut self, data: Vec<u8>) -> (r: Result<Vec<u8>, PkgError>)
        requires
            old(self).wf(),
        ensures
            final(self).wf(),
            r matches Ok(id) ==> !store_has(old(self)@, id@) && id_shape_ok(id@) && final(self)@
                == old(self)@.push((id@, data@)),
            r matches Err(e) ==> e == PkgError::Conflict && final(self)@ == old(self)@,
            r matches Err(_) ==> old(self)@.len() > 0,
    {
        let id = fresh_id_bytes();
        let id_copy = crate::archive::copy_bytes(&id);
        match self.put_with_id(id_copy, data) {
            Ok(()) => Ok(id),
            Err(e) => Err(e),
        }
    }

    /// The content stored under this id; an unknown id reports
    /// `NotFound` and nothing else happens.
    pub fn get(&self, id: &Vec<u8>) -> (r: Result<&Vec<u8>, PkgError>)
        requires
            self.wf(),
        ensures
            r matches Ok(d) ==> store_has(self@, id@) && d@ == store_value(self@, id@),
            r matches Err(e) ==> e == PkgError::NotFound && !store_has(self@, id@),
    {
        let n = self.packages.len();
        for i in 0..n
            invariant
                n == self.packages@.len(),
                self.wf(),
                forall|k: int| 0 <= k < i ==> self@[k].0 != id@,
        {
            if crate::manifest::vec_u8_eq(&self.packages[i].id, id) {
                proof {
                    assert(self@[i as int].0 == id@);
                    assert(store_has(self@, id@));
                    let w = choose|w: int| 0 <= w < self@.len() && self@[w].0 == id@;
                    assert(self@[w].0 == id@);
                    assert(w == i as int) by {
                        if w < i as int {
                            assert(self@[w].0 != self@[i as int].0);
                        } else if w > i as int {
                            assert(self@[i as int].0 != self@[w].0);
                        }
                    }
                }
                return Ok(&self.packages[i].data);
            }
            proof {
                assert(self@[i as int].0 == self.packages@[i as int].id@);
            }
        }
        Err(PkgError::NotFound)
    }

    /// The stored ids, in storage order.
    pub fn list(&self) -> (r: Vec<Vec<u8>>)
        ensures
            r@.len() == self@.len(),
            forall|i: int| 0 <= i < r@.len() ==> #[trigger] r@[i]@ == self@[i].0,
    {
        let n = self.packages.len();
        let mut out: Vec<Vec<u8>> = Vec::new();
        for i in 0..n
            invariant
                n == self.packages@.len(),
                out@.len() == i,
                forall|k: int| 0 <= k < i ==> #[trigger] out@[k]@ == self@[k].0,
        {
            let id = crate::archive::copy_bytes(&self.packages[i].id);
            out.push(id);
        }
        out
    }
}

/// Two uploads with different content land under two distinct ids, each
/// independently retrievable with its own content, and the listing after
/// both holds both ids: uploads never overwrite one another.
pub proof fn lemma_store_isolation(
    s: Seq<(Seq<u8>, Seq<u8>)>,
    id1: Seq<u8>,
    data1: Seq<u8>,
    id2: Seq<u8>,
    data2: Seq<u8>,
)
    requires
        store_ids_unique(s),
        !store_has(s, id1),
        !store_has(s.push((id1, data1)), id2),
    ensures
        id1 != id2,
        store_has(s.push((id1, data1)).push((id2, data2)), id1),
        store_has(s.push((id1, data1)).push((id2, data2)), id2),
        store_value(s.push((id1, data1)).push((id2, data2)), id1) == data1,
        store_value(s.push((id1, data1)).push((id2, data2)), id2) == data2,
{
    let s1 = s.push((id1, data1));
    let s2 = s1.push((id2, data2));
    let n = s.len() as int;
    assert(s1[n].0 == id1);
    assert(store_has(s1, id1));
    assert(id1 != id2);
    assert(s2[n] == (id1, data1));
    assert(s2[n + 1] == (id2, data2));
    assert(store_has(s2, id1));
    assert(store_has(s2, id2));
    let w1 = choose|i: int| 0 <= i < s2.len() && s2[i].0 == id1;
    assert(s2[w1].0 == id1);
    assert(w1 == n) by {
        if w1 < n {
            assert(s2[w1] == s[w1]);
            assert(store_has(s, id1));
        } else if w1 == n + 1 {
            assert(s2[w1].0 == id2);
        }
    }
    assert(store_value(s2, id1) == data1);
    let w2 = choose|i: int| 0 <= i < s2.len() && s2[i].0 == id2;
    assert(s2[w2].0 == id2);
    assert(w2 == n + 1) by {
        if w2 < n {
            assert(s2[w2] == s[w2]);
            assert(s1[w2] == s[w2]);
            assert(store_has(s1, id2));
        } else if w2 == n {
            assert(s2[w2].0 == id1);
            assert(store_has(s1, id1));
        }
    }
    assert(store_value(s2, id2) == data2);
}

} // verus!
