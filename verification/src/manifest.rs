//! The project manifest: a name, a version, and a dependency map from
//! dependency key to version constraint. The manifest is stored as a small
//! JSON-shaped text; the writer and the parser for that text live here and
//! invert each other, which is proved below.

use vstd::prelude::*;

use crate::PkgError;

verus! {

/// One dependency record: a key and its version constraint.
#[derive(Clone, Debug, PartialEq, Eq)]
pub struct Dep {
    pub key: Vec<u8>,
    pub constraint: Vec<u8>,
}

impl View for Dep {
    type V = (Seq<u8>, Seq<u8>);

    open spec fn view(&self) -> (Seq<u8>, Seq<u8>) {
        (self.key@, self.constraint@)
    }
}

/// A project manifest.
#[derive(Clone, Debug, PartialEq, Eq)]
pub struct Manifest {
    pub name: Vec<u8>,
    pub version: Vec<u8>,
    pub deps: Vec<Dep>,
}

/// The mathematical shape of a manifest.
pub ghost struct ManifestModel {
    pub name: Seq<u8>,
    pub version: Seq<u8>,
    pub deps: Seq<(Seq<u8>, Seq<u8>)>,
}

/// The dependency list as key/constraint pairs.
pub open spec fn deps_view(deps: Seq<Dep>) -> Seq<(Seq<u8>, Seq<u8>)> {
    deps.map_values(|d: Dep| d@)
}

impl View for Manifest {
    type V = ManifestModel;

    open spec fn view(&self) -> ManifestModel {
        ManifestModel { name: self.name@, version: self.version@, deps: deps_view(self.deps@) }
    }
}

/// A byte that may stand inside a quoted string of the manifest text:
/// printable, and neither the quote nor the backslash, so that no
/// escaping is ever needed.
pub open spec fn text_ok(c: u8) -> bool {
    c >= 32 && c != 34 && c != 92
}

/// Every byte of the string may stand inside quotes.
pub open spec fn str_ok(s: Seq<u8>) -> bool {
    forall|i: int| 0 <= i < s.len() ==> text_ok(s[i])
}

/// The constraint the system writes for every dependency: `latest`.
pub open spec fn latest_spec() -> Seq<u8> {
    seq![108u8, 97u8, 116u8, 101u8, 115u8, 116u8]
}

/// The version given to a fresh manifest: `0.1.0`.
pub open spec fn default_version_spec() -> Seq<u8> {
    seq![48u8, 46u8, 49u8, 46u8, 48u8]
}

/// Whether some pair carries this key.
pub open spec fn has_key(deps: Seq<(Seq<u8>, Seq<u8>)>, key: Seq<u8>) -> bool {
    exists|i: int| 0 <= i < deps.len() && deps[i].0 == key
}

/// The constraint under this key (any index that carries it).
pub open spec fn constraint_of(deps: Seq<(Seq<u8>, Seq<u8>)>, key: Seq<u8>) -> Seq<u8> {
    deps[choose|i: int| 0 <= i < deps.len() && deps[i].0 == key].1
}

/// No two pairs share a key.
pub open spec fn keys_unique(deps: Seq<(Seq<u8>, Seq<u8>)>) -> bool {
    forall|i: int, j: int| 0 <= i < j < deps.len() ==> deps[i].0 != deps[j].0
}

/// A well-formed manifest: non-empty name, strings that need no escaping,
/// non-empty dependency keys, and no duplicate keys.
pub open spec fn manifest_wf(m: ManifestModel) -> bool {
    &&& m.name.len() > 0
    &&& str_ok(m.name)
    &&& str_ok(m.version)
    &&& forall|i: int|
        0 <= i < m.deps.len() ==> #[trigger] m.deps[i].0.len() > 0 && str_ok(m.deps[i].0)
            && str_ok(m.deps[i].1)
    &&& keys_unique(m.deps)
}

/// Inserting `key -> latest`: an existing record under the key is
/// overwritten in place, a fresh key is appended.
pub open spec fn add_dep_spec(deps: Seq<(Seq<u8>, Seq<u8>)>, key: Seq<u8>) -> Seq<
    (Seq<u8>, Seq<u8>),
> {
    if has_key(deps, key) {
        deps.update(choose|i: int| 0 <= i < deps.len() && deps[i].0 == key, (key, latest_spec()))
    } else {
        deps.push((key, latest_spec()))
    }
}

impl Manifest {
    /// Well-formed manifest values.
    pub open spec fn wf(&self) -> bool {
        manifest_wf(self@)
    }

    /// The manifest a fresh project starts from: the given name,
    /// version `0.1.0`, and no dependencies.
    pub fn default_for(name: Vec<u8>) -> (r: Manifest)
        ensures
            r@.name == name@,
            r@.version == default_version_spec(),
            r@.deps == Seq::<(Seq<u8>, Seq<u8>)>::empty(),
            name@.len() > 0 && str_ok(name@) ==> r.wf(),
    {
        let mut version: Vec<u8> = Vec::new();
        version.push(48);
        version.push(46);
        version.push(49);
        version.push(46);
        version.push(48);
        proof {
            assert(version@ =~= default_version_spec());
            assert(deps_view(Seq::<Dep>::empty()) =~= Seq::<(Seq<u8>, Seq<u8>)>::empty());
        }
        Manifest { name, version, deps: Vec::new() }
    }

    /// Records `key -> latest` in the dependency map, overwriting any
    /// earlier constraint under the key. The manifest text deliberately
    /// has no escape sequences, so a key is accepted exactly when it is
    /// non-empty and can stand verbatim between quotes; a key holding a
    /// quote, a backslash or a control byte would produce a file that
    /// does not read back, and is refused with a typed error instead.
    pub fn add_dependency(&mut self, key: Vec<u8>) -> (r: Result<(), PkgError>)
        requires
            keys_unique(old(self)@.deps),
        ensures
            keys_unique(final(self)@.deps),
            r matches Ok(()) <==> key@.len() > 0 && str_ok(key@),
            r matches Ok(()) ==> final(self)@.deps == add_dep_spec(old(self)@.deps, key@),
            r matches Ok(()) ==> final(self)@.name == old(self)@.name && final(self)@.version
                == old(self)@.version,
            r matches Err(e) ==> e == PkgError::BadRequest && final(self)@ == old(self)@,
    {
        if key.len() == 0 || !check_str_ok(&key) {
            return Err(PkgError::BadRequest);
        }
        let mut latest: Vec<u8> = Vec::new();
        latest.push(108);
        latest.push(97);
        latest.push(116);
        latest.push(101);
        latest.push(115);
        latest.push(116);
        proof {
            assert(latest@ =~= latest_spec());
        }
        let n = self.deps.len();
        for i in 0..n
            invariant
                n == self.deps@.len(),
                self.deps@ == old(self).deps@,
                self.name@ == old(self).name@,
                self.version@ == old(self).version@,
                latest@ == latest_spec(),
                key@.len() > 0,
                str_ok(key@),
                keys_unique(old(self)@.deps),
                forall|k: int| 0 <= k < i ==> old(self).deps@[k].key@ != key@,
        {
            if vec_u8_eq(&self.deps[i].key, &key) {
                let d = Dep { key, constraint: latest };
                self.deps.remove(i);
                self.deps.insert(i, d);
                proof {
                    let ghost before = old(self)@.deps;
                    assert(before[i as int] == old(self).deps@[i as int]@);
                    assert(before[i as int].0 == key@);
                    assert(has_key(before, key@));
                    assert(deps_view(self.deps@) =~= before.update(i as int, (key@, latest_spec())));
                    lemma_unique_key_index(before, key@, i as int);
                    lemma_update_keys_unique(before, i as int, key@);
                }
                return Ok(());
            }
        }
        let d = Dep { key, constraint: latest };
        self.deps.push(d);
        proof {
            let ghost before = old(self)@.deps;
            assert(!has_key(before, key@));
            assert(deps_view(self.deps@) =~= before.push((key@, latest_spec())));
            let ghost after = deps_view(self.deps@);
            assert forall|i: int, j: int| 0 <= i < j < after.len() implies after[i].0
                != after[j].0 by {
                if j == after.len() - 1 {
                    assert(after[i].0 == before[i].0);
                }
            }
        }
        Ok(())
    }
}

/// Every byte of the string may stand inside quotes.
pub fn check_str_ok(v: &Vec<u8>) -> (r: bool)
    ensures
        r == str_ok(v@),
{
    let n = v.len();
    for i in 0..n
        invariant
            n == v@.len(),
            forall|k: int| 0 <= k < i ==> text_ok(v@[k]),
    {
        let c = v[i];
        if !(c >= 32 && c != 34 && c != 92) {
            return false;
        }
    }
    true
}

/// Byte-for-byte equality of two byte strings.
pub fn vec_u8_eq(a: &Vec<u8>, b: &Vec<u8>) -> (r: bool)
    ensures
        r == (a@ == b@),
{
    if a.len() != b.len() {
        assert(a@ != b@);
        return false;
    }
    let n = a.len();
    for i in 0..n
        invariant
            n == a@.len() == b@.len(),
            forall|k: int| 0 <= k < i ==> a@[k] == b@[k],
    {
        if a[i] != b[i] {
            return false;
        }
    }
    proof {
        assert(a@ =~= b@);
    }
    true
}

/// Updating the pair at a position with a pair that keeps its key keeps
/// the keys unique.
proof fn lemma_update_keys_unique(deps: Seq<(Seq<u8>, Seq<u8>)>, at: int, key: Seq<u8>)
    requires
        keys_unique(deps),
        0 <= at < deps.len(),
        deps[at].0 == key,
    ensures
        keys_unique(deps.update(at, (key, latest_spec()))),
{
    let d2 = deps.update(at, (key, latest_spec()));
    assert forall|i: int, j: int| 0 <= i < j < d2.len() implies d2[i].0 != d2[j].0 by {
        assert(deps[i].0 != deps[j].0);
    }
}

/// Adding the same dependency twice is the same as adding it once, the
/// key is then recorded exactly once, and its constraint is `latest`.
pub proof fn lemma_add_dependency_idempotent(deps: Seq<(Seq<u8>, Seq<u8>)>, key: Seq<u8>)
    requires
        keys_unique(deps),
    ensures
        add_dep_spec(add_dep_spec(deps, key), key) == add_dep_spec(deps, key),
        has_key(add_dep_spec(deps, key), key),
        constraint_of(add_dep_spec(deps, key), key) == latest_spec(),
        forall|i: int, j: int|
            0 <= i < j < add_dep_spec(deps, key).len() ==> !(add_dep_spec(deps, key)[i].0 == key
                && add_dep_spec(deps, key)[j].0 == key),
{
    let d1 = add_dep_spec(deps, key);
    if has_key(deps, key) {
        let w = choose|i: int| 0 <= i < deps.len() && deps[i].0 == key;
        assert(d1 == deps.update(w, (key, latest_spec())));
        assert(d1[w].0 == key);
        assert(has_key(d1, key));
        lemma_unique_key_index(deps, key, w);
        assert forall|i: int, j: int| 0 <= i < j < d1.len() implies !(d1[i].0 == key && d1[j].0
            == key) by {
            if d1[i].0 == key && d1[j].0 == key {
                assert(deps[i].0 != deps[j].0);
                assert(i == w || deps[i].0 == key);
                assert(j == w || deps[j].0 == key);
            }
        }
        let w1 = choose|i: int| 0 <= i < d1.len() && d1[i].0 == key;
        assert(d1[w1].0 == key);
        assert(w1 == w) by {
            if w1 != w {
                assert(deps[w1].0 == d1[w1].0);
            }
        }
        assert(constraint_of(d1, key) == latest_spec());
        assert(add_dep_spec(d1, key) =~= d1);
    } else {
        assert(d1 == deps.push((key, latest_spec())));
        let n = deps.len() as int;
        assert(d1[n].0 == key);
        assert(has_key(d1, key));
        assert forall|i: int, j: int| 0 <= i < j < d1.len() implies !(d1[i].0 == key && d1[j].0
            == key) by {
            if j < n {
                assert(!has_key(deps, key));
                assert(d1[i] == deps[i] && d1[j] == deps[j]);
                assert(deps[i].0 != key);
            } else {
                if i < n {
                    assert(d1[i] == deps[i]);
                    assert(deps[i].0 != key) by {
                        if deps[i].0 == key {
                            assert(has_key(deps, key));
                        }
                    }
                }
            }
        }
        let w1 = choose|i: int| 0 <= i < d1.len() && d1[i].0 == key;
        assert(d1[w1].0 == key);
        assert(w1 == n) by {
            if w1 != n {
                assert(d1[w1] == deps[w1]);
                assert(has_key(deps, key));
            }
        }
        assert(constraint_of(d1, key) == latest_spec());
        assert(add_dep_spec(d1, key) =~= d1.update(n, (key, latest_spec())));
        assert(add_dep_spec(d1, key) =~= d1);
    }
}

/// In a list with unique keys, the chosen index of a key present at `w`
/// is `w` itself.
proof fn lemma_unique_key_index(deps: Seq<(Seq<u8>, Seq<u8>)>, key: Seq<u8>, w: int)
    requires
        keys_unique(deps),
        0 <= w < deps.len(),
        deps[w].0 == key,
    ensures
        (choose|i: int| 0 <= i < deps.len() && deps[i].0 == key) == w,
{
    let c = choose|i: int| 0 <= i < deps.len() && deps[i].0 == key;
    assert(has_key(deps, key));
    assert(0 <= c < deps.len() && deps[c].0 == key);
    if c != w {
        if c < w {
            assert(deps[c].0 != deps[w].0);
        } else {
            assert(deps[w].0 != deps[c].0);
        }
    }
}

} // verus!
