//! Project-level manifest operations: creating the manifest on project
//! initialisation, and the read-modify-write step that records a newly
//! installed dependency. Reading and writing the files themselves is the
//! caller's business; everything here maps file content to file content.

use vstd::prelude::*;

use crate::PkgError;
use crate::manifest::{
    Manifest, ManifestModel, add_dep_spec, check_str_ok, default_version_spec, has_key,
    latest_spec, manifest_wf, str_ok,
};
use crate::manifest_text::{emit_manifest, lemma_manifest_text_round_trip, parse_manifest_text};

verus! {

/// The key under which an npm-installed dependency is recorded:
/// the name behind an `npm/` prefix.
pub open spec fn npm_key_spec(name: Seq<u8>) -> Seq<u8> {
    seq![110u8, 112u8, 109u8, 47u8] + name
}

/// The manifest a fresh project starts from.
pub open spec fn default_model(name: Seq<u8>) -> ManifestModel {
    ManifestModel { name, version: default_version_spec(), deps: Seq::empty() }
}

/// What loading manifest file content gives: absent content falls back
/// to a default manifest under the caller-supplied project name (which
/// must be able to stand in the manifest text), present content must
/// parse to a well-formed manifest.
pub open spec fn load_model(content: Option<Seq<u8>>, project_name: Seq<u8>) -> Option<
    ManifestModel,
> {
    match content {
        None => if project_name.len() > 0 && str_ok(project_name) {
            Some(default_model(project_name))
        } else {
            None
        },
        Some(c) => match parse_manifest_text(c) {
            Some(mm) => if manifest_wf(mm) {
                Some(mm)
            } else {
                None
            },
            None => None,
        },
    }
}

/// What the read-modify-write step writes back: the loaded manifest
/// with `key -> latest` recorded.
pub open spec fn updated_model(
    content: Option<Seq<u8>>,
    project_name: Seq<u8>,
    key: Seq<u8>,
) -> Option<ManifestModel> {
    match load_model(content, project_name) {
        None => None,
        Some(mm) => if key.len() > 0 && str_ok(key) {
            Some(ManifestModel { name: mm.name, version: mm.version, deps: add_dep_spec(mm.deps, key) })
        } else {
            None
        },
    }
}

/// The content of the ignore file a fresh project gets: `/packages`
/// and a newline.
pub open spec fn gitignore_spec() -> Seq<u8> {
    seq![47u8, 112u8, 97u8, 99u8, 107u8, 97u8, 103u8, 101u8, 115u8, 10u8]
}

/// Loads manifest file content: absent content gives the default
/// manifest under the caller-supplied project name; present content
/// must parse.
pub fn load_manifest(content: Option<&Vec<u8>>, project_name: Vec<u8>) -> (r: Result<
    Manifest,
    PkgError,
>)
    ensures
        r matches Ok(m) ==> load_model(view_content(content), project_name@) == Some(m@)
            && manifest_wf(m@),
        r matches Err(_) ==> load_model(view_content(content), project_name@) is None,
        r matches Err(e) ==> (match content {
            Some(_) => e == PkgError::MalformedManifest,
            None => e == PkgError::BadRequest,
        }),
{
    match content {
        None => {
            if project_name.len() == 0 || !check_str_ok(&project_name) {
                return Err(PkgError::BadRequest);
            }
            let m = Manifest::default_for(project_name);
            Ok(m)
        },
        Some(c) => Manifest::parse(c),
    }
}

/// The content as the specification sees it.
pub open spec fn view_content(content: Option<&Vec<u8>>) -> Option<Seq<u8>> {
    match content {
        None => None,
        Some(c) => Some(c@),
    }
}

/// The read-modify-write step behind recording an installed dependency:
/// loads the manifest from the given file content (or the default under
/// the caller-supplied project name when the file is absent), records
/// `key -> latest`, and returns the new file content.
pub fn update_manifest_content(
    content: Option<&Vec<u8>>,
    project_name: Vec<u8>,
    key: Vec<u8>,
) -> (r: Result<Vec<u8>, PkgError>)
    ensures
        r matches Ok(t) ==> (match updated_model(view_content(content), project_name@, key@) {
            Some(mm) => t@ == emit_manifest(mm),
            None => false,
        }),
        updated_model(view_content(content), project_name@, key@) matches Some(_) ==> r is Ok,
        r matches Err(e) ==> (e == PkgError::MalformedManifest && load_model(
            view_content(content),
            project_name@,
        ) is None) || e == PkgError::BadRequest,
        (content matches Some(_) && load_model(view_content(content), project_name@) is None)
            ==> (r matches Err(e) && e == PkgError::MalformedManifest),
{
    let mut m = match load_manifest(content, project_name) {
        Err(e) => {
            return Err(e);
        },
        Ok(m) => m,
    };
    match m.add_dependency(key) {
        Err(e) => Err(e),
        Ok(()) => Ok(m.to_text()),
    }
}

/// Recording a dependency under a sound key keeps the manifest
/// well-formed.
proof fn lemma_add_dep_keeps_wf(m: ManifestModel, key: Seq<u8>)
    requires
        manifest_wf(m),
        key.len() > 0,
        str_ok(key),
    ensures
        manifest_wf(ManifestModel { name: m.name, version: m.version, deps: add_dep_spec(m.deps, key) }),
{
    let d2 = add_dep_spec(m.deps, key);
    assert(str_ok(latest_spec())) by {
        assert forall|i: int| 0 <= i < latest_spec().len() implies crate::manifest::text_ok(
            latest_spec()[i],
        ) by {
        }
    }
    if has_key(m.deps, key) {
        let w = choose|i: int| 0 <= i < m.deps.len() && m.deps[i].0 == key;
        assert(d2 == m.deps.update(w, (key, latest_spec())));
        assert forall|i: int|
            0 <= i < d2.len() implies #[trigger] d2[i].0.len() > 0 && str_ok(d2[i].0) && str_ok(
            d2[i].1,
        ) by {
            if i != w {
                assert(d2[i] == m.deps[i]);
                assert(m.deps[i].0.len() > 0 && str_ok(m.deps[i].0) && str_ok(m.deps[i].1));
            }
        }
        assert forall|i: int, j: int| 0 <= i < j < d2.len() implies d2[i].0 != d2[j].0 by {
            assert(m.deps[i].0 != m.deps[j].0);
        }
    } else {
        assert(d2 == m.deps.push((key, latest_spec())));
        let n = m.deps.len() as int;
        assert forall|i: int|
            0 <= i < d2.len() implies #[trigger] d2[i].0.len() > 0 && str_ok(d2[i].0) && str_ok(
            d2[i].1,
        ) by {
            if i < n {
                assert(d2[i] == m.deps[i]);
                assert(m.deps[i].0.len() > 0 && str_ok(m.deps[i].0) && str_ok(m.deps[i].1));
            }
        }
        assert forall|i: int, j: int| 0 <= i < j < d2.len() implies d2[i].0 != d2[j].0 by {
            if j < n {
                assert(d2[i] == m.deps[i] && d2[j] == m.deps[j]);
                assert(m.deps[i].0 != m.deps[j].0);
            } else {
                if i < n {
                    assert(d2[i] == m.deps[i]);
                    assert(m.deps[i].0 != key) by {
                        if m.deps[i].0 == key {
                            assert(has_key(m.deps, key));
                        }
                    }
                }
            }
        }
    }
}

/// Whatever the read-modify-write step writes back is a well-formed
/// manifest.
pub proof fn lemma_updated_model_wf(content: Option<Seq<u8>>, project_name: Seq<u8>, key: Seq<u8>)
    ensures
        updated_model(content, project_name, key) matches Some(mm) ==> manifest_wf(mm),
{
    match load_model(content, project_name) {
        None => {},
        Some(loaded) => {
            if content is None {
                assert(str_ok(default_version_spec())) by {
                    assert forall|i: int|
                        0 <= i < default_version_spec().len() implies crate::manifest::text_ok(
                        default_version_spec()[i],
                    ) by {
                    }
                }
                assert(manifest_wf(loaded));
            }
            if key.len() > 0 && str_ok(key) {
                lemma_add_dep_keeps_wf(loaded, key);
            }
        },
    }
}

/// The merge round trip: the file content the read-modify-write step
/// writes back parses to exactly the merged manifest — the loaded
/// name, the loaded version, and the loaded dependencies with only the
/// given key inserted or overwritten to `latest`.
pub proof fn lemma_update_round_trip(content: Option<Seq<u8>>, project_name: Seq<u8>, key: Seq<u8>)
    ensures
        updated_model(content, project_name, key) matches Some(mm) ==> parse_manifest_text(
            emit_manifest(mm),
        ) == Some(mm),
{
    lemma_updated_model_wf(content, project_name, key);
    match updated_model(content, project_name, key) {
        None => {},
        Some(mm) => {
            lemma_manifest_text_round_trip(mm);
        },
    }
}

/// The key under which an npm-installed dependency is recorded.
pub fn npm_key(name: &Vec<u8>) -> (r: Vec<u8>)
    ensures
        r@ == npm_key_spec(name@),
{
    let mut out: Vec<u8> = Vec::new();
    out.push(110);
    out.push(112);
    out.push(109);
    out.push(47);
    let n = name.len();
    for i in 0..n
        invariant
            n == name@.len(),
            out@ == seq![110u8, 112u8, 109u8, 47u8] + name@.take(i as int),
    {
        out.push(name[i]);
        proof {
            assert(seq![110u8, 112u8, 109u8, 47u8] + name@.take(i as int) + seq![name@[i as int]]
                =~= seq![110u8, 112u8, 109u8, 47u8] + name@.take(i as int + 1));
        }
    }
    proof {
        assert(out@ =~= npm_key_spec(name@));
    }
    out
}

/// The content of the ignore file a fresh project gets.
pub fn gitignore_content() -> (r: Vec<u8>)
    ensures
        r@ == gitignore_spec(),
{
    let mut out: Vec<u8> = Vec::new();
    out.push(47);
    out.push(112);
    out.push(97);
    out.push(99);
    out.push(107);
    out.push(97);
    out.push(103);
    out.push(101);
    out.push(115);
    out.push(10);
    proof {
        assert(out@ =~= gitignore_spec());
    }
    out
}

/// What project initialisation writes: the manifest file and the ignore
/// file, each only where it does not exist yet.
pub struct InitPlan {
    pub manifest: Option<Vec<u8>>,
    pub gitignore: Option<Vec<u8>>,
}

/// Plans project initialisation. A file that already exists is left
/// untouched; a missing manifest is created under the given project
/// name with version `0.1.0` and no dependencies; a missing ignore
/// file is created excluding `/packages`. A project name that is empty
/// or cannot stand in the manifest text is refused.
pub fn plan_init(name: Vec<u8>, manifest_exists: bool, gitignore_exists: bool) -> (r: Result<
    InitPlan,
    PkgError,
>)
    ensures
        r matches Ok(p) ==> {
            &&& name@.len() > 0 && str_ok(name@)
            &&& (p.manifest matches Some(t) ==> !manifest_exists && t@ == emit_manifest(
                default_model(name@),
            ))
            &&& (p.manifest is None <==> manifest_exists)
            &&& (p.gitignore matches Some(t) ==> !gitignore_exists && t@ == gitignore_spec())
            &&& (p.gitignore is None <==> gitignore_exists)
        },
        r matches Err(e) ==> e == PkgError::BadRequest && !(name@.len() > 0 && str_ok(name@)),
{
    if name.len() == 0 || !check_str_ok(&name) {
        return Err(PkgError::BadRequest);
    }
    let gitignore = if gitignore_exists {
        None
    } else {
        Some(gitignore_content())
    };
    let manifest = if manifest_exists {
        None
    } else {
        let m = Manifest::default_for(name);
        Some(m.to_text())
    };
    Ok(InitPlan { manifest, gitignore })
}

} // verus!
