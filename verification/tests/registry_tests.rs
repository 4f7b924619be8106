use mpkg::{status_code, PkgError};
use mpkg::protocol::{loader_rel_path, package_rel_path, Part, Registry};
use mpkg::store::ContentStore;

#[test]
fn get_of_unknown_id_is_not_found() {
    let store = ContentStore::new();
    assert_eq!(
        store.get(&b"does-not-exist".to_vec()),
        Err(PkgError::NotFound)
    );
}

#[test]
fn two_puts_are_isolated() {
    let mut store = ContentStore::new();
    let id1 = store.put(b"first archive".to_vec()).unwrap();
    let id2 = store.put(b"second archive".to_vec()).unwrap();
    assert_ne!(id1, id2);
    assert_eq!(store.get(&id1).unwrap(), &b"first archive".to_vec());
    assert_eq!(store.get(&id2).unwrap(), &b"second archive".to_vec());
    let ids = store.list();
    assert!(ids.contains(&id1));
    assert!(ids.contains(&id2));
    assert_eq!(ids.len(), 2);
}

#[test]
fn generated_ids_look_like_identifiers() {
    let mut store = ContentStore::new();
    let id = store.put(b"x".to_vec()).unwrap();
    assert_eq!(id.len(), 36);
    assert!(id
        .iter()
        .all(|c| c.is_ascii_digit() || (b'a'..=b'f').contains(c) || *c == b'-'));
}

#[test]
fn put_with_taken_id_is_a_conflict() {
    let mut store = ContentStore::new();
    store.put_with_id(b"abc".to_vec(), b"1".to_vec()).unwrap();
    assert_eq!(
        store.put_with_id(b"abc".to_vec(), b"2".to_vec()),
        Err(PkgError::Conflict)
    );
    assert_eq!(store.get(&b"abc".to_vec()).unwrap(), &b"1".to_vec());
}

#[test]
fn upload_then_list_then_download() {
    let mut registry = Registry::new();
    let parts = vec![
        Part {
            name: b"manifest".to_vec(),
            data: b"{\"name\":\"demo\",\"version\":\"1.0.0\"}".to_vec(),
        },
        Part { name: b"file".to_vec(), data: b"0123456789".to_vec() },
    ];
    let (echo, id) = registry.handle_upload(&parts).unwrap();
    assert_eq!(echo.name, b"demo".to_vec());
    assert_eq!(echo.version, b"1.0.0".to_vec());
    let id = id.expect("a stored file gets an id");
    let ids = registry.handle_list();
    assert_eq!(ids.len(), 1);
    assert_eq!(ids[0], id);
    let bytes = registry.handle_download(&id).unwrap();
    assert_eq!(bytes, &b"0123456789".to_vec());
}

#[test]
fn upload_without_manifest_is_a_bad_request() {
    let mut registry = Registry::new();
    let parts = vec![Part { name: b"file".to_vec(), data: b"0123456789".to_vec() }];
    assert_eq!(registry.handle_upload(&parts), Err(PkgError::BadRequest));
    assert_eq!(registry.handle_list().len(), 0);
}

#[test]
fn upload_with_bad_manifest_is_malformed() {
    let mut registry = Registry::new();
    let parts = vec![Part { name: b"manifest".to_vec(), data: b"not json".to_vec() }];
    assert_eq!(
        registry.handle_upload(&parts),
        Err(PkgError::MalformedManifest)
    );
}

#[test]
fn unknown_parts_are_ignored_and_later_parts_win() {
    let mut registry = Registry::new();
    let parts = vec![
        Part { name: b"extra".to_vec(), data: b"ignored".to_vec() },
        Part {
            name: b"manifest".to_vec(),
            data: b"{\"name\":\"old\",\"version\":\"0.0.1\"}".to_vec(),
        },
        Part {
            name: b"manifest".to_vec(),
            data: b"{\"name\":\"new\",\"version\":\"2.0.0\"}".to_vec(),
        },
    ];
    let (echo, id) = registry.handle_upload(&parts).unwrap();
    assert_eq!(echo.name, b"new".to_vec());
    assert!(id.is_none());
    assert_eq!(registry.handle_list().len(), 0);
}

#[test]
fn download_of_unknown_id_is_not_found() {
    let registry = Registry::new();
    assert_eq!(
        registry.handle_download(&b"does-not-exist".to_vec()),
        Err(PkgError::NotFound)
    );
}

#[test]
fn package_paths_are_formed_only_for_plausible_ids() {
    assert_eq!(
        package_rel_path(&b"1234-abcd".to_vec()).unwrap(),
        b"storage/1234-abcd/package.zip".to_vec()
    );
    assert_eq!(
        package_rel_path(&b"../secret".to_vec()),
        Err(PkgError::NotFound)
    );
    assert_eq!(package_rel_path(&Vec::new()), Err(PkgError::NotFound));
}

#[test]
fn loader_paths_are_formed_only_for_plausible_versions() {
    assert_eq!(
        loader_rel_path(&b"latest".to_vec(), false).unwrap(),
        b"loader/latest/bootstrap.mjs".to_vec()
    );
    assert_eq!(
        loader_rel_path(&b"latest".to_vec(), true).unwrap(),
        b"loader/latest/mpkg-loader.mjs".to_vec()
    );
    assert_eq!(
        loader_rel_path(&b"..".to_vec(), false),
        Err(PkgError::NotFound)
    );
    assert_eq!(
        loader_rel_path(&b"a/b".to_vec(), true),
        Err(PkgError::NotFound)
    );
}

#[test]
fn errors_map_to_their_status_codes() {
    assert_eq!(status_code(&PkgError::NotFound), 404);
    assert_eq!(status_code(&PkgError::BadRequest), 400);
    assert_eq!(status_code(&PkgError::CorruptArchive), 400);
    assert_eq!(status_code(&PkgError::MalformedManifest), 400);
    assert_eq!(status_code(&PkgError::PathTraversal), 400);
    assert_eq!(status_code(&PkgError::IoError), 500);
    assert_eq!(status_code(&PkgError::Conflict), 409);
}
