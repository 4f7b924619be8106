use mpkg::PkgError;
use mpkg::manifest::Manifest;
use mpkg::project::{load_manifest, plan_init, update_manifest_content, npm_key, gitignore_content};

#[test]
fn default_manifest_has_version_0_1_0() {
    let m = Manifest::default_for(b"test-project".to_vec());
    assert_eq!(m.name, b"test-project".to_vec());
    assert_eq!(m.version, b"0.1.0".to_vec());
    assert_eq!(m.deps.len(), 0);
}

#[test]
fn manifest_text_round_trips() {
    let mut m = Manifest::default_for(b"demo".to_vec());
    m.add_dependency(b"left-pad".to_vec()).unwrap();
    m.add_dependency(b"npm/chalk".to_vec()).unwrap();
    let text = m.to_text();
    let back = Manifest::parse(&text).unwrap();
    assert_eq!(back.name, m.name);
    assert_eq!(back.version, m.version);
    assert_eq!(back.deps.len(), 2);
    assert_eq!(back.deps[0].key, b"left-pad".to_vec());
    assert_eq!(back.deps[0].constraint, b"latest".to_vec());
    assert_eq!(back.deps[1].key, b"npm/chalk".to_vec());
}

#[test]
fn manifest_text_is_exact() {
    let m = Manifest::default_for(b"myproj".to_vec());
    assert_eq!(
        m.to_text(),
        b"{\"name\":\"myproj\",\"version\":\"0.1.0\",\"dependencies\":{}}".to_vec()
    );
}

#[test]
fn add_dependency_twice_is_idempotent() {
    let mut m = Manifest::default_for(b"demo".to_vec());
    m.add_dependency(b"foo".to_vec()).unwrap();
    let once = m.to_text();
    m.add_dependency(b"foo".to_vec()).unwrap();
    let twice = m.to_text();
    assert_eq!(once, twice);
    assert_eq!(m.deps.len(), 1);
    assert_eq!(m.deps[0].key, b"foo".to_vec());
    assert_eq!(m.deps[0].constraint, b"latest".to_vec());
}

#[test]
fn add_dependency_overwrites_constraint() {
    let text = b"{\"name\":\"demo\",\"version\":\"0.1.0\",\"dependencies\":{\"foo\":\"1.2.3\"}}"
        .to_vec();
    let out = update_manifest_content(Some(&text), b"demo".to_vec(), b"foo".to_vec()).unwrap();
    let m = Manifest::parse(&out).unwrap();
    assert_eq!(m.deps.len(), 1);
    assert_eq!(m.deps[0].constraint, b"latest".to_vec());
}

#[test]
fn add_dependency_rejects_empty_key() {
    let mut m = Manifest::default_for(b"demo".to_vec());
    assert_eq!(m.add_dependency(Vec::new()), Err(PkgError::BadRequest));
}

#[test]
fn parse_rejects_junk() {
    assert_eq!(
        Manifest::parse(&b"junk".to_vec()),
        Err(PkgError::MalformedManifest)
    );
}

#[test]
fn parse_rejects_duplicate_keys() {
    let text =
        b"{\"name\":\"d\",\"version\":\"1\",\"dependencies\":{\"a\":\"latest\",\"a\":\"latest\"}}"
            .to_vec();
    assert_eq!(Manifest::parse(&text), Err(PkgError::MalformedManifest));
}

#[test]
fn parse_rejects_empty_name() {
    let text = b"{\"name\":\"\",\"version\":\"0.1.0\",\"dependencies\":{}}".to_vec();
    assert_eq!(Manifest::parse(&text), Err(PkgError::MalformedManifest));
}

#[test]
fn parse_accepts_missing_dependencies() {
    let m = Manifest::parse(&b"{\"name\":\"demo\",\"version\":\"1.0.0\"}".to_vec()).unwrap();
    assert_eq!(m.name, b"demo".to_vec());
    assert_eq!(m.version, b"1.0.0".to_vec());
    assert_eq!(m.deps.len(), 0);
}

#[test]
fn update_without_file_uses_the_callers_project_name() {
    let out = update_manifest_content(None, b"myproj".to_vec(), b"leftpad".to_vec()).unwrap();
    let m = Manifest::parse(&out).unwrap();
    assert_eq!(m.name, b"myproj".to_vec());
    assert_eq!(m.version, b"0.1.0".to_vec());
    assert_eq!(m.deps.len(), 1);
    assert_eq!(m.deps[0].key, b"leftpad".to_vec());
    assert_eq!(m.deps[0].constraint, b"latest".to_vec());
}

#[test]
fn load_manifest_of_absent_file_is_default() {
    let m = load_manifest(None, b"myproj".to_vec()).unwrap();
    assert_eq!(m.name, b"myproj".to_vec());
    assert_eq!(m.version, b"0.1.0".to_vec());
}

#[test]
fn update_without_file_rejects_a_bad_project_name() {
    assert_eq!(
        update_manifest_content(None, Vec::new(), b"leftpad".to_vec()),
        Err(PkgError::BadRequest)
    );
}

#[test]
fn add_dependency_rejects_unquotable_key() {
    let mut m = Manifest::default_for(b"demo".to_vec());
    assert_eq!(
        m.add_dependency(b"bad\"key".to_vec()),
        Err(PkgError::BadRequest)
    );
    assert_eq!(
        m.add_dependency(b"bad\\key".to_vec()),
        Err(PkgError::BadRequest)
    );
    assert_eq!(m.deps.len(), 0);
}

#[test]
fn parse_accepts_whitespace() {
    let text = b"{\n  \"name\": \"demo\",\n  \"version\": \"1.0.0\",\n  \"dependencies\": {\n    \"foo\": \"latest\"\n  }\n}\n".to_vec();
    let m = Manifest::parse(&text).unwrap();
    assert_eq!(m.name, b"demo".to_vec());
    assert_eq!(m.version, b"1.0.0".to_vec());
    assert_eq!(m.deps.len(), 1);
    assert_eq!(m.deps[0].key, b"foo".to_vec());
}

#[test]
fn parse_ignores_unknown_fields() {
    let text =
        b"{\"name\":\"demo\",\"version\":\"1.0.0\",\"description\":\"a demo package\"}".to_vec();
    let m = Manifest::parse(&text).unwrap();
    assert_eq!(m.name, b"demo".to_vec());
    assert_eq!(m.version, b"1.0.0".to_vec());
    assert_eq!(m.deps.len(), 0);
}

#[test]
fn parse_accepts_any_field_order() {
    let text = b"{\"version\":\"2.0.0\",\"dependencies\":{},\"name\":\"demo\"}".to_vec();
    let m = Manifest::parse(&text).unwrap();
    assert_eq!(m.name, b"demo".to_vec());
    assert_eq!(m.version, b"2.0.0".to_vec());
}

#[test]
fn parse_rejects_escapes_and_duplicate_fields() {
    let text = b"{\"name\":\"de\\\\mo\",\"version\":\"1.0.0\"}".to_vec();
    assert_eq!(Manifest::parse(&text), Err(PkgError::MalformedManifest));
    let text = b"{\"name\":\"a\",\"name\":\"b\",\"version\":\"1.0.0\"}".to_vec();
    assert_eq!(Manifest::parse(&text), Err(PkgError::MalformedManifest));
}

#[test]
fn npm_key_is_prefixed() {
    assert_eq!(npm_key(&b"chalk".to_vec()), b"npm/chalk".to_vec());
}

#[test]
fn init_creates_manifest_and_gitignore() {
    let plan = plan_init(b"test-project".to_vec(), false, false).unwrap();
    let manifest = plan.manifest.expect("pkg.jsonc should be created");
    assert_eq!(
        manifest,
        b"{\"name\":\"test-project\",\"version\":\"0.1.0\",\"dependencies\":{}}".to_vec()
    );
    let gitignore = plan.gitignore.expect(".gitignore should be created");
    assert_eq!(gitignore, b"/packages\n".to_vec());
}

#[test]
fn init_gitignore_contains_packages() {
    let plan = plan_init(b"my-project".to_vec(), true, false).unwrap();
    assert!(plan.manifest.is_none());
    assert_eq!(plan.gitignore.unwrap(), gitignore_content());
}

#[test]
fn init_skips_existing_files() {
    let plan = plan_init(b"test-project".to_vec(), true, true).unwrap();
    assert!(plan.manifest.is_none(), "pkg.jsonc already exists");
    assert!(plan.gitignore.is_none(), ".gitignore already exists");
}
