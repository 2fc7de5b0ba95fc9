use cargo_override::source::{git_source, path_source, resolve_path, source};
use cargo_override::{patch_manifest, GitReference, Mode, Operation, PatchError};

const MANIFEST: &str = r###"[package]
name = "package-name"
version = "0.1.0"
edition = "2021"

# See more keys and their definitions at https://doc.rust-lang.org/cargo/reference/manifest.html

[patch.crates-io]
test = { git = "https://github.com/test/test.git" }

[patch.github]
test1 = { git = "https://github.com/test/test1.git" }
"###;

const DIR: &str = "/path/to/working/dir/";

fn add(manifest: &str, registry: &str, name: &str, mode: &Mode) -> Result<String, PatchError> {
    patch_manifest(DIR, manifest, DIR, Operation::Add { registry, name, mode })
}

fn remove(manifest: &str, name: &str) -> Result<String, PatchError> {
    patch_manifest(DIR, manifest, DIR, Operation::Remove { name })
}

fn git(url: &str) -> Mode {
    Mode::Git {
        url: url.to_string(),
        reference: GitReference::DefaultBranch,
    }
}

#[test]
fn test_patch_manifest() {
    let manifest_after_adding = patch_manifest(
        "/path/to/working/dir/",
        MANIFEST,
        "/path/to/working/dir/",
        Operation::Add {
            registry: "crates-io",
            name: "test2",
            mode: &Mode::Path("/path/to/local/crate/test2".to_string()),
        },
    )
    .unwrap();

    assert_eq!(
        manifest_after_adding,
        r###"[package]
name = "package-name"
version = "0.1.0"
edition = "2021"

# See more keys and their definitions at https://doc.rust-lang.org/cargo/reference/manifest.html

[patch.crates-io]
test = { git = "https://github.com/test/test.git" }
test2 = { path = "/path/to/local/crate/test2" }

[patch.github]
test1 = { git = "https://github.com/test/test1.git" }
"###
    );

    let manifest_after_removing = patch_manifest(
        "/path/to/working/dir/",
        MANIFEST,
        "/path/to/working/dir/",
        Operation::Remove { name: "test" },
    )
    .unwrap();

    assert_eq!(
        manifest_after_removing,
        r###"[package]
name = "package-name"
version = "0.1.0"
edition = "2021"

[patch.github]
test1 = { git = "https://github.com/test/test1.git" }
"###
    );
}

#[test]
fn removing_an_emptied_registry_drops_the_comment_before_it() {
    let after = remove(MANIFEST, "test").unwrap();
    assert_eq!(
        after,
        r###"[package]
name = "package-name"
version = "0.1.0"
edition = "2021"

[patch.github]
test1 = { git = "https://github.com/test/test1.git" }
"###
    );
}

#[test]
fn add_then_remove_gives_back_the_manifest() {
    let added = add(MANIFEST, "github", "extra", &git("https://example.com/extra.git")).unwrap();
    assert!(added.contains("extra = { git = \"https://example.com/extra.git\" }"));
    assert_eq!(remove(&added, "extra").unwrap(), MANIFEST);
}

#[test]
fn add_to_a_new_registry_then_remove_gives_back_the_manifest() {
    let added = add(MANIFEST, "my-registry", "extra", &git("https://example.com/x.git")).unwrap();
    assert!(added.contains("[patch.my-registry]"));
    assert_eq!(remove(&added, "extra").unwrap(), MANIFEST);
}

#[test]
fn second_add_replaces_the_first() {
    let first = add(MANIFEST, "crates-io", "test2", &git("https://example.com/one.git")).unwrap();
    let twice = add(&first, "crates-io", "test2", &Mode::Path("local/two".to_string())).unwrap();
    let once = add(MANIFEST, "crates-io", "test2", &Mode::Path("local/two".to_string())).unwrap();
    assert_eq!(twice, once);
    assert!(once.contains("test2 = { path = \"local/two\" }"));
    assert!(!twice.contains("one.git"));
}

#[test]
fn add_overwrites_an_existing_entry() {
    let after = add(MANIFEST, "crates-io", "test", &Mode::Path("here".to_string())).unwrap();
    assert!(after.contains("test = { path = \"here\" }"));
    assert!(!after.contains("test/test.git"));
}

#[test]
fn removing_an_unknown_name_changes_nothing() {
    assert_eq!(remove(MANIFEST, "nothing-here").unwrap(), MANIFEST);
}

#[test]
fn removing_without_a_patch_table_changes_nothing() {
    let manifest = "[package]\nname = \"a\"\n";
    assert_eq!(remove(manifest, "a").unwrap(), manifest);
}

#[test]
fn removing_the_last_entry_removes_the_registry() {
    let after = remove(MANIFEST, "test1").unwrap();
    assert!(!after.contains("[patch.github]"));
    assert!(after.contains("[patch.crates-io]\ntest = { git = \"https://github.com/test/test.git\" }\n"));
}

#[test]
fn removing_a_name_takes_it_from_every_registry() {
    let manifest = "[patch.a]\nx = { path = \"1\" }\ny = { path = \"2\" }\n\n[patch.b]\nx = { path = \"3\" }\n";
    let after = remove(manifest, "x").unwrap();
    assert_eq!(after, "[patch.a]\ny = { path = \"2\" }\n");
}

#[test]
fn adding_to_an_empty_manifest_writes_dotted_keys() {
    let after = add("", "crates-io", "foo", &Mode::Path("../foo".to_string())).unwrap();
    assert!(after.contains("crates-io"));
    assert!(after.contains("foo = { path = \"../foo\" }"));
    assert!(!after.contains("[patch]"));
    assert_eq!(remove(&after, "foo").unwrap().contains("foo"), false);
}

#[test]
fn invalid_toml_is_refused() {
    match add("[package", "crates-io", "a", &git("u")) {
        Err(PatchError::InvalidDocument(message)) => assert!(!message.is_empty()),
        other => panic!("unexpected {:?}", other),
    }
    assert!(matches!(remove("= 1", "a"), Err(PatchError::InvalidDocument(_))));
}

#[test]
fn patch_that_is_not_a_table_is_a_conflict() {
    assert_eq!(
        add("patch = 1\n", "crates-io", "a", &git("u")),
        Err(PatchError::SchemaConflict("patch".to_string()))
    );
    assert_eq!(
        remove("patch = 1\n", "a"),
        Err(PatchError::SchemaConflict("patch".to_string()))
    );
}

#[test]
fn registry_that_is_not_a_table_is_a_conflict() {
    let manifest = "[patch]\ncrates-io = \"x\"\n";
    assert_eq!(
        add(manifest, "crates-io", "a", &git("u")),
        Err(PatchError::SchemaConflict("crates-io".to_string()))
    );
    assert_eq!(
        remove(manifest, "a"),
        Err(PatchError::SchemaConflict("crates-io".to_string()))
    );
}

#[test]
fn a_value_that_does_not_parse_is_refused() {
    assert_eq!(
        add(MANIFEST, "crates-io", "a", &Mode::Path("bad\"quote".to_string())),
        Err(PatchError::UnparseableGeneratedValue)
    );
}

#[test]
fn same_directories_keep_the_path() {
    assert_eq!(resolve_path("/w", "/w", "some/rel"), Ok("some/rel".to_string()));
    assert_eq!(resolve_path("/w", "/w", "/abs/p"), Ok("/abs/p".to_string()));
}

#[test]
fn different_directories_give_a_relative_path() {
    assert_eq!(resolve_path("/usr", "/usr/lib", "local/x"), Ok("../local/x".to_string()));
    assert_eq!(resolve_path("/a/b", "/a", "c"), Ok("b/c".to_string()));
    assert_eq!(resolve_path("/a/b", "/a/d", "/x/y"), Ok("../../x/y".to_string()));
}

#[test]
fn relative_path_against_absolute_directory_fails() {
    assert_eq!(
        resolve_path("rel", "/abs", "x"),
        Err(PatchError::PathDiffInvariantViolation)
    );
}

#[test]
fn path_source_in_another_directory() {
    assert_eq!(
        source("/a/b", "/a", &Mode::Path("c".to_string())),
        Ok("{ path = \"b/c\" }".to_string())
    );
    let after = patch_manifest(
        "/a/b",
        MANIFEST,
        "/a",
        Operation::Add { registry: "crates-io", name: "c", mode: &Mode::Path("c".to_string()) },
    )
    .unwrap();
    assert!(after.contains("c = { path = \"b/c\" }"));
}

#[test]
fn git_sources() {
    let url = "https://example.com/r.git";
    assert_eq!(git_source(url, &GitReference::DefaultBranch), "{ git = \"https://example.com/r.git\" }");
    assert_eq!(
        git_source(url, &GitReference::Tag("v1".to_string())),
        "{ git = \"https://example.com/r.git\", tag = \"v1\" }"
    );
    assert_eq!(
        git_source(url, &GitReference::Rev("abc123".to_string())),
        "{ git = \"https://example.com/r.git\", rev = \"abc123\" }"
    );
    assert_eq!(
        git_source(url, &GitReference::Branch("main".to_string())),
        "{ git = \"https://example.com/r.git\", branch = \"main\" }"
    );
    assert_eq!(path_source("p/q"), "{ path = \"p/q\" }");
}

#[test]
fn git_entry_in_manifest() {
    let mode = Mode::Git {
        url: "https://example.com/r.git".to_string(),
        reference: GitReference::Branch("dev".to_string()),
    };
    let after = add(MANIFEST, "crates-io", "r", &mode).unwrap();
    assert!(after.contains("r = { git = \"https://example.com/r.git\", branch = \"dev\" }\n\n[patch.github]"));
}

#[test]
fn removing_after_adding_keeps_the_new_entry() {
    let added = add(MANIFEST, "crates-io", "test2", &Mode::Path("/path/to/local/crate/test2".to_string())).unwrap();
    let after = remove(&added, "test").unwrap();
    assert!(after.contains("[patch.crates-io]\ntest2 = { path = \"/path/to/local/crate/test2\" }\n"));
    assert!(!after.contains("test = {"));
    assert!(after.contains("[patch.github]\ntest1 = { git = \"https://github.com/test/test1.git\" }\n"));
}

#[test]
fn a_registry_that_was_already_empty_stays() {
    let manifest = "[patch.a]\n\n[patch.b]\nx = { path = \"1\" }\n";
    assert_eq!(remove(manifest, "nothing-here").unwrap(), manifest);
    assert_eq!(remove(manifest, "x").unwrap(), "[patch.a]\n");
}

#[test]
fn directories_written_differently_are_the_same() {
    assert_eq!(resolve_path("/w/", "/w", "/abs"), Ok("/abs".to_string()));
    assert_eq!(resolve_path("/w", "/w/", "rel/p"), Ok("rel/p".to_string()));
}

#[test]
fn adding_sets_the_layout() {
    let after = add("[patch]\n", "crates-io", "foo", &git("u")).unwrap();
    assert_eq!(after, "[patch.crates-io]\nfoo = { git = \"u\" }\n");
}

#[test]
fn a_conflict_is_reported_before_the_value_is_built() {
    let bad = Mode::Path("bad\"quote".to_string());
    assert_eq!(
        add("patch = 1\n", "crates-io", "a", &bad),
        Err(PatchError::SchemaConflict("patch".to_string()))
    );
    assert_eq!(
        add("[patch]\ncrates-io = \"x\"\n", "crates-io", "a", &bad),
        Err(PatchError::SchemaConflict("crates-io".to_string()))
    );
    let unreachable_dir = patch_manifest(
        "rel",
        "patch = 1\n",
        "/abs",
        Operation::Add { registry: "crates-io", name: "a", mode: &Mode::Path("x".to_string()) },
    );
    assert_eq!(unreachable_dir, Err(PatchError::SchemaConflict("patch".to_string())));
}
