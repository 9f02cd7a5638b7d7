use codewatch::index::{get_index_path, key_from_digest, normalize_relative_path, path_to_hash, resolve_to_relative_path};
use codewatch::paths::{join_path, parent_dir};

#[test]
fn test_path_to_hash() {
    let hash1 = path_to_hash("src/main.rs");
    let hash2 = path_to_hash("src/main.rs");
    let hash3 = path_to_hash("src/commands/mod.rs");

    assert_eq!(hash1.len(), 16);
    assert_eq!(hash1, hash2);
    assert_ne!(hash1, hash3);
}

#[test]
fn path_to_hash_is_sha256_prefix() {
    // SHA-256("abc") = ba7816bf8f01cfea414140de5dae2223...
    assert_eq!(path_to_hash("abc"), "ba7816bf8f01cfea");
    // SHA-256("") = e3b0c44298fc1c14...
    assert_eq!(path_to_hash(""), "e3b0c44298fc1c14");
}

#[test]
fn test_normalize_relative_path() {
    assert_eq!(normalize_relative_path("a/b/../c"), "a/c");
    assert_eq!(normalize_relative_path("a/./b"), "a/b");
    assert_eq!(normalize_relative_path("a/b/c"), "a/b/c");
}

#[test]
fn normalize_relative_path_edges() {
    assert_eq!(normalize_relative_path(""), "");
    assert_eq!(normalize_relative_path("/x//y/"), "x/y");
    assert_eq!(normalize_relative_path("../a"), "a");
    assert_eq!(normalize_relative_path("./a/../../b"), "b");
    assert_eq!(normalize_relative_path(".hidden/./f.rs"), ".hidden/f.rs");
    let once = normalize_relative_path("q/./r/../s//t");
    assert_eq!(normalize_relative_path(&once), once);
}

#[test]
fn test_resolve_to_relative_path() {
    let root = "/workspace";
    // Relative input, read from a current directory outside the root.
    let resolved = resolve_to_relative_path(root, "src/main.rs", Some("/home/user/src/main.rs")).unwrap();
    assert_eq!(resolved, "src/main.rs");

    // Absolute input within root
    let resolved_abs = resolve_to_relative_path(
        root,
        "/workspace/src/commands/init.rs",
        Some("/workspace/src/commands/init.rs"),
    )
    .unwrap();
    assert_eq!(resolved_abs, "src/commands/init.rs");
}

#[test]
fn resolve_to_relative_path_cases() {
    // Read from inside the project.
    assert_eq!(
        resolve_to_relative_path("/p", "../p/x.rs", Some("/p/sub/../p/x.rs")).as_deref(),
        Some("p/x.rs")
    );
    // No current directory: relative input taken as relative to the root.
    assert_eq!(resolve_to_relative_path("/p", "a/./b.rs", None).as_deref(), Some("a/b.rs"));
    // Absolute input outside the root.
    assert_eq!(resolve_to_relative_path("/p", "/q/b.rs", Some("/q/b.rs")), None);
    // Components, not text, must match: "/pp" is not under "/p".
    assert_eq!(resolve_to_relative_path("/p", "/pp/b.rs", None), None);
}

#[test]
fn index_path_and_joins() {
    assert_eq!(get_index_path("/w"), "/w/.codewatch/index.json");
    assert_eq!(get_index_path("/w/"), "/w/.codewatch/index.json");
    assert_eq!(get_index_path(""), ".codewatch/index.json");
    assert_eq!(join_path("/a", "/b"), "/b");
}

#[test]
fn parent_dir_cases() {
    assert_eq!(parent_dir("/a/b").as_deref(), Some("/a"));
    assert_eq!(parent_dir("/a").as_deref(), Some("/"));
    assert_eq!(parent_dir("/"), None);
    assert_eq!(parent_dir("a").as_deref(), Some(""));
    assert_eq!(parent_dir(""), None);
    assert_eq!(parent_dir("/a//b/").as_deref(), Some("/a"));
}

#[test]
fn resolve_forms_give_same_key() {
    let root = "/w";
    let a = resolve_to_relative_path(root, "src/./x/../a.rs", None).unwrap();
    let b = resolve_to_relative_path(root, "/w/src/./x/../a.rs", None).unwrap();
    let c = resolve_to_relative_path(root, "src/./x/../a.rs", Some("/w/src/./x/../a.rs")).unwrap();
    assert_eq!(a, "src/a.rs");
    assert_eq!(a, b);
    assert_eq!(a, c);
    assert_eq!(path_to_hash(&a), path_to_hash(&b));
}

#[test]
fn key_from_digest_takes_sixteen_hex_digits() {
    assert_eq!(key_from_digest(&[0xba, 0x78, 0x16, 0xbf, 0x8f, 0x01, 0xcf, 0xea, 0x41]), "ba7816bf8f01cfea");
    assert_eq!(key_from_digest(&[0, 1, 2, 3, 4, 5, 6, 0xff]), "00010203040506ff");
}
