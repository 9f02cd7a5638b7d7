//! Index bookkeeping that does not touch the disk: where the index lives, how
//! a file's path is normalised, resolved and turned into its key.

use vstd::prelude::*;
use sha2::Digest;
use crate::paths::{
    components, is_absolute_text, join_text, join_with, normalized, resolve_names, strip_comps,
    path_components, resolve_component_names, join_chars, strip_components,
    join_path, is_absolute,
};
use crate::text::{chars_of, string_from_chars};

verus! {

/// The normalised relative form of a path: `.` and empty segments dropped, `..`
/// resolved against the preceding segment (or dropped at the start), the rest
/// joined by `/`.
pub fn normalize_relative_path(path: &str) -> (r: String)
    ensures
        r@ == normalized(path@),
{
    let cs = path_components(path);
    let names = resolve_component_names(&cs);
    let joined = join_chars(&names, '/');
    string_from_chars(joined.as_slice())
}

/// The index file of a project: `<root>/.codewatch/index.json`.
pub fn get_index_path(project_root: &str) -> (r: String)
    ensures
        r@ == join_text(join_text(project_root@, ".codewatch"@), "index.json"@),
{
    let dir = join_path(project_root, ".codewatch");
    join_path(dir.as_str(), "index.json")
}

} // verus!

verus! {

/// `path` made relative to `root` and normalised, when `root` is a component
/// prefix of `path`.
pub open spec fn relative_under(path: Seq<char>, root: Seq<char>) -> Option<Seq<char>> {
    match strip_comps(components(path), components(root)) {
        Some(rest) => Some(join_with(resolve_names(rest), '/')),
        None => None,
    }
}

/// Where a user-given path lands relative to the project root: first through
/// its resolved form (the path against the current directory, canonicalised
/// where possible); failing that, an absolute input must lie under the root and
/// a relative input is taken as relative to the root.
pub open spec fn resolved_relative(
    root: Seq<char>,
    input: Seq<char>,
    resolved: Option<Seq<char>>,
) -> Option<Seq<char>> {
    let first = match resolved {
        Some(c) => relative_under(c, root),
        None => None,
    };
    if first is Some {
        first
    } else if is_absolute_text(input) {
        relative_under(input, root)
    } else {
        Some(normalized(input))
    }
}

fn relative_to(path: &str, project_root: &str) -> (r: Option<String>)
    ensures
        match r {
            Some(s) => relative_under(path@, project_root@) == Some(s@),
            None => relative_under(path@, project_root@) is None,
        },
{
    let cs = path_components(path);
    let base = path_components(project_root);
    match strip_components(&cs, &base) {
        Some(rest) => {
            let names = resolve_component_names(&rest);
            let joined = join_chars(&names, '/');
            Some(string_from_chars(joined.as_slice()))
        },
        None => None,
    }
}

/// Resolves a user-given path to the project-relative form used as the index
/// key. `resolved` is `input_path` joined onto the current directory and
/// canonicalised (left as joined when canonicalisation fails), or `None` when
/// the current directory could not be determined.
pub fn resolve_to_relative_path(project_root: &str, input_path: &str, resolved: Option<&str>) -> (r:
    Option<String>)
    ensures
        match r {
            Some(s) => resolved_relative(project_root@, input_path@, match resolved {
                Some(c) => Some(c@),
                None => None,
            }) == Some(s@),
            None => resolved_relative(project_root@, input_path@, match resolved {
                Some(c) => Some(c@),
                None => None,
            }) is None,
        },
{
    if let Some(c) = resolved {
        let first = relative_to(c, project_root);
        if first.is_some() {
            return first;
        }
    }
    if is_absolute(input_path) {
        relative_to(input_path, project_root)
    } else {
        Some(normalize_relative_path(input_path))
    }
}

} // verus!

verus! {

/// The SHA-256 digest of a byte string.
pub uninterp spec fn sha256_digest(data: Seq<u8>) -> Seq<u8>;

/// Computes SHA-256 (`sha2::Sha256::digest`, which runs `new`, `update` and
/// `finalize`). Trusted: the digest is named by `sha256_digest` of the input
/// bytes, and is 32 bytes long (`OutputSize = U32` for `Sha256`).
#[verifier::external_body]
fn sha256(data: &[u8]) -> (r: Vec<u8>)
    ensures
        r@ == sha256_digest(data@),
        r@.len() == 32,
{
    sha2::Sha256::digest(data).to_vec()
}

/// The lower-case hexadecimal digit of a value below 16.
pub open spec fn hex_digit(n: nat) -> char {
    if n < 10 {
        ((n + 48) as u8) as char
    } else {
        ((n + 87) as u8) as char
    }
}

/// Bytes written as lower-case hexadecimal, two digits per byte, high nibble first.
pub open spec fn hex_text(b: Seq<u8>) -> Seq<char>
    decreases b.len(),
{
    if b.len() == 0 {
        Seq::<char>::empty()
    } else {
        hex_text(b.drop_last()) + seq![hex_digit(b.last() as nat / 16), hex_digit(b.last() as nat % 16)]
    }
}

/// Encodes bytes as lower-case hexadecimal (`hex::encode`). Trusted: the
/// crate maps each byte to the table entries `0123456789abcdef` of its high
/// then its low nibble, which `hex_text` states.
#[verifier::external_body]
fn hex_encode(data: &[u8]) -> (s: String)
    ensures
        s@ == hex_text(data@),
{
    hex::encode(data)
}

proof fn lemma_hex_text(b: Seq<u8>)
    ensures
        hex_text(b).len() == 2 * b.len(),
        forall|i: int| 0 <= i < hex_text(b).len() ==> is_lower_hex(#[trigger] hex_text(b)[i]),
    decreases b.len(),
{
    if b.len() > 0 {
        lemma_hex_text(b.drop_last());
        let x = b.last() as nat;
        assert(x / 16 < 16 && x % 16 < 16);
        let t = hex_text(b);
        let p = hex_text(b.drop_last());
        assert forall|i: int| 0 <= i < t.len() implies is_lower_hex(#[trigger] t[i]) by {
            if i < p.len() {
                assert(t[i] == p[i]);
            }
        }
    }
}

/// A lower-case hexadecimal digit.
pub open spec fn is_lower_hex(c: char) -> bool {
    ('0' <= c && c <= '9') || ('a' <= c && c <= 'f')
}

/// The index key of a path: the first 16 hexadecimal digits of the SHA-256
/// digest of its UTF-8 bytes.
pub open spec fn path_key(path: Seq<char>) -> Seq<char> {
    hex_text(sha256_digest(vstd::utf8::encode_utf8(path))).take(16)
}

/// The key made from a digest: its first 16 hexadecimal digits (the first 8
/// bytes, each written as two lower-case digits).
pub fn key_from_digest(digest: &[u8]) -> (r: String)
    requires
        digest@.len() >= 8,
    ensures
        r@ == hex_text(digest@).take(16),
        r@.len() == 16,
        forall|i: int| 0 <= i < 16 ==> is_lower_hex(#[trigger] r@[i]),
{
    let hex = hex_encode(digest);
    proof { lemma_hex_text(digest@); }
    let cs = chars_of(hex.as_str());
    let mut out: Vec<char> = Vec::new();
    let mut i: usize = 0;
    while i < 16
        invariant
            cs@ == hex@,
            hex@.len() >= 16,
            i <= 16,
            out@ == cs@.take(i as int),
        decreases 16 - i,
    {
        out.push(cs[i]);
        i = i + 1;
        assert(out@ =~= cs@.take(i as int));
    }
    let r = string_from_chars(out.as_slice());
    assert(forall|i: int| 0 <= i < 16 ==> r@[i] == hex@[i]);
    r
}

/// The key under which a file is stored in the index.
pub fn path_to_hash(relative_path: &str) -> (r: String)
    ensures
        r@ == path_key(relative_path@),
        r@.len() == 16,
        forall|i: int| 0 <= i < 16 ==> is_lower_hex(#[trigger] r@[i]),
{
    let digest = sha256(relative_path.as_bytes());
    key_from_digest(digest.as_slice())
}

} // verus!

verus! {

/// A file named relative to the project root, by its absolute path under the
/// root, or relative to the root from the root itself as current directory,
/// resolves to the same project-relative path, and so to the same index key.
pub proof fn resolve_forms_agree(root: Seq<char>, rel: Seq<char>)
    requires
        is_absolute_text(root),
        !is_absolute_text(rel),
    ensures
        resolved_relative(root, rel, None) == Some(normalized(rel)),
        resolved_relative(root, join_text(root, rel), None) == Some(normalized(rel)),
        resolved_relative(root, rel, Some(join_text(root, rel))) == Some(normalized(rel)),
{
    crate::paths::relative_under_join(root, rel);
    let j = join_text(root, rel);
    assert(j[0] == root[0]);
}

/// When the resolved form of the input lies under the root, the result is
/// that resolved path made relative to the root, whatever the input looked
/// like, relative or absolute.
pub proof fn resolved_path_wins(root: Seq<char>, input: Seq<char>, rel: Seq<char>)
    requires
        !is_absolute_text(rel),
    ensures
        resolved_relative(root, input, Some(join_text(root, rel))) == Some(normalized(rel)),
{
    crate::paths::relative_under_join(root, rel);
}

/// A relative input given from a directory `sub` below the root names the
/// file `sub/input` of the project: resolved against that directory, it lands
/// on the normalised `sub` joined with the input, not on the input alone.
pub proof fn relative_input_from_subdirectory(root: Seq<char>, sub: Seq<char>, input: Seq<char>)
    requires
        !is_absolute_text(sub),
        !is_absolute_text(input),
    ensures
        resolved_relative(root, input, Some(join_text(join_text(root, sub), input))) == Some(
            normalized(join_text(sub, input)),
        ),
{
    crate::paths::join_text_assoc(root, sub, input);
    crate::paths::relative_under_join(root, join_text(sub, input));
}

/// An absolute input resolves the same from any current directory: joined
/// onto the directory it stays itself, so it lands under the root exactly when
/// it lies there, and is refused otherwise.
pub proof fn absolute_input_ignores_cwd(root: Seq<char>, cwd: Seq<char>, input: Seq<char>)
    requires
        is_absolute_text(input),
    ensures
        resolved_relative(root, input, Some(join_text(cwd, input))) == resolved_relative(root, input, None),
        resolved_relative(root, input, None) == relative_under(input, root),
{
}

} // verus!
