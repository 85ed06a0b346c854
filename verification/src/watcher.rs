use vstd::prelude::*;
use crate::hashing::{xxh3_64, xxh3_64_of};
use crate::language::{spec_language_for_extension, Language};
use crate::paths::{
    is_normal, is_normal_piece, path_extension, path_file_name, path_pieces, spec_file_name,
    spec_path_extension, split_pieces,
};
use crate::scanner::{is_generated_name, is_vendor_dir, spec_is_generated_name, spec_is_vendor_dir};
use crate::text::string_from_chars;

verus! {

/// A change event emitted by the watcher after path filtering. The path is
/// relative to the project root.
#[derive(Debug, Clone, PartialEq, Eq)]
pub enum ChangeEvent {
    /// File was created or modified with new content.
    Changed(String),
    /// File was deleted.
    Removed(String),
}

/// Whether a file must be re-indexed: its content's XXH3-64 hash differs
/// from the stored one.
pub fn should_reindex(current_content: &[u8], stored_hash: u64) -> (r: bool)
    ensures
        r == (xxh3_64_of(current_content@) != stored_hash),
{
    let current_hash = xxh3_64(current_content);
    current_hash != stored_hash
}

/// The watcher's filter on a '/'-separated relative path: no normal
/// component is hidden (starts with '.') or a vendor directory, the file
/// name matches no generated-file pattern, and the extension is non-empty
/// and names a supported language.
pub open spec fn spec_is_watchable(p: Seq<char>) -> bool {
    let ps = path_pieces(p);
    &&& forall|i: int|
        0 <= i < ps.len() && is_normal_piece(#[trigger] ps[i]) ==> ps[i][0] != '.' && !spec_is_vendor_dir(ps[i])
    &&& match spec_file_name(p) {
        Some(n) => !spec_is_generated_name(n),
        None => true,
    }
    &&& match spec_path_extension(p) {
        Some(e) => e.len() > 0 && spec_language_for_extension(e) is Some,
        None => false,
    }
}

/// Check whether a relative path passes the watcher filter rules (the same
/// rules as the scanner).
pub fn is_watchable_path(rel_path: &str) -> (r: bool)
    ensures
        r == spec_is_watchable(rel_path@),
{
    let ps = split_pieces(rel_path);
    let ghost sp = path_pieces(rel_path@);
    let mut i: usize = 0;
    while i < ps.len()
        invariant
            sp == path_pieces(rel_path@),
            ps@.len() == sp.len(),
            forall|k: int| 0 <= k < ps@.len() ==> (#[trigger] ps@[k])@ == sp[k],
            i <= sp.len(),
            forall|k: int|
                0 <= k < i && is_normal_piece(#[trigger] sp[k]) ==> sp[k][0] != '.' && !spec_is_vendor_dir(sp[k]),
        decreases sp.len() - i,
    {
        assert(ps@[i as int]@ == sp[i as int]);
        if is_normal(&ps[i]) {
            if ps[i][0] == '.' {
                return false;
            }
            let name = string_from_chars(&ps[i]);
            if is_vendor_dir(name.as_str()) {
                return false;
            }
        }
        i = i + 1;
    }
    if let Some(n) = path_file_name(rel_path) {
        if is_generated_name(n.as_str()) {
            return false;
        }
    }
    match path_extension(rel_path) {
        Some(e) => {
            if e.as_str().unicode_len() == 0 {
                return false;
            }
            Language::from_extension(e.as_str()).is_some()
        },
        None => false,
    }
}

} // verus!
