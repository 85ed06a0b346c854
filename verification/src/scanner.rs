use vstd::prelude::*;
use crate::language::str_eq;
use crate::paths::{path_file_name, spec_file_name};
use crate::text::{contains_text, str_contains};

verus! {

/// A file name that matches one of the generated-file patterns
/// (`.generated.`, `.min.js`, `.min.css`, `_pb2.py`, `.pb.go`).
pub open spec fn spec_is_generated_name(name: Seq<char>) -> bool {
    ||| contains_text(name, ".generated."@)
    ||| contains_text(name, ".min.js"@)
    ||| contains_text(name, ".min.css"@)
    ||| contains_text(name, "_pb2.py"@)
    ||| contains_text(name, ".pb.go"@)
}

/// A directory name of vendored code (`vendor`, `node_modules`,
/// `third_party`, `.venv`, `venv`).
pub open spec fn spec_is_vendor_dir(name: Seq<char>) -> bool {
    ||| name == "vendor"@
    ||| name == "node_modules"@
    ||| name == "third_party"@
    ||| name == ".venv"@
    ||| name == "venv"@
}

/// Does the file name match a generated-file pattern?
pub fn is_generated_name(name: &str) -> (r: bool)
    ensures
        r == spec_is_generated_name(name@),
{
    str_contains(name, ".generated.") || str_contains(name, ".min.js") || str_contains(name, ".min.css")
        || str_contains(name, "_pb2.py") || str_contains(name, ".pb.go")
}

/// Is this the name of a vendor directory?
pub fn is_vendor_dir(name: &str) -> (r: bool)
    ensures
        r == spec_is_vendor_dir(name@),
{
    str_eq(name, "vendor") || str_eq(name, "node_modules") || str_eq(name, "third_party") || str_eq(
        name,
        ".venv",
    ) || str_eq(name, "venv")
}

/// Does the file a '/'-separated path names match a generated-file pattern?
pub fn is_generated_file(path: &str) -> (r: bool)
    ensures
        r == match spec_file_name(path@) {
            Some(n) => spec_is_generated_name(n),
            None => false,
        },
{
    match path_file_name(path) {
        Some(n) => is_generated_name(n.as_str()),
        None => false,
    }
}

/// Result of scanning a project directory for source files.
pub struct ScanResult {
    /// Paths relative to project root (forward-slash normalized).
    pub files: Vec<String>,
    /// Total entries seen (including skipped).
    pub total_entries: usize,
}

} // verus!
