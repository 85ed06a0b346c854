use vstd::prelude::*;
use crate::errors::ParserError;
use crate::hashing::{xxh3_128, xxh3_128_of};
use crate::language::{spec_language_for_extension, Language};
use crate::paths::{path_extension, spec_path_extension};
use crate::text::{str_from_utf8, str_to_string};
use vstd::utf8::*;

verus! {

/// Maximum file size in bytes (1 MB).
pub const MAX_FILE_SIZE: u64 = 1_048_576;

/// Number of leading bytes inspected for binary detection.
pub const BINARY_CHECK_SIZE: usize = 8192;

/// Check that a file is within size limits: more than 1 MB is refused.
pub fn check_file_size(path: &str, size: u64) -> (r: Result<(), ParserError>)
    ensures
        size <= MAX_FILE_SIZE <==> r is Ok,
        r matches Err(e) ==> (e matches ParserError::FileTooLarge { path: p, size: s, max: m } && p@ == path@
            && s == size && m == MAX_FILE_SIZE),
{
    if size > MAX_FILE_SIZE {
        return Err(ParserError::FileTooLarge { path: str_to_string(path), size, max: MAX_FILE_SIZE });
    }
    Ok(())
}

/// A null byte among the first 8 KB marks content as binary.
pub open spec fn spec_is_binary(content: Seq<u8>) -> bool {
    exists|i: int| 0 <= i < content.len() && i < BINARY_CHECK_SIZE && content[i] == 0
}

/// Returns `true` if the buffer appears to contain binary (non-text) data:
/// a null byte in the first 8 KB.
pub fn is_binary(content: &[u8]) -> (r: bool)
    ensures
        r == spec_is_binary(content@),
{
    let check_len = if content.len() < BINARY_CHECK_SIZE { content.len() } else { BINARY_CHECK_SIZE };
    let mut i: usize = 0;
    while i < check_len
        invariant
            check_len <= content@.len(),
            check_len <= BINARY_CHECK_SIZE,
            check_len == content@.len() || check_len == BINARY_CHECK_SIZE,
            i <= check_len,
            forall|j: int| 0 <= j < i ==> content@[j] != 0,
        decreases check_len - i,
    {
        if content[i] == 0 {
            return true;
        }
        i = i + 1;
    }
    false
}

/// Maps file extensions to languages.
pub struct ParserRegistry;

impl ParserRegistry {
    /// Resolve a file extension to a Language.
    pub fn language_for_extension(ext: &str) -> (r: Option<Language>)
        ensures
            r == spec_language_for_extension(ext@),
    {
        Language::from_extension(ext)
    }
}

/// Compute body_hash: the lower 64 bits of the XXH3-128 of the bytes.
pub fn compute_body_hash(body: &[u8]) -> (r: u64)
    ensures
        r == xxh3_128_of(body@) as u64,
{
    xxh3_128(body) as u64
}

/// The language a file is parsed as: by its extension, none when it has
/// none.
pub open spec fn spec_source_language(path: Seq<char>) -> Option<Language> {
    match spec_path_extension(path) {
        Some(e) => spec_language_for_extension(e),
        None => spec_language_for_extension(Seq::empty()),
    }
}

/// The checks that come before parsing a file, in order: the reported size
/// and the content length are within 1 MB, the content is not binary, it is
/// UTF-8, and its extension names a language. Gives the text and language.
pub fn prepare_source<'a>(file_path: &str, content: &'a [u8], file_size: u64) -> (r: Result<(&'a str, Language), ParserError>)
    ensures
        file_size > MAX_FILE_SIZE ==> (r matches Err(ParserError::FileTooLarge { path: p, size: s, .. }) && p@
            == file_path@ && s == file_size),
        file_size <= MAX_FILE_SIZE && content@.len() > MAX_FILE_SIZE ==> (r matches Err(
            ParserError::FileTooLarge { path: p, size: s, .. },
        ) && p@ == file_path@ && s == content@.len()),
        file_size <= MAX_FILE_SIZE && content@.len() <= MAX_FILE_SIZE && (spec_is_binary(content@)
            || !valid_utf8(content@)) ==> (r matches Err(ParserError::InvalidEncoding { path: p }) && p@
            == file_path@),
        file_size <= MAX_FILE_SIZE && content@.len() <= MAX_FILE_SIZE && !spec_is_binary(content@) && valid_utf8(
            content@,
        ) ==> match spec_source_language(file_path@) {
            Some(lang) => r matches Ok((s, l)) && s@ == decode_utf8(content@) && l == lang,
            None => r matches Err(ParserError::UnsupportedLanguage { path: p }) && p@ == file_path@,
        },
{
    check_file_size(file_path, file_size)?;
    check_file_size(file_path, content.len() as u64)?;
    if is_binary(content) {
        return Err(ParserError::InvalidEncoding { path: str_to_string(file_path) });
    }
    let source = match str_from_utf8(content) {
        Some(s) => s,
        None => return Err(ParserError::InvalidEncoding { path: str_to_string(file_path) }),
    };
    let language = match path_extension(file_path) {
        Some(e) => ParserRegistry::language_for_extension(e.as_str()),
        None => ParserRegistry::language_for_extension(""),
    };
    proof {
        reveal_strlit("");
        assert(""@ =~= Seq::<char>::empty());
    }
    match language {
        Some(l) => Ok((source, l)),
        None => Err(ParserError::UnsupportedLanguage { path: str_to_string(file_path) }),
    }
}

} // verus!
