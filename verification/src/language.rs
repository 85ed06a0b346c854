use vstd::prelude::*;

verus! {

/// Supported programming languages.
#[derive(Debug, Clone, Copy, PartialEq, Eq, Hash, Structural)]
pub enum Language {
    Python,
    TypeScript,
    JavaScript,
    Rust,
    Go,
    Java,
}

/// The language that a file extension maps to, if any.
pub open spec fn spec_language_for_extension(ext: Seq<char>) -> Option<Language> {
    if ext == "py"@ {
        Some(Language::Python)
    } else if ext == "ts"@ || ext == "tsx"@ {
        Some(Language::TypeScript)
    } else if ext == "js"@ || ext == "jsx"@ {
        Some(Language::JavaScript)
    } else if ext == "rs"@ {
        Some(Language::Rust)
    } else if ext == "go"@ {
        Some(Language::Go)
    } else if ext == "java"@ {
        Some(Language::Java)
    } else {
        None
    }
}

/// Stable numeric code of a language.
pub open spec fn spec_language_ordinal(lang: Language) -> u8 {
    match lang {
        Language::Python => 0,
        Language::TypeScript => 1,
        Language::JavaScript => 2,
        Language::Rust => 3,
        Language::Go => 4,
        Language::Java => 5,
    }
}

pub open spec fn spec_language_from_ordinal(n: u8) -> Option<Language> {
    if n == 0 {
        Some(Language::Python)
    } else if n == 1 {
        Some(Language::TypeScript)
    } else if n == 2 {
        Some(Language::JavaScript)
    } else if n == 3 {
        Some(Language::Rust)
    } else if n == 4 {
        Some(Language::Go)
    } else if n == 5 {
        Some(Language::Java)
    } else {
        None
    }
}

pub open spec fn spec_language_name(lang: Language) -> Seq<char> {
    match lang {
        Language::Python => "python"@,
        Language::TypeScript => "typescript"@,
        Language::JavaScript => "javascript"@,
        Language::Rust => "rust"@,
        Language::Go => "go"@,
        Language::Java => "java"@,
    }
}

/// Exact comparison of a string against a literal, char by char.
pub fn str_eq(a: &str, b: &str) -> (r: bool)
    ensures
        r == (a@ == b@),
{
    let n = a.unicode_len();
    if n != b.unicode_len() {
        return false;
    }
    let mut i: usize = 0;
    while i < n
        invariant
            n == a@.len(),
            n == b@.len(),
            i <= n,
            forall|j: int| 0 <= j < i ==> a@[j] == b@[j],
        decreases n - i,
    {
        if a.get_char(i) != b.get_char(i) {
            return false;
        }
        i = i + 1;
    }
    assert(a@ =~= b@);
    true
}

impl Language {
    /// Map a file extension to a Language.
    pub fn from_extension(ext: &str) -> (r: Option<Language>)
        ensures
            r == spec_language_for_extension(ext@),
    {
        proof {
            reveal_strlit("py");
            reveal_strlit("ts");
            reveal_strlit("tsx");
            reveal_strlit("js");
            reveal_strlit("jsx");
            reveal_strlit("rs");
            reveal_strlit("go");
            reveal_strlit("java");
        }
        if str_eq(ext, "py") {
            Some(Language::Python)
        } else if str_eq(ext, "ts") || str_eq(ext, "tsx") {
            Some(Language::TypeScript)
        } else if str_eq(ext, "js") || str_eq(ext, "jsx") {
            Some(Language::JavaScript)
        } else if str_eq(ext, "rs") {
            Some(Language::Rust)
        } else if str_eq(ext, "go") {
            Some(Language::Go)
        } else if str_eq(ext, "java") {
            Some(Language::Java)
        } else {
            None
        }
    }

    /// The separator used in qualified names for this language.
    pub fn native_separator(self) -> (r: &'static str)
        ensures
            self == Language::Rust ==> r@ == "::"@,
            self != Language::Rust ==> r@ == "."@,
    {
        match self {
            Language::Rust => "::",
            Language::Go => ".",
            Language::Python | Language::TypeScript | Language::JavaScript | Language::Java => ".",
        }
    }

    pub fn from_ordinal(n: u8) -> (r: Option<Language>)
        ensures
            r == spec_language_from_ordinal(n),
    {
        match n {
            0 => Some(Language::Python),
            1 => Some(Language::TypeScript),
            2 => Some(Language::JavaScript),
            3 => Some(Language::Rust),
            4 => Some(Language::Go),
            5 => Some(Language::Java),
            _ => None,
        }
    }

    pub fn ordinal(self) -> (r: u8)
        ensures
            r == spec_language_ordinal(self),
    {
        match self {
            Language::Python => 0,
            Language::TypeScript => 1,
            Language::JavaScript => 2,
            Language::Rust => 3,
            Language::Go => 4,
            Language::Java => 5,
        }
    }

    pub fn name(self) -> (r: &'static str)
        ensures
            r@ == spec_language_name(self),
    {
        match self {
            Language::Python => "python",
            Language::TypeScript => "typescript",
            Language::JavaScript => "javascript",
            Language::Rust => "rust",
            Language::Go => "go",
            Language::Java => "java",
        }
    }
}

/// Converting a language to its ordinal and back gives the same language.
pub proof fn lemma_language_ordinal_round_trip(lang: Language)
    ensures
        spec_language_from_ordinal(spec_language_ordinal(lang)) == Some(lang),
{
}

/// Every ordinal that decodes to a language is that language's ordinal, and
/// exactly the ordinals below six decode.
pub proof fn lemma_language_from_ordinal_inverse(n: u8)
    ensures
        spec_language_from_ordinal(n) is Some <==> n < 6,
        spec_language_from_ordinal(n) matches Some(l) ==> spec_language_ordinal(l) == n,
{
}

} // verus!
