use vstd::prelude::*;
use crate::language::Language;
use crate::text::{chars_of, string_push, string_push_str};

verus! {

/// Every `::` (scanning left to right, without overlap) becomes `.`.
pub open spec fn colons_to_dots(s: Seq<char>) -> Seq<char>
    decreases s.len(),
{
    if s.len() == 0 {
        Seq::empty()
    } else if s.len() >= 2 && s[0] == ':' && s[1] == ':' {
        seq!['.'] + colons_to_dots(s.skip(2))
    } else {
        seq![s[0]] + colons_to_dots(s.drop_first())
    }
}

/// Every `.` becomes `::`.
pub open spec fn dots_to_colons(s: Seq<char>) -> Seq<char>
    decreases s.len(),
{
    if s.len() == 0 {
        Seq::empty()
    } else if s[0] == '.' {
        seq![':', ':'] + dots_to_colons(s.drop_first())
    } else {
        seq![s[0]] + dots_to_colons(s.drop_first())
    }
}

/// Every `/` becomes `.`.
pub open spec fn slashes_to_dots(s: Seq<char>) -> Seq<char> {
    s.map_values(|c: char| if c == '/' { '.' } else { c })
}

pub open spec fn spec_normalize(name: Seq<char>, language: Language) -> Seq<char> {
    match language {
        Language::Rust => colons_to_dots(name),
        Language::Go => slashes_to_dots(name),
        _ => name,
    }
}

pub open spec fn spec_to_native(canonical: Seq<char>, language: Language) -> Seq<char> {
    match language {
        Language::Rust => dots_to_colons(canonical),
        _ => canonical,
    }
}

/// Segments joined with `.` between them.
pub open spec fn join_dotted(segments: Seq<Seq<char>>) -> Seq<char>
    decreases segments.len(),
{
    if segments.len() == 0 {
        Seq::empty()
    } else if segments.len() == 1 {
        segments[0]
    } else {
        join_dotted(segments.drop_last()) + seq!['.'] + segments.last()
    }
}

/// Joining two non-empty runs of segments one after the other gives the two
/// joins with a dot between them.
pub proof fn lemma_join_concat(a: Seq<Seq<char>>, b: Seq<Seq<char>>)
    requires
        a.len() > 0,
        b.len() > 0,
    ensures
        join_dotted(a + b) == join_dotted(a) + seq!['.'] + join_dotted(b),
    decreases b.len(),
{
    if b.len() == 1 {
        assert((a + b).drop_last() =~= a);
        assert((a + b).last() == b[0]);
    } else {
        lemma_join_concat(a, b.drop_last());
        assert((a + b).drop_last() =~= a + b.drop_last());
        assert((a + b).last() == b.last());
        assert(join_dotted(a + b) == join_dotted(a) + seq!['.'] + join_dotted(b.drop_last()) + seq!['.'] + b.last());
        assert(join_dotted(a) + seq!['.'] + join_dotted(b.drop_last()) + seq!['.'] + b.last()
            =~= join_dotted(a) + seq!['.'] + (join_dotted(b.drop_last()) + seq!['.'] + b.last()));
    }
}

/// A single segment joins to itself, and no segments join to the empty text.
pub proof fn lemma_join_small(s: Seq<char>)
    ensures
        join_dotted(seq![s]) == s,
        join_dotted(Seq::<Seq<char>>::empty()) == Seq::<char>::empty(),
{
}

pub open spec fn str_views(segments: Seq<&str>) -> Seq<Seq<char>> {
    segments.map_values(|s: &str| s@)
}

/// Utilities for qualified name normalization and rendering.
pub struct QualifiedName;

impl QualifiedName {
    /// Normalize a language-native qualified name to dot-separated canonical form.
    ///
    /// - Rust: `std::collections::HashMap` → `std.collections.HashMap`
    /// - Go: `net/http.Client.Do` → `net.http.Client.Do`
    /// - Python/TS/JS/Java: identity (already dot-separated)
    pub fn normalize(name: &str, language: Language) -> (r: String)
        ensures
            r@ == spec_normalize(name@, language),
    {
        let v = chars_of(name);
        let n = v.len();
        let mut out = String::new();
        let mut i: usize = 0;
        assert(v@.skip(0) =~= v@);
        assert(v@.take(0) =~= Seq::<char>::empty());
        while i < n
            invariant
                n == v@.len(),
                v@ == name@,
                i <= n,
                language == Language::Rust ==> out@ + colons_to_dots(v@.skip(i as int)) == colons_to_dots(v@),
                language == Language::Go ==> out@ + slashes_to_dots(v@.skip(i as int)) == slashes_to_dots(v@),
                language != Language::Rust && language != Language::Go ==> out@ == v@.take(i as int),
            decreases n - i,
        {
            let ghost rest = v@.skip(i as int);
            let c = v[i];
            match language {
                Language::Rust => {
                    if i + 1 < n && c == ':' && v[i + 1] == ':' {
                        assert(rest.skip(2) =~= v@.skip(i + 2));
                        string_push(&mut out, '.');
                        i = i + 2;
                    } else {
                        assert(rest.drop_first() =~= v@.skip(i + 1));
                        string_push(&mut out, c);
                        i = i + 1;
                    }
                    assert(out@ + colons_to_dots(v@.skip(i as int)) =~= colons_to_dots(v@));
                },
                Language::Go => {
                    assert(slashes_to_dots(rest) =~= seq![if c == '/' { '.' } else { c }] + slashes_to_dots(v@.skip(i + 1)));
                    if c == '/' {
                        string_push(&mut out, '.');
                    } else {
                        string_push(&mut out, c);
                    }
                    i = i + 1;
                    assert(out@ + slashes_to_dots(v@.skip(i as int)) =~= slashes_to_dots(v@));
                },
                _ => {
                    string_push(&mut out, c);
                    i = i + 1;
                    assert(out@ =~= v@.take(i as int));
                },
            }
        }
        proof {
            assert(v@.skip(n as int) =~= Seq::<char>::empty());
            assert(slashes_to_dots(Seq::<char>::empty()) =~= Seq::<char>::empty());
            assert(v@.take(n as int) =~= v@);
        }
        out
    }

    /// Render a canonical dot-separated qualified name in language-native form.
    pub fn to_native(canonical: &str, language: Language) -> (r: String)
        ensures
            r@ == spec_to_native(canonical@, language),
    {
        let v = chars_of(canonical);
        let n = v.len();
        let mut out = String::new();
        let mut i: usize = 0;
        assert(v@.skip(0) =~= v@);
        assert(v@.take(0) =~= Seq::<char>::empty());
        while i < n
            invariant
                n == v@.len(),
                v@ == canonical@,
                i <= n,
                language == Language::Rust ==> out@ + dots_to_colons(v@.skip(i as int)) == dots_to_colons(v@),
                language != Language::Rust ==> out@ == v@.take(i as int),
            decreases n - i,
        {
            let c = v[i];
            let ghost rest = v@.skip(i as int);
            assert(rest.drop_first() =~= v@.skip(i + 1));
            if language == Language::Rust && c == '.' {
                string_push(&mut out, ':');
                string_push(&mut out, ':');
            } else {
                string_push(&mut out, c);
            }
            i = i + 1;
            proof {
                if language == Language::Rust {
                    assert(out@ + dots_to_colons(v@.skip(i as int)) =~= dots_to_colons(v@));
                } else {
                    assert(out@ =~= v@.take(i as int));
                }
            }
        }
        proof {
            assert(v@.skip(n as int) =~= Seq::<char>::empty());
            assert(v@.take(n as int) =~= v@);
        }
        out
    }

    /// Join scope segments into a canonical dot-separated qualified name.
    pub fn join(segments: &[&str]) -> (r: String)
        ensures
            r@ == join_dotted(str_views(segments@)),
    {
        let mut out = String::new();
        let mut i: usize = 0;
        while i < segments.len()
            invariant
                i <= segments@.len(),
                out@ == join_dotted(str_views(segments@.take(i as int))),
            decreases segments@.len() - i,
        {
            let ghost prev = str_views(segments@.take(i as int));
            let ghost next = str_views(segments@.take(i + 1));
            assert(next.drop_last() =~= prev);
            assert(next.last() == segments@[i as int]@);
            if i > 0 {
                string_push(&mut out, '.');
            } else {
                assert(prev =~= Seq::<Seq<char>>::empty());
            }
            string_push_str(&mut out, segments[i]);
            i = i + 1;
            assert(out@ =~= join_dotted(next));
        }
        assert(segments@.take(i as int) =~= segments@);
        out
    }
}

/// Only Rust renders a canonical name differently: for every other
/// language the native form is the canonical name itself, dots included.
pub proof fn lemma_to_native_identity_outside_rust(canonical: Seq<char>, language: Language)
    requires
        language != Language::Rust,
    ensures
        spec_to_native(canonical, language) == canonical,
        forall|i: int| 0 <= i < canonical.len() && canonical[i] == '.' ==> spec_to_native(canonical, language)[i] == '.',
{
}

/// Converting a Rust path to canonical form and back gives the path again,
/// for every path that holds no `.` of its own.
pub proof fn lemma_rust_round_trip(native: Seq<char>)
    requires
        !native.contains('.'),
    ensures
        dots_to_colons(colons_to_dots(native)) == native,
    decreases native.len(),
{
    if native.len() == 0 {
    } else if native.len() >= 2 && native[0] == ':' && native[1] == ':' {
        let rest = native.skip(2);
        assert(!rest.contains('.')) by {
            if rest.contains('.') {
                let k = choose|k: int| 0 <= k < rest.len() && rest[k] == '.';
                assert(native[k + 2] == '.');
            }
        }
        lemma_rust_round_trip(rest);
        let c = colons_to_dots(native);
        assert(c =~= seq!['.'] + colons_to_dots(rest));
        assert(c.drop_first() =~= colons_to_dots(rest));
        assert(dots_to_colons(c) =~= native);
    } else {
        let rest = native.drop_first();
        assert(!rest.contains('.')) by {
            if rest.contains('.') {
                let k = choose|k: int| 0 <= k < rest.len() && rest[k] == '.';
                assert(native[k + 1] == '.');
            }
        }
        lemma_rust_round_trip(rest);
        let c = colons_to_dots(native);
        assert(c =~= seq![native[0]] + colons_to_dots(rest));
        assert(c.drop_first() =~= colons_to_dots(rest));
        assert(native[0] != '.');
        assert(dots_to_colons(c) =~= native);
    }
}

/// Rendering a canonical name in Rust form and normalizing it gives the name
/// again, for every name that holds no `:`.
pub proof fn lemma_rust_canonical_round_trip(canonical: Seq<char>)
    requires
        !canonical.contains(':'),
    ensures
        colons_to_dots(dots_to_colons(canonical)) == canonical,
    decreases canonical.len(),
{
    if canonical.len() > 0 {
        let rest = canonical.drop_first();
        assert(!rest.contains(':')) by {
            if rest.contains(':') {
                let k = choose|k: int| 0 <= k < rest.len() && rest[k] == ':';
                assert(canonical[k + 1] == ':');
            }
        }
        lemma_rust_canonical_round_trip(rest);
        let d = dots_to_colons(canonical);
        if canonical[0] == '.' {
            assert(d =~= seq![':', ':'] + dots_to_colons(rest));
            assert(d.skip(2) =~= dots_to_colons(rest));
        } else {
            assert(d =~= seq![canonical[0]] + dots_to_colons(rest));
            assert(d.drop_first() =~= dots_to_colons(rest));
            assert(canonical[0] != ':');
        }
        assert(colons_to_dots(d) =~= canonical);
    }
}

} // verus!
