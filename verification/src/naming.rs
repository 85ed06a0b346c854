use vstd::prelude::*;
use crate::language::str_eq;
use crate::paths::{
    is_kept_piece, is_normal_piece, last_dot, last_kept, path_pieces, spec_file_name, split_pieces,
};
use crate::qualified_name::{join_dotted, str_views, QualifiedName};
use crate::text::{str_to_string, string_from_chars, string_push, string_push_str};

verus! {

/// The qualified name of `name` declared inside the scope chain `scope`.
pub fn qualified_name(scope: &[&str], name: &str) -> (r: String)
    ensures
        r@ == join_dotted(str_views(scope@).push(name@)),
{
    let mut parts: Vec<&str> = Vec::new();
    let mut i: usize = 0;
    while i < scope.len()
        invariant
            i <= scope@.len(),
            parts@ == scope@.take(i as int),
        decreases scope@.len() - i,
    {
        parts.push(scope[i]);
        i = i + 1;
        assert(parts@ =~= scope@.take(i as int));
    }
    assert(scope@.take(i as int) =~= scope@);
    parts.push(name);
    let r = QualifiedName::join(parts.as_slice());
    assert(str_views(parts@) =~= str_views(scope@).push(name@));
    r
}

/// The name an import binds: `module.imported`, or just `imported` when the
/// module is empty.
pub fn format_import_name(module_name: &str, imported: &str) -> (r: String)
    ensures
        r@ == if module_name@.len() == 0 { imported@ } else { module_name@ + seq!['.'] + imported@ },
{
    if module_name.unicode_len() == 0 {
        str_to_string(imported)
    } else {
        let mut s = str_to_string(module_name);
        string_push(&mut s, '.');
        string_push_str(&mut s, imported);
        s
    }
}

/// A constant's name: non-empty, only ASCII upper-case letters, digits and
/// `_`, with at least one letter.
pub open spec fn spec_is_constant_name(name: Seq<char>) -> bool {
    &&& name.len() > 0
    &&& forall|i: int| 0 <= i < name.len() ==> ('A' <= #[trigger] name[i] <= 'Z' || name[i] == '_' || '0' <= name[i] <= '9')
    &&& exists|i: int| 0 <= i < name.len() && 'A' <= #[trigger] name[i] <= 'Z'
}

/// Does the name read as a constant (upper-case with digits and `_`)?
pub fn is_constant_name(name: &str) -> (r: bool)
    ensures
        r == spec_is_constant_name(name@),
{
    let n = name.unicode_len();
    if n == 0 {
        return false;
    }
    let mut upper = false;
    let mut i: usize = 0;
    while i < n
        invariant
            n == name@.len(),
            i <= n,
            forall|j: int| 0 <= j < i ==> ('A' <= #[trigger] name@[j] <= 'Z' || name@[j] == '_' || '0' <= name@[j] <= '9'),
            upper <==> exists|j: int| 0 <= j < i && 'A' <= #[trigger] name@[j] <= 'Z',
        decreases n - i,
    {
        let c = name.get_char(i);
        let is_upper = 'A' <= c && c <= 'Z';
        if !(is_upper || c == '_' || ('0' <= c && c <= '9')) {
            return false;
        }
        if is_upper {
            upper = true;
        }
        i = i + 1;
    }
    upper
}

/// The pieces among the first `n` that `Path::components` keeps (neither
/// empty nor `.`), in order.
pub open spec fn kept_pieces(ps: Seq<Seq<char>>, n: int) -> Seq<Seq<char>>
    decreases n,
{
    if n <= 0 {
        Seq::empty()
    } else {
        let prev = kept_pieces(ps, n - 1);
        if is_kept_piece(ps[n - 1]) { prev.push(ps[n - 1]) } else { prev }
    }
}

proof fn lemma_kept_last(ps: Seq<Seq<char>>, n: int)
    requires
        0 <= n <= ps.len(),
    ensures
        last_kept(ps, n) == if kept_pieces(ps, n).len() > 0 {
            Some(kept_pieces(ps, n).last())
        } else {
            None::<Seq<char>>
        },
    decreases n,
{
    if n > 0 {
        lemma_kept_last(ps, n - 1);
    }
}

/// The stem of a file name: the part before its last '.', unless the name
/// has no '.' or only a leading one (the rule of `Path::file_stem`).
pub open spec fn spec_stem_of(name: Seq<char>) -> Seq<char> {
    let d = last_dot(name);
    if d <= 0 { name } else { name.take(d) }
}

/// The stem of the file a '/'-separated path names.
pub open spec fn spec_file_stem(p: Seq<char>) -> Option<Seq<char>> {
    match spec_file_name(p) {
        Some(n) => Some(spec_stem_of(n)),
        None => None,
    }
}

/// The name of the directory that holds the file a '/'-separated path
/// names, where that directory has a name.
pub open spec fn spec_dir_name(p: Seq<char>) -> Option<Seq<char>> {
    let ps = path_pieces(p);
    let ks = kept_pieces(ps, ps.len() as int);
    if ks.len() >= 2 && is_normal_piece(ks[ks.len() - 2]) {
        Some(ks[ks.len() - 2])
    } else {
        None
    }
}

/// The stem, and the holding directory's name, of the file a path names.
fn stem_and_dir(path: &str) -> (r: (Option<String>, Option<String>))
    ensures
        match r.0 {
            Some(s) => spec_file_stem(path@) == Some(s@),
            None => spec_file_stem(path@) is None,
        },
        match r.1 {
            Some(d) => spec_dir_name(path@) == Some(d@),
            None => spec_dir_name(path@) is None,
        },
{
    let ps = split_pieces(path);
    let ghost sp = path_pieces(path@);
    let mut kept: Vec<usize> = Vec::new();
    let mut i: usize = 0;
    while i < ps.len()
        invariant
            sp == path_pieces(path@),
            ps@.len() == sp.len(),
            forall|k: int| 0 <= k < ps@.len() ==> (#[trigger] ps@[k])@ == sp[k],
            i <= sp.len(),
            kept@.len() == kept_pieces(sp, i as int).len(),
            forall|k: int| 0 <= k < kept@.len() ==> #[trigger] kept@[k] < i && sp[kept@[k] as int] == kept_pieces(sp, i as int)[k],
        decreases sp.len() - i,
    {
        assert(ps@[i as int]@ == sp[i as int]);
        let v = &ps[i];
        let is_kept = v.len() > 0 && !(v.len() == 1 && v[0] == '.');
        assert(is_kept == is_kept_piece(sp[i as int])) by {
            if v@.len() == 1 && v@[0] == '.' {
                assert(v@ =~= seq!['.']);
            }
        }
        if is_kept {
            kept.push(i);
        }
        i = i + 1;
    }
    let ghost ks = kept_pieces(sp, sp.len() as int);
    proof {
        lemma_kept_last(sp, sp.len() as int);
    }
    let nk = kept.len();
    if nk == 0 {
        return (None, None);
    }
    let last = &ps[kept[nk - 1]];
    assert(last@ == ks.last());
    let is_dotdot = last.len() == 2 && last[0] == '.' && last[1] == '.';
    assert(is_dotdot <==> last@ == seq!['.', '.']) by {
        if last@ == seq!['.', '.'] {
            assert(last@.len() == 2 && last@[0] == '.' && last@[1] == '.');
        }
        if is_dotdot {
            assert(last@ =~= seq!['.', '.']);
        }
    }
    let stem = if is_dotdot {
        None
    } else {
        let name = string_from_chars(last);
        let cs = last;
        let mut d: usize = cs.len();
        while d > 0 && cs[d - 1] != '.'
            invariant
                d <= cs@.len(),
                forall|j: int| d <= j < cs@.len() ==> cs@[j] != '.',
            decreases d,
        {
            d = d - 1;
        }
        proof {
            lemma_last_dot_at(cs@, d as int);
        }
        if d <= 1 {
            Some(name)
        } else {
            let mut s = String::new();
            let mut j: usize = 0;
            while j < d - 1
                invariant
                    d <= cs@.len(),
                    j <= d - 1,
                    s@ == cs@.take(j as int),
                decreases d - 1 - j,
            {
                string_push(&mut s, cs[j]);
                j = j + 1;
                assert(s@ =~= cs@.take(j as int));
            }
            Some(s)
        }
    };
    let dir = if nk >= 2 {
        let prev = &ps[kept[nk - 2]];
        assert(prev@ == ks[ks.len() - 2]);
        if prev.len() > 0 && !(prev.len() == 1 && prev[0] == '.') && !(prev.len() == 2 && prev[0] == '.'
            && prev[1] == '.') {
            assert(is_normal_piece(prev@));
            Some(string_from_chars(prev))
        } else {
            assert(!is_normal_piece(prev@)) by {
                if prev@.len() == 1 && prev@[0] == '.' {
                    assert(prev@ =~= seq!['.']);
                }
                if prev@.len() == 2 && prev@[0] == '.' && prev@[1] == '.' {
                    assert(prev@ =~= seq!['.', '.']);
                }
            }
            None
        }
    } else {
        None
    };
    (stem, dir)
}

proof fn lemma_last_dot_at(s: Seq<char>, d: int)
    requires
        0 <= d <= s.len(),
        d > 0 ==> s[d - 1] == '.',
        forall|j: int| d <= j < s.len() ==> s[j] != '.',
    ensures
        last_dot(s) == d - 1,
    decreases s.len(),
{
    if s.len() > 0 && d < s.len() {
        assert(s.last() != '.');
        assert forall|j: int| d <= j < s.drop_last().len() implies s.drop_last()[j] != '.' by {
            assert(s.drop_last()[j] == s[j]);
        }
        if d > 0 {
            assert(s.drop_last()[d - 1] == s[d - 1]);
        }
        lemma_last_dot_at(s.drop_last(), d);
    }
}

/// A Python module's name: the file's stem, or for `__init__` files the
/// package directory's name (`module` when unknown).
pub open spec fn spec_python_module_name(p: Seq<char>) -> Seq<char> {
    let stem = match spec_file_stem(p) {
        Some(s) => s,
        None => "module"@,
    };
    if stem == "__init__"@ {
        match spec_dir_name(p) {
            Some(d) => d,
            None => "module"@,
        }
    } else {
        stem
    }
}

/// The stem of the file a path names, or `default` when it has none.
pub open spec fn spec_stem_or(p: Seq<char>, default: Seq<char>) -> Seq<char> {
    match spec_file_stem(p) {
        Some(s) => s,
        None => default,
    }
}

/// The stem of the file a path names, or `default` when it has none.
pub fn file_stem_or(file_path: &str, default: &str) -> (r: String)
    ensures
        r@ == spec_stem_or(file_path@, default@),
{
    let (stem, _) = stem_and_dir(file_path);
    match stem {
        Some(s) => s,
        None => str_to_string(default),
    }
}

/// The module name a Python file's symbols are qualified with.
pub fn python_module_name(file_path: &str) -> (r: String)
    ensures
        r@ == spec_python_module_name(file_path@),
{
    let (stem, dir) = stem_and_dir(file_path);
    let stem = match stem {
        Some(s) => s,
        None => str_to_string("module"),
    };
    if str_eq(stem.as_str(), "__init__") {
        match dir {
            Some(d) => d,
            None => str_to_string("module"),
        }
    } else {
        stem
    }
}

/// A Rust module's name: the file's stem, or for `lib`, `main` and `mod`
/// files the directory's name (the stem when there is none).
pub open spec fn spec_rust_module_name(p: Seq<char>) -> Seq<char> {
    let stem = match spec_file_stem(p) {
        Some(s) => s,
        None => "module"@,
    };
    if stem == "lib"@ || stem == "main"@ || stem == "mod"@ {
        match spec_dir_name(p) {
            Some(d) => d,
            None => stem,
        }
    } else {
        stem
    }
}

/// The module name a Rust file's symbols are qualified with.
pub fn rust_module_name(file_path: &str) -> (r: String)
    ensures
        r@ == spec_rust_module_name(file_path@),
{
    let (stem, dir) = stem_and_dir(file_path);
    let stem = match stem {
        Some(s) => s,
        None => str_to_string("module"),
    };
    if str_eq(stem.as_str(), "lib") || str_eq(stem.as_str(), "main") || str_eq(stem.as_str(), "mod") {
        match dir {
            Some(d) => d,
            None => stem,
        }
    } else {
        stem
    }
}

/// A TypeScript/JavaScript module's name: the file's stem, or for `index`
/// files the directory's name (`module` when unknown).
pub open spec fn spec_typescript_module_name(p: Seq<char>) -> Seq<char> {
    let stem = match spec_file_stem(p) {
        Some(s) => s,
        None => "module"@,
    };
    if stem == "index"@ {
        match spec_dir_name(p) {
            Some(d) => d,
            None => "module"@,
        }
    } else {
        stem
    }
}

/// The module name a TypeScript or JavaScript file's symbols are qualified
/// with.
pub fn typescript_module_name(file_path: &str) -> (r: String)
    ensures
        r@ == spec_typescript_module_name(file_path@),
{
    let (stem, dir) = stem_and_dir(file_path);
    let stem = match stem {
        Some(s) => s,
        None => str_to_string("module"),
    };
    if str_eq(stem.as_str(), "index") {
        match dir {
            Some(d) => d,
            None => str_to_string("module"),
        }
    } else {
        stem
    }
}

} // verus!
