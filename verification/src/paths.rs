use vstd::prelude::*;
use crate::text::{chars_of, string_from_chars};

verus! {

/// The index of the last '/' in `p`, or -1 when there is none.
pub open spec fn last_slash(p: Seq<char>) -> int
    decreases p.len(),
{
    if p.len() == 0 {
        -1
    } else if p.last() == '/' {
        p.len() - 1
    } else {
        last_slash(p.drop_last())
    }
}

proof fn lemma_last_slash(p: Seq<char>)
    ensures
        -1 <= last_slash(p) < p.len(),
        last_slash(p) >= 0 ==> p[last_slash(p)] == '/',
        forall|i: int| last_slash(p) < i < p.len() ==> p[i] != '/',
    decreases p.len(),
{
    if p.len() > 0 && p.last() != '/' {
        lemma_last_slash(p.drop_last());
        assert forall|i: int| last_slash(p) < i < p.len() implies p[i] != '/' by {
            if i < p.len() - 1 {
                assert(p[i] == p.drop_last()[i]);
            }
        }
    }
}

/// The texts between the '/' separators of a path, in order (empty texts
/// included).
pub open spec fn path_pieces(p: Seq<char>) -> Seq<Seq<char>>
    decreases p.len(),
{
    let k = last_slash(p);
    if k < 0 || k >= p.len() {
        seq![p]
    } else {
        path_pieces(p.take(k)).push(p.skip(k + 1))
    }
}

/// A piece that names a file or directory: neither empty, nor `.`, nor `..`.
pub open spec fn is_normal_piece(s: Seq<char>) -> bool {
    s.len() > 0 && s != seq!['.'] && s != seq!['.', '.']
}

/// A piece that `std::path::Path::components` keeps: neither empty nor `.`.
pub open spec fn is_kept_piece(s: Seq<char>) -> bool {
    s.len() > 0 && s != seq!['.']
}

/// The last kept piece among the first `n` pieces, if any.
pub open spec fn last_kept(ps: Seq<Seq<char>>, n: int) -> Option<Seq<char>>
    decreases n,
{
    if n <= 0 {
        None
    } else if is_kept_piece(ps[n - 1]) {
        Some(ps[n - 1])
    } else {
        last_kept(ps, n - 1)
    }
}

/// The final component of a '/'-separated path, when it names a file or
/// directory (the rules of `Path::file_name`).
pub open spec fn spec_file_name(p: Seq<char>) -> Option<Seq<char>> {
    let ps = path_pieces(p);
    match last_kept(ps, ps.len() as int) {
        Some(s) => if s == seq!['.', '.'] { None } else { Some(s) },
        None => None,
    }
}

/// The index of the last '.' in `s`, or -1.
pub open spec fn last_dot(s: Seq<char>) -> int
    decreases s.len(),
{
    if s.len() == 0 {
        -1
    } else if s.last() == '.' {
        s.len() - 1
    } else {
        last_dot(s.drop_last())
    }
}

/// The extension of a file name: the text after its last '.', unless the
/// name has no '.', or its only leading one (the rules of `Path::extension`).
pub open spec fn spec_extension_of(name: Seq<char>) -> Option<Seq<char>> {
    let d = last_dot(name);
    if name == seq!['.', '.'] || d <= 0 {
        None
    } else {
        Some(name.skip(d + 1))
    }
}

/// The extension of the file a '/'-separated path names.
pub open spec fn spec_path_extension(p: Seq<char>) -> Option<Seq<char>> {
    match spec_file_name(p) {
        Some(n) => spec_extension_of(n),
        None => None,
    }
}

/// The pieces of a path as owned strings of chars.
pub fn split_pieces(path: &str) -> (r: Vec<Vec<char>>)
    ensures
        r@.len() == path_pieces(path@).len(),
        forall|i: int| 0 <= i < r@.len() ==> (#[trigger] r@[i])@ == path_pieces(path@)[i],
{
    let cs = chars_of(path);
    let mut out: Vec<Vec<char>> = Vec::new();
    let mut cur: Vec<char> = Vec::new();
    let mut i: usize = 0;
    let ghost p = path@;
    proof {
        lemma_pieces_prefix(p, 0);
    }
    while i < cs.len()
        invariant
            cs@ == p,
            i <= p.len(),
            path_pieces(p.take(i as int)) == {
                let prev = out@.map_values(|v: Vec<char>| v@);
                prev.push(cur@)
            },
        decreases p.len() - i,
    {
        let c = cs[i];
        proof {
            lemma_pieces_step(p, i as int);
        }
        if c == '/' {
            let ghost old_out = out@;
            let done = cur;
            out.push(done);
            cur = Vec::new();
            assert(out@.map_values(|v: Vec<char>| v@) =~= old_out.map_values(|v: Vec<char>| v@).push(done@));
        } else {
            cur.push(c);
        }
        i = i + 1;
    }
    assert(p.take(i as int) =~= p);
    let ghost prev = out@.map_values(|v: Vec<char>| v@);
    out.push(cur);
    proof {
        assert(out@.map_values(|v: Vec<char>| v@) =~= prev.push(cur@));
        assert forall|k: int| 0 <= k < out@.len() implies (#[trigger] out@[k])@ == path_pieces(p)[k] by {
            assert(out@.map_values(|v: Vec<char>| v@)[k] == out@[k]@);
        }
    }
    out
}

proof fn lemma_pieces_prefix(p: Seq<char>, n: int)
    requires
        n == 0,
    ensures
        path_pieces(p.take(n)) == seq![Seq::<char>::empty()],
{
    assert(p.take(0) =~= Seq::<char>::empty());
    assert(last_slash(p.take(0)) == -1);
}

proof fn lemma_pieces_step(p: Seq<char>, i: int)
    requires
        0 <= i < p.len(),
    ensures
        p[i] == '/' ==> path_pieces(p.take(i + 1)) == path_pieces(p.take(i)).push(Seq::<char>::empty()),
        p[i] != '/' ==> path_pieces(p.take(i + 1)) == path_pieces(p.take(i)).drop_last().push(
            path_pieces(p.take(i)).last().push(p[i]),
        ),
        path_pieces(p.take(i)).len() >= 1,
{
    let t = p.take(i);
    let t1 = p.take(i + 1);
    assert(t1.drop_last() =~= t);
    lemma_last_slash(t);
    if p[i] == '/' {
        assert(last_slash(t1) == i);
        assert(t1.take(i) =~= t);
        assert(t1.skip(i + 1) =~= Seq::<char>::empty());
    } else {
        assert(last_slash(t1) == last_slash(t));
        let k = last_slash(t);
        if k < 0 {
            assert(path_pieces(t1) == seq![t1]);
            assert(path_pieces(t) == seq![t]);
            assert(t.push(p[i]) =~= t1);
            assert(seq![t].drop_last().push(t.push(p[i])) =~= seq![t1]);
        } else {
            assert(t1.take(k) =~= t.take(k));
            assert(t1.skip(k + 1) =~= t.skip(k + 1).push(p[i]));
            assert(path_pieces(t1) == path_pieces(t1.take(k)).push(t1.skip(k + 1)));
            assert(path_pieces(t) == path_pieces(t.take(k)).push(t.skip(k + 1)));
            assert(path_pieces(t).drop_last() =~= path_pieces(t.take(k)));
        }
    }
}

fn is_kept(v: &Vec<char>) -> (r: bool)
    ensures
        r == is_kept_piece(v@),
{
    if v.len() == 0 {
        return false;
    }
    let dot_only = v.len() == 1 && v[0] == '.';
    assert(dot_only ==> v@ =~= seq!['.']);
    assert(v@ =~= seq!['.'] ==> dot_only);
    !dot_only
}

/// Is this piece `..`?
pub fn is_parent_piece(v: &Vec<char>) -> (r: bool)
    ensures
        r == (v@ == seq!['.', '.']),
{
    let r = v.len() == 2 && v[0] == '.' && v[1] == '.';
    assert(r ==> v@ =~= seq!['.', '.']);
    r
}

/// Is this piece a normal component (neither empty, `.` nor `..`)?
pub fn is_normal(v: &Vec<char>) -> (r: bool)
    ensures
        r == is_normal_piece(v@),
{
    is_kept(v) && !is_parent_piece(v)
}

/// The final component of a '/'-separated path, when it names a file or
/// directory.
pub fn path_file_name(path: &str) -> (r: Option<String>)
    ensures
        match r {
            Some(n) => spec_file_name(path@) == Some(n@),
            None => spec_file_name(path@) is None,
        },
{
    let ps = split_pieces(path);
    let ghost sp = path_pieces(path@);
    let mut i: usize = ps.len();
    while i > 0
        invariant
            sp == path_pieces(path@),
            i <= ps@.len(),
            ps@.len() == sp.len(),
            forall|k: int| 0 <= k < ps@.len() ==> (#[trigger] ps@[k])@ == sp[k],
            last_kept(sp, sp.len() as int) == last_kept(sp, i as int),
        decreases i,
    {
        assert(ps@[i - 1]@ == sp[i - 1]);
        if is_kept(&ps[i - 1]) {
            if is_parent_piece(&ps[i - 1]) {
                return None;
            }
            return Some(string_from_chars(&ps[i - 1]));
        }
        i = i - 1;
    }
    None
}

proof fn lemma_last_dot(s: Seq<char>)
    ensures
        -1 <= last_dot(s) < s.len(),
        last_dot(s) >= 0 ==> s[last_dot(s)] == '.',
        forall|i: int| last_dot(s) < i < s.len() ==> s[i] != '.',
    decreases s.len(),
{
    if s.len() > 0 && s.last() != '.' {
        lemma_last_dot(s.drop_last());
        assert forall|i: int| last_dot(s) < i < s.len() implies s[i] != '.' by {
            if i < s.len() - 1 {
                assert(s[i] == s.drop_last()[i]);
            }
        }
    }
}

/// The extension of the file a '/'-separated path names.
pub fn path_extension(path: &str) -> (r: Option<String>)
    ensures
        match r {
            Some(e) => spec_path_extension(path@) == Some(e@),
            None => spec_path_extension(path@) is None,
        },
{
    let name = match path_file_name(path) {
        Some(n) => n,
        None => return None,
    };
    let cs = chars_of(name.as_str());
    let ghost n = cs@;
    if cs.len() == 2 && cs[0] == '.' && cs[1] == '.' {
        assert(n =~= seq!['.', '.']);
        return None;
    }
    assert(n != seq!['.', '.']) by {
        if n == seq!['.', '.'] {
            assert(n.len() == 2 && n[0] == '.' && n[1] == '.');
        }
    }
    let mut d: usize = cs.len();
    while d > 0 && cs[d - 1] != '.'
        invariant
            d <= n.len(),
            n == cs@,
            forall|i: int| d <= i < n.len() ==> n[i] != '.',
        decreases d,
    {
        d = d - 1;
    }
    proof {
        lemma_last_dot(n);
        let ld = last_dot(n);
        if d > 0 {
            assert(n[d - 1] == '.');
            assert(ld == d - 1);
        } else {
            assert(ld == -1) by {
                if ld >= 0 {
                    assert(n[ld] == '.');
                }
            }
        }
    }
    if d <= 1 {
        return None;
    }
    let mut e = String::new();
    let mut j: usize = d;
    while j < cs.len()
        invariant
            d <= j <= n.len(),
            n == cs@,
            e@ == n.subrange(d as int, j as int),
        decreases n.len() - j,
    {
        crate::text::string_push(&mut e, cs[j]);
        j = j + 1;
        assert(e@ =~= n.subrange(d as int, j as int));
    }
    assert(n.skip(d as int) =~= n.subrange(d as int, n.len() as int));
    Some(e)
}

} // verus!
