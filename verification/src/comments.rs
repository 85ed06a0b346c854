//! Doc comments: a block comment's delimiters dropped, each line trimmed of
//! whitespace and leading stars, empty lines dropped.
use vstd::prelude::*;
use crate::retrieval::{join_lines, scan_lines, strip_cr, text_lines};
use crate::text::{chars_of, spec_trim, string_from_chars, string_push, trim_vec};

verus! {

/// The inside of a block comment opened by `open` and closed by `*/`; the
/// whole text when it is not so delimited.
pub open spec fn spec_comment_body(t: Seq<char>, open: Seq<char>) -> Seq<char> {
    let n = t.len() as int;
    let k = open.len() as int;
    if n >= k + 2 && open.is_prefix_of(t) && t[n - 2] == '*' && t[n - 1] == '/' {
        t.subrange(k, n - 2)
    } else {
        t
    }
}

/// `s` without its leading stars.
pub open spec fn trim_start_stars(s: Seq<char>) -> Seq<char>
    decreases s.len(),
{
    if s.len() > 0 && s[0] == '*' {
        trim_start_stars(s.drop_first())
    } else {
        s
    }
}

/// A comment line trimmed, stripped of leading stars, and trimmed again.
pub open spec fn clean_line(l: Seq<char>) -> Seq<char> {
    spec_trim(trim_start_stars(spec_trim(l)))
}

/// The cleaned lines that are not empty, in order.
pub open spec fn clean_lines(lines: Seq<Seq<char>>) -> Seq<Seq<char>>
    decreases lines.len(),
{
    if lines.len() == 0 {
        Seq::empty()
    } else {
        let prev = clean_lines(lines.drop_last());
        let c = clean_line(lines.last());
        if c.len() > 0 {
            prev.push(c)
        } else {
            prev
        }
    }
}

/// The doc lines of a block comment opened by `open`.
pub open spec fn spec_comment_lines(t: Seq<char>, open: Seq<char>) -> Seq<Seq<char>> {
    clean_lines(text_lines(spec_comment_body(t, open)))
}

pub open spec fn char_views(v: Seq<Vec<char>>) -> Seq<Seq<char>> {
    v.map_values(|l: Vec<char>| l@)
}

pub open spec fn string_views(v: Seq<String>) -> Seq<Seq<char>> {
    v.map_values(|l: String| l@)
}

/// The lines of `cs` as `str::lines` splits them.
pub fn split_lines(cs: &Vec<char>) -> (r: Vec<Vec<char>>)
    ensures
        char_views(r@) == text_lines(cs@),
{
    let n = cs.len();
    let mut out: Vec<Vec<char>> = Vec::new();
    let mut cur: Vec<char> = Vec::new();
    let mut i: usize = 0;
    while i < n
        invariant
            n == cs@.len(),
            i <= n,
            char_views(out@) == scan_lines(cs@, i as int).0,
            cur@ == scan_lines(cs@, i as int).1,
        decreases n - i,
    {
        let c = cs[i];
        if c == '\n' {
            if cur.len() > 0 && cur[cur.len() - 1] == '\r' {
                cur.pop();
                assert(cur@ =~= strip_cr(scan_lines(cs@, i as int).1));
            } else {
                assert(cur@ =~= strip_cr(scan_lines(cs@, i as int).1));
            }
            let ghost before = out@;
            out.push(cur);
            assert(char_views(out@) =~= char_views(before).push(strip_cr(scan_lines(cs@, i as int).1)));
            cur = Vec::new();
        } else {
            cur.push(c);
        }
        i = i + 1;
    }
    if cur.len() > 0 {
        let ghost before = out@;
        out.push(cur);
        assert(char_views(out@) =~= char_views(before).push(scan_lines(cs@, n as int).1));
    }
    out
}

fn strip_stars(cs: &Vec<char>) -> (r: Vec<char>)
    ensures
        r@ == trim_start_stars(cs@),
{
    let n = cs.len();
    let mut a: usize = 0;
    assert(cs@.subrange(0, n as int) =~= cs@);
    while a < n && cs[a] == '*'
        invariant
            n == cs@.len(),
            a <= n,
            trim_start_stars(cs@.subrange(a as int, n as int)) == trim_start_stars(cs@),
        decreases n - a,
    {
        assert(cs@.subrange(a as int, n as int).drop_first() =~= cs@.subrange(a + 1, n as int));
        a = a + 1;
    }
    let mut r: Vec<char> = Vec::new();
    let mut k: usize = a;
    while k < n
        invariant
            a <= k <= n,
            n == cs@.len(),
            r@ == cs@.subrange(a as int, k as int),
        decreases n - k,
    {
        r.push(cs[k]);
        assert(cs@.subrange(a as int, k + 1) =~= cs@.subrange(a as int, k as int).push(cs@[k as int]));
        k = k + 1;
    }
    assert(cs@.subrange(a as int, n as int).len() == 0 || cs@.subrange(a as int, n as int)[0] != '*');
    r
}

/// The doc lines of a block comment opened by `open`: the inside split into
/// lines, each trimmed of whitespace and leading stars, the empty ones
/// dropped.
pub fn comment_lines(text: &str, open: &str) -> (r: Vec<String>)
    ensures
        string_views(r@) == spec_comment_lines(text@, open@),
{
    let cs = chars_of(text);
    let op = chars_of(open);
    let n = cs.len();
    let k = op.len();
    let mut delimited = n >= 2 && k <= n - 2 && cs[n - 2] == '*' && cs[n - 1] == '/';
    let mut j: usize = 0;
    while delimited && j < k
        invariant
            n == cs@.len(),
            k == op@.len(),
            j <= k,
            delimited ==> n >= k + 2 && cs@[n - 2] == '*' && cs@[n - 1] == '/',
            delimited ==> forall|m: int| 0 <= m < j ==> op@[m] == cs@[m],
            !delimited ==> !(n >= k + 2 && op@.is_prefix_of(cs@) && cs@[n - 2] == '*' && cs@[n - 1] == '/'),
        decreases k - j,
    {
        if op[j] != cs[j] {
            delimited = false;
        }
        j = j + 1;
    }
    proof {
        if delimited {
            assert(op@ =~= cs@.subrange(0, k as int));
        }
    }
    let (a, b) = if delimited {
        (k, n - 2)
    } else {
        (0, n)
    };
    let mut body: Vec<char> = Vec::new();
    let mut m: usize = a;
    while m < b
        invariant
            a <= m <= b <= n,
            n == cs@.len(),
            body@ == cs@.subrange(a as int, m as int),
        decreases b - m,
    {
        body.push(cs[m]);
        assert(cs@.subrange(a as int, m + 1) =~= cs@.subrange(a as int, m as int).push(cs@[m as int]));
        m = m + 1;
    }
    assert(body@ =~= spec_comment_body(text@, open@));
    let lines = split_lines(&body);
    let ghost lv = text_lines(body@);
    let mut out: Vec<String> = Vec::new();
    let mut i: usize = 0;
    while i < lines.len()
        invariant
            i <= lines@.len(),
            char_views(lines@) == lv,
            string_views(out@) == clean_lines(lv.take(i as int)),
        decreases lines@.len() - i,
    {
        proof {
            assert(lv.take(i + 1).drop_last() =~= lv.take(i as int));
            assert(lv.take(i + 1).last() == lines@[i as int]@);
        }
        let t = trim_vec(&lines[i]);
        let s = strip_stars(&t);
        let c = trim_vec(&s);
        if c.len() > 0 {
            let ghost before = out@;
            out.push(string_from_chars(&c));
            assert(string_views(out@) =~= string_views(before).push(c@));
        }
        i = i + 1;
    }
    assert(lv.take(i as int) =~= lv);
    out
}

/// The doc text of a `/** ... */` comment: its cleaned lines joined, when
/// it opens with `/**` and some line is left.
pub open spec fn spec_block_doc(t: Seq<char>) -> Option<Seq<char>> {
    if !"/**"@.is_prefix_of(t) {
        None
    } else if spec_comment_lines(t, "/**"@).len() == 0 {
        None
    } else {
        Some(join_lines(spec_comment_lines(t, "/**"@)))
    }
}

/// An optional string as plain chars.
pub open spec fn opt_string(o: Option<String>) -> Option<Seq<char>> {
    match o {
        Some(s) => Some(s@),
        None => None,
    }
}

/// Lines joined with `\n` between them.
pub fn join_newlines(lines: &Vec<String>) -> (r: String)
    ensures
        r@ == join_lines(string_views(lines@)),
{
    let mut out = String::new();
    let mut i: usize = 0;
    while i < lines.len()
        invariant
            i <= lines@.len(),
            out@ == join_lines(string_views(lines@).take(i as int)),
        decreases lines@.len() - i,
    {
        let ghost prev = string_views(lines@).take(i as int);
        proof {
            assert(string_views(lines@).take(i + 1).drop_last() =~= prev);
            assert(string_views(lines@).take(i + 1).last() == lines@[i as int]@);
        }
        if i > 0 {
            string_push(&mut out, '\n');
        } else {
            assert(prev =~= Seq::<Seq<char>>::empty());
        }
        let cs = chars_of(lines[i].as_str());
        let mut k: usize = 0;
        let ghost start = out@;
        while k < cs.len()
            invariant
                k <= cs@.len(),
                out@ == start + cs@.take(k as int),
            decreases cs@.len() - k,
        {
            string_push(&mut out, cs[k]);
            k = k + 1;
            assert(out@ =~= start + cs@.take(k as int));
        }
        assert(cs@.take(k as int) =~= cs@);
        assert(out@ =~= join_lines(string_views(lines@).take(i + 1)));
        i = i + 1;
    }
    assert(string_views(lines@).take(i as int) =~= string_views(lines@));
    out
}

} // verus!
