use vstd::prelude::*;
use crate::text::{chars_of, dec_chars, occurs_at, push_decimal, str_to_string, string_push_str};

verus! {

/// Vector dimension used when the metadata names none.
pub const DEFAULT_VECTOR_DIMENSION: usize = 384;

/// The first index at or after `i` where `pat` occurs in `s`.
pub open spec fn first_occurrence_from(s: Seq<char>, pat: Seq<char>, i: int) -> Option<int>
    decreases s.len() - i,
{
    if i < 0 || i > s.len() {
        None
    } else if occurs_at(s, pat, i) {
        Some(i)
    } else if i == s.len() {
        None
    } else {
        first_occurrence_from(s, pat, i + 1)
    }
}

/// The first index at or after `i` holding `c`.
pub open spec fn first_char_from(s: Seq<char>, c: char, i: int) -> Option<int>
    decreases s.len() - i,
{
    if i < 0 || i >= s.len() {
        None
    } else if s[i] == c {
        Some(i)
    } else {
        first_char_from(s, c, i + 1)
    }
}

/// Unicode `White_Space` characters (what `str::trim_start` removes).
pub open spec fn is_unicode_whitespace(c: char) -> bool {
    ||| ('\u{9}' <= c && c <= '\u{d}')
    ||| c == ' '
    ||| c == '\u{85}'
    ||| c == '\u{a0}'
    ||| c == '\u{1680}'
    ||| ('\u{2000}' <= c && c <= '\u{200a}')
    ||| c == '\u{2028}'
    ||| c == '\u{2029}'
    ||| c == '\u{202f}'
    ||| c == '\u{205f}'
    ||| c == '\u{3000}'
}

/// The first index at or after `i` that holds no whitespace.
pub open spec fn skip_whitespace(s: Seq<char>, i: int) -> int
    decreases s.len() - i,
{
    if i < 0 || i >= s.len() || !is_unicode_whitespace(s[i]) {
        i
    } else {
        skip_whitespace(s, i + 1)
    }
}

/// The end of the run of ASCII digits starting at `i`.
pub open spec fn digits_end(s: Seq<char>, i: int) -> int
    decreases s.len() - i,
{
    if i < 0 || i >= s.len() || !('0' <= s[i] && s[i] <= '9') {
        i
    } else {
        digits_end(s, i + 1)
    }
}

/// The number that a run of ASCII decimal digits denotes.
pub open spec fn dec_value(s: Seq<char>) -> nat
    decreases s.len(),
{
    if s.len() == 0 {
        0
    } else {
        (dec_value(s.drop_last()) * 10 + (s.last() as int - '0' as int)) as nat
    }
}

/// The vector dimension a metadata text names: after the first
/// `"embedding_dim"` comes a `:`, optional whitespace, and a positive
/// decimal number that fits in `usize`; anything else gives the default.
pub open spec fn spec_embedding_dim(data: Seq<char>) -> usize {
    match first_occurrence_from(data, "\"embedding_dim\""@, 0) {
        None => DEFAULT_VECTOR_DIMENSION,
        Some(pos) => match first_char_from(data, ':', pos) {
            None => DEFAULT_VECTOR_DIMENSION,
            Some(colon) => {
                let start = skip_whitespace(data, colon + 1);
                let digits = data.subrange(start, digits_end(data, start));
                if digits.len() > 0 && 0 < dec_value(digits) <= usize::MAX {
                    dec_value(digits) as usize
                } else {
                    DEFAULT_VECTOR_DIMENSION
                }
            },
        },
    }
}

fn find_text_from(s: &Vec<char>, pat: &Vec<char>, i: usize) -> (r: Option<usize>)
    requires
        i <= s@.len(),
    ensures
        match r {
            Some(k) => first_occurrence_from(s@, pat@, i as int) == Some(k as int),
            None => first_occurrence_from(s@, pat@, i as int) is None,
        },
        r matches Some(k) ==> k <= s@.len(),
    decreases s@.len() - i,
{
    let sl = s.len();
    let pl = pat.len();
    let mut ok = pl <= sl - i;
    if ok {
        let mut k: usize = 0;
        while k < pat.len()
            invariant
                sl == s@.len(),
                i + pat@.len() <= s@.len(),
                k <= pat@.len(),
                ok ==> forall|j: int| 0 <= j < k ==> s@[i + j] == pat@[j],
                !ok ==> !occurs_at(s@, pat@, i as int),
            decreases pat@.len() - k,
        {
            if ok && s[i + k] != pat[k] {
                assert(s@.subrange(i as int, i + pat@.len())[k as int] != pat@[k as int]);
                ok = false;
            }
            k = k + 1;
        }
        if ok {
            assert(s@.subrange(i as int, i + pat@.len()) =~= pat@);
        }
    }
    if ok {
        Some(i)
    } else if i == sl {
        None
    } else {
        find_text_from(s, pat, i + 1)
    }
}

fn find_char_from(s: &Vec<char>, c: char, i: usize) -> (r: Option<usize>)
    requires
        i <= s@.len(),
    ensures
        match r {
            Some(k) => first_char_from(s@, c, i as int) == Some(k as int),
            None => first_char_from(s@, c, i as int) is None,
        },
        r matches Some(k) ==> k < s@.len(),
    decreases s@.len() - i,
{
    if i == s.len() {
        None
    } else if s[i] == c {
        Some(i)
    } else {
        find_char_from(s, c, i + 1)
    }
}

fn is_whitespace(c: char) -> (r: bool)
    ensures
        r == is_unicode_whitespace(c),
{
    ('\u{9}' <= c && c <= '\u{d}') || c == ' ' || c == '\u{85}' || c == '\u{a0}' || c == '\u{1680}' || (
    '\u{2000}' <= c && c <= '\u{200a}') || c == '\u{2028}' || c == '\u{2029}' || c == '\u{202f}' || c
        == '\u{205f}' || c == '\u{3000}'
}

proof fn lemma_dec_value_prefix(s: Seq<char>, i: int)
    requires
        0 <= i <= s.len(),
        forall|j: int| 0 <= j < s.len() ==> '0' <= #[trigger] s[j] <= '9',
    ensures
        dec_value(s.subrange(0, i)) <= dec_value(s),
    decreases s.len() - i,
{
    if i < s.len() {
        lemma_dec_value_prefix(s, i + 1);
        let p = s.subrange(0, i + 1);
        assert(p.drop_last() =~= s.subrange(0, i));
        assert(p.last() == s[i]);
    } else {
        assert(s.subrange(0, i) =~= s);
    }
}

/// The vector dimension named by the metadata file's text, or the default.
pub fn parse_embedding_dim(data: &str) -> (r: usize)
    ensures
        r == spec_embedding_dim(data@),
{
    let s = chars_of(data);
    let sl = s.len();
    let pat = chars_of("\"embedding_dim\"");
    let pos = match find_text_from(&s, &pat, 0) {
        Some(p) => p,
        None => return DEFAULT_VECTOR_DIMENSION,
    };
    let colon = match find_char_from(&s, ':', pos) {
        Some(c) => c,
        None => return DEFAULT_VECTOR_DIMENSION,
    };
    let mut start = colon + 1;
    while start < s.len() && is_whitespace(s[start])
        invariant
            s@ == data@,
            first_occurrence_from(data@, "\"embedding_dim\""@, 0) == Some(pos as int),
            first_char_from(data@, ':', pos as int) == Some(colon as int),
            colon < s@.len(),
            colon + 1 <= start <= s@.len(),
            skip_whitespace(s@, colon + 1) == skip_whitespace(s@, start as int),
        decreases s@.len() - start,
    {
        start = start + 1;
    }
    assert(skip_whitespace(s@, start as int) == start as int);
    let mut end = start;
    while end < s.len() && '0' <= s[end] && s[end] <= '9'
        invariant
            s@ == data@,
            first_occurrence_from(data@, "\"embedding_dim\""@, 0) == Some(pos as int),
            first_char_from(data@, ':', pos as int) == Some(colon as int),
            start == skip_whitespace(s@, colon + 1),
            start <= end <= s@.len(),
            digits_end(s@, start as int) == digits_end(s@, end as int),
            forall|j: int| start <= j < end ==> '0' <= #[trigger] s@[j] <= '9',
        decreases s@.len() - end,
    {
        end = end + 1;
    }
    assert(digits_end(s@, end as int) == end as int);
    let ghost digits = s@.subrange(start as int, end as int);
    if end == start {
        return DEFAULT_VECTOR_DIMENSION;
    }
    let mut acc: usize = 0;
    let mut k: usize = start;
    while k < end
        invariant
            s@ == data@,
            first_occurrence_from(data@, "\"embedding_dim\""@, 0) == Some(pos as int),
            first_char_from(data@, ':', pos as int) == Some(colon as int),
            start == skip_whitespace(s@, colon + 1),
            end == digits_end(s@, start as int),
            start <= k <= end <= s@.len(),
            digits == s@.subrange(start as int, end as int),
            forall|j: int| start <= j < end ==> '0' <= #[trigger] s@[j] <= '9',
            acc as nat == dec_value(s@.subrange(start as int, k as int)),
        decreases end - k,
    {
        let d = (s[k] as u32 - '0' as u32) as usize;
        proof {
            let p = s@.subrange(start as int, k + 1);
            assert(p.drop_last() =~= s@.subrange(start as int, k as int));
            assert(p.last() == s@[k as int]);
        }
        if acc > (usize::MAX - d) / 10 {
            proof {
                assert forall|j: int| 0 <= j < digits.len() implies '0' <= #[trigger] digits[j] <= '9' by {
                    assert(digits[j] == s@[start + j]);
                }
                lemma_dec_value_prefix(digits, k - start + 1);
                assert(digits.subrange(0, k - start + 1) =~= s@.subrange(start as int, k + 1));
                assert(dec_value(s@.subrange(start as int, k + 1)) > usize::MAX) by (nonlinear_arith)
                    requires
                        dec_value(s@.subrange(start as int, k + 1)) == acc * 10 + d,
                        acc > (usize::MAX - d) / 10,
                        d <= 9;
            }
            return DEFAULT_VECTOR_DIMENSION;
        }
        assert(acc * 10 + d <= usize::MAX) by (nonlinear_arith)
            requires
                acc <= (usize::MAX - d) / 10,
                d <= 9;
        acc = acc * 10 + d;
        k = k + 1;
    }
    if acc == 0 {
        DEFAULT_VECTOR_DIMENSION
    } else {
        acc
    }
}

/// The metadata file's text for a vector dimension.
pub fn meta_content(vector_dimension: usize) -> (r: String)
    ensures
        r@ == "{\"embedding_dim\": "@ + dec_chars(vector_dimension as nat) + "}\n"@,
{
    let mut s = str_to_string("{\"embedding_dim\": ");
    push_decimal(&mut s, vector_dimension as u128);
    string_push_str(&mut s, "}\n");
    s
}

} // verus!
