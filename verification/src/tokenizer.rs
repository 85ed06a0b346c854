//! Code-aware tokenizer: splits identifiers on camelCase, PascalCase,
//! snake_case and digit boundaries, and emits CJK text as overlapping bigrams.
use vstd::prelude::*;
use vstd::utf8::*;
use vstd::string::StringSliceAdditionalSpecFns;
use crate::text::{str_from_utf8, string_push};

verus! {

/// A Chinese, Japanese or Korean char: CJK Unified Ideographs, Extension
/// A and Compatibility Ideographs; Hiragana and Katakana; Hangul syllables.
pub open spec fn is_cjk(c: char) -> bool {
    ||| (0x4E00 <= c as u32 <= 0x9FFF)
    ||| (0x3400 <= c as u32 <= 0x4DBF)
    ||| (0xF900 <= c as u32 <= 0xFAFF)
    ||| (0x3040 <= c as u32 <= 0x30FF)
    ||| (0xAC00 <= c as u32 <= 0xD7AF)
}

/// Number of bytes of a char's UTF-8 encoding.
pub open spec fn utf8_len_of(c: char) -> int {
    if (c as u32) < 0x80 { 1 } else if (c as u32) < 0x800 { 2 } else if (c as u32) < 0x10000 { 3 } else { 4 }
}

/// Byte length of a UTF-8 char judged from its first byte (1 for invalid bytes).
pub open spec fn lead_len(b: u8) -> int {
    if b <= 0x7F { 1 } else if 0xC0 <= b <= 0xDF { 2 } else if 0xE0 <= b <= 0xEF { 3 }
    else if 0xF0 <= b <= 0xF7 { 4 } else { 1 }
}

/// The CJK char that starts at `pos`, when the bytes from `pos` on are valid
/// UTF-8 and begin with a CJK char.
pub open spec fn cjk_at(t: Seq<u8>, pos: int) -> Option<char> {
    if pos < 0 || pos >= t.len() {
        None
    } else {
        let rest = t.subrange(pos, t.len() as int);
        if valid_utf8(rest) && decode_utf8(rest).len() > 0 && is_cjk(decode_utf8(rest)[0]) {
            Some(decode_utf8(rest)[0])
        } else {
            None
        }
    }
}

pub open spec fn is_upper(b: u8) -> bool { 65 <= b <= 90 }
pub open spec fn is_lower(b: u8) -> bool { 97 <= b <= 122 }
pub open spec fn is_digit(b: u8) -> bool { 48 <= b <= 57 }
pub open spec fn is_alnum(b: u8) -> bool { is_upper(b) || is_lower(b) || is_digit(b) }

/// First position from `pos` that starts a token: an ASCII letter or digit,
/// or a CJK char. Other ASCII bytes are skipped one by one, other non-ASCII
/// chars by their encoded length.
pub open spec fn skip_to_token(t: Seq<u8>, pos: int) -> int
    decreases t.len() + 4 - pos,
{
    if pos < 0 || pos >= t.len() {
        pos
    } else if is_alnum(t[pos]) {
        pos
    } else if t[pos] >= 0x80 {
        if cjk_at(t, pos) is Some {
            pos
        } else {
            skip_to_token(t, pos + lead_len(t[pos]))
        }
    } else {
        skip_to_token(t, pos + 1)
    }
}

pub open spec fn lower_run_end(t: Seq<u8>, p: int) -> int
    decreases t.len() - p,
{
    if 0 <= p < t.len() && is_lower(t[p]) { lower_run_end(t, p + 1) } else { p }
}

pub open spec fn digit_run_end(t: Seq<u8>, p: int) -> int
    decreases t.len() - p,
{
    if 0 <= p < t.len() && is_digit(t[p]) { digit_run_end(t, p + 1) } else { p }
}

/// An upper-case run stops before the upper-case letter that starts a
/// PascalCase word (`HTMLParser` gives `HTML`).
pub open spec fn upper_run_end(t: Seq<u8>, p: int) -> int
    decreases t.len() - p,
{
    if 0 <= p < t.len() && is_upper(t[p]) {
        if p + 1 < t.len() && is_lower(t[p + 1]) { p } else { upper_run_end(t, p + 1) }
    } else {
        p
    }
}

/// End of the ASCII token that starts at `start`.
pub open spec fn ascii_token_end(t: Seq<u8>, start: int) -> int {
    let first = t[start];
    let p = start + 1;
    if is_upper(first) {
        if p < t.len() && is_lower(t[p]) { lower_run_end(t, p) } else { upper_run_end(t, p) }
    } else if is_lower(first) {
        lower_run_end(t, p)
    } else if is_digit(first) {
        digit_run_end(t, p)
    } else {
        p
    }
}

/// The text of an ASCII byte run; empty when it is not ASCII.
pub open spec fn ascii_text(b: Seq<u8>) -> Seq<char> {
    if forall|i: int| 0 <= i < b.len() ==> b[i] < 0x80 {
        b.map_values(|x: u8| x as char)
    } else {
        Seq::empty()
    }
}

/// Result of one step of the token stream.
pub struct TokenStep {
    /// The token emitted: its text and byte offsets, if any.
    pub token: Option<(Seq<char>, int, int)>,
    pub pos: int,
    pub pending: Option<int>,
}

/// Normal scanning from `p`: skip to the next token start and read one token.
pub open spec fn scan_step(t: Seq<u8>, p: int) -> TokenStep {
    let q = skip_to_token(t, p);
    if q >= t.len() {
        TokenStep { token: None, pos: q, pending: None }
    } else if t[q] >= 0x80 && cjk_at(t, q) is Some {
        let c1 = cjk_at(t, q).unwrap();
        let np = q + utf8_len_of(c1);
        match cjk_at(t, np) {
            Some(c2) => TokenStep {
                token: Some((seq![c1, c2], q, np + utf8_len_of(c2))),
                pos: np + utf8_len_of(c2),
                pending: Some(np),
            },
            None => TokenStep { token: Some((seq![c1], q, np)), pos: np, pending: None },
        }
    } else {
        let e = ascii_token_end(t, q);
        TokenStep { token: Some((ascii_text(t.subrange(q, e)), q, e)), pos: e, pending: None }
    }
}

/// One step of the token stream from position `pos`, with the offset of the
/// second char of the previous CJK bigram pending, if there was one.
pub open spec fn token_step(t: Seq<u8>, pos: int, pending: Option<int>) -> TokenStep {
    match pending {
        Some(off) => match cjk_at(t, off) {
            Some(c1) => {
                let np = off + utf8_len_of(c1);
                match cjk_at(t, np) {
                    Some(c2) => TokenStep {
                        token: Some((seq![c1, c2], off, np + utf8_len_of(c2))),
                        pos: np + utf8_len_of(c2),
                        pending: Some(np),
                    },
                    None => scan_step(t, np),
                }
            },
            None => scan_step(t, off),
        },
        None => scan_step(t, pos),
    }
}

/// The tokens of a text (text and byte offsets), in order, stepping from
/// the given state until a step emits nothing.
pub open spec fn tokens_from(t: Seq<u8>, pos: int, pending: Option<int>) -> Seq<(Seq<char>, int, int)>
    decreases t.len() + 8 - pos,
{
    let r = token_step(t, pos, pending);
    match r.token {
        Some(tok) => if pos < r.pos <= t.len() + 8 {
            seq![tok] + tokens_from(t, r.pos, r.pending)
        } else {
            seq![tok]
        },
        None => Seq::empty(),
    }
}

/// The tokens of a whole text.
pub open spec fn code_tokens(t: Seq<u8>) -> Seq<(Seq<char>, int, int)> {
    tokens_from(t, 0, None)
}

/// One token produced by the code tokenizer.
#[derive(Debug, Clone)]
pub struct CodeToken {
    pub text: String,
    pub offset_from: usize,
    pub offset_to: usize,
    /// Index of the token in the stream.
    pub position: usize,
}

/// Token stream over a text, one token per `advance`.
pub struct CodeTokenStream<'a> {
    text: &'a [u8],
    pos: usize,
    pending_cjk_offset: Option<usize>,
    token: CodeToken,
    emitted: usize,
}

fn is_cjk_char(c: char) -> (r: bool)
    ensures
        r == is_cjk(c),
{
    let u = c as u32;
    (0x4E00 <= u && u <= 0x9FFF) || (0x3400 <= u && u <= 0x4DBF) || (0xF900 <= u && u <= 0xFAFF) || (0x3040 <= u && u
        <= 0x30FF) || (0xAC00 <= u && u <= 0xD7AF)
}

fn char_utf8_len(c: char) -> (r: usize)
    ensures
        r == utf8_len_of(c),
{
    let u = c as u32;
    if u < 0x80 { 1 } else if u < 0x800 { 2 } else if u < 0x10000 { 3 } else { 4 }
}

/// Return the byte length of a UTF-8 character from its first byte.
fn utf8_char_len(first_byte: u8) -> (r: usize)
    ensures
        r == lead_len(first_byte),
{
    if first_byte <= 0x7F { 1 }
    else if 0xC0 <= first_byte && first_byte <= 0xDF { 2 }
    else if 0xE0 <= first_byte && first_byte <= 0xEF { 3 }
    else if 0xF0 <= first_byte && first_byte <= 0xF7 { 4 }
    else { 1 }
}

/// Decode a CJK character at the given byte position: the char and its UTF-8 length.
fn decode_cjk_at(text: &[u8], pos: usize) -> (r: Option<(char, usize)>)
    ensures
        r is Some <==> cjk_at(text@, pos as int) is Some,
        r matches Some((c, n)) ==> cjk_at(text@, pos as int) == Some(c) && n == utf8_len_of(c),
{
    if pos >= text.len() {
        return None;
    }
    let rest = &text[pos..text.len()];
    assert(rest@ =~= text@.subrange(pos as int, text@.len() as int));
    match str_from_utf8(rest) {
        None => None,
        Some(s) => {
            if s.unicode_len() == 0 {
                return None;
            }
            let ch = s.get_char(0);
            if is_cjk_char(ch) {
                Some((ch, char_utf8_len(ch)))
            } else {
                None
            }
        },
    }
}

pub open spec fn stream_text_ok(t: Seq<u8>) -> bool {
    t.len() + 16 <= usize::MAX
}

impl<'a> CodeTokenStream<'a> {
    pub closed spec fn text_view(&self) -> Seq<u8> {
        self.text@
    }

    pub closed spec fn pos_view(&self) -> int {
        self.pos as int
    }

    pub closed spec fn pending_view(&self) -> Option<int> {
        match self.pending_cjk_offset {
            Some(o) => Some(o as int),
            None => None,
        }
    }

    pub closed spec fn emitted_view(&self) -> nat {
        self.emitted as nat
    }

    pub closed spec fn token_view(&self) -> CodeToken {
        self.token
    }

    pub closed spec fn wf(&self) -> bool {
        &&& stream_text_ok(self.text@)
        &&& self.pos <= self.text@.len() + 4
        &&& (self.pending_cjk_offset matches Some(o) ==> o <= self.text@.len())
    }

    /// A fresh stream at the start of the text.
    pub fn new(text: &'a str) -> (r: CodeTokenStream<'a>)
        requires
            stream_text_ok(text.spec_bytes()),
        ensures
            r.wf(),
            r.text_view() == text.spec_bytes(),
            r.pos_view() == 0,
            r.pending_view() is None,
            r.emitted_view() == 0,
    {
        CodeTokenStream {
            text: text.as_bytes(),
            pos: 0,
            pending_cjk_offset: None,
            token: CodeToken { text: String::new(), offset_from: 0, offset_to: 0, position: 0 },
            emitted: 0,
        }
    }

    /// The number of tokens emitted so far.
    pub fn emitted(&self) -> (r: usize)
        ensures
            r == self.emitted_view(),
    {
        self.emitted
    }

    /// The current token.
    pub fn token(&self) -> (r: &CodeToken)
        ensures
            *r == self.token_view(),
    {
        &self.token
    }

    fn set_token(&mut self, text: String, from: usize, to: usize)
        requires
            old(self).emitted < usize::MAX,
        ensures
            final(self).text == old(self).text,
            final(self).pos == old(self).pos,
            final(self).pending_cjk_offset == old(self).pending_cjk_offset,
            final(self).emitted == old(self).emitted + 1,
            final(self).token == (CodeToken { text, offset_from: from, offset_to: to, position: old(self).emitted }),
    {
        self.token = CodeToken { text, offset_from: from, offset_to: to, position: self.emitted };
        self.emitted = self.emitted + 1;
    }

    /// Normal scanning from the current position.
    fn scan(&mut self) -> (r: bool)
        requires
            old(self).wf(),
            old(self).pending_cjk_offset is None,
            old(self).emitted < usize::MAX,
        ensures
            final(self).wf(),
            final(self).text == old(self).text,
            ({
                let s = scan_step(old(self).text@, old(self).pos as int);
                &&& r == (s.token is Some)
                &&& final(self).pos_view() == s.pos
                &&& final(self).pending_view() == s.pending
                &&& (s.token matches Some((txt, f, e)) ==> {
                    &&& final(self).token.text@ == txt
                    &&& final(self).token.offset_from == f
                    &&& final(self).token.offset_to == e
                    &&& final(self).token.position == old(self).emitted
                    &&& final(self).emitted == old(self).emitted + 1
                })
                &&& (s.token is None ==> final(self).token == old(self).token && final(self).emitted == old(self).emitted)
            }),
    {
        let len = self.text.len();
        let ghost t = self.text@;
        let ghost p0 = self.pos as int;
        // Skip non-alphanumeric, non-CJK characters
        while self.pos < len
            invariant
                len == t.len(),
                t == self.text@,
                self.text == old(self).text,
                self.pending_cjk_offset is None,
                self.token == old(self).token,
                self.emitted == old(self).emitted,
                stream_text_ok(t),
                self.pos <= len + 4,
                skip_to_token(t, self.pos as int) == skip_to_token(t, p0),
            ensures
                self.pos <= len + 4,
                skip_to_token(t, self.pos as int) == self.pos,
                skip_to_token(t, self.pos as int) == skip_to_token(t, p0),
            decreases len + 4 - self.pos,
        {
            let b = self.text[self.pos];
            if b < 0x80 && is_ascii_alnum(b) {
                break;
            }
            if b >= 0x80 {
                if decode_cjk_at(self.text, self.pos).is_some() {
                    break;
                }
                self.pos = self.pos + utf8_char_len(b);
                continue;
            }
            self.pos = self.pos + 1;
        }
        let q = self.pos;
        assert(q == skip_to_token(t, p0));
        if q >= len {
            return false;
        }
        if self.text[q] >= 0x80 {
            if let Some((ch1, len1)) = decode_cjk_at(self.text, q) {
                let next_pos = q + len1;
                if let Some((ch2, len2)) = decode_cjk_at(self.text, next_pos) {
                    let mut s = String::new();
                    string_push(&mut s, ch1);
                    string_push(&mut s, ch2);
                    assert(s@ =~= seq![ch1, ch2]);
                    self.pending_cjk_offset = Some(next_pos);
                    self.pos = next_pos + len2;
                    self.set_token(s, q, next_pos + len2);
                    return true;
                } else {
                    let mut s = String::new();
                    string_push(&mut s, ch1);
                    assert(s@ =~= seq![ch1]);
                    self.pos = next_pos;
                    self.set_token(s, q, next_pos);
                    return true;
                }
            }
        }
        let e = ascii_token_end_exec(self.text, q);
        let s = ascii_string(self.text, q, e);
        self.pos = e;
        self.set_token(s, q, e);
        true
    }

    /// Advance to the next token; false when the text is exhausted.
    pub fn advance(&mut self) -> (r: bool)
        requires
            old(self).wf(),
            old(self).emitted_view() < usize::MAX,
        ensures
            final(self).wf(),
            final(self).text_view() == old(self).text_view(),
            ({
                let s = token_step(old(self).text_view(), old(self).pos_view(), old(self).pending_view());
                &&& r == (s.token is Some)
                &&& final(self).pos_view() == s.pos
                &&& final(self).pending_view() == s.pending
                &&& (s.token matches Some((txt, f, e)) ==> {
                    &&& final(self).token_view().text@ == txt
                    &&& final(self).token_view().offset_from == f
                    &&& final(self).token_view().offset_to == e
                    &&& final(self).token_view().position == old(self).emitted_view()
                    &&& final(self).emitted_view() == old(self).emitted_view() + 1
                })
                &&& (s.token is None ==> final(self).token_view() == old(self).token_view()
                    && final(self).emitted_view() == old(self).emitted_view())
            }),
    {
        if let Some(second_offset) = self.pending_cjk_offset {
            self.pending_cjk_offset = None;
            self.pos = second_offset;
            if let Some((ch1, len1)) = decode_cjk_at(self.text, self.pos) {
                let next_pos = self.pos + len1;
                if let Some((ch2, len2)) = decode_cjk_at(self.text, next_pos) {
                    let start = self.pos;
                    let mut s = String::new();
                    string_push(&mut s, ch1);
                    string_push(&mut s, ch2);
                    assert(s@ =~= seq![ch1, ch2]);
                    self.pending_cjk_offset = Some(next_pos);
                    self.pos = next_pos + len2;
                    self.set_token(s, start, next_pos + len2);
                    return true;
                } else {
                    self.pos = next_pos;
                }
            }
        }
        self.scan()
    }
}

fn is_ascii_alnum(b: u8) -> (r: bool)
    ensures
        r == is_alnum(b),
{
    (65 <= b && b <= 90) || (97 <= b && b <= 122) || (48 <= b && b <= 57)
}

fn ascii_token_end_exec(t: &[u8], start: usize) -> (e: usize)
    requires
        start < t@.len(),
        stream_text_ok(t@),
    ensures
        e == ascii_token_end(t@, start as int),
        start < e <= t@.len(),
{
    let len = t.len();
    let first = t[start];
    let mut p = start + 1;
    if 65 <= first && first <= 90 {
        if p < len && 97 <= t[p] && t[p] <= 122 {
            while p < len && 97 <= t[p] && t[p] <= 122
                invariant
                    start < p <= len,
                    len == t@.len(),
                    lower_run_end(t@, p as int) == lower_run_end(t@, start + 1),
                decreases len - p,
            {
                p = p + 1;
            }
            assert(lower_run_end(t@, p as int) == p);
        } else {
            let ghost p1 = p as int;
            while p < len && 65 <= t[p] && t[p] <= 90
                invariant
                    start < p <= len,
                    len == t@.len(),
                    upper_run_end(t@, p as int) == upper_run_end(t@, p1),
                ensures
                    start < p <= len,
                    upper_run_end(t@, p as int) == upper_run_end(t@, p1),
                    upper_run_end(t@, p as int) == p,
                decreases len - p,
            {
                if p + 1 < len && 97 <= t[p + 1] && t[p + 1] <= 122 {
                    break;
                }
                p = p + 1;
            }
        }
    } else if 97 <= first && first <= 122 {
        while p < len && 97 <= t[p] && t[p] <= 122
            invariant
                start < p <= len,
                len == t@.len(),
                lower_run_end(t@, p as int) == lower_run_end(t@, start + 1),
            decreases len - p,
        {
            p = p + 1;
        }
        assert(lower_run_end(t@, p as int) == p);
    } else if 48 <= first && first <= 57 {
        while p < len && 48 <= t[p] && t[p] <= 57
            invariant
                start < p <= len,
                len == t@.len(),
                digit_run_end(t@, p as int) == digit_run_end(t@, start + 1),
            decreases len - p,
        {
            p = p + 1;
        }
        assert(digit_run_end(t@, p as int) == p);
    }
    p
}

fn ascii_string(t: &[u8], start: usize, end: usize) -> (r: String)
    requires
        start <= end <= t@.len(),
    ensures
        r@ == ascii_text(t@.subrange(start as int, end as int)),
{
    let ghost b = t@.subrange(start as int, end as int);
    let mut s = String::new();
    let mut i = start;
    while i < end
        invariant
            start <= i <= end,
            end <= t@.len(),
            b == t@.subrange(start as int, end as int),
            forall|k: int| 0 <= k < i - start ==> b[k] < 0x80,
            s@ == b.take(i - start).map_values(|x: u8| x as char),
        decreases end - i,
    {
        let c = t[i];
        if c >= 0x80 {
            assert(!(forall|k: int| 0 <= k < b.len() ==> b[k] < 0x80)) by {
                assert(b[i - start] == c);
            }
            return String::new();
        }
        string_push(&mut s, c as char);
        i = i + 1;
        assert(s@ =~= b.take(i - start).map_values(|x: u8| x as char));
    }
    assert(b.take(end - start) =~= b);
    s
}


pub open spec fn step_state_ok(t: Seq<u8>, pos: int, pending: Option<int>) -> bool {
    &&& 0 <= pos <= t.len() + 4
    &&& (pending matches Some(o) ==> {
        &&& cjk_at(t, o) is Some
        &&& 0 <= o < t.len()
        &&& pos == o + utf8_len_of(cjk_at(t, o).unwrap())
    })
}

proof fn lemma_skip_monotone(t: Seq<u8>, p: int)
    requires
        p >= 0,
    ensures
        skip_to_token(t, p) >= p,
        skip_to_token(t, p) < t.len() ==> skip_to_token(t, p) >= 0,
        skip_to_token(t, p) < t.len() ==> is_alnum(t[skip_to_token(t, p)]) || (t[skip_to_token(t, p)] >= 0x80 && cjk_at(
            t,
            skip_to_token(t, p),
        ) is Some),
    decreases t.len() + 4 - p,
{
    if 0 <= p < t.len() && !is_alnum(t[p]) {
        if t[p] >= 0x80 {
            if cjk_at(t, p) is None {
                lemma_skip_monotone(t, p + lead_len(t[p]));
            }
        } else {
            lemma_skip_monotone(t, p + 1);
        }
    }
}

proof fn lemma_lower_run(t: Seq<u8>, p: int)
    requires
        0 <= p <= t.len(),
    ensures
        p <= lower_run_end(t, p) <= t.len(),
        forall|m: int| p <= m < lower_run_end(t, p) ==> is_lower(t[m]),
        p < t.len() && is_lower(t[p]) ==> p < lower_run_end(t, p),
    decreases t.len() - p,
{
    if p < t.len() && is_lower(t[p]) {
        lemma_lower_run(t, p + 1);
    }
}

proof fn lemma_digit_run(t: Seq<u8>, p: int)
    requires
        0 <= p <= t.len(),
    ensures
        p <= digit_run_end(t, p) <= t.len(),
        forall|m: int| p <= m < digit_run_end(t, p) ==> is_digit(t[m]),
        p < t.len() && is_digit(t[p]) ==> p < digit_run_end(t, p),
    decreases t.len() - p,
{
    if p < t.len() && is_digit(t[p]) {
        lemma_digit_run(t, p + 1);
    }
}

proof fn lemma_upper_run(t: Seq<u8>, p: int)
    requires
        0 <= p <= t.len(),
    ensures
        p <= upper_run_end(t, p) <= t.len(),
        forall|m: int| p <= m < upper_run_end(t, p) ==> is_upper(t[m]),
    decreases t.len() - p,
{
    if p < t.len() && is_upper(t[p]) && !(p + 1 < t.len() && is_lower(t[p + 1])) {
        lemma_upper_run(t, p + 1);
    }
}

proof fn lemma_scan_progress(t: Seq<u8>, p: int)
    requires
        0 <= p,
    ensures
        scan_step(t, p).token is Some ==> {
            &&& p < scan_step(t, p).pos <= t.len() + 8
            &&& step_state_ok(t, scan_step(t, p).pos, scan_step(t, p).pending)
            &&& scan_step(t, p).token.unwrap().2 == scan_step(t, p).pos
        },
{
    lemma_skip_monotone(t, p);
    let q = skip_to_token(t, p);
    if q < t.len() {
        if !(t[q] >= 0x80 && cjk_at(t, q) is Some) {
            let first = t[q];
            if is_upper(first) {
                if q + 1 < t.len() && is_lower(t[q + 1]) {
                    lemma_lower_run(t, q + 1);
                } else {
                    lemma_upper_run(t, q + 1);
                }
            } else if is_lower(first) {
                lemma_lower_run(t, q + 1);
            } else if is_digit(first) {
                lemma_digit_run(t, q + 1);
            }
        }
    }
}

/// Every step that emits a token moves strictly forward and stays within
/// a few bytes past the end of the text.
proof fn lemma_step_progress(t: Seq<u8>, pos: int, pending: Option<int>)
    requires
        step_state_ok(t, pos, pending),
    ensures
        token_step(t, pos, pending).token is Some ==> {
            &&& pos < token_step(t, pos, pending).pos <= t.len() + 8
            &&& step_state_ok(t, token_step(t, pos, pending).pos, token_step(t, pos, pending).pending)
        },
{
    match pending {
        Some(off) => {
            let c1 = cjk_at(t, off).unwrap();
            let np = off + utf8_len_of(c1);
            match cjk_at(t, np) {
                Some(c2) => {},
                None => {
                    lemma_scan_progress(t, np);
                },
            }
        },
        None => {
            lemma_scan_progress(t, pos);
        },
    }
}

/// The shape of an ASCII token: a capitalised word, an upper-case run, a
/// lower-case run, or a run of digits.
pub open spec fn ascii_word(b: Seq<u8>) -> bool {
    &&& b.len() > 0
    &&& {
        ||| (forall|k: int| 0 <= k < b.len() ==> is_lower(#[trigger] b[k]))
        ||| (forall|k: int| 0 <= k < b.len() ==> is_upper(#[trigger] b[k]))
        ||| (forall|k: int| 0 <= k < b.len() ==> is_digit(#[trigger] b[k]))
        ||| (b.len() >= 2 && is_upper(b[0]) && forall|k: int| 1 <= k < b.len() ==> is_lower(#[trigger] b[k]))
    }
}

/// A token of text `t`: its bytes `[a, b)` lie within the text; an ASCII
/// token has the shape of a word and its text is those bytes; any other is
/// one or two CJK chars, read from its bytes one after the other.
pub open spec fn token_ok(t: Seq<u8>, tok: (Seq<char>, int, int)) -> bool {
    let s = tok.0;
    let a = tok.1;
    let b = tok.2;
    &&& 0 <= a < b <= t.len()
    &&& {
        ||| (ascii_word(t.subrange(a, b)) && s == ascii_text(t.subrange(a, b)) && s.len() == b - a)
        ||| (s.len() == 1 && cjk_at(t, a) == Some(s[0]) && b == a + utf8_len_of(s[0]))
        ||| (s.len() == 2 && cjk_at(t, a) == Some(s[0]) && cjk_at(t, a + utf8_len_of(s[0])) == Some(s[1]) && b == a
            + utf8_len_of(s[0]) + utf8_len_of(s[1]))
    }
}

/// Where the next token can start at the earliest: the pending offset, or
/// the position.
pub open spec fn next_start(pos: int, pending: Option<int>) -> int {
    match pending {
        Some(o) => o,
        None => pos,
    }
}

/// A CJK char is encoded in three bytes, all within the text.
proof fn lemma_cjk_width(t: Seq<u8>, pos: int)
    requires
        cjk_at(t, pos) is Some,
    ensures
        utf8_len_of(cjk_at(t, pos).unwrap()) == 3,
        0 <= pos,
        pos + 3 <= t.len(),
        encode_scalar(cjk_at(t, pos).unwrap() as u32) == t.subrange(pos, pos + 3),
{
    let rest = t.subrange(pos, t.len() as int);
    let c = cjk_at(t, pos).unwrap();
    assert(decode_utf8(rest)[0] == decode_first_scalar(rest) as char);
    decode_utf8_first_scalar(rest);
    assert(has_width_3_encoding(c as u32));
    assert(encode_scalar(c as u32).len() == 3);
    assert(take_first_scalar(rest).len() == 3);
    assert(length_of_first_scalar(rest) <= rest.len());
    assert(rest.subrange(0, 3) =~= t.subrange(pos, pos + 3));
}

/// A step of normal scanning from `p` emits a well-formed token that starts
/// at `p` or later, and the state after it lets the next token start only
/// after this one starts.
proof fn lemma_scan_token(t: Seq<u8>, p: int)
    requires
        0 <= p,
    ensures
        scan_step(t, p).token matches Some(tok) ==> {
            &&& token_ok(t, tok)
            &&& p <= tok.1
            &&& tok.1 < next_start(scan_step(t, p).pos, scan_step(t, p).pending)
        },
{
    lemma_skip_monotone(t, p);
    let q = skip_to_token(t, p);
    if q < t.len() {
        if t[q] >= 0x80 && cjk_at(t, q) is Some {
            lemma_cjk_width(t, q);
            let np = q + 3;
            if cjk_at(t, np) is Some {
                lemma_cjk_width(t, np);
            }
        } else {
            let first = t[q];
            let e = ascii_token_end(t, q);
            if is_upper(first) {
                if q + 1 < t.len() && is_lower(t[q + 1]) {
                    lemma_lower_run(t, q + 1);
                    let b = t.subrange(q, e);
                    assert(b.len() >= 2 && is_upper(b[0]));
                    assert forall|k: int| 1 <= k < b.len() implies is_lower(#[trigger] b[k]) by {
                        assert(b[k] == t[q + k]);
                    }
                } else {
                    lemma_upper_run(t, q + 1);
                    let b = t.subrange(q, e);
                    assert forall|k: int| 0 <= k < b.len() implies is_upper(#[trigger] b[k]) by {
                        assert(b[k] == t[q + k]);
                    }
                }
            } else if is_lower(first) {
                lemma_lower_run(t, q + 1);
                let b = t.subrange(q, e);
                assert forall|k: int| 0 <= k < b.len() implies is_lower(#[trigger] b[k]) by {
                    assert(b[k] == t[q + k]);
                }
            } else {
                lemma_digit_run(t, q + 1);
                let b = t.subrange(q, e);
                assert forall|k: int| 0 <= k < b.len() implies is_digit(#[trigger] b[k]) by {
                    assert(b[k] == t[q + k]);
                }
            }
            let b = t.subrange(q, e);
            assert(forall|k: int| 0 <= k < b.len() ==> b[k] < 0x80) by {
                assert forall|k: int| 0 <= k < b.len() implies b[k] < 0x80 by {
                    assert(b[k] == t[q + k]);
                    assert(is_alnum(t[q + k]));
                }
            }
        }
    }
}

/// A step from a sound state emits a well-formed token that starts no
/// earlier than the state allows, and the next state allows only later
/// starts.
proof fn lemma_step_token(t: Seq<u8>, pos: int, pending: Option<int>)
    requires
        step_state_ok(t, pos, pending),
    ensures
        token_step(t, pos, pending).token matches Some(tok) ==> {
            &&& token_ok(t, tok)
            &&& next_start(pos, pending) <= tok.1
            &&& tok.1 < next_start(token_step(t, pos, pending).pos, token_step(t, pos, pending).pending)
        },
{
    match pending {
        Some(off) => {
            lemma_cjk_width(t, off);
            let np = off + 3;
            match cjk_at(t, np) {
                Some(c2) => {
                    lemma_cjk_width(t, np);
                },
                None => {
                    lemma_scan_token(t, np);
                },
            }
        },
        None => {
            lemma_scan_token(t, pos);
        },
    }
}

/// The tokens from a sound state are well formed, start no earlier than the
/// state allows, and start at strictly increasing offsets.
proof fn lemma_tokens_from_ok(t: Seq<u8>, pos: int, pending: Option<int>)
    requires
        step_state_ok(t, pos, pending),
    ensures
        forall|k: int| 0 <= k < tokens_from(t, pos, pending).len() ==> token_ok(t, #[trigger] tokens_from(t, pos, pending)[k]),
        forall|k: int| 0 <= k < tokens_from(t, pos, pending).len() ==> next_start(pos, pending) <= #[trigger] tokens_from(t, pos, pending)[k].1,
        forall|k1: int, k2: int|
            0 <= k1 < k2 < tokens_from(t, pos, pending).len() ==> #[trigger] tokens_from(t, pos, pending)[k1].1
                < #[trigger] tokens_from(t, pos, pending)[k2].1,
    decreases t.len() + 8 - pos,
{
    let r = token_step(t, pos, pending);
    lemma_step_progress(t, pos, pending);
    lemma_step_token(t, pos, pending);
    match r.token {
        Some(tok) => if pos < r.pos <= t.len() + 8 {
            lemma_tokens_from_ok(t, r.pos, r.pending);
            let rest = tokens_from(t, r.pos, r.pending);
            let all = tokens_from(t, pos, pending);
            assert(all == seq![tok] + rest);
            assert forall|k: int| 0 <= k < all.len() implies token_ok(t, #[trigger] all[k]) by {
                if k > 0 {
                    assert(all[k] == rest[k - 1]);
                }
            }
            assert forall|k: int| 0 <= k < all.len() implies next_start(pos, pending) <= #[trigger] all[k].1 by {
                if k > 0 {
                    assert(all[k] == rest[k - 1]);
                }
            }
            assert forall|k1: int, k2: int| 0 <= k1 < k2 < all.len() implies #[trigger] all[k1].1 < #[trigger] all[k2].1 by {
                assert(all[k2] == rest[k2 - 1]);
                if k1 > 0 {
                    assert(all[k1] == rest[k1 - 1]);
                }
            }
        } else {
            assert(tokens_from(t, pos, pending) =~= seq![tok]);
        },
        None => {},
    }
}

/// Once a step emits no token, the next step from the state it leaves
/// emits none either and leaves that state as it is: a stream that has
/// returned `false` keeps returning `false`.
pub proof fn lemma_step_stays_done(t: Seq<u8>, pos: int, pending: Option<int>)
    requires
        token_step(t, pos, pending).token is None,
    ensures
        token_step(t, token_step(t, pos, pending).pos, token_step(t, pos, pending).pending).token is None,
        token_step(t, token_step(t, pos, pending).pos, token_step(t, pos, pending).pending).pos == token_step(t, pos, pending).pos,
        token_step(t, token_step(t, pos, pending).pos, token_step(t, pos, pending).pending).pending == token_step(t, pos, pending).pending,
{
    let s = token_step(t, pos, pending);
    assert(s.pending is None);
    assert(s.pos >= t.len());
    assert(skip_to_token(t, s.pos) == s.pos);
}

/// Every token of a text lies within it and is either an ASCII word (a
/// capitalised word, an upper-case, lower-case or digit run) whose text is
/// its bytes, or one or two CJK chars read from its bytes; the tokens start
/// at strictly increasing offsets.
pub proof fn lemma_code_tokens_ok(t: Seq<u8>)
    ensures
        forall|k: int| 0 <= k < code_tokens(t).len() ==> token_ok(t, #[trigger] code_tokens(t)[k]),
        forall|k1: int, k2: int|
            0 <= k1 < k2 < code_tokens(t).len() ==> #[trigger] code_tokens(t)[k1].1 < #[trigger] code_tokens(t)[k2].1,
{
    lemma_tokens_from_ok(t, 0, None);
}

/// Split a text into code tokens: camelCase, PascalCase, snake_case and digit
/// boundaries separate ASCII tokens; CJK runs become overlapping bigrams.
pub fn tokenize(text: &str) -> (r: Vec<CodeToken>)
    requires
        stream_text_ok(text.spec_bytes()),
    ensures
        r@.len() == code_tokens(text.spec_bytes()).len(),
        forall|i: int| 0 <= i < r@.len() ==> {
            &&& (#[trigger] r@[i]).text@ == code_tokens(text.spec_bytes())[i].0
            &&& r@[i].offset_from == code_tokens(text.spec_bytes())[i].1
            &&& r@[i].offset_to == code_tokens(text.spec_bytes())[i].2
            &&& r@[i].position == i
        },
{
    let ghost t = text.spec_bytes();
    let mut stream = CodeTokenStream::new(text);
    let mut out: Vec<CodeToken> = Vec::new();
    let ghost all = code_tokens(t);
    proof {
        assert(all.subrange(0, 0) + tokens_from(t, 0, None) =~= all);
    }
    loop
        invariant
            stream.wf(),
            stream.text_view() == t,
            step_state_ok(t, stream.pos_view(), stream.pending_view()),
            stream.emitted_view() == out@.len(),
            out@.len() <= stream.pos_view(),
            out@.len() <= all.len(),
            all == code_tokens(t),
            all.subrange(0, out@.len() as int) + tokens_from(t, stream.pos_view(), stream.pending_view()) == all,
            forall|i: int| 0 <= i < out@.len() ==> {
                &&& (#[trigger] out@[i]).text@ == all[i].0
                &&& out@[i].offset_from == all[i].1
                &&& out@[i].offset_to == all[i].2
                &&& out@[i].position == i
            },
        ensures
            out@.len() == all.len(),
            forall|i: int| 0 <= i < out@.len() ==> {
                &&& (#[trigger] out@[i]).text@ == all[i].0
                &&& out@[i].offset_from == all[i].1
                &&& out@[i].offset_to == all[i].2
                &&& out@[i].position == i
            },
        decreases t.len() + 8 - stream.pos_view(),
    {
        let ghost pos = stream.pos_view();
        let ghost pending = stream.pending_view();
        let ghost n = out@.len();
        proof {
            lemma_step_progress(t, pos, pending);
        }
        let emitted = stream.advance();
        let ghost step = token_step(t, pos, pending);
        if !emitted {
            proof {
                assert(tokens_from(t, pos, pending) =~= Seq::<(Seq<char>, int, int)>::empty());
                assert(all.subrange(0, n as int) =~= all);
            }
            break;
        }
        let tok = stream.token();
        let copy = CodeToken {
            text: tok.text.clone(),
            offset_from: tok.offset_from,
            offset_to: tok.offset_to,
            position: tok.position,
        };
        out.push(copy);
        proof {
            let tk = step.token.unwrap();
            assert(tokens_from(t, pos, pending) == seq![tk] + tokens_from(t, step.pos, step.pending));
            assert(all[n as int] == tk) by {
                assert((all.subrange(0, n as int) + tokens_from(t, pos, pending))[n as int] == tk);
            }
            assert(all.subrange(0, (n + 1) as int) =~= all.subrange(0, n as int).push(tk));
            assert(all.subrange(0, (n + 1) as int) + tokens_from(t, step.pos, step.pending) =~= all) by {
                assert(all.subrange(0, (n + 1) as int) + tokens_from(t, step.pos, step.pending)
                    =~= all.subrange(0, n as int) + tokens_from(t, pos, pending));
            }
        }
    }
    out
}

} // verus!
