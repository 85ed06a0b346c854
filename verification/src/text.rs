use vstd::prelude::*;
use vstd::utf8::*;
use vstd::string::StringSliceAdditionalSpecFns;

verus! {

/// Decodes bytes as UTF-8 (std's `str::from_utf8`), keeping only success.
/// Claims that it succeeds exactly on valid UTF-8 and then yields the decoded chars.
#[verifier::external_body]
pub(crate) fn str_from_utf8(b: &[u8]) -> (r: Option<&str>)
    ensures
        r is Some <==> valid_utf8(b@),
        r matches Some(s) ==> s@ == decode_utf8(b@),
{
    std::str::from_utf8(b).ok()
}

/// Appends one char to a `String` (std's `String::push`).
/// Claims that the char sequence of the string grows by exactly that char.
#[verifier::external_body]
pub(crate) fn string_push(s: &mut String, c: char)
    ensures
        final(s)@ == old(s)@.push(c),
{
    s.push(c);
}

/// Appends a string slice to a `String` (std's `String::push_str`).
/// Claims that the char sequence of the string grows by exactly that slice.
#[verifier::external_body]
pub(crate) fn string_push_str(s: &mut String, t: &str)
    ensures
        final(s)@ == old(s)@ + t@,
{
    s.push_str(t);
}

/// Copies a string slice into a new `String`.
pub fn str_to_string(t: &str) -> (r: String)
    ensures
        r@ == t@,
{
    t.to_owned()
}

/// ASCII decimal digits of a natural number, most significant first, no leading zeros.
pub open spec fn dec_chars(n: nat) -> Seq<char>
    decreases n,
{
    if n < 10 {
        seq![digit_char(n)]
    } else {
        dec_chars(n / 10).push(digit_char(n % 10))
    }
}

pub open spec fn digit_char(d: nat) -> char {
    if d == 0 { '0' } else if d == 1 { '1' } else if d == 2 { '2' } else if d == 3 { '3' }
    else if d == 4 { '4' } else if d == 5 { '5' } else if d == 6 { '6' } else if d == 7 { '7' }
    else if d == 8 { '8' } else { '9' }
}

/// The same digits as bytes.
pub open spec fn dec_bytes(n: nat) -> Seq<u8> {
    encode_utf8(dec_chars(n))
}

/// Lower-case hex digit for a value below 16.
pub open spec fn hex_char(d: nat) -> char {
    if d < 10 { digit_char(d) }
    else if d == 10 { 'a' } else if d == 11 { 'b' } else if d == 12 { 'c' }
    else if d == 13 { 'd' } else if d == 14 { 'e' } else { 'f' }
}

/// The `k` least significant hex digits of `n`, most significant first,
/// zero-padded (`{:0kx}` when `n < 16^k`).
pub open spec fn hex_chars(n: nat, k: nat) -> Seq<char>
    decreases k,
{
    if k == 0 {
        Seq::empty()
    } else {
        hex_chars(n / 16, (k - 1) as nat).push(hex_char(n % 16))
    }
}

/// `n` rendered in decimal and left-padded with `'0'` to at least `width` chars.
pub open spec fn pad_dec(n: nat, width: nat) -> Seq<char> {
    let d = dec_chars(n);
    if d.len() >= width {
        d
    } else {
        Seq::new((width - d.len()) as nat, |i: int| '0') + d
    }
}

pub fn digit_to_char(d: u8) -> (c: char)
    requires
        d < 10,
    ensures
        c == digit_char(d as nat),
{
    if d == 0 { '0' } else if d == 1 { '1' } else if d == 2 { '2' } else if d == 3 { '3' }
    else if d == 4 { '4' } else if d == 5 { '5' } else if d == 6 { '6' } else if d == 7 { '7' }
    else if d == 8 { '8' } else { '9' }
}

pub fn hex_digit_to_char(d: u8) -> (c: char)
    requires
        d < 16,
    ensures
        c == hex_char(d as nat),
{
    if d < 10 { digit_to_char(d) }
    else if d == 10 { 'a' } else if d == 11 { 'b' } else if d == 12 { 'c' }
    else if d == 13 { 'd' } else if d == 14 { 'e' } else { 'f' }
}

/// Appends the decimal digits of `n` to `s`.
pub fn push_decimal(s: &mut String, n: u128)
    ensures
        final(s)@ == old(s)@ + dec_chars(n as nat),
    decreases n,
{
    if n >= 10 {
        push_decimal(s, n / 10);
    }
    let d = (n % 10) as u8;
    string_push(s, digit_to_char(d));
    proof {
        assert(old(s)@ + dec_chars(n as nat) =~= (if n >= 10 {
            old(s)@ + dec_chars((n / 10) as nat)
        } else {
            old(s)@
        }).push(digit_char((n % 10) as nat)));
    }
}

/// Decimal rendering of `n`.
pub fn decimal_string(n: u128) -> (r: String)
    ensures
        r@ == dec_chars(n as nat),
{
    let mut s = String::new();
    push_decimal(&mut s, n);
    assert(s@ =~= dec_chars(n as nat));
    s
}

pub proof fn lemma_dec_chars_nonempty(n: nat)
    ensures
        dec_chars(n).len() >= 1,
    decreases n,
{
    if n >= 10 {
        lemma_dec_chars_nonempty(n / 10);
    }
}

/// Appends `n` in decimal, left-padded with zeros to `width` chars.
pub fn push_padded_decimal(s: &mut String, n: u64, width: usize)
    requires
        width <= 64,
    ensures
        final(s)@ == old(s)@ + pad_dec(n as nat, width as nat),
{
    let d = decimal_string(n as u128);
    let len = d.as_str().unicode_len();
    let mut i: usize = len;
    let ghost start = s@;
    while i < width
        invariant
            len == dec_chars(n as nat).len(),
            len <= i,
            i <= width || i == len,
            s@ == start + Seq::new((i - len) as nat, |j: int| '0'),
        decreases width - i,
    {
        string_push(s, '0');
        i = i + 1;
        assert(s@ =~= start + Seq::new((i - len) as nat, |j: int| '0'));
    }
    string_push_str(s, d.as_str());
    proof {
        if dec_chars(n as nat).len() >= width {
            assert(i == len);
            assert(s@ =~= old(s)@ + pad_dec(n as nat, width as nat));
        } else {
            assert(s@ =~= old(s)@ + pad_dec(n as nat, width as nat));
        }
    }
}

/// Appends the `k` low hex digits of `n`, most significant first.
pub fn push_hex(s: &mut String, n: u128, k: u32)
    ensures
        final(s)@ == old(s)@ + hex_chars(n as nat, k as nat),
    decreases k,
{
    if k == 0 {
        assert(hex_chars(n as nat, 0) =~= Seq::<char>::empty());
        assert(s@ =~= old(s)@ + hex_chars(n as nat, k as nat));
        return;
    }
    push_hex(s, n / 16, k - 1);
    let d = (n % 16) as u8;
    string_push(s, hex_digit_to_char(d));
    assert(s@ =~= old(s)@ + hex_chars(n as nat, k as nat));
}

/// Value of an ASCII hex digit (either case), if it is one.
pub open spec fn hex_value_of(c: char) -> Option<nat> {
    if '0' <= c && c <= '9' {
        Some((c as nat - '0' as nat) as nat)
    } else if 'a' <= c && c <= 'f' {
        Some((c as nat - 'a' as nat + 10) as nat)
    } else if 'A' <= c && c <= 'F' {
        Some((c as nat - 'A' as nat + 10) as nat)
    } else {
        None
    }
}

pub open spec fn all_hex(s: Seq<char>) -> bool {
    forall|i: int| 0 <= i < s.len() ==> (#[trigger] hex_value_of(s[i])) is Some
}

/// The number that a sequence of hex digits denotes.
pub open spec fn hex_number(s: Seq<char>) -> nat
    decreases s.len(),
{
    if s.len() == 0 {
        0
    } else {
        hex_number(s.drop_last()) * 16 + hex_value_of(s.last()).unwrap_or(0)
    }
}

/// What `u128::from_str_radix(s, 16)` accepts: an optional `+`, then at
/// least one hex digit, denoting a value that fits in 128 bits.
pub open spec fn spec_parse_hex_u128(s: Seq<char>) -> Option<u128> {
    let digits = if s.len() > 0 && s[0] == '+' { s.drop_first() } else { s };
    if digits.len() > 0 && all_hex(digits) && hex_number(digits) <= u128::MAX {
        Some(hex_number(digits) as u128)
    } else {
        None
    }
}

fn hex_digit_value(c: char) -> (r: Option<u8>)
    ensures
        r matches Some(v) ==> hex_value_of(c) == Some(v as nat) && v < 16,
        r is None ==> hex_value_of(c) is None,
{
    if '0' <= c && c <= '9' {
        Some(((c as u32) - ('0' as u32)) as u8)
    } else if 'a' <= c && c <= 'f' {
        Some(((c as u32) - ('a' as u32) + 10) as u8)
    } else if 'A' <= c && c <= 'F' {
        Some(((c as u32) - ('A' as u32) + 10) as u8)
    } else {
        None
    }
}

proof fn lemma_hex_number_prefix_monotone(s: Seq<char>, i: int)
    requires
        0 <= i <= s.len(),
        all_hex(s),
    ensures
        hex_number(s.subrange(0, i)) <= hex_number(s),
    decreases s.len() - i,
{
    if i < s.len() {
        lemma_hex_number_prefix_monotone(s, i + 1);
        let p = s.subrange(0, i + 1);
        assert(p.drop_last() =~= s.subrange(0, i));
        assert(hex_number(p) >= hex_number(s.subrange(0, i))) by (nonlinear_arith)
            requires hex_number(p) == hex_number(p.drop_last()) * 16 + hex_value_of(p.last()).unwrap_or(0),
                p.drop_last() == s.subrange(0, i);
    } else {
        assert(s.subrange(0, i) =~= s);
    }
}

/// Parse a hexadecimal `u128` exactly as `u128::from_str_radix(s, 16).ok()` does.
pub fn parse_hex_u128(s: &str) -> (r: Option<u128>)
    ensures
        r == spec_parse_hex_u128(s@),
{
    let n = s.unicode_len();
    let mut i: usize = 0;
    if n > 0 && s.get_char(0) == '+' {
        i = 1;
    }
    let ghost digits = if s@.len() > 0 && s@[0] == '+' { s@.drop_first() } else { s@ };
    let start = i;
    assert(digits =~= s@.subrange(start as int, n as int));
    if start == n {
        return None;
    }
    let mut acc: u128 = 0;
    while i < n
        invariant
            start <= i <= n,
            n == s@.len(),
            digits =~= s@.subrange(start as int, n as int),
            digits == (if s@.len() > 0 && s@[0] == '+' { s@.drop_first() } else { s@ }),
            all_hex(s@.subrange(start as int, i as int)),
            acc as nat == hex_number(s@.subrange(start as int, i as int)),
        decreases n - i,
    {
        let c = s.get_char(i);
        let ghost pre = s@.subrange(start as int, i as int);
        let ghost next = s@.subrange(start as int, i + 1);
        assert(next.drop_last() =~= pre);
        assert(next.last() == c);
        match hex_digit_value(c) {
            None => {
                proof {
                    assert(digits[i - start] == c);
                    assert(hex_value_of(digits[i - start]) is None);
                    assert(!all_hex(digits));
                }
                return None;
            },
            Some(d) => {
                if acc > (u128::MAX - d as u128) / 16 {
                    proof {
                        assert(hex_value_of(next.last()) == Some(d as nat));
                        assert(hex_number(next) == hex_number(next.drop_last()) * 16 + hex_value_of(next.last()).unwrap_or(0));
                        assert(hex_number(next) == acc * 16 + d);
                        assert(acc * 16 + d > u128::MAX) by (nonlinear_arith)
                            requires acc > (u128::MAX - d as u128) / 16, d < 16;
                        assert(all_hex(next));
                        if all_hex(digits) {
                            lemma_hex_number_prefix_monotone(digits, i + 1 - start);
                            assert(digits.subrange(0, i + 1 - start) =~= next);
                        }
                    }
                    return None;
                }
                proof {
                    assert(acc * 16 + d <= u128::MAX) by (nonlinear_arith)
                        requires acc <= (u128::MAX - d as u128) / 16, d < 16;
                }
                acc = acc * 16 + d as u128;
                proof {
                    assert forall|j: int| 0 <= j < next.len() implies (#[trigger] hex_value_of(next[j])) is Some by {
                        if j < pre.len() {
                            assert(next[j] == pre[j]);
                        }
                    }
                }
            },
        }
        i = i + 1;
    }
    Some(acc)
}

/// Rendering with `hex_chars` and reading back with `hex_number` gives
/// the value back when it has at most `k` hex digits.
pub proof fn lemma_hex_round_trip(n: nat, k: nat)
    ensures
        all_hex(hex_chars(n, k)),
        hex_number(hex_chars(n, k)) == n % pow16(k),
    decreases k,
{
    if k > 0 {
        lemma_hex_round_trip(n / 16, (k - 1) as nat);
        let s = hex_chars(n, k);
        assert(s.drop_last() =~= hex_chars(n / 16, (k - 1) as nat));
        lemma_hex_char_value(n % 16);
        assert forall|i: int| 0 <= i < s.len() implies (#[trigger] hex_value_of(s[i])) is Some by {
            if i < s.len() - 1 {
                assert(s[i] == s.drop_last()[i]);
            }
        }
        lemma_pow16_pos((k - 1) as nat);
        let p = pow16((k - 1) as nat);
        vstd::arithmetic::div_mod::lemma_mod_breakdown(n as int, 16, p as int);
        assert(16 * p == p * 16) by (nonlinear_arith);
        assert(((n / 16) % p) * 16 == 16 * ((n / 16) % p)) by (nonlinear_arith);
    } else {
        assert(hex_chars(n, 0) =~= Seq::<char>::empty());
    }
}

pub open spec fn pow16(k: nat) -> nat
    decreases k,
{
    if k == 0 { 1 } else { 16 * pow16((k - 1) as nat) }
}

pub proof fn lemma_pow16_pos(k: nat)
    ensures
        pow16(k) > 0,
    decreases k,
{
    if k > 0 {
        lemma_pow16_pos((k - 1) as nat);
    }
}

proof fn lemma_hex_char_value(d: nat)
    requires
        d < 16,
    ensures
        hex_value_of(hex_char(d)) == Some(d),
{
}

pub proof fn lemma_pow16_32()
    ensures
        pow16(32) == u128::MAX + 1,
{
    reveal_with_fuel(pow16, 33);
    assert(pow16(32) == 0x1_0000_0000_0000_0000_0000_0000_0000_0000);
}


/// The chars of a string slice, in order.
pub fn chars_of(s: &str) -> (v: Vec<char>)
    ensures
        v@ == s@,
{
    let mut v: Vec<char> = Vec::new();
    for c in it: s.chars()
        invariant
            v@ == it.seq().take(it.index() as int),
            it.seq() == s@,
    {
        assert(it.seq().take(it.index() + 1) =~= it.seq().take(it.index() as int).push(c));
        v.push(c);
    }
    assert(v@ =~= s@);
    v
}

/// A `String` holding the given chars.
pub fn string_from_chars(cs: &Vec<char>) -> (r: String)
    ensures
        r@ == cs@,
{
    let mut r = String::new();
    let mut i: usize = 0;
    while i < cs.len()
        invariant
            i <= cs@.len(),
            r@ == cs@.take(i as int),
        decreases cs@.len() - i,
    {
        string_push(&mut r, cs[i]);
        i = i + 1;
        assert(r@ =~= cs@.take(i as int));
    }
    assert(cs@.take(i as int) =~= cs@);
    r
}

/// The largest char boundary at or below `k` (0 at worst).
pub open spec fn last_boundary_at_most(bytes: Seq<u8>, k: int) -> int
    decreases k,
{
    if k <= 0 {
        0
    } else if is_char_boundary(bytes, k) {
        k
    } else {
        last_boundary_at_most(bytes, k - 1)
    }
}

/// Byte length of a UTF-8 text truncated to at most `max_bytes` bytes on a
/// char boundary: the whole length when it fits.
pub open spec fn truncated_len(bytes: Seq<u8>, max_bytes: int) -> int {
    if bytes.len() <= max_bytes {
        bytes.len() as int
    } else {
        last_boundary_at_most(bytes, max_bytes)
    }
}

pub proof fn lemma_last_boundary(bytes: Seq<u8>, k: int)
    requires
        valid_utf8(bytes),
        0 <= k,
    ensures
        0 <= last_boundary_at_most(bytes, k) <= k,
        is_char_boundary(bytes, last_boundary_at_most(bytes, k)),
        forall|j: int| last_boundary_at_most(bytes, k) < j <= k ==> !is_char_boundary(bytes, j),
    decreases k,
{
    if k > 0 && !is_char_boundary(bytes, k) {
        lemma_last_boundary(bytes, k - 1);
    }
}

/// Truncate a string to at most `max_bytes` bytes on a valid UTF-8 boundary.
///
/// Returns a sub-slice that is always valid UTF-8 and at most `max_bytes` long:
/// the whole string when it fits, else the longest prefix ending on a char boundary.
pub fn truncate_utf8_bytes(s: &str, max_bytes: usize) -> (r: &str)
    requires
        s.spec_bytes().len() <= usize::MAX,
    ensures
        r.spec_bytes() == s.spec_bytes().subrange(0, truncated_len(s.spec_bytes(), max_bytes as int)),
        s.spec_bytes().len() <= max_bytes ==> r@ == s@,
        r.spec_bytes().len() <= max_bytes,
        is_char_boundary(s.spec_bytes(), r.spec_bytes().len() as int),
        forall|k: int|
            r.spec_bytes().len() < k <= max_bytes && k <= s.spec_bytes().len() ==> !is_char_boundary(s.spec_bytes(), k),
{
    proof {
        broadcast use encode_utf8_valid_utf8, encode_utf8_decode_utf8;
        assert(valid_utf8(s.spec_bytes()));
    }
    if s.len() <= max_bytes {
        proof {
            assert(s.spec_bytes().subrange(0, s.spec_bytes().len() as int) =~= s.spec_bytes());
            lemma_last_boundary(s.spec_bytes(), s.spec_bytes().len() as int);
            assert(is_char_boundary(s.spec_bytes(), s.spec_bytes().len() as int)) by {
                lemma_end_is_boundary(s.spec_bytes());
            }
        }
        return s;
    }
    let mut end = max_bytes;
    while end > 0 && !s.is_char_boundary(end)
        invariant
            end <= max_bytes,
            max_bytes < s.spec_bytes().len(),
            valid_utf8(s.spec_bytes()),
            last_boundary_at_most(s.spec_bytes(), end as int) == last_boundary_at_most(s.spec_bytes(), max_bytes as int),
            forall|k: int| end < k <= max_bytes ==> !is_char_boundary(s.spec_bytes(), k),
        decreases end,
    {
        end = end - 1;
    }
    let (head, _tail) = s.split_at(end);
    head
}

pub proof fn lemma_end_is_boundary(bytes: Seq<u8>)
    requires
        valid_utf8(bytes),
    ensures
        is_char_boundary(bytes, bytes.len() as int),
    decreases bytes.len(),
{
    if bytes.len() > 0 {
        let rest = pop_first_scalar(bytes);
        reveal_with_fuel(valid_utf8, 2);
        assert(rest.len() < bytes.len()) by {
            assert(length_of_first_scalar(bytes) >= 1);
        }
        lemma_end_is_boundary(rest);
        assert(rest.len() == bytes.len() - length_of_first_scalar(bytes));
    }
}

/// `pat` occurs in `s` starting at index `i`.
pub open spec fn occurs_at(s: Seq<char>, pat: Seq<char>, i: int) -> bool {
    0 <= i && i + pat.len() <= s.len() && s.subrange(i, i + pat.len()) == pat
}

/// `pat` occurs somewhere in `s` (the rule of `str::contains`).
pub open spec fn contains_text(s: Seq<char>, pat: Seq<char>) -> bool {
    exists|i: int| occurs_at(s, pat, i)
}

fn occurs_at_exec(s: &Vec<char>, pat: &Vec<char>, i: usize) -> (r: bool)
    requires
        i + pat@.len() <= s@.len(),
    ensures
        r == occurs_at(s@, pat@, i as int),
{
    let n = s.len();
    let mut k: usize = 0;
    while k < pat.len()
        invariant
            n == s@.len(),
            i + pat@.len() <= s@.len(),
            k <= pat@.len(),
            forall|j: int| 0 <= j < k ==> s@[i + j] == pat@[j],
        decreases pat@.len() - k,
    {
        if s[i + k] != pat[k] {
            assert(s@.subrange(i as int, i + pat@.len())[k as int] != pat@[k as int]);
            return false;
        }
        k = k + 1;
    }
    assert(s@.subrange(i as int, i + pat@.len()) =~= pat@);
    true
}

/// Does `pat` occur in `s`?
pub fn chars_contain(s: &Vec<char>, pat: &Vec<char>) -> (r: bool)
    ensures
        r == contains_text(s@, pat@),
{
    if pat.len() > s.len() {
        return false;
    }
    let last = s.len() - pat.len();
    let mut i: usize = 0;
    while i <= last
        invariant
            last + pat@.len() == s@.len(),
            i <= last + 1,
            forall|j: int| 0 <= j < i ==> !occurs_at(s@, pat@, j),
        decreases last + 1 - i,
    {
        if occurs_at_exec(s, pat, i) {
            return true;
        }
        if i == last {
            assert forall|j: int| !occurs_at(s@, pat@, j) by {
                if 0 <= j < i {
                }
            }
            return false;
        }
        i = i + 1;
    }
    assert forall|j: int| !occurs_at(s@, pat@, j) by {
        if 0 <= j < i {
        }
    }
    false
}

/// Does `pat` occur in `s`?
pub fn str_contains(s: &str, pat: &str) -> (r: bool)
    ensures
        r == contains_text(s@, pat@),
{
    let sc = chars_of(s);
    let pc = chars_of(pat);
    chars_contain(&sc, &pc)
}


/// Unicode White_Space: what `char::is_whitespace` and `str::trim` go by.
pub open spec fn is_unicode_ws(c: char) -> bool {
    ('\t' <= c && c <= '\r') || c == ' ' || c == '\u{85}' || c == '\u{a0}' || c == '\u{1680}'
        || ('\u{2000}' <= c && c <= '\u{200a}') || c == '\u{2028}' || c == '\u{2029}' || c == '\u{202f}'
        || c == '\u{205f}' || c == '\u{3000}'
}

pub fn is_ws_char(c: char) -> (r: bool)
    ensures
        r == is_unicode_ws(c),
{
    ('\t' <= c && c <= '\r') || c == ' ' || c == '\u{85}' || c == '\u{a0}' || c == '\u{1680}'
        || ('\u{2000}' <= c && c <= '\u{200a}') || c == '\u{2028}' || c == '\u{2029}' || c == '\u{202f}'
        || c == '\u{205f}' || c == '\u{3000}'
}

/// The first index at or after `i` that holds no whitespace (or the length).
pub open spec fn trim_start_at(s: Seq<char>, i: int) -> int
    decreases s.len() - i,
{
    if i < 0 || i >= s.len() || !is_unicode_ws(s[i]) {
        i
    } else {
        trim_start_at(s, i + 1)
    }
}

/// The end of `s[lo..j]` once trailing whitespace is dropped.
pub open spec fn trim_end_at(s: Seq<char>, j: int, lo: int) -> int
    decreases j - lo,
{
    if j <= lo || !is_unicode_ws(s[j - 1]) {
        j
    } else {
        trim_end_at(s, j - 1, lo)
    }
}

/// `s` without leading and trailing whitespace (`str::trim`).
pub open spec fn spec_trim(s: Seq<char>) -> Seq<char> {
    let a = trim_start_at(s, 0);
    s.subrange(a, trim_end_at(s, s.len() as int, a))
}

proof fn lemma_trim_start_bounds(s: Seq<char>, i: int)
    requires
        0 <= i <= s.len(),
    ensures
        i <= trim_start_at(s, i) <= s.len(),
    decreases s.len() - i,
{
    if i < s.len() && is_unicode_ws(s[i]) {
        lemma_trim_start_bounds(s, i + 1);
    }
}

proof fn lemma_trim_end_bounds(s: Seq<char>, j: int, lo: int)
    requires
        0 <= lo <= j <= s.len(),
    ensures
        lo <= trim_end_at(s, j, lo) <= j,
    decreases j - lo,
{
    if j > lo && is_unicode_ws(s[j - 1]) {
        lemma_trim_end_bounds(s, j - 1, lo);
    }
}

/// The chars of `cs` without leading and trailing whitespace.
pub fn trim_vec(cs: &Vec<char>) -> (r: Vec<char>)
    ensures
        r@ == spec_trim(cs@),
{
    let n = cs.len();
    let mut a: usize = 0;
    proof {
        lemma_trim_start_bounds(cs@, 0);
    }
    while a < n && is_ws_char(cs[a])
        invariant
            n == cs@.len(),
            a <= n,
            trim_start_at(cs@, a as int) == trim_start_at(cs@, 0),
        decreases n - a,
    {
        a = a + 1;
    }
    let mut b: usize = n;
    proof {
        lemma_trim_end_bounds(cs@, n as int, a as int);
    }
    while b > a && is_ws_char(cs[b - 1])
        invariant
            n == cs@.len(),
            a <= b <= n,
            trim_end_at(cs@, b as int, a as int) == trim_end_at(cs@, n as int, a as int),
        decreases b - a,
    {
        b = b - 1;
    }
    let mut r: Vec<char> = Vec::new();
    let mut k: usize = a;
    while k < b
        invariant
            a <= k <= b <= n,
            n == cs@.len(),
            r@ == cs@.subrange(a as int, k as int),
        decreases b - k,
    {
        r.push(cs[k]);
        assert(cs@.subrange(a as int, k + 1) =~= cs@.subrange(a as int, k as int).push(cs@[k as int]));
        k = k + 1;
    }
    r
}

/// The chars of `cs` without leading and trailing whitespace, as a string.
pub fn trim_chars(cs: &Vec<char>) -> (r: String)
    ensures
        r@ == spec_trim(cs@),
{
    let t = trim_vec(cs);
    string_from_chars(&t)
}

/// `str::trim`: the text without leading and trailing whitespace.
pub fn trim_str(s: &str) -> (r: String)
    ensures
        r@ == spec_trim(s@),
{
    let cs = chars_of(s);
    trim_chars(&cs)
}


/// Whether two strings are equal, compared byte by byte.
pub fn str_same(a: &str, b: &str) -> (r: bool)
    ensures
        r == (a@ == b@),
{
    let x = a.as_bytes();
    let y = b.as_bytes();
    proof {
        vstd::utf8::encode_utf8_decode_utf8(a@);
        vstd::utf8::encode_utf8_decode_utf8(b@);
    }
    if x.len() != y.len() {
        return false;
    }
    let mut i: usize = 0;
    while i < x.len()
        invariant
            x@ == a.spec_bytes(),
            y@ == b.spec_bytes(),
            x@.len() == y@.len(),
            i <= x@.len(),
            forall|j: int| 0 <= j < i ==> x@[j] == y@[j],
        decreases x@.len() - i,
    {
        if x[i] != y[i] {
            return false;
        }
        i = i + 1;
    }
    assert(x@ =~= y@);
    true
}

} // verus!
