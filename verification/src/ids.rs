use vstd::prelude::*;

verus! {

/// Little-endian digits of `n` in base 256, `k` of them.
pub open spec fn le_bytes(n: nat, k: nat) -> Seq<u8>
    decreases k,
{
    if k == 0 {
        Seq::empty()
    } else {
        seq![(n % 256) as u8] + le_bytes(n / 256, (k - 1) as nat)
    }
}

/// The number that little-endian base-256 digits denote.
pub open spec fn le_value(s: Seq<u8>) -> nat
    decreases s.len(),
{
    if s.len() == 0 {
        0
    } else {
        s[0] as nat + 256 * le_value(s.drop_first())
    }
}

pub proof fn lemma_le_bytes_len(n: nat, k: nat)
    ensures
        le_bytes(n, k).len() == k,
    decreases k,
{
    if k > 0 {
        lemma_le_bytes_len(n / 256, (k - 1) as nat);
    }
}

pub fn u128_to_le_bytes(n: u128) -> (r: [u8; 16])
    ensures
        r@ == le_bytes(n as nat, 16),
{
    let mut v: Vec<u8> = Vec::new();
    let mut x: u128 = n;
    let mut i: usize = 0;
    while i < 16
        invariant
            i <= 16,
            v@ + le_bytes(x as nat, (16 - i) as nat) == le_bytes(n as nat, 16),
        decreases 16 - i,
    {
        let ghost before = v@;
        assert(le_bytes(x as nat, (16 - i) as nat) =~= seq![(x % 256) as u8] + le_bytes((x / 256) as nat, (16 - i - 1) as nat));
        v.push((x % 256) as u8);
        x = x / 256;
        i = i + 1;
        assert(v@ + le_bytes(x as nat, (16 - i) as nat) =~= before + (seq![v@[v@.len() - 1]] + le_bytes(x as nat, (16 - i) as nat)));
    }
    assert(le_bytes(x as nat, 0) =~= Seq::<u8>::empty());
    assert(v@ =~= le_bytes(n as nat, 16));
    proof { lemma_le_bytes_len(n as nat, 16); }
    let r = [v[0], v[1], v[2], v[3], v[4], v[5], v[6], v[7], v[8], v[9], v[10], v[11], v[12], v[13], v[14], v[15]];
    assert(r@ =~= v@);
    r
}

pub open spec fn pow256(k: nat) -> nat
    decreases k,
{
    if k == 0 { 1 } else { 256 * pow256((k - 1) as nat) }
}

pub proof fn lemma_pow256_pos(k: nat)
    ensures
        pow256(k) > 0,
    decreases k,
{
    if k > 0 {
        lemma_pow256_pos((k - 1) as nat);
    }
}

pub proof fn lemma_le_value_bound(s: Seq<u8>)
    ensures
        le_value(s) < pow256(s.len()),
    decreases s.len(),
{
    if s.len() > 0 {
        lemma_le_value_bound(s.drop_first());
        let a = s[0] as nat;
        let b = le_value(s.drop_first());
        let p = pow256(s.drop_first().len());
        assert(a + 256 * b < 256 * p) by (nonlinear_arith)
            requires a < 256, b < p;
    }
}

/// Reading back little-endian digits gives the number modulo `256^k`.
pub proof fn lemma_le_value_of_le_bytes(n: nat, k: nat)
    ensures
        le_value(le_bytes(n, k)) == n % pow256(k),
    decreases k,
{
    if k > 0 {
        lemma_le_value_of_le_bytes(n / 256, (k - 1) as nat);
        let s = le_bytes(n, k);
        assert(s.drop_first() =~= le_bytes(n / 256, (k - 1) as nat));
        lemma_pow256_pos((k - 1) as nat);
        let p = pow256((k - 1) as nat);
        vstd::arithmetic::div_mod::lemma_mod_breakdown(n as int, 256, p as int);
    }
}

/// Writing out `k` little-endian digits of the value of `k` digits gives them back.
pub proof fn lemma_le_bytes_of_le_value(s: Seq<u8>)
    ensures
        le_bytes(le_value(s), s.len()) == s,
    decreases s.len(),
{
    if s.len() > 0 {
        let t = s.drop_first();
        lemma_le_bytes_of_le_value(t);
        let v = le_value(s);
        assert(v % 256 == s[0] as nat && v / 256 == le_value(t)) by (nonlinear_arith)
            requires v == s[0] as nat + 256 * le_value(t), s[0] < 256;
        assert(le_bytes(v, s.len()) =~= seq![s[0]] + t);
        assert(seq![s[0]] + t =~= s);
    }
}

pub proof fn lemma_pow256_16()
    ensures
        pow256(16) == u128::MAX + 1,
{
    reveal_with_fuel(pow256, 17);
}

pub fn u128_from_le_bytes(b: [u8; 16]) -> (r: u128)
    ensures
        r as nat == le_value(b@),
{
    let mut acc: u128 = 0;
    let mut i: usize = 16;
    proof {
        assert(b@.subrange(16, 16) =~= Seq::<u8>::empty());
    }
    while i > 0
        invariant
            i <= 16,
            b@.len() == 16,
            acc as nat == le_value(b@.subrange(i as int, 16)),
        decreases i,
    {
        let ghost tail = b@.subrange(i as int, 16);
        let ghost ext = b@.subrange(i - 1, 16);
        assert(ext.drop_first() =~= tail);
        assert(ext[0] == b@[i - 1]);
        proof {
            lemma_le_value_bound(ext);
            lemma_pow256_16();
            lemma_pow256_mono(ext.len(), 16);
        }
        let byte = b[i - 1];
        acc = byte as u128 + 256 * acc;
        i = i - 1;
    }
    assert(b@.subrange(0, 16) =~= b@);
    acc
}

pub proof fn lemma_pow256_mono(a: nat, b: nat)
    requires
        a <= b,
    ensures
        pow256(a) <= pow256(b),
    decreases b,
{
    if a < b {
        lemma_pow256_mono(a, (b - 1) as nat);
        lemma_pow256_pos((b - 1) as nat);
    }
}

/// Appends the `k` little-endian base-256 digits of `n`.
pub fn push_le(buf: &mut Vec<u8>, n: u128, k: usize)
    ensures
        final(buf)@ == old(buf)@ + le_bytes(n as nat, k as nat),
{
    let mut x: u128 = n;
    let mut i: usize = 0;
    let ghost start = buf@;
    while i < k
        invariant
            i <= k,
            buf@ + le_bytes(x as nat, (k - i) as nat) == start + le_bytes(n as nat, k as nat),
        decreases k - i,
    {
        let ghost before = buf@;
        assert(le_bytes(x as nat, (k - i) as nat) =~= seq![(x % 256) as u8] + le_bytes((x / 256) as nat, (k - i - 1) as nat));
        buf.push((x % 256) as u8);
        x = x / 256;
        i = i + 1;
        assert(buf@ + le_bytes(x as nat, (k - i) as nat) =~= before + (seq![buf@[buf@.len() - 1]] + le_bytes(x as nat, (k - i) as nat)));
    }
    assert(le_bytes(x as nat, 0) =~= Seq::<u8>::empty());
    assert(buf@ =~= start + le_bytes(n as nat, k as nat));
}

/// The number that the `k` little-endian bytes at `off` denote (`k` at most 16).
pub fn read_le(data: &[u8], off: usize, k: usize) -> (r: u128)
    requires
        k <= 16,
        off + k <= data@.len(),
    ensures
        r as nat == le_value(data@.subrange(off as int, off + k)),
{
    let mut acc: u128 = 0;
    let mut i: usize = k;
    let n = data.len();
    proof {
        assert(data@.subrange(off + k, off + k) =~= Seq::<u8>::empty());
    }
    while i > 0
        invariant
            n == data@.len(),
            i <= k <= 16,
            off + k <= data@.len(),
            acc as nat == le_value(data@.subrange(off + i, off + k)),
        decreases i,
    {
        let ghost tail = data@.subrange(off + i, off + k);
        let ghost ext = data@.subrange(off + i - 1, off + k);
        assert(ext.drop_first() =~= tail);
        assert(ext[0] == data@[off + i - 1]);
        proof {
            lemma_le_value_bound(ext);
            lemma_pow256_16();
            lemma_pow256_mono(ext.len(), 16);
        }
        let byte = data[off + i - 1];
        acc = byte as u128 + 256 * acc;
        i = i - 1;
    }
    acc
}

} // verus!

verus! {

/// Gives std's derived `Clone` for `Range` a place in verified code, so that
/// types holding ranges can derive `Clone`. Nothing is claimed of the result.
pub assume_specification<Idx: Clone>[ <core::ops::Range<Idx> as Clone>::clone ](
    r: &core::ops::Range<Idx>,
) -> core::ops::Range<Idx>;

} // verus!
