use vstd::prelude::*;
use crate::errors::StorageError;
use crate::ids::{
    le_bytes, le_value, lemma_le_bytes_len, lemma_le_value_bound, lemma_le_value_of_le_bytes, lemma_pow256_16,
    lemma_pow256_mono, pow256, push_le, read_le,
};
use crate::symbol::SymbolId;
use crate::text::str_to_string;

verus! {

/// Map a SymbolId (u128) to a vector-index key (u64): its lower 64 bits.
pub fn symbol_id_to_key(id: SymbolId) -> (r: u64)
    ensures
        r == id.0 as u64,
        r as nat == id.0 as nat % 0x1_0000_0000_0000_0000,
{
    let x: u128 = id.0;
    let r = x as u64;
    assert(r == x % 0x1_0000_0000_0000_0000) by (bit_vector)
        requires
            r == x as u64;
    r
}

/// The bytes of the first `n` key-map entries: each key in 8
/// little-endian bytes, then the full ID in 16 (its low, then high, half).
pub open spec fn entries_bytes(entries: Seq<(u64, SymbolId)>, n: int) -> Seq<u8>
    decreases n,
{
    if n <= 0 {
        Seq::empty()
    } else {
        entries_bytes(entries, n - 1) + le_bytes(entries[n - 1].0 as nat, 8) + le_bytes(entries[n - 1].1.0 as nat, 16)
    }
}

/// The key-map file: the entry count in 8 little-endian bytes, then the
/// entries.
pub open spec fn key_map_bytes(entries: Seq<(u64, SymbolId)>) -> Seq<u8> {
    le_bytes(entries.len(), 8) + entries_bytes(entries, entries.len() as int)
}

/// The entry count a key-map file announces.
pub open spec fn announced_count(data: Seq<u8>) -> nat {
    le_value(data.subrange(0, 8))
}

/// The entries a well-sized key-map file holds.
pub open spec fn spec_decode_entries(data: Seq<u8>) -> Seq<(u64, SymbolId)> {
    Seq::new(
        announced_count(data),
        |i: int|
            (
                le_value(data.subrange(8 + 24 * i, 16 + 24 * i)) as u64,
                SymbolId(le_value(data.subrange(16 + 24 * i, 32 + 24 * i)) as u128),
            ),
    )
}

proof fn lemma_entries_bytes_len(entries: Seq<(u64, SymbolId)>, n: int)
    requires
        0 <= n <= entries.len(),
    ensures
        entries_bytes(entries, n).len() == 24 * n,
    decreases n,
{
    if n > 0 {
        lemma_entries_bytes_len(entries, n - 1);
        lemma_le_bytes_len(entries[n - 1].0 as nat, 8);
        lemma_le_bytes_len(entries[n - 1].1.0 as nat, 16);
    }
}

/// Persist form of the key map.
pub fn encode_key_map(entries: &[(u64, SymbolId)]) -> (r: Vec<u8>)
    ensures
        r@ == key_map_bytes(entries@),
{
    let mut buf: Vec<u8> = Vec::new();
    push_le(&mut buf, entries.len() as u128, 8);
    let mut i: usize = 0;
    while i < entries.len()
        invariant
            i <= entries@.len(),
            buf@ == le_bytes(entries@.len(), 8) + entries_bytes(entries@, i as int),
        decreases entries@.len() - i,
    {
        let (key, id) = entries[i];
        push_le(&mut buf, key as u128, 8);
        push_le(&mut buf, id.0, 16);
        i = i + 1;
        assert(buf@ =~= le_bytes(entries@.len(), 8) + entries_bytes(entries@, i as int));
    }
    buf
}

/// Read a key-map file: under 8 bytes it is too short; its size must be
/// 8 bytes plus 24 per announced entry.
pub fn decode_key_map(data: &[u8]) -> (r: Result<Vec<(u64, SymbolId)>, StorageError>)
    ensures
        data@.len() < 8 ==> (r matches Err(StorageError::VectorIndexUnavailable { reason }) && reason@
            == "keymap file too short"@),
        data@.len() >= 8 && data@.len() != 8 + 24 * announced_count(data@) ==> (r matches Err(
            StorageError::VectorIndexUnavailable { reason },
        ) && reason@ == "keymap file size mismatch"@),
        data@.len() >= 8 && data@.len() == 8 + 24 * announced_count(data@) ==> (r matches Ok(v) && v@
            == spec_decode_entries(data@)),
{
    let dl = data.len();
    if dl < 8 {
        return Err(StorageError::VectorIndexUnavailable { reason: str_to_string("keymap file too short") });
    }
    let count = read_le(data, 0, 8);
    proof {
        lemma_le_value_bound(data@.subrange(0, 8));
        lemma_pow256_mono(8, 16);
        lemma_pow256_16();
    }
    assert(count < 0x1_0000_0000_0000_0000) by {
        assert(pow256(8) == 0x1_0000_0000_0000_0000) by {
            reveal_with_fuel(pow256, 9);
        }
    }
    if dl as u128 != 8 + count * 24 {
        return Err(StorageError::VectorIndexUnavailable { reason: str_to_string("keymap file size mismatch") });
    }
    let n = count as usize;
    let mut out: Vec<(u64, SymbolId)> = Vec::new();
    let mut i: usize = 0;
    while i < n
        invariant
            dl == data@.len(),
            n == announced_count(data@),
            data@.len() == 8 + 24 * n,
            i <= n,
            out@ == spec_decode_entries(data@).take(i as int),
        decreases n - i,
    {
        let off = 8 + i * 24;
        let key = read_le(data, off, 8);
        let id = read_le(data, off + 8, 16);
        proof {
            lemma_le_value_bound(data@.subrange(off as int, off + 8));
            assert(pow256(8) == 0x1_0000_0000_0000_0000) by {
                reveal_with_fuel(pow256, 9);
            }
        }
        out.push((key as u64, SymbolId(id)));
        i = i + 1;
        assert(out@ =~= spec_decode_entries(data@).take(i as int));
    }
    assert(spec_decode_entries(data@).take(n as int) =~= spec_decode_entries(data@));
    Ok(out)
}

proof fn lemma_entries_bytes_at(entries: Seq<(u64, SymbolId)>, n: int, i: int)
    requires
        0 <= i < n <= entries.len(),
    ensures
        entries_bytes(entries, n).subrange(24 * i, 24 * i + 8) == le_bytes(entries[i].0 as nat, 8),
        entries_bytes(entries, n).subrange(24 * i + 8, 24 * i + 24) == le_bytes(entries[i].1.0 as nat, 16),
    decreases n,
{
    lemma_entries_bytes_len(entries, n);
    lemma_entries_bytes_len(entries, n - 1);
    lemma_le_bytes_len(entries[n - 1].0 as nat, 8);
    lemma_le_bytes_len(entries[n - 1].1.0 as nat, 16);
    let prev = entries_bytes(entries, n - 1);
    let all = entries_bytes(entries, n);
    if i < n - 1 {
        lemma_entries_bytes_at(entries, n - 1, i);
        assert(all.subrange(24 * i, 24 * i + 8) =~= prev.subrange(24 * i, 24 * i + 8));
        assert(all.subrange(24 * i + 8, 24 * i + 24) =~= prev.subrange(24 * i + 8, 24 * i + 24));
    } else {
        assert(all.subrange(24 * i, 24 * i + 8) =~= le_bytes(entries[i].0 as nat, 8));
        assert(all.subrange(24 * i + 8, 24 * i + 24) =~= le_bytes(entries[i].1.0 as nat, 16));
    }
}

/// Reading a written key map gives back its entries, in order, and the
/// file passes both size checks.
pub proof fn lemma_key_map_round_trip(entries: Seq<(u64, SymbolId)>)
    requires
        entries.len() <= u64::MAX,
    ensures
        key_map_bytes(entries).len() >= 8,
        key_map_bytes(entries).len() == 8 + 24 * announced_count(key_map_bytes(entries)),
        spec_decode_entries(key_map_bytes(entries)) == entries,
{
    let data = key_map_bytes(entries);
    let n = entries.len() as int;
    lemma_le_bytes_len(entries.len(), 8);
    lemma_entries_bytes_len(entries, n);
    assert(data.subrange(0, 8) =~= le_bytes(entries.len(), 8));
    lemma_le_value_of_le_bytes(entries.len(), 8);
    assert(pow256(8) == 0x1_0000_0000_0000_0000) by {
        reveal_with_fuel(pow256, 9);
    }
    assert(announced_count(data) == entries.len());
    let d = spec_decode_entries(data);
    assert forall|i: int| 0 <= i < n implies #[trigger] d[i] == entries[i] by {
        lemma_entries_bytes_at(entries, n, i);
        let body = entries_bytes(entries, n);
        assert(data.subrange(8 + 24 * i, 16 + 24 * i) =~= body.subrange(24 * i, 24 * i + 8));
        assert(data.subrange(16 + 24 * i, 32 + 24 * i) =~= body.subrange(24 * i + 8, 24 * i + 24));
        lemma_le_value_of_le_bytes(entries[i].0 as nat, 8);
        lemma_le_value_of_le_bytes(entries[i].1.0 as nat, 16);
        lemma_pow256_16();
    }
    assert(d =~= entries);
}

} // verus!
