//! Little-endian fields in a byte buffer.
use vstd::prelude::*;

verus! {

/// The number that the `n` bytes from `pos` on write, lowest byte first.
pub open spec fn le_value(data: Seq<u8>, pos: int, n: nat) -> nat
    decreases n,
{
    if n == 0 {
        0
    } else {
        data[pos] as nat + 256 * le_value(data, pos + 1, (n - 1) as nat)
    }
}

/// The little-endian field of `n` bytes at `pos`, if it lies inside `data`.
pub open spec fn field(data: Seq<u8>, pos: int, n: nat) -> Option<nat> {
    if 0 <= pos && pos + n <= data.len() {
        Some(le_value(data, pos, n))
    } else {
        None
    }
}

/// Read two bytes.
pub fn u16_at(data: &[u8], pos: usize) -> (r: Option<u16>)
    ensures
        field(data@, pos as int, 2) == (match r {
            Some(v) => Some(v as nat),
            None => None,
        }),
{
    if pos > data.len() || data.len() - pos < 2 {
        return None;
    }
    proof {
        reveal_with_fuel(le_value, 3);
    }
    Some(data[pos] as u16 + 256 * data[pos + 1] as u16)
}

/// Read four bytes.
pub fn u32_at(data: &[u8], pos: usize) -> (r: Option<u32>)
    ensures
        field(data@, pos as int, 4) == (match r {
            Some(v) => Some(v as nat),
            None => None,
        }),
{
    if pos > data.len() || data.len() - pos < 4 {
        return None;
    }
    proof {
        reveal_with_fuel(le_value, 5);
    }
    Some(
        data[pos] as u32 + 0x100 * data[pos + 1] as u32 + 0x1_0000 * data[pos + 2] as u32
            + 0x100_0000 * data[pos + 3] as u32,
    )
}

/// Read eight bytes.
pub fn u64_at(data: &[u8], pos: usize) -> (r: Option<u64>)
    ensures
        field(data@, pos as int, 8) == (match r {
            Some(v) => Some(v as nat),
            None => None,
        }),
{
    if pos > data.len() || data.len() - pos < 8 {
        return None;
    }
    proof {
        reveal_with_fuel(le_value, 9);
    }
    Some(
        data[pos] as u64 + 0x100 * data[pos + 1] as u64 + 0x1_0000 * data[pos + 2] as u64
            + 0x100_0000 * data[pos + 3] as u64 + 0x1_0000_0000 * data[pos + 4] as u64
            + 0x100_0000_0000 * data[pos + 5] as u64 + 0x1_0000_0000_0000 * data[pos + 6] as u64
            + 0x100_0000_0000_0000 * data[pos + 7] as u64,
    )
}

/// `v` in `n` bytes, lowest byte first.
pub open spec fn le_bytes(v: nat, n: nat) -> Seq<u8>
    decreases n,
{
    if n == 0 {
        seq![]
    } else {
        seq![(v % 256) as u8] + le_bytes(v / 256, (n - 1) as nat)
    }
}

/// `256` to the power of `n`: how many values `n` bytes can take.
pub open spec fn values_of(n: nat) -> nat
    decreases n,
{
    if n == 0 {
        1
    } else {
        256 * values_of((n - 1) as nat)
    }
}

/// A number that fits comes back from its bytes, wherever they stand.
pub proof fn law_le_round_trip(data: Seq<u8>, pos: int, v: nat, n: nat)
    requires
        0 <= pos,
        pos + n <= data.len(),
        data.subrange(pos, pos + n) == le_bytes(v, n),
        v < values_of(n),
    ensures
        le_value(data, pos, n) == v,
    decreases n,
{
    if n > 0 {
        let part = data.subrange(pos, pos + n);
        let low = seq![(v % 256) as u8];
        let rest = le_bytes(v / 256, (n - 1) as nat);
        lemma_le_bytes_len(v / 256, (n - 1) as nat);
        assert(part == low + rest);
        assert(part[0] == data[pos]);
        assert(part[0] == (v % 256) as u8);
        assert(data.subrange(pos + 1, pos + n) =~= rest) by {
            assert forall|i: int| 0 <= i < n - 1 implies data[pos + 1 + i] == rest[i] by {
                assert(part[1 + i] == data[pos + 1 + i]);
            }
        }
        law_le_round_trip(data, pos + 1, v / 256, (n - 1) as nat);
    }
}

/// As many bytes as asked for.
pub proof fn lemma_le_bytes_len(v: nat, n: nat)
    ensures
        le_bytes(v, n).len() == n,
    decreases n,
{
    if n > 0 {
        lemma_le_bytes_len(v / 256, (n - 1) as nat);
    }
}

/// Do the bytes at `pos` read `pattern`?
pub open spec fn reads(data: Seq<u8>, pos: int, pattern: Seq<u8>) -> bool {
    0 <= pos && pos + pattern.len() <= data.len() && data.subrange(pos, pos + pattern.len())
        == pattern
}

/// Do the bytes at `pos` read `pattern`?
pub fn matches_at(data: &[u8], pos: usize, pattern: &[u8]) -> (r: bool)
    ensures
        r == reads(data@, pos as int, pattern@),
{
    let size: usize = data.len();
    if pos > size || size - pos < pattern.len() {
        return false;
    }
    let ghost part = data@.subrange(pos as int, pos + pattern@.len());
    let mut i: usize = 0;
    while i < pattern.len()
        invariant
            size == data@.len(),
            pos + pattern@.len() <= size,
            part == data@.subrange(pos as int, pos + pattern@.len()),
            i <= pattern@.len(),
            forall|j: int| 0 <= j < i ==> part[j] == #[trigger] pattern@[j],
        decreases pattern@.len() - i,
    {
        if data[pos + i] != pattern[i] {
            assert(part[i as int] != pattern@[i as int]);
            return false;
        }
        i = i + 1;
    }
    assert(part =~= pattern@);
    true
}

/// Is every byte zero?
pub open spec fn all_zero(data: Seq<u8>) -> bool {
    forall|i: int| 0 <= i < data.len() ==> #[trigger] data[i] == 0
}

/// Is every byte zero?
pub fn only_zeros(data: &[u8]) -> (r: bool)
    ensures
        r == all_zero(data@),
{
    let mut i: usize = 0;
    while i < data.len()
        invariant
            i <= data@.len(),
            forall|j: int| 0 <= j < i ==> #[trigger] data@[j] == 0,
        decreases data@.len() - i,
    {
        if data[i] != 0 {
            return false;
        }
        i = i + 1;
    }
    true
}

/// Where `byte` first stands in `data`, from `pos` on; the length if it does
/// not.
pub open spec fn find(data: Seq<u8>, pos: int, byte: u8) -> int
    decreases data.len() - pos,
{
    if pos < 0 || pos >= data.len() || data[pos] == byte {
        pos
    } else {
        find(data, pos + 1, byte)
    }
}

/// Where `byte` first stands in `data`, from `pos` on; the length if it does
/// not.
pub fn find_byte(data: &[u8], pos: usize, byte: u8) -> (r: usize)
    requires
        pos <= data@.len(),
    ensures
        r == find(data@, pos as int, byte),
        pos <= r <= data@.len(),
        r < data@.len() ==> data@[r as int] == byte,
{
    let mut i: usize = pos;
    while i < data.len() && data[i] != byte
        invariant
            pos <= i <= data@.len(),
            find(data@, i as int, byte) == find(data@, pos as int, byte),
        decreases data@.len() - i,
    {
        i = i + 1;
    }
    i
}

} // verus!
