use vstd::prelude::*;
use vstd::bytes::{spec_u64_from_le_bytes, spec_u64_to_le_bytes, u64_from_le_bytes, u64_to_le_bytes};

use crate::phash::{hamming, hamming_distance, HashError};
use crate::text::{bytes_equal, hex_bytes, hex_char, hex_digit, push_char, push_hex_bytes};

verus! {

/// Hashes of the head and the tail of a file, each the eight little-endian
/// bytes of an xxHash3 value.
#[derive(Debug, Clone)]
pub struct CoarseHashes {
    pub head_hash: Vec<u8>,
    pub tail_hash: Vec<u8>,
}

/// A stored hash has the wrong number of bytes.
#[derive(Debug, Clone, Copy, PartialEq, Eq)]
pub enum CoarseError {
    InvalidLength(usize),
}

/// The 64-bit xxHash3 value (seed 0) of a byte string, as
/// `xxhash_rust::xxh3::xxh3_64` computes it.
pub uninterp spec fn xxh3_64_of(data: Seq<u8>) -> u64;

/// `xxhash_rust::xxh3::xxh3_64`: the hash depends on the bytes alone.
#[verifier::external_body]
fn xxh3_64_hash(data: &[u8]) -> (h: u64)
    ensures
        h == xxh3_64_of(data@),
{
    xxhash_rust::xxh3::xxh3_64(data)
}

/// xxHash3 of `data`, as the eight little-endian bytes stored in the cache.
pub fn compute_xxh3_hash(data: &[u8]) -> (r: Vec<u8>)
    ensures
        r@ == spec_u64_to_le_bytes(xxh3_64_of(data@)),
        r@.len() == 8,
{
    let h = xxh3_64_hash(data);
    u64_to_le_bytes(h)
}

/// The coarse hashes of a file from its head and tail chunks.
pub fn coarse_hashes_from_chunks(head: &[u8], tail: &[u8]) -> (r: CoarseHashes)
    ensures
        r.head_hash@ == spec_u64_to_le_bytes(xxh3_64_of(head@)),
        r.tail_hash@ == spec_u64_to_le_bytes(xxh3_64_of(tail@)),
{
    CoarseHashes { head_hash: compute_xxh3_hash(head), tail_hash: compute_xxh3_hash(tail) }
}

/// Where the head and tail chunks of a file are read.
#[derive(Debug, Clone, Copy, PartialEq, Eq)]
pub struct ChunkPlan {
    pub chunk_size: usize,
    pub tail_offset: u64,
}

/// The file to hash is empty.
#[derive(Debug, Clone, Copy, PartialEq, Eq)]
pub enum PlanError {
    EmptyFile,
}

/// The chunk size actually read: the requested size, at most half the file,
/// at least 1024 bytes.
pub open spec fn actual_chunk_size(chunk_size: nat, file_size: nat) -> nat {
    let half = file_size / 2;
    let c = if chunk_size < half {
        chunk_size
    } else {
        half
    };
    if c < 1024 {
        1024
    } else {
        c
    }
}

/// Plans the head and tail reads of a file of `file_size` bytes: an error
/// for an empty file; otherwise the chunk size of `actual_chunk_size` and a
/// tail read that starts that many bytes before the end (at 0 when the file
/// is no longer than the chunk).
pub fn plan_chunks(file_size: u64, chunk_size: usize) -> (r: Result<ChunkPlan, PlanError>)
    ensures
        file_size == 0 ==> r == Err::<ChunkPlan, PlanError>(PlanError::EmptyFile),
        file_size > 0 ==> (r matches Ok(p) && p.chunk_size == actual_chunk_size(
            chunk_size as nat,
            file_size as nat,
        ) && p.tail_offset == if file_size > p.chunk_size {
            file_size - p.chunk_size
        } else {
            0
        }),
{
    if file_size == 0 {
        return Err(PlanError::EmptyFile);
    }
    let half: u64 = file_size / 2;
    let c: u64 = if (chunk_size as u64) < half {
        chunk_size as u64
    } else {
        half
    };
    let actual: u64 = if c < 1024 {
        1024
    } else {
        c
    };
    let tail_offset: u64 = if file_size > actual {
        file_size - actual
    } else {
        0
    };
    Ok(ChunkPlan { chunk_size: actual as usize, tail_offset })
}

/// The chunk size chosen from the file size: 1 MiB below 10 MiB, 4 MiB below
/// 100 MiB, 16 MiB below 1 GiB, 32 MiB from there on.
pub fn adaptive_chunk_size(file_size: u64) -> (r: usize)
    ensures
        r == if file_size < 10 * 1024 * 1024 {
            1024 * 1024
        } else if file_size < 100 * 1024 * 1024 {
            4 * 1024 * 1024
        } else if file_size < 1024 * 1024 * 1024 {
            16 * 1024 * 1024
        } else {
            32 * 1024 * 1024
        },
{
    if file_size < 10 * 1024 * 1024 {
        1024 * 1024
    } else if file_size < 100 * 1024 * 1024 {
        4 * 1024 * 1024
    } else if file_size < 1024 * 1024 * 1024 {
        16 * 1024 * 1024
    } else {
        32 * 1024 * 1024
    }
}

/// The hash value stored in eight little-endian bytes; an error carrying
/// the length for any other length.
pub fn hash_bytes_to_u64(hash_bytes: &[u8]) -> (r: Result<u64, CoarseError>)
    ensures
        hash_bytes@.len() == 8 ==> r == Ok::<u64, CoarseError>(spec_u64_from_le_bytes(hash_bytes@)),
        hash_bytes@.len() != 8 ==> r == Err::<u64, CoarseError>(
            CoarseError::InvalidLength(hash_bytes@.len() as usize),
        ),
{
    if hash_bytes.len() != 8 {
        return Err(CoarseError::InvalidLength(hash_bytes.len()));
    }
    Ok(u64_from_le_bytes(hash_bytes))
}

/// Converting a value to its eight bytes and back gives the value; and
/// eight bytes converted to a value and back give the bytes.
pub proof fn lemma_hash_bytes_roundtrip(x: u64, s: Seq<u8>)
    ensures
        spec_u64_to_le_bytes(x).len() == 8,
        spec_u64_from_le_bytes(spec_u64_to_le_bytes(x)) == x,
        s.len() == 8 ==> spec_u64_to_le_bytes(spec_u64_from_le_bytes(s)) == s,
{
    vstd::bytes::lemma_auto_spec_u64_to_from_le_bytes();
}

/// Both head and tail hashes are byte for byte equal.
pub open spec fn exact_match(h1: CoarseHashes, h2: CoarseHashes) -> bool {
    h1.head_hash@ == h2.head_hash@ && h1.tail_hash@ == h2.tail_hash@
}

/// Whether both head and tail hashes match exactly.
pub fn hashes_match_exactly(hash1: &CoarseHashes, hash2: &CoarseHashes) -> (r: bool)
    ensures
        r == exact_match(*hash1, *hash2),
{
    bytes_equal(hash1.head_hash.as_slice(), hash2.head_hash.as_slice()) && bytes_equal(
        hash1.tail_hash.as_slice(),
        hash2.tail_hash.as_slice(),
    )
}

/// Exact matching is an equivalence: reflexive, symmetric and transitive.
pub proof fn lemma_exact_match_equivalence(a: CoarseHashes, b: CoarseHashes, c: CoarseHashes)
    ensures
        exact_match(a, a),
        exact_match(a, b) ==> exact_match(b, a),
        exact_match(a, b) && exact_match(b, c) ==> exact_match(a, c),
{
}

/// Absolute difference of two values.
pub open spec fn abs_diff(a: u64, b: u64) -> nat {
    if a >= b {
        (a - b) as nat
    } else {
        (b - a) as nat
    }
}

/// Hashes that match exactly also match approximately, at any tolerance.
pub proof fn lemma_exact_implies_approximate(h1: CoarseHashes, h2: CoarseHashes, tolerance: u64)
    requires
        exact_match(h1, h2),
    ensures
        abs_diff(spec_u64_from_le_bytes(h1.head_hash@), spec_u64_from_le_bytes(h2.head_hash@)) <= tolerance,
        abs_diff(spec_u64_from_le_bytes(h1.tail_hash@), spec_u64_from_le_bytes(h2.tail_hash@)) <= tolerance,
{
}

/// Whether head and tail hash values each differ by at most `tolerance`; an
/// error for the first of the four hashes (head 1, head 2, tail 1, tail 2)
/// that is not eight bytes long.
pub fn hashes_match_approximately(hash1: &CoarseHashes, hash2: &CoarseHashes, tolerance: u64) -> (r:
    Result<bool, CoarseError>)
    ensures
        hash1.head_hash@.len() != 8 ==> r == Err::<bool, CoarseError>(
            CoarseError::InvalidLength(hash1.head_hash@.len() as usize),
        ),
        hash1.head_hash@.len() == 8 && hash2.head_hash@.len() != 8 ==> r == Err::<bool, CoarseError>(
            CoarseError::InvalidLength(hash2.head_hash@.len() as usize),
        ),
        hash1.head_hash@.len() == 8 && hash2.head_hash@.len() == 8 && hash1.tail_hash@.len() != 8
            ==> r == Err::<bool, CoarseError>(CoarseError::InvalidLength(hash1.tail_hash@.len() as usize)),
        hash1.head_hash@.len() == 8 && hash2.head_hash@.len() == 8 && hash1.tail_hash@.len() == 8
            && hash2.tail_hash@.len() != 8 ==> r == Err::<bool, CoarseError>(
            CoarseError::InvalidLength(hash2.tail_hash@.len() as usize),
        ),
        hash1.head_hash@.len() == 8 && hash2.head_hash@.len() == 8 && hash1.tail_hash@.len() == 8
            && hash2.tail_hash@.len() == 8 ==> r == Ok::<bool, CoarseError>(
            abs_diff(spec_u64_from_le_bytes(hash1.head_hash@), spec_u64_from_le_bytes(hash2.head_hash@))
                <= tolerance && abs_diff(
                spec_u64_from_le_bytes(hash1.tail_hash@),
                spec_u64_from_le_bytes(hash2.tail_hash@),
            ) <= tolerance,
        ),
{
    let head1 = match hash_bytes_to_u64(hash1.head_hash.as_slice()) {
        Ok(v) => v,
        Err(e) => {
            return Err(e);
        },
    };
    let head2 = match hash_bytes_to_u64(hash2.head_hash.as_slice()) {
        Ok(v) => v,
        Err(e) => {
            return Err(e);
        },
    };
    let tail1 = match hash_bytes_to_u64(hash1.tail_hash.as_slice()) {
        Ok(v) => v,
        Err(e) => {
            return Err(e);
        },
    };
    let tail2 = match hash_bytes_to_u64(hash2.tail_hash.as_slice()) {
        Ok(v) => v,
        Err(e) => {
            return Err(e);
        },
    };
    let head_diff = if head1 >= head2 {
        head1 - head2
    } else {
        head2 - head1
    };
    let tail_diff = if tail1 >= tail2 {
        tail1 - tail2
    } else {
        tail2 - tail1
    };
    Ok(head_diff <= tolerance && tail_diff <= tolerance)
}

/// The numbers of differing bits between the head hash values and between
/// the tail hash values; an error as in `hashes_match_approximately` when a
/// hash is not eight bytes long.
pub fn coarse_bit_differences(hash1: &CoarseHashes, hash2: &CoarseHashes) -> (r: Result<
    (u32, u32),
    CoarseError,
>)
    ensures
        hash1.head_hash@.len() != 8 ==> r == Err::<(u32, u32), CoarseError>(
            CoarseError::InvalidLength(hash1.head_hash@.len() as usize),
        ),
        hash1.head_hash@.len() == 8 && hash2.head_hash@.len() != 8 ==> r == Err::<(u32, u32), CoarseError>(
            CoarseError::InvalidLength(hash2.head_hash@.len() as usize),
        ),
        hash1.head_hash@.len() == 8 && hash2.head_hash@.len() == 8 && hash1.tail_hash@.len() != 8
            ==> r == Err::<(u32, u32), CoarseError>(
            CoarseError::InvalidLength(hash1.tail_hash@.len() as usize),
        ),
        hash1.head_hash@.len() == 8 && hash2.head_hash@.len() == 8 && hash1.tail_hash@.len() == 8
            && hash2.tail_hash@.len() != 8 ==> r == Err::<(u32, u32), CoarseError>(
            CoarseError::InvalidLength(hash2.tail_hash@.len() as usize),
        ),
        hash1.head_hash@.len() == 8 && hash2.head_hash@.len() == 8 && hash1.tail_hash@.len() == 8
            && hash2.tail_hash@.len() == 8 ==> (r matches Ok(d) && d.0 == hamming(
            hash1.head_hash@,
            hash2.head_hash@,
        ) && d.1 == hamming(hash1.tail_hash@, hash2.tail_hash@)),
{
    if hash1.head_hash.len() != 8 {
        return Err(CoarseError::InvalidLength(hash1.head_hash.len()));
    }
    if hash2.head_hash.len() != 8 {
        return Err(CoarseError::InvalidLength(hash2.head_hash.len()));
    }
    if hash1.tail_hash.len() != 8 {
        return Err(CoarseError::InvalidLength(hash1.tail_hash.len()));
    }
    if hash2.tail_hash.len() != 8 {
        return Err(CoarseError::InvalidLength(hash2.tail_hash.len()));
    }
    proof {
        crate::phash::lemma_hamming_bound(hash1.head_hash@, hash2.head_hash@);
        crate::phash::lemma_hamming_bound(hash1.tail_hash@, hash2.tail_hash@);
    }
    let head = match hamming_distance(hash1.head_hash.as_slice(), hash2.head_hash.as_slice()) {
        Ok(d) => d,
        Err(_) => 0,
    };
    let tail = match hamming_distance(hash1.tail_hash.as_slice(), hash2.tail_hash.as_slice()) {
        Ok(d) => d,
        Err(_) => 0,
    };
    Ok((head, tail))
}

/// The 16 lowercase hexadecimal digits of a value, most significant first,
/// zero-padded (`{:016x}`).
pub open spec fn hex_u64(x: u64) -> Seq<char> {
    Seq::new(16, |i: int| hex_char(((x >> ((60 - 4 * i) as u64)) & 15) as nat))
}

/// Appends the 16 hexadecimal digits of `x` (`{:016x}`).
pub(crate) fn push_hex_u64(r: &mut String, x: u64)
    ensures
        final(r)@ == old(r)@ + hex_u64(x),
{
    let ghost start = r@;
    let mut i: u64 = 0;
    while i < 16
        invariant
            0 <= i <= 16,
            r@.len() == start.len() + i,
            forall|j: int| 0 <= j < start.len() ==> r@[j] == start[j],
            forall|j: int| 0 <= j < i ==> r@[start.len() + j] == #[trigger] hex_u64(x)[j],
        decreases 16 - i,
    {
        let shift: u64 = 60 - 4 * i;
        let nibble: u64 = (x >> shift) & 15;
        assert(nibble < 16) by (bit_vector)
            requires
                nibble == (x >> shift) & 15,
        ;
        push_char(r, hex_digit(nibble as u8));
        i = i + 1;
    }
    proof {
        assert(r@ =~= start + hex_u64(x));
    }
}

/// A hash for display: an eight-byte hash as the 16 hexadecimal digits of
/// its value, any other as two hexadecimal digits per byte.
pub fn format_hash(hash_bytes: &[u8]) -> (r: String)
    ensures
        hash_bytes@.len() == 8 ==> r@ == hex_u64(spec_u64_from_le_bytes(hash_bytes@)),
        hash_bytes@.len() != 8 ==> r@ == hex_bytes(hash_bytes@),
{
    let mut r = String::new();
    match hash_bytes_to_u64(hash_bytes) {
        Ok(x) => {
            push_hex_u64(&mut r, x);
            proof {
                assert(r@ =~= hex_u64(x));
            }
        },
        Err(_) => {
            push_hex_bytes(&mut r, hash_bytes);
            proof {
                assert(r@ =~= hex_bytes(hash_bytes@));
            }
        },
    }
    r
}

/// A grouping key: a head hash and a tail hash.
pub type HashKey = (Vec<u8>, Vec<u8>);

/// The value of an optional grouping key.
pub open spec fn key_view(k: Option<HashKey>) -> Option<(Seq<u8>, Seq<u8>)> {
    match k {
        Some(p) => Some((p.0@, p.1@)),
        None => None,
    }
}

/// The indices, in increasing order, of the entries whose key is `k`.
pub open spec fn indices_with_key(keys: Seq<Option<HashKey>>, k: (Seq<u8>, Seq<u8>)) -> Seq<usize>
    decreases keys.len(),
{
    if keys.len() == 0 {
        Seq::empty()
    } else {
        let rest = indices_with_key(keys.drop_last(), k);
        if key_view(keys.last()) == Some(k) {
            rest.push((keys.len() - 1) as usize)
        } else {
            rest
        }
    }
}

/// `groups` holds, in some order, exactly one group per key that occurs at
/// least twice: the indices of the entries with that key, in increasing order.
pub open spec fn is_key_grouping(keys: Seq<Option<HashKey>>, groups: Seq<Vec<usize>>) -> bool {
    &&& forall|g: int|
        0 <= g < groups.len() ==> (#[trigger] groups[g])@.len() >= 2 && exists|k: (Seq<u8>, Seq<u8>)|
            groups[g]@ == #[trigger] indices_with_key(keys, k)
    &&& forall|k: (Seq<u8>, Seq<u8>)|
        (#[trigger] indices_with_key(keys, k)).len() >= 2 ==> exists|g: int|
            0 <= g < groups.len() && (#[trigger] groups[g])@ == indices_with_key(keys, k)
    &&& forall|g1: int, g2: int|
        0 <= g1 < groups.len() && 0 <= g2 < groups.len() && g1 != g2 ==> (#[trigger] groups[g1])@
            != (#[trigger] groups[g2])@
}

fn keys_equal(a: &HashKey, b: &HashKey) -> (r: bool)
    ensures
        r == ((a.0@, a.1@) == (b.0@, b.1@)),
{
    bytes_equal(a.0.as_slice(), b.0.as_slice()) && bytes_equal(a.1.as_slice(), b.1.as_slice())
}

proof fn lemma_indices_with_key_members(keys: Seq<Option<HashKey>>, k: (Seq<u8>, Seq<u8>))
    requires
        keys.len() <= usize::MAX,
    ensures
        forall|t: int|
            0 <= t < indices_with_key(keys, k).len() ==> (#[trigger] indices_with_key(keys, k)[t])
                < keys.len() && key_view(keys[indices_with_key(keys, k)[t] as int]) == Some(k),
        forall|i: int|
            0 <= i < keys.len() && key_view(keys[i]) == Some(k) ==> indices_with_key(
                keys,
                k,
            ).contains(i as usize),
    decreases keys.len(),
{
    if keys.len() > 0 {
        let k2 = keys.drop_last();
        lemma_indices_with_key_members(k2, k);
        let rest = indices_with_key(k2, k);
        let all = indices_with_key(keys, k);
        let last = (keys.len() - 1) as usize;
        assert(keys.last() == keys[keys.len() - 1]);
        if key_view(keys.last()) == Some(k) {
            assert(all == rest.push(last));
        } else {
            assert(all == rest);
        }
        assert forall|t: int| 0 <= t < all.len() implies (#[trigger] all[t]) < keys.len() && key_view(
            keys[all[t] as int],
        ) == Some(k) by {
            if t < rest.len() {
                assert(all[t] == rest[t]);
                assert(k2[rest[t] as int] == keys[rest[t] as int]);
            }
        }
        assert forall|i: int| 0 <= i < keys.len() && key_view(keys[i]) == Some(k) implies all.contains(
            i as usize,
        ) by {
            if i < keys.len() - 1 {
                assert(k2[i] == keys[i]);
                assert(rest.contains(i as usize));
                let t = choose|t: int| 0 <= t < rest.len() && rest[t] == i as usize;
                assert(all[t] == rest[t]);
            } else {
                assert(all[all.len() - 1] == i as usize);
            }
        }
    }
}

/// Groups the entries by key: one group per key that occurs at least twice,
/// holding the indices of its entries in increasing order. Entries without a
/// key belong to no group.
pub fn group_indices_by_key(keys: &Vec<Option<HashKey>>) -> (groups: Vec<Vec<usize>>)
    ensures
        is_key_grouping(keys@, groups@),
{
    // The index of the first entry of each key, in order of first appearance.
    let mut reps: Vec<usize> = Vec::new();
    let mut i: usize = 0;
    while i < keys.len()
        invariant
            0 <= i <= keys@.len(),
            forall|t: int| 0 <= t < reps@.len() ==> (#[trigger] reps@[t]) < i && keys@[reps@[t] as int] is Some,
            forall|t1: int, t2: int|
                0 <= t1 < reps@.len() && 0 <= t2 < reps@.len() && t1 != t2 ==> key_view(
                    keys@[#[trigger] reps@[t1] as int],
                ) != key_view(keys@[#[trigger] reps@[t2] as int]),
            forall|j: int|
                0 <= j < i && keys@[j] is Some ==> exists|t: int|
                    0 <= t < reps@.len() && key_view(keys@[#[trigger] reps@[t] as int]) == key_view(keys@[j]),
        decreases keys@.len() - i,
    {
        match &keys[i] {
            Some(key) => {
                let mut found = false;
                let mut t: usize = 0;
                while t < reps.len()
                    invariant
                        0 <= t <= reps@.len(),
                        0 <= i < keys@.len(),
                        keys@[i as int] == Some(*key),
                        forall|s: int| 0 <= s < reps@.len() ==> (#[trigger] reps@[s]) < i && keys@[reps@[s] as int] is Some,
                        found <==> exists|s: int|
                            0 <= s < t && key_view(keys@[#[trigger] reps@[s] as int]) == key_view(keys@[i as int]),
                    decreases reps@.len() - t,
                {
                    let r = reps[t];
                    match &keys[r] {
                        Some(other) => {
                            if keys_equal(key, other) {
                                found = true;
                            }
                        },
                        None => {},
                    }
                    t = t + 1;
                }
                let ghost old_reps = reps@;
                if !found {
                    reps.push(i);
                }
                proof {
                    assert forall|j: int|
                        0 <= j < i + 1 && keys@[j] is Some implies exists|t: int|
                        0 <= t < reps@.len() && key_view(keys@[#[trigger] reps@[t] as int]) == key_view(
                            keys@[j],
                        ) by {
                        if j < i {
                            let t = choose|t: int|
                                0 <= t < old_reps.len() && key_view(keys@[#[trigger] old_reps[t] as int])
                                    == key_view(keys@[j]);
                            assert(reps@[t] == old_reps[t]);
                        } else if found {
                            let t = choose|t: int|
                                0 <= t < old_reps.len() && key_view(keys@[#[trigger] old_reps[t] as int])
                                    == key_view(keys@[i as int]);
                            assert(reps@[t] == old_reps[t]);
                        } else {
                            assert(reps@[old_reps.len() as int] == i);
                        }
                    }
                }
            },
            None => {},
        }
        i = i + 1;
    }
    // One group per distinct key.
    let mut all: Vec<Vec<usize>> = Vec::new();
    let mut t: usize = 0;
    while t < reps.len()
        invariant
            0 <= t <= reps@.len(),
            all@.len() == t,
            forall|s: int| 0 <= s < reps@.len() ==> (#[trigger] reps@[s]) < keys@.len() && keys@[reps@[s] as int] is Some,
            forall|s: int|
                0 <= s < t ==> (#[trigger] all@[s])@ == indices_with_key(
                    keys@,
                    key_view(keys@[reps@[s] as int])->0,
                ),
        decreases reps@.len() - t,
    {
        let r = reps[t];
        let ghost k = key_view(keys@[r as int])->0;
        let mut group: Vec<usize> = Vec::new();
        let mut j: usize = 0;
        while j < keys.len()
            invariant
                0 <= j <= keys@.len(),
                0 <= r < keys@.len(),
                keys@[r as int] is Some,
                k == key_view(keys@[r as int])->0,
                group@ == indices_with_key(keys@.take(j as int), k),
            decreases keys@.len() - j,
        {
            proof {
                assert(keys@.take(j + 1).drop_last() =~= keys@.take(j as int));
                assert(keys@.take(j + 1).last() == keys@[j as int]);
            }
            match (&keys[j], &keys[r]) {
                (Some(a), Some(b)) => {
                    if keys_equal(a, b) {
                        group.push(j);
                    }
                },
                _ => {},
            }
            j = j + 1;
        }
        proof {
            assert(keys@.take(j as int) =~= keys@);
        }
        all.push(group);
        t = t + 1;
    }
    // Keep the groups of keys that occur at least twice.
    let mut groups: Vec<Vec<usize>> = Vec::new();
    let mut t: usize = 0;
    let ghost mut origin: Seq<int> = Seq::empty();
    while t < all.len()
        invariant
            0 <= t <= all@.len(),
            all@.len() == reps@.len(),
            origin.len() == groups@.len(),
            forall|s: int|
                0 <= s < all@.len() ==> (#[trigger] all@[s])@ == indices_with_key(
                    keys@,
                    key_view(keys@[reps@[s] as int])->0,
                ),
            forall|g: int|
                0 <= g < groups@.len() ==> 0 <= #[trigger] origin[g] < t && groups@[g]@ == all@[origin[g]]@
                    && all@[origin[g]]@.len() >= 2,
            forall|g1: int, g2: int|
                0 <= g1 < groups@.len() && 0 <= g2 < groups@.len() && g1 < g2 ==> #[trigger] origin[g1]
                    < #[trigger] origin[g2],
            forall|s: int|
                0 <= s < t && (#[trigger] all@[s])@.len() >= 2 ==> exists|g: int|
                    0 <= g < groups@.len() && origin[g] == s,
        decreases all@.len() - t,
    {
        if all[t].len() >= 2 {
            let g = all[t].clone();
            proof {
                assert(g@ =~= all@[t as int]@);
            }
            let ghost old_origin = origin;
            groups.push(g);
            proof {
                origin = origin.push(t as int);
                assert(groups@[groups@.len() - 1]@ == all@[t as int]@);
                assert(origin[origin.len() - 1] == t);
                assert forall|s: int|
                    0 <= s < t + 1 && (#[trigger] all@[s])@.len() >= 2 implies exists|g: int|
                    0 <= g < groups@.len() && origin[g] == s by {
                    if s < t {
                        let g = choose|g: int| 0 <= g < old_origin.len() && old_origin[g] == s;
                        assert(origin[g] == s);
                    } else {
                        assert(origin[origin.len() - 1] == s);
                    }
                }
            }
        }
        t = t + 1;
    }
    proof {
        lemma_grouping_correct(keys@, reps@, all@, groups@, origin);
    }
    groups
}

proof fn lemma_grouping_correct(
    keys: Seq<Option<HashKey>>,
    reps: Seq<usize>,
    all: Seq<Vec<usize>>,
    groups: Seq<Vec<usize>>,
    origin: Seq<int>,
)
    requires
        keys.len() <= usize::MAX,
        all.len() == reps.len(),
        origin.len() == groups.len(),
        forall|s: int| 0 <= s < reps.len() ==> (#[trigger] reps[s]) < keys.len() && keys[reps[s] as int] is Some,
        forall|t1: int, t2: int|
            0 <= t1 < reps.len() && 0 <= t2 < reps.len() && t1 != t2 ==> key_view(
                keys[#[trigger] reps[t1] as int],
            ) != key_view(keys[#[trigger] reps[t2] as int]),
        forall|j: int|
            0 <= j < keys.len() && keys[j] is Some ==> exists|t: int|
                0 <= t < reps.len() && key_view(keys[#[trigger] reps[t] as int]) == key_view(keys[j]),
        forall|s: int|
            0 <= s < all.len() ==> (#[trigger] all[s])@ == indices_with_key(
                keys,
                key_view(keys[reps[s] as int])->0,
            ),
        forall|g: int|
            0 <= g < groups.len() ==> 0 <= #[trigger] origin[g] < all.len() && groups[g]@ == all[origin[g]]@
                && all[origin[g]]@.len() >= 2,
        forall|g1: int, g2: int|
            0 <= g1 < groups.len() && 0 <= g2 < groups.len() && g1 < g2 ==> #[trigger] origin[g1]
                < #[trigger] origin[g2],
        forall|s: int|
            0 <= s < all.len() && (#[trigger] all[s])@.len() >= 2 ==> exists|g: int|
                0 <= g < groups.len() && origin[g] == s,
    ensures
        is_key_grouping(keys, groups),
{
    assert forall|g: int| 0 <= g < groups.len() implies (#[trigger] groups[g])@.len() >= 2 && exists|
        k: (Seq<u8>, Seq<u8>),
    | groups[g]@ == #[trigger] indices_with_key(keys, k) by {
        let s = origin[g];
        let k = key_view(keys[reps[s] as int])->0;
        assert(groups[g]@ == indices_with_key(keys, k));
    }
    assert forall|k: (Seq<u8>, Seq<u8>)| (#[trigger] indices_with_key(keys, k)).len() >= 2 implies exists|
        g: int,
    | 0 <= g < groups.len() && (#[trigger] groups[g])@ == indices_with_key(keys, k) by {
        lemma_indices_with_key_members(keys, k);
        let j = indices_with_key(keys, k)[0] as int;
        assert(key_view(keys[j]) == Some(k));
        let t = choose|t: int| 0 <= t < reps.len() && key_view(keys[#[trigger] reps[t] as int]) == key_view(keys[j]);
        assert(all[t]@ == indices_with_key(keys, k));
        let g = choose|g: int| 0 <= g < groups.len() && origin[g] == t;
        assert(groups[g]@ == indices_with_key(keys, k));
    }
    assert forall|g1: int, g2: int|
        0 <= g1 < groups.len() && 0 <= g2 < groups.len() && g1 != g2 implies (#[trigger] groups[g1])@
        != (#[trigger] groups[g2])@ by {
        let s1 = origin[g1];
        let s2 = origin[g2];
        assert(s1 != s2) by {
            if g1 < g2 {
                assert(origin[g1] < origin[g2]);
            } else {
                assert(origin[g2] < origin[g1]);
            }
        }
        let k1 = key_view(keys[reps[s1] as int])->0;
        let k2 = key_view(keys[reps[s2] as int])->0;
        assert(k1 != k2);
        lemma_indices_with_key_members(keys, k1);
        let i = groups[g1]@[0];
        assert(key_view(keys[i as int]) == Some(k1));
        if groups[g1]@ == groups[g2]@ {
            lemma_indices_with_key_members(keys, k2);
            assert(groups[g2]@[0] == i);
            assert(key_view(keys[i as int]) == Some(k2));
        }
    }
}

/// The grouping key of a cache entry: its head and tail hashes when both
/// are eight bytes long.
pub open spec fn entry_key(h: CoarseHashes) -> Option<(Seq<u8>, Seq<u8>)> {
    if h.head_hash@.len() == 8 && h.tail_hash@.len() == 8 {
        Some((h.head_hash@, h.tail_hash@))
    } else {
        None
    }
}

/// The ids of the entries whose key is `k`, in input order.
pub open spec fn ids_with_key(entries: Seq<(u64, CoarseHashes)>, k: (Seq<u8>, Seq<u8>)) -> Seq<u64>
    decreases entries.len(),
{
    if entries.len() == 0 {
        Seq::empty()
    } else {
        let rest = ids_with_key(entries.drop_last(), k);
        if entry_key(entries.last().1) == Some(k) {
            rest.push(entries.last().0)
        } else {
            rest
        }
    }
}

proof fn lemma_ids_from_indices(
    entries: Seq<(u64, CoarseHashes)>,
    keys: Seq<Option<HashKey>>,
    k: (Seq<u8>, Seq<u8>),
)
    requires
        keys.len() == entries.len(),
        keys.len() <= usize::MAX,
        forall|i: int| 0 <= i < keys.len() ==> key_view(#[trigger] keys[i]) == entry_key(entries[i].1),
    ensures
        ids_with_key(entries, k) == indices_with_key(keys, k).map_values(|i: usize| entries[i as int].0),
        ids_with_key(entries, k).len() == indices_with_key(keys, k).len(),
    decreases entries.len(),
{
    if entries.len() > 0 {
        let e2 = entries.drop_last();
        let k2 = keys.drop_last();
        assert forall|i: int| 0 <= i < k2.len() implies key_view(#[trigger] k2[i]) == entry_key(e2[i].1) by {
            assert(k2[i] == keys[i]);
        }
        lemma_ids_from_indices(e2, k2, k);
        lemma_indices_with_key_members(k2, k);
        let idx = indices_with_key(keys, k);
        let rest = indices_with_key(k2, k);
        let ids = ids_with_key(entries, k);
        let rest_ids = ids_with_key(e2, k);
        assert(keys.last() == keys[keys.len() - 1]);
        assert(entries.last() == entries[entries.len() - 1]);
        assert forall|t: int| 0 <= t < rest.len() implies rest_ids[t] == entries[rest[t] as int].0 by {
            assert(rest_ids[t] == e2[rest[t] as int].0);
            assert(e2[rest[t] as int] == entries[rest[t] as int]);
        }
        if entry_key(entries.last().1) == Some(k) {
            assert(idx == rest.push((keys.len() - 1) as usize));
            assert(ids == rest_ids.push(entries.last().0));
        } else {
            assert(idx == rest);
            assert(ids == rest_ids);
        }
        assert(ids =~= idx.map_values(|i: usize| entries[i as int].0));
    }
}

/// `groups` holds, for the distinct keys `ks` (one per group, in the same
/// order), the ids of the entries with that key; every key shared by at
/// least two entries has its group, and no other group is there.
pub open spec fn is_id_grouping(
    entries: Seq<(u64, CoarseHashes)>,
    groups: Seq<Vec<u64>>,
    ks: Seq<(Seq<u8>, Seq<u8>)>,
) -> bool {
    &&& ks.len() == groups.len()
    &&& forall|g: int|
        0 <= g < groups.len() ==> (#[trigger] groups[g])@ == ids_with_key(entries, ks[g]) && groups[g]@.len()
            >= 2
    &&& forall|g1: int, g2: int|
        0 <= g1 < ks.len() && 0 <= g2 < ks.len() && g1 != g2 ==> #[trigger] ks[g1] != #[trigger] ks[g2]
    &&& forall|k: (Seq<u8>, Seq<u8>)|
        (#[trigger] ids_with_key(entries, k)).len() >= 2 ==> exists|g: int| 0 <= g < ks.len() && ks[g] == k
}

/// Groups cache entries by their coarse hashes: one group per (head, tail)
/// pair shared by at least two entries, holding their ids in input order.
/// Entries whose hashes are not eight bytes long belong to no group. The
/// order of the groups is not fixed.
pub fn group_by_coarse_hashes(files_with_hashes: Vec<(u64, CoarseHashes)>) -> (groups: Vec<Vec<u64>>)
    ensures
        exists|ks: Seq<(Seq<u8>, Seq<u8>)>| is_id_grouping(files_with_hashes@, groups@, ks),
{
    let mut keys: Vec<Option<HashKey>> = Vec::new();
    let mut i: usize = 0;
    while i < files_with_hashes.len()
        invariant
            0 <= i <= files_with_hashes@.len(),
            keys@.len() == i,
            forall|j: int| 0 <= j < i ==> key_view(#[trigger] keys@[j]) == entry_key(files_with_hashes@[j].1),
        decreases files_with_hashes@.len() - i,
    {
        let h = &files_with_hashes[i].1;
        if h.head_hash.len() == 8 && h.tail_hash.len() == 8 {
            let head = vstd::slice::slice_to_vec(h.head_hash.as_slice());
            let tail = vstd::slice::slice_to_vec(h.tail_hash.as_slice());
            keys.push(Some((head, tail)));
        } else {
            keys.push(None);
        }
        i = i + 1;
    }
    let index_groups = group_indices_by_key(&keys);
    let mut groups: Vec<Vec<u64>> = Vec::new();
    let mut g: usize = 0;
    while g < index_groups.len()
        invariant
            0 <= g <= index_groups@.len(),
            groups@.len() == g,
            keys@.len() == files_with_hashes@.len(),
            keys@.len() <= usize::MAX,
            forall|j: int|
                0 <= j < g ==> (#[trigger] groups@[j])@ == index_groups@[j]@.map_values(
                    |i: usize| files_with_hashes@[i as int].0,
                ),
            is_key_grouping(keys@, index_groups@),
        decreases index_groups@.len() - g,
    {
        let members = &index_groups[g];
        let mut ids: Vec<u64> = Vec::new();
        let mut t: usize = 0;
        proof {
            let k = choose|k: (Seq<u8>, Seq<u8>)| index_groups@[g as int]@ == #[trigger] indices_with_key(keys@, k);
            lemma_indices_with_key_members(keys@, k);
        }
        while t < members.len()
            invariant
                0 <= t <= members@.len(),
                ids@.len() == t,
                keys@.len() == files_with_hashes@.len(),
                forall|s: int| 0 <= s < members@.len() ==> (#[trigger] members@[s]) < files_with_hashes@.len(),
                forall|s: int| 0 <= s < t ==> #[trigger] ids@[s] == files_with_hashes@[members@[s] as int].0,
            decreases members@.len() - t,
        {
            ids.push(files_with_hashes[members[t]].0);
            t = t + 1;
        }
        proof {
            assert(ids@ =~= members@.map_values(|i: usize| files_with_hashes@[i as int].0));
        }
        groups.push(ids);
        g = g + 1;
    }
    proof {
        assert forall|j: int| 0 <= j < keys@.len() implies key_view(#[trigger] keys@[j]) == entry_key(
            files_with_hashes@[j].1,
        ) by {}
        let ks = Seq::new(
            groups@.len(),
            |g: int| choose|k: (Seq<u8>, Seq<u8>)| index_groups@[g]@ == #[trigger] indices_with_key(keys@, k),
        );
        assert forall|g: int| 0 <= g < groups@.len() implies (#[trigger] groups@[g])@ == ids_with_key(
            files_with_hashes@,
            ks[g],
        ) && groups@[g]@.len() >= 2 by {
            let k = ks[g];
            assert(index_groups@[g]@ == indices_with_key(keys@, k));
            lemma_ids_from_indices(files_with_hashes@, keys@, k);
        }
        assert forall|g1: int, g2: int|
            0 <= g1 < ks.len() && 0 <= g2 < ks.len() && g1 != g2 implies #[trigger] ks[g1] != #[trigger] ks[g2] by {
            assert(index_groups@[g1]@ == indices_with_key(keys@, ks[g1]));
            assert(index_groups@[g2]@ == indices_with_key(keys@, ks[g2]));
        }
        assert forall|k: (Seq<u8>, Seq<u8>)|
            (#[trigger] ids_with_key(files_with_hashes@, k)).len() >= 2 implies exists|g: int|
            0 <= g < ks.len() && ks[g] == k by {
            lemma_ids_from_indices(files_with_hashes@, keys@, k);
            let g = choose|g: int|
                0 <= g < index_groups@.len() && (#[trigger] index_groups@[g])@ == indices_with_key(keys@, k);
            let k2 = ks[g];
            assert(index_groups@[g]@ == indices_with_key(keys@, k2));
            lemma_indices_with_key_members(keys@, k);
            lemma_indices_with_key_members(keys@, k2);
            let first = indices_with_key(keys@, k)[0];
            assert(key_view(keys@[first as int]) == Some(k));
            assert(indices_with_key(keys@, k2)[0] == first);
            assert(key_view(keys@[first as int]) == Some(k2));
        }
        assert(is_id_grouping(files_with_hashes@, groups@, ks));
    }
    groups
}

} // verus!
