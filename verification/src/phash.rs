use vstd::prelude::*;

use crate::bits::{byte_distance, count_ones_u8, lemma_byte_distance_basics, lemma_popcount_u8_bound};

verus! {

/// Errors of the perceptual-hash computations.
#[derive(Debug, Clone, Copy, PartialEq, Eq)]
pub enum HashError {
    /// Two hashes that must be compared bit by bit have different byte lengths.
    LengthMismatch { left: usize, right: usize },
    /// An average was asked of no hashes at all.
    EmptyHashSet,
    /// The frame hashes to average do not all have the same length.
    InconsistentLengths,
}

/// Perceptual hashes of one video: the majority-vote hash of its frames,
/// the hash of every sampled frame, and how many frames were hashed.
#[derive(Debug, Clone)]
pub struct PerceptualHashData {
    pub average_hash: Vec<u8>,
    pub individual_hashes: Vec<Vec<u8>>,
    pub frame_count: u32,
}

/// Hamming distance of two byte strings of equal length: the number of bit
/// positions in which they differ.
pub open spec fn hamming(a: Seq<u8>, b: Seq<u8>) -> nat
    recommends
        a.len() == b.len(),
    decreases a.len(),
{
    if a.len() == 0 {
        0
    } else {
        hamming(a.drop_last(), b.drop_last()) + byte_distance(a.last(), b.last())
    }
}

/// The distance fits the `u32` that carries it.
pub open spec fn hamming_fits(a: Seq<u8>, b: Seq<u8>) -> bool {
    a.len() == b.len() ==> hamming(a, b) <= u32::MAX
}

proof fn lemma_hamming_prefix_le(a: Seq<u8>, b: Seq<u8>, i: int)
    requires
        a.len() == b.len(),
        0 <= i <= a.len(),
    ensures
        hamming(a.take(i), b.take(i)) <= hamming(a, b),
    decreases a.len(),
{
    if i < a.len() {
        assert(a.drop_last().take(i) =~= a.take(i));
        assert(b.drop_last().take(i) =~= b.take(i));
        lemma_hamming_prefix_le(a.drop_last(), b.drop_last(), i);
    } else {
        assert(a.take(i) =~= a);
        assert(b.take(i) =~= b);
    }
}

/// Hamming distance between two hash byte arrays; an error when their
/// lengths differ.
pub fn hamming_distance(hash1: &[u8], hash2: &[u8]) -> (r: Result<u32, HashError>)
    requires
        hamming_fits(hash1@, hash2@),
    ensures
        hash1@.len() != hash2@.len() ==> r == Err::<u32, HashError>(
            HashError::LengthMismatch { left: hash1@.len() as usize, right: hash2@.len() as usize },
        ),
        hash1@.len() == hash2@.len() ==> r == Ok::<u32, HashError>(hamming(hash1@, hash2@) as u32),
{
    if hash1.len() != hash2.len() {
        return Err(HashError::LengthMismatch { left: hash1.len(), right: hash2.len() });
    }
    let mut distance: u32 = 0;
    let mut i: usize = 0;
    while i < hash1.len()
        invariant
            hash1@.len() == hash2@.len(),
            0 <= i <= hash1@.len(),
            distance == hamming(hash1@.take(i as int), hash2@.take(i as int)),
            hamming(hash1@, hash2@) <= u32::MAX,
        decreases hash1@.len() - i,
    {
        let d = count_ones_u8(hash1[i] ^ hash2[i]);
        proof {
            let a1 = hash1@.take(i + 1);
            let b1 = hash2@.take(i + 1);
            assert(a1.drop_last() =~= hash1@.take(i as int));
            assert(b1.drop_last() =~= hash2@.take(i as int));
            lemma_hamming_prefix_le(hash1@, hash2@, i + 1);
        }
        distance = distance + d;
        i = i + 1;
    }
    proof {
        assert(hash1@.take(i as int) =~= hash1@);
        assert(hash2@.take(i as int) =~= hash2@);
    }
    Ok(distance)
}

/// The distance of two strings of `n` bytes is at most `8 * n`.
pub proof fn lemma_hamming_bound(a: Seq<u8>, b: Seq<u8>)
    requires
        a.len() == b.len(),
    ensures
        hamming(a, b) <= 8 * a.len(),
    decreases a.len(),
{
    if a.len() > 0 {
        lemma_hamming_bound(a.drop_last(), b.drop_last());
        crate::bits::lemma_popcount_u8_bound(a.last() ^ b.last());
    }
}

/// Hamming distance is symmetric.
pub proof fn lemma_hamming_symmetric(a: Seq<u8>, b: Seq<u8>)
    requires
        a.len() == b.len(),
    ensures
        hamming(a, b) == hamming(b, a),
    decreases a.len(),
{
    if a.len() > 0 {
        lemma_hamming_symmetric(a.drop_last(), b.drop_last());
        lemma_byte_distance_basics(a.last(), b.last());
    }
}

/// Hamming distance obeys the triangle inequality.
pub proof fn lemma_hamming_triangle(a: Seq<u8>, b: Seq<u8>, c: Seq<u8>)
    requires
        a.len() == b.len(),
        b.len() == c.len(),
    ensures
        hamming(a, c) <= hamming(a, b) + hamming(b, c),
    decreases a.len(),
{
    if a.len() > 0 {
        lemma_hamming_triangle(a.drop_last(), b.drop_last(), c.drop_last());
        crate::bits::lemma_byte_distance_triangle(a.last(), b.last(), c.last());
    }
}

/// Hamming distance is zero exactly between equal hashes.
pub proof fn lemma_hamming_zero_iff_equal(a: Seq<u8>, b: Seq<u8>)
    requires
        a.len() == b.len(),
    ensures
        hamming(a, b) == 0 <==> a == b,
    decreases a.len(),
{
    if a.len() > 0 {
        lemma_hamming_zero_iff_equal(a.drop_last(), b.drop_last());
        lemma_byte_distance_basics(a.last(), b.last());
        if a == b {
            assert(a.drop_last() == b.drop_last());
        }
        if hamming(a, b) == 0 {
            assert(a =~= a.drop_last().push(a.last()));
            assert(b =~= b.drop_last().push(b.last()));
        }
    } else {
        assert(a =~= b);
    }
}

/// Bit `k` (counted from the least significant) of a byte is set.
pub open spec fn has_bit(b: u8, k: u8) -> bool {
    b & (1u8 << k) != 0
}

/// How many of the hashes have bit `k` of byte `byte_idx` set.
pub open spec fn count_with_bit(frames: Seq<Vec<u8>>, byte_idx: int, k: u8) -> nat
    decreases frames.len(),
{
    if frames.len() == 0 {
        0
    } else {
        count_with_bit(frames.drop_last(), byte_idx, k) + if has_bit(frames.last()@[byte_idx], k) {
            1nat
        } else {
            0nat
        }
    }
}

/// Bit `k` of byte `byte_idx` is set in strictly more than half (rounded
/// down) of the hashes.
pub open spec fn majority_bit(frames: Seq<Vec<u8>>, byte_idx: int, k: u8) -> bool {
    count_with_bit(frames, byte_idx, k) > frames.len() / 2
}

/// All hashes have the length of the first.
pub open spec fn same_lengths(frames: Seq<Vec<u8>>) -> bool {
    forall|j: int| 0 <= j < frames.len() ==> (#[trigger] frames[j])@.len() == frames[0]@.len()
}

/// `avg` is the bitwise majority vote of the hashes.
pub open spec fn is_majority_hash(frames: Seq<Vec<u8>>, avg: Seq<u8>) -> bool {
    &&& avg.len() == frames[0]@.len()
    &&& forall|i: int, k: u8|
        0 <= i < avg.len() && k < 8 ==> (#[trigger] has_bit(avg[i], k) <==> majority_bit(frames, i, k))
}

proof fn lemma_set_bit(v: u8, k: u8, j: u8)
    requires
        k < 8,
        j < 8,
    ensures
        ((v | (1u8 << k)) & (1u8 << j) != 0) <==> ((v & (1u8 << j) != 0) || j == k),
{
    assert(((v | (1u8 << k)) & (1u8 << j) != 0) <==> ((v & (1u8 << j) != 0) || j == k))
        by (bit_vector)
        requires
            k < 8,
            j < 8,
    ;
}

proof fn lemma_zero_no_bit(j: u8)
    requires
        j < 8,
    ensures
        !has_bit(0u8, j),
{
    assert(0u8 & (1u8 << j) == 0) by (bit_vector);
}

/// Counts how many hashes have bit `bit_idx` of byte `byte_idx` set.
fn count_bit(frame_hashes: &[Vec<u8>], byte_idx: usize, bit_idx: u8) -> (n: usize)
    requires
        bit_idx < 8,
        forall|j: int| 0 <= j < frame_hashes@.len() ==> byte_idx < (#[trigger] frame_hashes@[j])@.len(),
    ensures
        n == count_with_bit(frame_hashes@, byte_idx as int, bit_idx),
        n <= frame_hashes@.len(),
{
    let bit_mask: u8 = 1u8 << bit_idx;
    let mut n: usize = 0;
    let mut j: usize = 0;
    while j < frame_hashes.len()
        invariant
            0 <= j <= frame_hashes@.len(),
            n <= j,
            bit_mask == 1u8 << bit_idx,
            n == count_with_bit(frame_hashes@.take(j as int), byte_idx as int, bit_idx),
            forall|t: int| 0 <= t < frame_hashes@.len() ==> byte_idx < (#[trigger] frame_hashes@[t])@.len(),
        decreases frame_hashes@.len() - j,
    {
        proof {
            assert(frame_hashes@.take(j + 1).drop_last() =~= frame_hashes@.take(j as int));
        }
        if frame_hashes[j][byte_idx] & bit_mask != 0 {
            n = n + 1;
        }
        j = j + 1;
    }
    proof {
        assert(frame_hashes@.take(j as int) =~= frame_hashes@);
    }
    n
}

/// Bitwise majority vote of frame hashes: bit `k` of byte `i` of the result
/// is set when it is set in more than half (rounded down) of the hashes.
/// An error for no hashes, or hashes of different lengths.
pub fn compute_average_hash(frame_hashes: &[Vec<u8>]) -> (r: Result<Vec<u8>, HashError>)
    ensures
        frame_hashes@.len() == 0 ==> r == Err::<Vec<u8>, HashError>(HashError::EmptyHashSet),
        frame_hashes@.len() > 0 && !same_lengths(frame_hashes@) ==> r == Err::<Vec<u8>, HashError>(
            HashError::InconsistentLengths,
        ),
        frame_hashes@.len() > 0 && same_lengths(frame_hashes@) ==> (r matches Ok(avg)
            && is_majority_hash(frame_hashes@, avg@)),
{
    if frame_hashes.len() == 0 {
        return Err(HashError::EmptyHashSet);
    }
    let hash_length = frame_hashes[0].len();
    let mut j: usize = 0;
    while j < frame_hashes.len()
        invariant
            0 <= j <= frame_hashes@.len(),
            hash_length == frame_hashes@[0]@.len(),
            forall|t: int| 0 <= t < j ==> (#[trigger] frame_hashes@[t])@.len() == hash_length,
        decreases frame_hashes@.len() - j,
    {
        if frame_hashes[j].len() != hash_length {
            return Err(HashError::InconsistentLengths);
        }
        j = j + 1;
    }
    let threshold = frame_hashes.len() / 2;
    let mut average_hash: Vec<u8> = Vec::new();
    let mut byte_idx: usize = 0;
    while byte_idx < hash_length
        invariant
            0 <= byte_idx <= hash_length,
            hash_length == frame_hashes@[0]@.len(),
            threshold == frame_hashes@.len() / 2,
            same_lengths(frame_hashes@),
            average_hash@.len() == byte_idx,
            forall|i: int, k: u8|
                0 <= i < byte_idx && k < 8 ==> (#[trigger] has_bit(average_hash@[i], k)
                    <==> majority_bit(frame_hashes@, i, k)),
        decreases hash_length - byte_idx,
    {
        let mut byte_value: u8 = 0;
        let mut bit_idx: u8 = 0;
        proof {
            assert forall|t: u8| t < 8 implies !has_bit(byte_value, t) by {
                lemma_zero_no_bit(t);
            }
        }
        while bit_idx < 8
            invariant
                0 <= bit_idx <= 8,
                byte_idx < hash_length,
                hash_length == frame_hashes@[0]@.len(),
                threshold == frame_hashes@.len() / 2,
                same_lengths(frame_hashes@),
                forall|k: u8| k < bit_idx ==> (#[trigger] has_bit(byte_value, k) <==> majority_bit(
                    frame_hashes@,
                    byte_idx as int,
                    k,
                )),
                forall|k: u8| bit_idx <= k < 8 ==> !#[trigger] has_bit(byte_value, k),
            decreases 8 - bit_idx,
        {
            let set_count = count_bit(frame_hashes, byte_idx, bit_idx);
            if set_count > threshold {
                let ghost old_value = byte_value;
                byte_value = byte_value | (1u8 << bit_idx);
                proof {
                    assert forall|k: u8| k < 8 implies #[trigger] has_bit(byte_value, k) == (has_bit(
                        old_value,
                        k,
                    ) || k == bit_idx) by {
                        lemma_set_bit(old_value, bit_idx, k);
                    }
                }
            }
            bit_idx = bit_idx + 1;
        }
        average_hash.push(byte_value);
        byte_idx = byte_idx + 1;
    }
    Ok(average_hash)
}

/// Smallest Hamming distance from `f` to those hashes of `others` that have
/// its length; `None` when none has.
pub open spec fn min_distance(f: Seq<u8>, others: Seq<Vec<u8>>) -> Option<nat>
    decreases others.len(),
{
    if others.len() == 0 {
        None
    } else {
        let rest = min_distance(f, others.drop_last());
        let last = others.last()@;
        if last.len() == f.len() {
            let d = hamming(f, last);
            match rest {
                None => Some(d),
                Some(m) => Some(
                    if d < m {
                        d
                    } else {
                        m
                    },
                ),
            }
        } else {
            rest
        }
    }
}

/// An optional distance carried in a `u32`.
pub open spec fn narrow(o: Option<nat>) -> Option<u32> {
    match o {
        Some(m) => Some(m as u32),
        None => None,
    }
}

/// For every frame of `f1`, its smallest distance to the frames of `f2`.
pub open spec fn frame_minima(f1: Seq<Vec<u8>>, f2: Seq<Vec<u8>>) -> Seq<Option<nat>> {
    Seq::new(f1.len(), |i: int| min_distance(f1[i]@, f2))
}

/// Frames that found a comparable frame at a distance below `u32::MAX`.
pub open spec fn count_kept(ms: Seq<Option<nat>>) -> nat
    decreases ms.len(),
{
    if ms.len() == 0 {
        0
    } else {
        count_kept(ms.drop_last()) + match ms.last() {
            Some(m) => if m < u32::MAX {
                1nat
            } else {
                0nat
            },
            None => 0nat,
        }
    }
}

/// Kept frames whose distance is at most `t`.
pub open spec fn count_within(ms: Seq<Option<nat>>, t: nat) -> nat
    decreases ms.len(),
{
    if ms.len() == 0 {
        0
    } else {
        count_within(ms.drop_last(), t) + match ms.last() {
            Some(m) => if m < u32::MAX && m <= t {
                1nat
            } else {
                0nat
            },
            None => 0nat,
        }
    }
}

/// Every distance the comparison of two hash sets computes fits a `u32`.
pub open spec fn distances_fit(h1: PerceptualHashData, h2: PerceptualHashData) -> bool {
    &&& hamming_fits(h1.average_hash@, h2.average_hash@)
    &&& forall|i: int, j: int|
        0 <= i < h1.individual_hashes@.len() && 0 <= j < h2.individual_hashes@.len()
            ==> hamming_fits(
            #[trigger] h1.individual_hashes@[i]@,
            #[trigger] h2.individual_hashes@[j]@,
        )
}

/// The similarity decision: the average hashes are within `avg_threshold`,
/// some frame of `h1` has a comparable frame in `h2`, and at least 70% of
/// those frames have their nearest frame within `max_threshold`.
pub open spec fn hashes_similar(
    h1: PerceptualHashData,
    h2: PerceptualHashData,
    avg_threshold: u32,
    max_threshold: u32,
) -> bool {
    let ms = frame_minima(h1.individual_hashes@, h2.individual_hashes@);
    &&& hamming(h1.average_hash@, h2.average_hash@) <= avg_threshold
    &&& count_kept(ms) > 0
    &&& 10 * count_within(ms, max_threshold as nat) >= 7 * count_kept(ms)
}

fn min_frame_distance(frame: &Vec<u8>, others: &Vec<Vec<u8>>) -> (r: Option<u32>)
    requires
        forall|j: int| 0 <= j < others@.len() ==> hamming_fits(frame@, #[trigger] others@[j]@),
    ensures
        r == narrow(min_distance(frame@, others@)),
        r matches Some(m) ==> min_distance(frame@, others@) == Some(m as nat),
{
    let mut best: Option<u32> = None;
    let mut j: usize = 0;
    while j < others.len()
        invariant
            0 <= j <= others@.len(),
            forall|t: int| 0 <= t < others@.len() ==> hamming_fits(frame@, #[trigger] others@[t]@),
            min_distance(frame@, others@.take(j as int)) == match best {
                Some(m) => Some(m as nat),
                None => None::<nat>,
            },
        decreases others@.len() - j,
    {
        proof {
            assert(others@.take(j + 1).drop_last() =~= others@.take(j as int));
            assert(others@.take(j + 1).last() == others@[j as int]);
        }
        if others[j].len() == frame.len() {
            assert(hamming_fits(frame@, others@[j as int]@));
            let d = hamming_distance(frame.as_slice(), others[j].as_slice());
            match d {
                Ok(dist) => {
                    best = match best {
                        None => Some(dist),
                        Some(m) => Some(
                            if dist < m {
                                dist
                            } else {
                                m
                            },
                        ),
                    };
                },
                Err(_) => {},
            }
        }
        j = j + 1;
    }
    proof {
        assert(others@.take(j as int) =~= others@);
    }
    best
}

/// For every frame of `frames1`, the smallest Hamming distance to a frame of
/// `frames2` of the same length, or `None` when `frames2` has no such frame.
pub fn frame_min_distances(frames1: &Vec<Vec<u8>>, frames2: &Vec<Vec<u8>>) -> (r: Vec<Option<u32>>)
    requires
        forall|i: int, j: int|
            0 <= i < frames1@.len() && 0 <= j < frames2@.len() ==> hamming_fits(
                #[trigger] frames1@[i]@,
                #[trigger] frames2@[j]@,
            ),
    ensures
        r@.len() == frames1@.len(),
        forall|i: int|
            0 <= i < frames1@.len() ==> #[trigger] r@[i] == narrow(min_distance(frames1@[i]@, frames2@)),
{
    let mut r: Vec<Option<u32>> = Vec::new();
    let mut i: usize = 0;
    while i < frames1.len()
        invariant
            0 <= i <= frames1@.len(),
            r@.len() == i,
            forall|a: int, b: int|
                0 <= a < frames1@.len() && 0 <= b < frames2@.len() ==> hamming_fits(
                    #[trigger] frames1@[a]@,
                    #[trigger] frames2@[b]@,
                ),
            forall|t: int|
                0 <= t < i ==> #[trigger] r@[t] == narrow(min_distance(frames1@[t]@, frames2@)),
        decreases frames1@.len() - i,
    {
        assert(forall|b: int| 0 <= b < frames2@.len() ==> hamming_fits(frames1@[i as int]@, #[trigger] frames2@[b]@));
        let m = min_frame_distance(&frames1[i], frames2);
        r.push(m);
        i = i + 1;
    }
    r
}

/// Whether two perceptual hash sets are similar: the average hashes are at
/// most `avg_threshold` apart, and of the frames of `hash1` that have a
/// comparable frame in `hash2`, at least 70% have their nearest one at most
/// `max_threshold` apart. An error when the average hashes differ in length.
pub fn are_hashes_similar(
    hash1: &PerceptualHashData,
    hash2: &PerceptualHashData,
    avg_threshold: u32,
    max_threshold: u32,
) -> (r: Result<bool, HashError>)
    requires
        distances_fit(*hash1, *hash2),
    ensures
        hash1.average_hash@.len() != hash2.average_hash@.len() ==> r == Err::<bool, HashError>(
            HashError::LengthMismatch {
                left: hash1.average_hash@.len() as usize,
                right: hash2.average_hash@.len() as usize,
            },
        ),
        hash1.average_hash@.len() == hash2.average_hash@.len() ==> r == Ok::<bool, HashError>(
            hashes_similar(*hash1, *hash2, avg_threshold, max_threshold),
        ),
        r == Ok::<bool, HashError>(true) ==> hamming(hash1.average_hash@, hash2.average_hash@) <= avg_threshold,
        hash1.average_hash@.len() == hash2.average_hash@.len() && hamming(hash1.average_hash@, hash2.average_hash@)
            > avg_threshold ==> r == Ok::<bool, HashError>(false),
{
    proof {
        lemma_similar_needs_close_averages(*hash1, *hash2, avg_threshold, max_threshold);
    }
    let avg_distance = match hamming_distance(hash1.average_hash.as_slice(), hash2.average_hash.as_slice()) {
        Ok(d) => d,
        Err(e) => {
            return Err(e);
        },
    };
    if avg_distance > avg_threshold {
        return Ok(false);
    }
    let ghost ms = frame_minima(hash1.individual_hashes@, hash2.individual_hashes@);
    let frames1 = &hash1.individual_hashes;
    let frames2 = &hash2.individual_hashes;
    let mut kept: usize = 0;
    let mut similar: usize = 0;
    let mut i: usize = 0;
    while i < frames1.len()
        invariant
            0 <= i <= frames1@.len(),
            frames1 == hash1.individual_hashes,
            frames2 == hash2.individual_hashes,
            distances_fit(*hash1, *hash2),
            ms == frame_minima(frames1@, frames2@),
            kept == count_kept(ms.take(i as int)),
            similar == count_within(ms.take(i as int), max_threshold as nat),
            similar <= kept <= i,
        decreases frames1@.len() - i,
    {
        proof {
            assert(ms.take(i + 1).drop_last() =~= ms.take(i as int));
            assert(ms.take(i + 1).last() == ms[i as int]);
            assert(forall|b: int| 0 <= b < frames2@.len() ==> hamming_fits(frames1@[i as int]@, #[trigger] frames2@[b]@));
        }
        let m = min_frame_distance(&frames1[i], frames2);
        match m {
            Some(d) => {
                if d != u32::MAX {
                    kept = kept + 1;
                    if d <= max_threshold {
                        similar = similar + 1;
                    }
                }
            },
            None => {},
        }
        i = i + 1;
    }
    proof {
        assert(ms.take(i as int) =~= ms);
    }
    if kept == 0 {
        return Ok(false);
    }
    Ok((similar as u128) * 10 >= (kept as u128) * 7)
}

proof fn lemma_byte_from_bits(x: u8, y: u8)
    requires
        forall|k: u8| k < 8 ==> (#[trigger] has_bit(x, k) <==> has_bit(y, k)),
    ensures
        x == y,
{
    assert(has_bit(x, 0) <==> has_bit(y, 0));
    assert(has_bit(x, 1) <==> has_bit(y, 1));
    assert(has_bit(x, 2) <==> has_bit(y, 2));
    assert(has_bit(x, 3) <==> has_bit(y, 3));
    assert(has_bit(x, 4) <==> has_bit(y, 4));
    assert(has_bit(x, 5) <==> has_bit(y, 5));
    assert(has_bit(x, 6) <==> has_bit(y, 6));
    assert(has_bit(x, 7) <==> has_bit(y, 7));
    assert(x == y) by (bit_vector)
        requires
            (x & (1u8 << 0u8) != 0) <==> (y & (1u8 << 0u8) != 0),
            (x & (1u8 << 1u8) != 0) <==> (y & (1u8 << 1u8) != 0),
            (x & (1u8 << 2u8) != 0) <==> (y & (1u8 << 2u8) != 0),
            (x & (1u8 << 3u8) != 0) <==> (y & (1u8 << 3u8) != 0),
            (x & (1u8 << 4u8) != 0) <==> (y & (1u8 << 4u8) != 0),
            (x & (1u8 << 5u8) != 0) <==> (y & (1u8 << 5u8) != 0),
            (x & (1u8 << 6u8) != 0) <==> (y & (1u8 << 6u8) != 0),
            (x & (1u8 << 7u8) != 0) <==> (y & (1u8 << 7u8) != 0),
    ;
}

proof fn lemma_count_identical(frames: Seq<Vec<u8>>, f: Seq<u8>, i: int, k: u8)
    requires
        forall|j: int| 0 <= j < frames.len() ==> (#[trigger] frames[j])@ == f,
    ensures
        count_with_bit(frames, i, k) == if has_bit(f[i], k) {
            frames.len()
        } else {
            0
        },
    decreases frames.len(),
{
    if frames.len() > 0 {
        assert(frames.last() == frames[frames.len() - 1]);
        lemma_count_identical(frames.drop_last(), f, i, k);
    }
}

/// Averaging frames that all carry the same hash gives back that hash.
pub proof fn lemma_average_of_identical_frames(frames: Seq<Vec<u8>>, avg: Seq<u8>)
    requires
        frames.len() > 0,
        forall|j: int| 0 <= j < frames.len() ==> (#[trigger] frames[j])@ == frames[0]@,
        is_majority_hash(frames, avg),
    ensures
        avg == frames[0]@,
{
    let f = frames[0]@;
    assert forall|i: int| 0 <= i < avg.len() implies avg[i] == f[i] by {
        assert forall|k: u8| k < 8 implies (#[trigger] has_bit(avg[i], k) <==> has_bit(f[i], k)) by {
            lemma_count_identical(frames, f, i, k);
            assert(has_bit(avg[i], k) <==> majority_bit(frames, i, k));
        }
        lemma_byte_from_bits(avg[i], f[i]);
    }
    assert(avg =~= f);
}

proof fn lemma_min_distance_of_member(f: Seq<u8>, others: Seq<Vec<u8>>, w: int)
    requires
        0 <= w < others.len(),
        others[w]@ == f,
    ensures
        min_distance(f, others) == Some(0nat),
    decreases others.len(),
{
    lemma_hamming_zero_iff_equal(f, f);
    if w < others.len() - 1 {
        lemma_min_distance_of_member(f, others.drop_last(), w);
    } else {
        let rest = min_distance(f, others.drop_last());
        assert(others.last()@ == f);
    }
}

proof fn lemma_counts_all_zero(ms: Seq<Option<nat>>, t: nat)
    requires
        forall|i: int| 0 <= i < ms.len() ==> #[trigger] ms[i] == Some(0nat),
    ensures
        count_kept(ms) == ms.len(),
        count_within(ms, t) == ms.len(),
    decreases ms.len(),
{
    if ms.len() > 0 {
        assert(ms.last() == ms[ms.len() - 1]);
        lemma_counts_all_zero(ms.drop_last(), t);
    }
}

/// Two hash sets whose average hashes are more than `avg_threshold` bits
/// apart are never similar, however well their frames match.
pub proof fn lemma_similar_needs_close_averages(
    h1: PerceptualHashData,
    h2: PerceptualHashData,
    avg_threshold: u32,
    max_threshold: u32,
)
    ensures
        hashes_similar(h1, h2, avg_threshold, max_threshold) ==> hamming(h1.average_hash@, h2.average_hash@)
            <= avg_threshold,
{
}

/// A hash set with at least one frame is similar to itself, whatever the
/// thresholds.
pub proof fn lemma_similar_to_itself(h: PerceptualHashData, avg_threshold: u32, max_threshold: u32)
    requires
        h.individual_hashes@.len() > 0,
    ensures
        hashes_similar(h, h, avg_threshold, max_threshold),
{
    lemma_hamming_zero_iff_equal(h.average_hash@, h.average_hash@);
    let frames = h.individual_hashes@;
    let ms = frame_minima(frames, frames);
    assert forall|i: int| 0 <= i < ms.len() implies #[trigger] ms[i] == Some(0nat) by {
        lemma_min_distance_of_member(frames[i]@, frames, i);
    }
    lemma_counts_all_zero(ms, max_threshold as nat);
}

proof fn lemma_count_within_monotone(ms: Seq<Option<nat>>, t1: nat, t2: nat)
    requires
        t1 <= t2,
    ensures
        count_within(ms, t1) <= count_within(ms, t2),
    decreases ms.len(),
{
    if ms.len() > 0 {
        lemma_count_within_monotone(ms.drop_last(), t1, t2);
    }
}

/// Raising either threshold never turns a similar pair into a dissimilar
/// one: larger thresholds detect more.
pub proof fn lemma_similarity_monotone_in_thresholds(
    h1: PerceptualHashData,
    h2: PerceptualHashData,
    avg1: u32,
    max1: u32,
    avg2: u32,
    max2: u32,
)
    requires
        avg1 <= avg2,
        max1 <= max2,
        hashes_similar(h1, h2, avg1, max1),
    ensures
        hashes_similar(h1, h2, avg2, max2),
{
    let ms = frame_minima(h1.individual_hashes@, h2.individual_hashes@);
    lemma_count_within_monotone(ms, max1 as nat, max2 as nat);
}

/// The perceptual hash of a video frame given as PNG bytes, as
/// `img_hash`'s default hasher computes it on the decoded image; `None` when
/// the bytes do not decode as a PNG image.
pub uninterp spec fn png_frame_hash(png: Seq<u8>) -> Option<Seq<u8>>;

/// `image::load_from_memory_with_format(png, ImageFormat::Png)`, then
/// `HasherConfig::new().to_hasher().hash_image` on the decoded image, as
/// bytes. Both steps depend on the bytes alone; a decoding error gives
/// `None`.
#[verifier::external_body]
fn hash_png_frame(png: &[u8]) -> (r: Option<Vec<u8>>)
    ensures
        r is Some <==> png_frame_hash(png@) is Some,
        r matches Some(h) ==> png_frame_hash(png@) == Some(h@),
{
    let img = image::load_from_memory_with_format(png, image::ImageFormat::Png).ok()?;
    let img = img_hash::image::DynamicImage::from(img);
    Some(img_hash::HasherConfig::new().to_hasher().hash_image(&img).as_bytes().to_vec())
}

/// The hash of the frame `ffmpeg` wrote: none when it failed or wrote
/// nothing, else the hash of its PNG output (none when that does not decode).
pub fn frame_hash_from_output(success: bool, stdout: &[u8]) -> (r: Option<Vec<u8>>)
    ensures
        (!success || stdout@.len() == 0) ==> r is None,
        (success && stdout@.len() > 0) ==> ((r is Some <==> png_frame_hash(stdout@) is Some) && (r matches Some(
            h,
        ) ==> png_frame_hash(stdout@) == Some(h@))),
{
    if !success || stdout.len() == 0 {
        return None;
    }
    hash_png_frame(stdout)
}

} // verus!
