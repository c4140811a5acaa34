use vstd::prelude::*;

use crate::coarse::{hex_u64, push_hex_u64};
use crate::text::{
    chars_equal, chars_of, has_prefix, push_chars, split_on, split_ranges, starts_with_at, trim,
    trim_bounds,
};

verus! {

/// Why no fingerprint could be read from the output of `fpcalc`.
#[derive(Debug, Clone, Copy, PartialEq, Eq)]
pub enum FingerprintError {
    /// No line starts with `FINGERPRINT=`.
    NotFound,
    /// The first such line holds nothing but whitespace after the prefix.
    Empty,
}

/// The fingerprint found in the lines of `fpcalc` output: the first line
/// that starts with `FINGERPRINT=`, without that prefix and trimmed.
pub open spec fn find_fingerprint(lines: Seq<Seq<char>>) -> Result<Seq<char>, FingerprintError>
    decreases lines.len(),
{
    if lines.len() == 0 {
        Err(FingerprintError::NotFound)
    } else if has_prefix(lines[0], "FINGERPRINT="@) {
        let value = trim(lines[0].skip("FINGERPRINT="@.len() as int));
        if value.len() == 0 {
            Err(FingerprintError::Empty)
        } else {
            Ok(value)
        }
    } else {
        find_fingerprint(lines.drop_first())
    }
}

/// What `parse_fpcalc_output` returns for `output`. Lines are taken between
/// `'\n'` characters; a `'\r'` that ends a line is whitespace and so goes
/// with the trimming.
pub open spec fn fpcalc_fingerprint(output: Seq<char>) -> Result<Seq<char>, FingerprintError> {
    find_fingerprint(split_on(output, '\n'))
}

/// Reads the fingerprint from the output of `fpcalc -raw`: the value of the
/// first line that starts with `FINGERPRINT=`, trimmed. An error when there
/// is no such line, or when its value is empty.
pub fn parse_fpcalc_output(output: &str) -> (r: Result<String, FingerprintError>)
    ensures
        match (r, fpcalc_fingerprint(output@)) {
            (Ok(s), Ok(v)) => s@ == v,
            (Err(e1), Err(e2)) => e1 == e2,
            _ => false,
        },
{
    let chars = chars_of(output);
    let prefix = chars_of("FINGERPRINT=");
    let ranges = split_ranges(chars.as_slice(), '\n');
    let ghost lines = split_on(chars@, '\n');
    proof {
        assert(lines.skip(0) =~= lines);
    }
    let mut i: usize = 0;
    while i < ranges.len()
        invariant
            0 <= i <= ranges@.len(),
            chars@ == output@,
            prefix@ == "FINGERPRINT="@,
            lines == split_on(chars@, '\n'),
            ranges@.len() == lines.len(),
            forall|t: int|
                0 <= t < ranges@.len() ==> (#[trigger] ranges@[t]).0 <= ranges@[t].1 <= chars@.len()
                    && chars@.subrange(ranges@[t].0 as int, ranges@[t].1 as int) == lines[t],
            find_fingerprint(lines.skip(i as int)) == find_fingerprint(lines),
        decreases ranges@.len() - i,
    {
        let (start, end) = ranges[i];
        let ghost line = lines[i as int];
        proof {
            assert(lines.skip(i as int)[0] == line);
            assert(lines.skip(i as int).drop_first() =~= lines.skip(i + 1));
        }
        if starts_with_at(chars.as_slice(), start, end, prefix.as_slice()) {
            let (b, e) = trim_bounds(chars.as_slice(), start + prefix.len(), end);
            proof {
                assert(chars@.subrange(start + prefix@.len(), end as int) =~= line.skip(
                    prefix@.len() as int,
                ));
            }
            if b == e {
                return Err(FingerprintError::Empty);
            }
            let mut value = String::new();
            push_chars(&mut value, chars.as_slice(), b, e);
            proof {
                assert(value@ =~= chars@.subrange(b as int, e as int));
            }
            return Ok(value);
        }
        i = i + 1;
    }
    proof {
        assert(lines.skip(i as int) =~= Seq::<Seq<char>>::empty());
    }
    Err(FingerprintError::NotFound)
}

/// Whether a fingerprint comes from the simple audio hash (`simple:` prefix).
pub fn is_simple_hash(fingerprint: &str) -> (r: bool)
    ensures
        r == has_prefix(fingerprint@, "simple:"@),
{
    let chars = chars_of(fingerprint);
    let prefix = chars_of("simple:");
    let r = starts_with_at(chars.as_slice(), 0, chars.len(), prefix.as_slice());
    proof {
        assert(chars@.subrange(0, chars@.len() as int) =~= fingerprint@);
    }
    r
}

/// What the kinds of two fingerprints decide on their own: two simple
/// hashes match exactly when they are equal; a simple hash never matches a
/// Chromaprint fingerprint; two Chromaprint fingerprints are left to their
/// similarity score (`None`).
pub fn simple_fingerprint_match(fp1: &str, fp2: &str) -> (r: Option<bool>)
    ensures
        r == if has_prefix(fp1@, "simple:"@) && has_prefix(fp2@, "simple:"@) {
            Some(fp1@ == fp2@)
        } else if has_prefix(fp1@, "simple:"@) != has_prefix(fp2@, "simple:"@) {
            Some(false)
        } else {
            None::<bool>
        },
{
    let s1 = is_simple_hash(fp1);
    let s2 = is_simple_hash(fp2);
    if s1 && s2 {
        let c1 = chars_of(fp1);
        let c2 = chars_of(fp2);
        Some(chars_equal(c1.as_slice(), c2.as_slice()))
    } else if s1 != s2 {
        Some(false)
    } else {
        None
    }
}

/// The fingerprint text of a simple audio hash: `simple:` and the 16
/// hexadecimal digits of the hash value.
pub fn simple_hash_text(hash: u64) -> (r: String)
    ensures
        r@ == "simple:"@ + hex_u64(hash),
{
    let mut r = String::from_str("simple:");
    push_hex_u64(&mut r, hash);
    r
}

/// A simple audio hash text is recognized as one.
pub proof fn lemma_simple_hash_text_is_simple(hash: u64)
    ensures
        has_prefix("simple:"@ + hex_u64(hash), "simple:"@),
{
    assert(("simple:"@ + hex_u64(hash)).take("simple:"@.len() as int) =~= "simple:"@);
}

/// How two comma-separated fingerprints compare part by part.
#[derive(Debug, Clone, Copy, PartialEq, Eq)]
pub struct PartComparison {
    /// Positions, among those both have, where the parts are equal.
    pub matching: usize,
    /// Number of parts of the shorter fingerprint.
    pub shorter: usize,
    /// Number of parts of the longer fingerprint.
    pub longer: usize,
}

/// Positions below `n` at which the two part lists agree.
pub open spec fn count_matching(p1: Seq<Seq<char>>, p2: Seq<Seq<char>>, n: int) -> nat
    decreases n,
{
    if n <= 0 {
        0
    } else {
        count_matching(p1, p2, n - 1) + if p1[n - 1] == p2[n - 1] {
            1nat
        } else {
            0nat
        }
    }
}

/// A fingerprint compared with itself matches at every position: its part
/// count is both the shorter and the longer count and all parts match.
pub proof fn lemma_identical_parts_all_match(fingerprint: Seq<char>)
    ensures
        count_matching(split_on(fingerprint, ','), split_on(fingerprint, ','), split_on(fingerprint, ',').len() as int)
            == split_on(fingerprint, ',').len(),
{
    let p = split_on(fingerprint, ',');
    lemma_count_matching_self(p, p.len() as int);
}

proof fn lemma_count_matching_self(p: Seq<Seq<char>>, n: int)
    requires
        0 <= n <= p.len(),
    ensures
        count_matching(p, p, n) == n,
    decreases n,
{
    if n > 0 {
        lemma_count_matching_self(p, n - 1);
    }
}

/// Splits both fingerprints at commas and counts the positions, up to the
/// length of the shorter, at which the parts are equal.
pub fn compare_fingerprint_parts(fingerprint1: &str, fingerprint2: &str) -> (r: PartComparison)
    ensures
        ({
            let p1 = split_on(fingerprint1@, ',');
            let p2 = split_on(fingerprint2@, ',');
            let shorter = if p1.len() < p2.len() {
                p1.len()
            } else {
                p2.len()
            };
            let longer = if p1.len() < p2.len() {
                p2.len()
            } else {
                p1.len()
            };
            &&& r.shorter == shorter
            &&& r.longer == longer
            &&& r.matching == count_matching(p1, p2, shorter as int)
        }),
        r.matching <= r.shorter <= r.longer,
        r.shorter >= 1,
{
    let c1 = chars_of(fingerprint1);
    let c2 = chars_of(fingerprint2);
    let r1 = split_ranges(c1.as_slice(), ',');
    let r2 = split_ranges(c2.as_slice(), ',');
    let ghost p1 = split_on(fingerprint1@, ',');
    let ghost p2 = split_on(fingerprint2@, ',');
    let shorter = if r1.len() < r2.len() {
        r1.len()
    } else {
        r2.len()
    };
    let longer = if r1.len() < r2.len() {
        r2.len()
    } else {
        r1.len()
    };
    let mut matching: usize = 0;
    let mut i: usize = 0;
    while i < shorter
        invariant
            0 <= i <= shorter,
            shorter <= r1@.len(),
            shorter <= r2@.len(),
            c1@ == fingerprint1@,
            c2@ == fingerprint2@,
            p1 == split_on(c1@, ','),
            p2 == split_on(c2@, ','),
            r1@.len() == p1.len(),
            r2@.len() == p2.len(),
            forall|t: int|
                0 <= t < r1@.len() ==> (#[trigger] r1@[t]).0 <= r1@[t].1 <= c1@.len() && c1@.subrange(
                    r1@[t].0 as int,
                    r1@[t].1 as int,
                ) == p1[t],
            forall|t: int|
                0 <= t < r2@.len() ==> (#[trigger] r2@[t]).0 <= r2@[t].1 <= c2@.len() && c2@.subrange(
                    r2@[t].0 as int,
                    r2@[t].1 as int,
                ) == p2[t],
            matching == count_matching(p1, p2, i as int),
            matching <= i,
        decreases shorter - i,
    {
        let (s1, e1) = r1[i];
        let (s2, e2) = r2[i];
        let a = vstd::slice::slice_subrange(c1.as_slice(), s1, e1);
        let b = vstd::slice::slice_subrange(c2.as_slice(), s2, e2);
        if chars_equal(a, b) {
            matching = matching + 1;
        }
        i = i + 1;
    }
    proof {
        crate::text::lemma_split_on_nonempty(fingerprint1@, ',');
        crate::text::lemma_split_on_nonempty(fingerprint2@, ',');
    }
    PartComparison { matching, shorter, longer }
}

} // verus!
