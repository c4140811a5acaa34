use vstd::prelude::*;

use crate::text::{chars_of, lowercase, push_chars, split_on, split_ranges, to_lowercase, trim, trim_bounds};

verus! {

/// A filesystem path (`std::path::PathBuf`), carried through unchanged.
#[verifier::external_type_specification]
#[verifier::external_body]
pub struct ExPathBuf(std::path::PathBuf);

/// The command line: global flags and one command.
pub struct Cli {
    pub debug: bool,
    pub quiet: bool,
    pub command: Commands,
}

/// What the tool is asked to do.
pub enum Commands {
    /// Scan a directory and build or update the cache.
    Scan { root: std::path::PathBuf, scan_options: ScanOptions, common_options: CommonOptions },
    /// Show the duplicate clusters found in the cache.
    Dupes { root: std::path::PathBuf, details: bool, common_options: CommonOptions },
    /// Select and remove duplicates.
    Prune {
        root: std::path::PathBuf,
        apply: bool,
        hard_delete: bool,
        auto_keep: Option<AutoKeepStrategy>,
        no_confirm: bool,
        confirm_each: bool,
        scan_options: ScanOptions,
        common_options: CommonOptions,
    },
    /// Remove the cache database.
    ClearCache { common_options: CommonOptions },
}

/// How files are found and sampled.
#[derive(Clone)]
pub struct ScanOptions {
    pub extensions: String,
    pub include_hidden: bool,
    pub exclude: Vec<String>,
    pub frame_samples: u32,
    pub head_tail_mib: u32,
}

/// Options every command shares.
pub struct CommonOptions {
    pub db: std::path::PathBuf,
    pub jobs: usize,
    pub ffmpeg_par: usize,
    pub threshold_phash_avg: u32,
    pub threshold_phash_max: u32,
    pub min_size_mb: u64,
}

/// Which file of a cluster is kept when the choice is automatic.
#[derive(Clone, Copy, Debug, PartialEq, Eq, Structural)]
pub enum AutoKeepStrategy {
    /// The highest quality file.
    Best,
    /// The smallest file.
    Smallest,
    /// The file modified first.
    Oldest,
    /// The file modified last.
    Newest,
}

impl Default for AutoKeepStrategy {
    fn default() -> (r: Self)
        ensures
            r == AutoKeepStrategy::Best,
    {
        AutoKeepStrategy::Best
    }
}

impl AutoKeepStrategy {
    /// How the strategy is described to the user.
    pub fn label(&self) -> (r: &'static str)
        ensures
            r@ == match *self {
                AutoKeepStrategy::Best => "best quality"@,
                AutoKeepStrategy::Smallest => "smallest size"@,
                AutoKeepStrategy::Oldest => "oldest file"@,
                AutoKeepStrategy::Newest => "newest file"@,
            },
    {
        match self {
            AutoKeepStrategy::Best => "best quality",
            AutoKeepStrategy::Smallest => "smallest size",
            AutoKeepStrategy::Oldest => "oldest file",
            AutoKeepStrategy::Newest => "newest file",
        }
    }
}

/// The part of a size option in bytes: `mb` mebibytes.
pub fn min_size_bytes(mb: u64) -> (r: u64)
    requires
        mb * 1024 * 1024 <= u64::MAX,
    ensures
        r == mb * 1024 * 1024,
{
    mb * 1024 * 1024
}

/// An extension with a leading `.`, added when missing.
pub open spec fn with_dot(e: Seq<char>) -> Seq<char> {
    if e.len() > 0 && e[0] == '.' {
        e
    } else {
        seq!['.'] + e
    }
}

/// The extensions named in a comma-separated list: each piece trimmed,
/// lowercased, and given a leading `.` when it has none.
pub open spec fn extension_list(text: Seq<char>) -> Seq<Seq<char>> {
    split_on(text, ',').map_values(|p: Seq<char>| with_dot(lowercase(trim(p))))
}

/// Every extension read from a list starts with `.`.
pub proof fn lemma_extensions_start_with_dot(text: Seq<char>)
    ensures
        forall|i: int|
            0 <= i < extension_list(text).len() ==> (#[trigger] extension_list(text)[i]).len() > 0
                && extension_list(text)[i][0] == '.',
{
    assert forall|i: int| 0 <= i < extension_list(text).len() implies (#[trigger] extension_list(text)[i]).len()
        > 0 && extension_list(text)[i][0] == '.' by {
        let e = lowercase(trim(split_on(text, ',')[i]));
        if !(e.len() > 0 && e[0] == '.') {
            assert((seq!['.'] + e)[0] == '.');
        }
    }
}

/// Reads a comma-separated extension list such as "mp4, MKV,.avi".
pub fn parse_extensions(extensions_str: &str) -> (r: Vec<String>)
    ensures
        r@.len() == extension_list(extensions_str@).len(),
        forall|i: int| 0 <= i < r@.len() ==> (#[trigger] r@[i])@ == extension_list(extensions_str@)[i],
{
    let chars = chars_of(extensions_str);
    let ranges = split_ranges(chars.as_slice(), ',');
    let ghost parts = split_on(chars@, ',');
    let mut out: Vec<String> = Vec::new();
    let mut i: usize = 0;
    while i < ranges.len()
        invariant
            0 <= i <= ranges@.len(),
            chars@ == extensions_str@,
            parts == split_on(chars@, ','),
            ranges@.len() == parts.len(),
            forall|t: int|
                0 <= t < ranges@.len() ==> (#[trigger] ranges@[t]).0 <= ranges@[t].1 <= chars@.len()
                    && chars@.subrange(ranges@[t].0 as int, ranges@[t].1 as int) == parts[t],
            out@.len() == i,
            forall|t: int| 0 <= t < i ==> (#[trigger] out@[t])@ == with_dot(lowercase(trim(parts[t]))),
        decreases ranges@.len() - i,
    {
        let (start, end) = ranges[i];
        let (b, e) = trim_bounds(chars.as_slice(), start, end);
        let mut piece = String::new();
        push_chars(&mut piece, chars.as_slice(), b, e);
        proof {
            assert(piece@ =~= trim(parts[i as int]));
        }
        let lower = to_lowercase(piece.as_str());
        let lower_chars = chars_of(lower.as_str());
        let item = if lower_chars.len() > 0 && lower_chars[0] == '.' {
            lower
        } else {
            let mut dotted = String::from_str(".");
            dotted.append(lower.as_str());
            proof {
                reveal_strlit(".");
                assert(dotted@ =~= seq!['.'] + lower@);
            }
            dotted
        };
        out.push(item);
        i = i + 1;
    }
    proof {
        assert forall|t: int| 0 <= t < out@.len() implies (#[trigger] out@[t])@ == extension_list(
            extensions_str@,
        )[t] by {}
    }
    out
}

} // verus!
