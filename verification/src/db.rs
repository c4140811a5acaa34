use vstd::prelude::*;

use crate::phash::PerceptualHashData;

verus! {

/// Counts and sizes of the cache.
#[derive(Debug, Clone, Copy, PartialEq, Eq)]
pub struct DatabaseStats {
    pub total_files: usize,
    pub files_with_phash: usize,
    pub files_with_chromaprint: usize,
    pub total_content_size: u64,
    pub database_file_size: u64,
}

/// The version of the cache schema this library writes.
pub const SCHEMA_VERSION: i32 = 1;

/// Whether a cache at `version` needs its tables created.
pub fn needs_schema_init(version: i32) -> (r: bool)
    ensures
        r == (version < SCHEMA_VERSION),
{
    version < SCHEMA_VERSION
}

/// Whether a cached entry is current for a file: the cache holds an entry
/// (size, modification time) and both equal those of the file, the size as
/// the signed integer the cache stores.
pub fn is_cache_entry_current(cached: Option<(i64, i64)>, size: u64, modified: i64) -> (r: bool)
    ensures
        r == match cached {
            Some((s, m)) => s == size as i64 && m == modified,
            None => false,
        },
{
    match cached {
        Some((cached_size, cached_modified)) => cached_size == size as i64 && cached_modified == modified,
        None => false,
    }
}

/// The frame hashes `serde_json::from_str::<Vec<Vec<u8>>>` reads from a
/// text, or `None` where it reports an error.
pub uninterp spec fn json_frame_hashes(text: Seq<char>) -> Option<Seq<Seq<u8>>>;

/// The views of a list of frame hashes.
pub open spec fn frame_views(frames: Seq<Vec<u8>>) -> Seq<Seq<u8>> {
    frames.map_values(|f: Vec<u8>| f@)
}

/// `serde_json::from_str::<Vec<Vec<u8>>>`: the decoded list is a function of
/// the text alone.
#[verifier::external_body]
fn parse_frame_hashes(text: &str) -> (r: Option<Vec<Vec<u8>>>)
    ensures
        r is Some <==> json_frame_hashes(text@) is Some,
        r matches Some(v) ==> json_frame_hashes(text@) == Some(frame_views(v@)),
{
    serde_json::from_str::<Vec<Vec<u8>>>(text).ok()
}

/// `serde_json::to_string` on a list of frame hashes. It does not fail on a
/// list of byte lists, and the text reads back, through
/// `serde_json::from_str`, as the same list; which text it is is left unsaid
/// here.
#[verifier::external_body]
fn write_frame_hashes(frames: &Vec<Vec<u8>>) -> (r: Option<String>)
    ensures
        r is Some,
        r matches Some(t) ==> json_frame_hashes(t@) == Some(frame_views(frames@)),
{
    serde_json::to_string(frames).ok()
}

/// The frames stored in a text: the decoded list, or none when the text
/// does not decode.
pub open spec fn frames_of_text(text: Seq<char>) -> Seq<Seq<u8>> {
    match json_frame_hashes(text) {
        Some(fs) => fs,
        None => Seq::empty(),
    }
}

/// The cache columns of perceptual hashes: the average hash, the frame
/// hashes as JSON text, and the frame count as the signed integer the cache
/// stores.
pub fn phash_columns(data: &PerceptualHashData) -> (r: (Vec<u8>, String, i32))
    ensures
        r.0@ == data.average_hash@,
        json_frame_hashes(r.1@) == Some(frame_views(data.individual_hashes@)),
        r.2 == data.frame_count as i32,
{
    let written = write_frame_hashes(&data.individual_hashes);
    let text = match written {
        Some(t) => t,
        None => {
            proof {
                assert(false);
            }
            String::new()
        },
    };
    (data.average_hash.clone(), text, data.frame_count as i32)
}

/// Reads perceptual hashes back from the cache columns: present exactly when
/// all three columns are; the frame list is empty when the text does not
/// decode.
pub fn phash_from_columns(
    avg: Option<Vec<u8>>,
    individual_json: Option<String>,
    count: Option<i32>,
) -> (r: Option<PerceptualHashData>)
    ensures
        r is Some <==> (avg is Some && individual_json is Some && count is Some),
        r matches Some(p) ==> {
            &&& p.average_hash@ == avg->0@
            &&& frame_views(p.individual_hashes@) == frames_of_text(individual_json->0@)
            &&& p.frame_count == count->0 as u32
        },
{
    match (avg, individual_json, count) {
        (Some(a), Some(text), Some(c)) => {
            let frames = match parse_frame_hashes(text.as_str()) {
                Some(v) => v,
                None => {
                    let empty: Vec<Vec<u8>> = Vec::new();
                    proof {
                        assert(frame_views(empty@) =~= Seq::<Seq<u8>>::empty());
                    }
                    empty
                },
            };
            Some(PerceptualHashData { average_hash: a, individual_hashes: frames, frame_count: c as u32 })
        },
        _ => None,
    }
}

/// Perceptual hashes written to the cache columns read back unchanged: the
/// average hash, every frame hash, and the frame count.
pub proof fn lemma_columns_read_back(data: PerceptualHashData, text: Seq<char>, count: i32)
    requires
        json_frame_hashes(text) == Some(frame_views(data.individual_hashes@)),
        count == data.frame_count as i32,
    ensures
        frames_of_text(text) == frame_views(data.individual_hashes@),
        count as u32 == data.frame_count,
{
    let x = data.frame_count;
    assert((x as i32) as u32 == x) by (bit_vector);
}

} // verus!
