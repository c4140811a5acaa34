use viddupe::chroma::{
    compare_fingerprint_parts, is_simple_hash, parse_fpcalc_output, simple_fingerprint_match, simple_hash_text,
    FingerprintError,
};
use viddupe::cli::{parse_extensions, AutoKeepStrategy};
use viddupe::cluster::{perceptual_candidate_pairs, select_group_pairs, select_non_overlapping, HashRecord};
use viddupe::coarse::{
    adaptive_chunk_size, coarse_bit_differences, coarse_hashes_from_chunks, compute_xxh3_hash, format_hash,
    group_by_coarse_hashes, hash_bytes_to_u64, hashes_match_approximately, plan_chunks, CoarseError,
    CoarseHashes, PlanError,
};
use viddupe::db::{is_cache_entry_current, needs_schema_init, phash_columns, phash_from_columns};
use viddupe::interact::{
    add_cluster_to_plan, auto_deletions, cluster_deletions, deletion_log_header, deletion_log_line, deletion_reason,
    new_plan, select_keep_index, ClusterChoice,
};
use viddupe::meta::{
    classify_codec, classify_lowercased_codec, classify_resolution, parse_u64, summarize_streams, CodecClass,
    ProbeStream, ResolutionClass,
};
use viddupe::phash::{
    are_hashes_similar, compute_average_hash, frame_hash_from_output, frame_min_distances, hamming_distance, HashError,
    PerceptualHashData,
};
use viddupe::scan::{classify_path, compile_exclude_patterns, file_extension, format_size, PathDecision, ScanError};
use viddupe::util::{
    batch_step, comparison_count, external_tool_error, format_clock, format_duration_short, plan_batches, total_size,
};

fn hashes(head: [u8; 8], tail: [u8; 8]) -> CoarseHashes {
    CoarseHashes { head_hash: head.to_vec(), tail_hash: tail.to_vec() }
}

#[test]
fn hamming_is_symmetric_and_zero_on_equal() {
    let a = vec![0x0f, 0xff, 0x00];
    let b = vec![0xf0, 0x0f, 0x01];
    assert_eq!(hamming_distance(&a, &b).unwrap(), 8 + 4 + 1);
    assert_eq!(hamming_distance(&b, &a).unwrap(), 13);
    assert_eq!(hamming_distance(&a, &a).unwrap(), 0);
}

#[test]
fn hamming_rejects_different_lengths() {
    assert_eq!(hamming_distance(&[1, 2], &[1]), Err(HashError::LengthMismatch { left: 2, right: 1 }));
}

#[test]
fn average_hash_is_bitwise_majority() {
    // bit 0 set in 2 of 4 frames: not more than half, so clear
    let frames = vec![vec![0b0000_0001, 0xff], vec![0b0000_0011, 0xff], vec![0b0000_0010, 0x00], vec![0b0000_0110, 0x0f]];
    assert_eq!(compute_average_hash(&frames).unwrap(), vec![0b0000_0010, 0x0f]);
}

#[test]
fn average_of_identical_frames_is_the_frame() {
    let frames = vec![vec![0x5a, 0xc3]; 3];
    assert_eq!(compute_average_hash(&frames).unwrap(), vec![0x5a, 0xc3]);
}

#[test]
fn average_hash_errors() {
    let empty: Vec<Vec<u8>> = vec![];
    assert_eq!(compute_average_hash(&empty), Err(HashError::EmptyHashSet));
    assert_eq!(compute_average_hash(&[vec![1], vec![1, 2]]), Err(HashError::InconsistentLengths));
}

#[test]
fn similarity_with_tight_thresholds() {
    let h1 = PerceptualHashData {
        average_hash: vec![0b10101010],
        individual_hashes: vec![vec![0b10101010], vec![0b11110000]],
        frame_count: 2,
    };
    let far = PerceptualHashData {
        average_hash: vec![0b00000000],
        individual_hashes: vec![vec![0b00000000], vec![0b00001111]],
        frame_count: 2,
    };
    assert!(!are_hashes_similar(&h1, &far, 3, 3).unwrap());
    assert!(!are_hashes_similar(&h1, &far, 5, 3).unwrap());
    assert!(are_hashes_similar(&h1, &h1, 0, 0).unwrap());
    // every frame of h1 has a frame of `far` 4 bits away, and the averages
    // are 4 bits apart
    assert!(are_hashes_similar(&h1, &far, 4, 4).unwrap());
    // raising the thresholds only adds matches
    assert!(are_hashes_similar(&h1, &far, 5, 5).unwrap());
    assert!(are_hashes_similar(&h1, &far, 64, 64).unwrap());
    // frame order does not matter: each frame's nearest frame counts
    let a = PerceptualHashData { average_hash: vec![0], individual_hashes: vec![vec![0x00], vec![0xff]], frame_count: 2 };
    let b = PerceptualHashData { average_hash: vec![0], individual_hashes: vec![vec![0xff], vec![0x00]], frame_count: 2 };
    assert!(are_hashes_similar(&a, &b, 0, 0).unwrap());
}

#[test]
fn similarity_needs_seventy_percent_of_frames() {
    // ten frames, seven of them match exactly: 70% is enough
    let mut f1 = Vec::new();
    let mut f2 = Vec::new();
    for i in 0..10u8 {
        f1.push(vec![i]);
        if i < 7 {
            f2.push(vec![i]);
        }
    }
    f2.push(vec![0xff]);
    let h1 = PerceptualHashData { average_hash: vec![0], individual_hashes: f1.clone(), frame_count: 10 };
    let h2 = PerceptualHashData { average_hash: vec![0], individual_hashes: f2.clone(), frame_count: 8 };
    assert!(are_hashes_similar(&h1, &h2, 0, 0).unwrap());
    // six of ten is not
    f2.remove(6);
    let h3 = PerceptualHashData { average_hash: vec![0], individual_hashes: f2, frame_count: 7 };
    assert!(!are_hashes_similar(&h1, &h3, 0, 0).unwrap());
}

#[test]
fn similarity_errors_on_average_length() {
    let h1 = PerceptualHashData { average_hash: vec![0], individual_hashes: vec![vec![0]], frame_count: 1 };
    let h2 = PerceptualHashData { average_hash: vec![0, 0], individual_hashes: vec![vec![0]], frame_count: 1 };
    assert!(matches!(are_hashes_similar(&h1, &h2, 8, 8), Err(HashError::LengthMismatch { left: 1, right: 2 })));
}

#[test]
fn frame_minima_skip_other_lengths() {
    let f1 = vec![vec![0x00], vec![0x00, 0x00]];
    let f2 = vec![vec![0x03], vec![0x01]];
    assert_eq!(frame_min_distances(&f1, &f2), vec![Some(1), None]);
}

#[test]
fn hash_bytes_conversion_errors() {
    assert_eq!(hash_bytes_to_u64(&[1, 2, 3]), Err(CoarseError::InvalidLength(3)));
    assert_eq!(hash_bytes_to_u64(&[1, 0, 0, 0, 0, 0, 0, 0]), Ok(1));
}

#[test]
fn approximate_matching() {
    let a = hashes(10u64.to_le_bytes(), 100u64.to_le_bytes());
    let b = hashes(13u64.to_le_bytes(), 98u64.to_le_bytes());
    assert_eq!(hashes_match_approximately(&a, &b, 3), Ok(true));
    assert_eq!(hashes_match_approximately(&a, &b, 2), Ok(false));
    // an exact match is an approximate match at any tolerance
    assert_eq!(hashes_match_approximately(&a, &a.clone(), 0), Ok(true));
    let bad = CoarseHashes { head_hash: vec![1], tail_hash: vec![] };
    assert_eq!(hashes_match_approximately(&a, &bad, 3), Err(CoarseError::InvalidLength(1)));
}

#[test]
fn coarse_bit_difference_counts() {
    let a = hashes(0u64.to_le_bytes(), 0xffu64.to_le_bytes());
    let b = hashes(0b1011u64.to_le_bytes(), 0u64.to_le_bytes());
    assert_eq!(coarse_bit_differences(&a, &b), Ok((3, 8)));
}

#[test]
fn xxh3_hash_is_little_endian_value() {
    let data = b"This is test data for hash computation testing.";
    let expected = xxhash_rust::xxh3::xxh3_64(data).to_le_bytes().to_vec();
    assert_eq!(compute_xxh3_hash(data), expected);
    assert_ne!(compute_xxh3_hash(data), data[..8].to_vec());
    let h = coarse_hashes_from_chunks(b"head", b"tail");
    assert_eq!(h.head_hash, xxhash_rust::xxh3::xxh3_64(b"head").to_le_bytes().to_vec());
    assert_eq!(h.tail_hash, xxhash_rust::xxh3::xxh3_64(b"tail").to_le_bytes().to_vec());
}

#[test]
fn chunk_planning() {
    assert_eq!(plan_chunks(0, 32), Err(PlanError::EmptyFile));
    let p = plan_chunks(108, 32).unwrap();
    assert_eq!((p.chunk_size, p.tail_offset), (1024, 0));
    let p = plan_chunks(100 * 1024 * 1024, 16 * 1024 * 1024).unwrap();
    assert_eq!((p.chunk_size, p.tail_offset), (16 * 1024 * 1024, 84 * 1024 * 1024));
    let p = plan_chunks(10_000, 16 * 1024 * 1024).unwrap();
    assert_eq!((p.chunk_size, p.tail_offset), (5_000, 5_000));
    assert_eq!(adaptive_chunk_size(5 * 1024 * 1024), 1024 * 1024);
    assert_eq!(adaptive_chunk_size(50 * 1024 * 1024), 4 * 1024 * 1024);
    assert_eq!(adaptive_chunk_size(500 * 1024 * 1024), 16 * 1024 * 1024);
    assert_eq!(adaptive_chunk_size(5 * 1024 * 1024 * 1024), 32 * 1024 * 1024);
}

#[test]
fn hash_formatting_values() {
    assert_eq!(format_hash(&[0x12, 0x34, 0x56, 0x78, 0x9a, 0xbc, 0xde, 0xf0]), "f0debc9a78563412");
    assert_eq!(format_hash(&[0x01, 0xab]), "01ab");
    assert_eq!(format_hash(&[]), "");
}

#[test]
fn grouping_skips_invalid_and_keeps_order() {
    let k1 = hashes([1; 8], [2; 8]);
    let k2 = hashes([3; 8], [4; 8]);
    let bad = CoarseHashes { head_hash: vec![1; 7], tail_hash: vec![2; 8] };
    let entries = vec![(5, k1.clone()), (6, k2.clone()), (7, k1.clone()), (8, bad.clone()), (9, bad), (10, k2), (11, k1)];
    let mut groups = group_by_coarse_hashes(entries);
    groups.sort();
    assert_eq!(groups, vec![vec![5, 7, 11], vec![6, 10]]);
}

#[test]
fn non_overlapping_selection() {
    let clusters = vec![vec![1, 2], vec![2, 3], vec![4, 5], vec![5, 1], vec![6, 7]];
    assert_eq!(select_non_overlapping(&clusters), vec![0, 2, 4]);
}

#[test]
fn group_pairs_take_each_file_once() {
    let ids = vec![10, 11, 12, 13];
    let all = vec![vec![true; 4]; 4];
    assert_eq!(select_group_pairs(&ids, &all), vec![(0, 1), (2, 3)]);
    let mut some = vec![vec![false; 4]; 4];
    some[0][2] = true;
    some[1][2] = true;
    some[1][3] = true;
    assert_eq!(select_group_pairs(&ids, &some), vec![(0, 2), (1, 3)]);
}

#[test]
fn perceptual_candidates() {
    let p = |b: u8| PerceptualHashData { average_hash: vec![b], individual_hashes: vec![vec![b]], frame_count: 1 };
    let recs = vec![
        HashRecord { id: 1, coarse_hashes: Some(hashes([1; 8], [1; 8])), phash_data: Some(p(0)) },
        HashRecord { id: 2, coarse_hashes: Some(hashes([1; 8], [1; 8])), phash_data: Some(p(0)) },
        HashRecord { id: 3, coarse_hashes: Some(hashes([2; 8], [2; 8])), phash_data: Some(p(1)) },
        HashRecord { id: 4, coarse_hashes: None, phash_data: None },
        HashRecord { id: 5, coarse_hashes: None, phash_data: Some(p(0xff)) },
    ];
    // 1 and 2 match exactly by coarse hash, so they are not compared here
    assert_eq!(perceptual_candidate_pairs(&recs, 1, 1).unwrap(), vec![(0, 2), (1, 2)]);
    let mixed = vec![
        HashRecord { id: 1, coarse_hashes: None, phash_data: Some(p(0)) },
        HashRecord {
            id: 2,
            coarse_hashes: None,
            phash_data: Some(PerceptualHashData { average_hash: vec![0, 0], individual_hashes: vec![], frame_count: 0 }),
        },
    ];
    assert!(matches!(
        perceptual_candidate_pairs(&mixed, 1, 1),
        Err(HashError::LengthMismatch { left: 1, right: 2 })
    ));
    // the first failing pair in order decides the error
    let three = vec![
        HashRecord { id: 1, coarse_hashes: None, phash_data: Some(p(0)) },
        HashRecord {
            id: 2,
            coarse_hashes: None,
            phash_data: Some(PerceptualHashData { average_hash: vec![0, 0, 0], individual_hashes: vec![], frame_count: 0 }),
        },
        HashRecord {
            id: 3,
            coarse_hashes: None,
            phash_data: Some(PerceptualHashData { average_hash: vec![0, 0], individual_hashes: vec![], frame_count: 0 }),
        },
    ];
    assert!(matches!(
        perceptual_candidate_pairs(&three, 1, 1),
        Err(HashError::LengthMismatch { left: 1, right: 3 })
    ));
}

#[test]
fn fpcalc_parsing_cases() {
    assert_eq!(parse_fpcalc_output("FINGERPRINT=  1,2,3 \r\nX=1").unwrap(), "1,2,3");
    assert_eq!(parse_fpcalc_output("DURATION=1\nFINGERPRINT=   \nFINGERPRINT=abc"), Err(FingerprintError::Empty));
    assert_eq!(parse_fpcalc_output("DURATION=1\n"), Err(FingerprintError::NotFound));
    assert_eq!(parse_fpcalc_output(""), Err(FingerprintError::NotFound));
    assert!(!is_simple_hash("simple"));
}

#[test]
fn fingerprint_part_comparison() {
    let c = compare_fingerprint_parts("123,456,789,012", "123,456,999,012");
    assert_eq!((c.matching, c.shorter, c.longer), (3, 4, 4));
    let c = compare_fingerprint_parts("1,2", "1,2,3");
    assert_eq!((c.matching, c.shorter, c.longer), (2, 2, 3));
    let c = compare_fingerprint_parts("", "x");
    assert_eq!((c.matching, c.shorter, c.longer), (0, 1, 1));
}

#[test]
fn codec_classification_by_lowercase() {
    assert_eq!(classify_codec("HEVC"), CodecClass::H265);
    assert_eq!(classify_codec("DivX"), CodecClass::MPEG4);
    assert_eq!(classify_codec("ProRes"), CodecClass::Other("ProRes".to_string()));
    assert_eq!(classify_lowercased_codec("prores", "ProRes"), CodecClass::Other("ProRes".to_string()));
    assert_eq!(classify_lowercased_codec("avc1", "AVC1"), CodecClass::H264);
    assert_eq!(CodecClass::Other("x".to_string()).quality_score(), 3);
    assert_eq!(CodecClass::MPEG1.label(), "MPEG-1");
    assert_eq!(ResolutionClass::FHD.label(), "1080p (Full HD)");
}

#[test]
fn resolution_thresholds() {
    assert_eq!(classify_resolution(Some(854), Some(480)), ResolutionClass::SD);
    assert_eq!(classify_resolution(Some(853), Some(480)), ResolutionClass::LowRes);
    assert_eq!(classify_resolution(Some(2560), Some(1440)), ResolutionClass::QHD);
    assert_eq!(classify_resolution(Some(1920), None), ResolutionClass::Unknown);
}

#[test]
fn unsigned_parsing() {
    assert_eq!(parse_u64("5000000"), Some(5_000_000));
    assert_eq!(parse_u64("+7"), Some(7));
    assert_eq!(parse_u64("18446744073709551615"), Some(u64::MAX));
    assert_eq!(parse_u64("18446744073709551616"), None);
    assert_eq!(parse_u64(""), None);
    assert_eq!(parse_u64("+"), None);
    assert_eq!(parse_u64("-1"), None);
    assert_eq!(parse_u64("12a"), None);
    assert_eq!(parse_u64("N/A"), None);
}

#[test]
fn stream_summary() {
    let s = |t: &str, c: Option<&str>, w: Option<u32>, h: Option<u32>, br: Option<&str>| ProbeStream {
        codec_type: t.to_string(),
        codec_name: c.map(|x| x.to_string()),
        width: w,
        height: h,
        bit_rate: br.map(|x| x.to_string()),
    };
    let streams = vec![
        s("audio", Some("aac"), None, None, None),
        s("video", Some("h264"), Some(1920), Some(1080), Some("4000000")),
        s("video", Some("mjpeg"), Some(100), Some(100), None),
    ];
    let r = summarize_streams(&streams, &Some("N/A".to_string()));
    assert_eq!((r.width, r.height), (Some(1920), Some(1080)));
    assert_eq!(r.video_codec.as_deref(), Some("h264"));
    assert_eq!(r.audio_codec.as_deref(), Some("aac"));
    assert!(r.has_audio);
    assert_eq!(r.bitrate, Some(4_000_000));
    let r = summarize_streams(&streams[2..].to_vec(), &Some("123".to_string()));
    assert!(!r.has_audio);
    assert_eq!(r.bitrate, Some(123));
}

#[test]
fn extension_handling() {
    assert_eq!(file_extension("Movie.MP4"), Some(".mp4".to_string()));
    assert_eq!(file_extension("archive.tar.GZ"), Some(".gz".to_string()));
    assert_eq!(file_extension(".hidden"), None);
    assert_eq!(file_extension("noext"), None);
    assert_eq!(file_extension("trailing."), Some(".".to_string()));
    assert_eq!(parse_extensions("mp4, MKV,.avi"), vec![".mp4", ".mkv", ".avi"]);
    assert_eq!(parse_extensions(""), vec!["."]);
}

#[test]
fn path_decisions() {
    let exts = vec![".mp4".to_string()];
    let pats = compile_exclude_patterns(&vec![".*backup.*".to_string()]).unwrap();
    assert_eq!(classify_path("a.MP4", "/x/a.MP4", &exts, &pats), PathDecision::Candidate);
    assert_eq!(classify_path("a.mkv", "/x/a.mkv", &exts, &pats), PathDecision::NotVideo);
    assert_eq!(classify_path("a.mp4", "/backup/a.mp4", &exts, &pats), PathDecision::Excluded);
    assert!(matches!(
        compile_exclude_patterns(&vec!["ok".to_string(), "(".to_string()]),
        Err(ScanError::InvalidPattern(p)) if p == "("
    ));
}

#[test]
fn size_text_in_decimal_units() {
    assert_eq!(format_size(1024), "1.02 KB");
    assert_eq!(format_size(999), "999 B");
    assert_eq!(format_size(1500), "1.50 KB");
    assert_eq!(format_size(1024 * 1024), "1.05 MB");
    assert_eq!(format_size(1024 * 1024 * 1024), "1.07 GB");
}

#[test]
fn duration_texts() {
    assert_eq!(format_duration_short(3725), "1h2m");
    assert_eq!(format_duration_short(125), "2m5s");
    assert_eq!(format_duration_short(0), "0s");
    assert_eq!(format_clock(0), "0:00");
    assert_eq!(format_clock(36000), "10:00:00");
}

#[test]
fn tool_error_message() {
    assert_eq!(
        external_tool_error("fpcalc", "audio fingerprinting"),
        "External tool 'fpcalc' required for audio fingerprinting is not available"
    );
}

#[test]
fn batch_planning_and_totals() {
    let p = plan_batches(4);
    assert_eq!((p.batch_size, p.chunk_size), (10, 16));
    let p = plan_batches(40);
    assert_eq!((p.batch_size, p.chunk_size), (50, 160));
    assert_eq!(total_size(&vec![1, 2, 3]), 6);
}

#[test]
fn keep_selection_rules() {
    let sizes = vec![5u64, 3, 3, 9];
    let times = vec![(10i64, 0u32), (5, 1), (5, 0), (10, 0)];
    assert_eq!(select_keep_index(AutoKeepStrategy::Smallest, &sizes, &times, None), 1);
    assert_eq!(select_keep_index(AutoKeepStrategy::Oldest, &sizes, &times, None), 2);
    assert_eq!(select_keep_index(AutoKeepStrategy::Newest, &sizes, &times, None), 3);
    assert_eq!(select_keep_index(AutoKeepStrategy::Best, &sizes, &times, None), 0);
    assert_eq!(select_keep_index(AutoKeepStrategy::Best, &sizes, &times, Some(2)), 2);
    assert_eq!(AutoKeepStrategy::default(), AutoKeepStrategy::Best);
    assert_eq!(AutoKeepStrategy::Oldest.label(), "oldest file");
}

#[test]
fn cache_freshness() {
    assert!(is_cache_entry_current(Some((1000, 42)), 1000, 42));
    assert!(!is_cache_entry_current(Some((1000, 41)), 1000, 42));
    assert!(!is_cache_entry_current(None, 1000, 42));
    assert!(needs_schema_init(0));
    assert!(!needs_schema_init(1));
}

#[test]
fn pair_counts() {
    assert_eq!(comparison_count(1), 0);
    assert_eq!(comparison_count(2), 1);
    assert_eq!(comparison_count(4), 6);
    assert_eq!(comparison_count(1000), 499500);
}

#[test]
fn deletion_log_format() {
    assert_eq!(deletion_log_header(), "timestamp,action,file_path,size_bytes,cluster_id,reason,status\n");
    let reason = deletion_reason(0, "exact_coarse_hash+metadata");
    assert_eq!(reason, "Duplicate in cluster 1 (exact_coarse_hash+metadata)");
    assert_eq!(
        deletion_log_line("2024-01-02 03:04:05 UTC", false, "/v/a.mp4", 1048576, 0, &reason, true),
        "2024-01-02 03:04:05 UTC,trash,/v/a.mp4,1048576,0,Duplicate in cluster 1 (exact_coarse_hash+metadata),success\n"
    );
    assert_eq!(deletion_log_line("t", true, "p", 0, 12, "r", false), "t,hard_delete,p,0,12,r,error\n");
}

#[test]
fn simple_hash_texts() {
    let t = simple_hash_text(0x0123_4567_89ab_cdef);
    assert_eq!(t, "simple:0123456789abcdef");
    assert!(is_simple_hash(&t));
    assert_eq!(simple_hash_text(255), "simple:00000000000000ff");
}

#[test]
fn decimal_fields_read_back() {
    for n in [0u64, 7, 10, 12345, u64::MAX] {
        let line = deletion_log_line("t", false, "p", n, 3, "r", true);
        let field = line.split(',').nth(3).unwrap();
        assert_eq!(parse_u64(field), Some(n));
    }
}

#[test]
fn deletions_per_cluster() {
    assert_eq!(cluster_deletions(4, Some(1)), vec![0, 2, 3]);
    assert_eq!(cluster_deletions(4, Some(3)), vec![0, 1, 2]);
    assert_eq!(cluster_deletions(1, Some(0)), Vec::<usize>::new());
    assert_eq!(cluster_deletions(4, None), Vec::<usize>::new());
    // a strategy deletes by id: every file whose id is not the kept one's
    assert_eq!(auto_deletions(&vec![5, 6, 5, 7], 0), vec![1, 3]);
    assert_eq!(auto_deletions(&vec![5, 6, 7], 2), vec![0, 1]);
}

#[test]
fn deletion_plan_steps() {
    let mut plan = new_plan();
    // cluster 0: a strategy keeps file 1, the user confirms
    add_cluster_to_plan(&mut plan, 0, &vec![10, 11, 12], &vec![100, 200, 300], "exact_coarse_hash",
        ClusterChoice::AutoKeep { kept: 1, confirmed: true });
    // cluster 1: a strategy keeps file 0, the user declines
    add_cluster_to_plan(&mut plan, 1, &vec![20, 21], &vec![5, 6], "metadata",
        ClusterChoice::AutoKeep { kept: 0, confirmed: false });
    // cluster 2: the user keeps all files
    add_cluster_to_plan(&mut plan, 2, &vec![30, 31], &vec![7, 8], "perceptual_only",
        ClusterChoice::Pick { selection: 2 });
    // cluster 3: the user keeps file 0
    add_cluster_to_plan(&mut plan, 3, &vec![40, 41], &vec![9, 1000], "perceptual_only",
        ClusterChoice::Pick { selection: 0 });
    let got: Vec<(usize, usize, String)> =
        plan.targets.iter().map(|t| (t.cluster_id, t.file_index, t.reason.clone())).collect();
    assert_eq!(
        got,
        vec![
            (0, 0, "Duplicate in cluster 1 (exact_coarse_hash)".to_string()),
            (0, 2, "Duplicate in cluster 1 (exact_coarse_hash)".to_string()),
            (3, 1, "Duplicate in cluster 4 (perceptual_only)".to_string()),
        ]
    );
    assert_eq!(plan.total_size, 100 + 300 + 1000);
}

#[test]
fn phash_cache_columns() {
    let data = PerceptualHashData {
        average_hash: vec![1, 2, 3],
        individual_hashes: vec![vec![1, 2, 3], vec![255, 0, 7]],
        frame_count: 2,
    };
    let (avg, text, count) = phash_columns(&data);
    assert_eq!(text, "[[1,2,3],[255,0,7]]");
    let back = phash_from_columns(Some(avg), Some(text), Some(count)).unwrap();
    assert_eq!(back.average_hash, data.average_hash);
    assert_eq!(back.individual_hashes, data.individual_hashes);
    assert_eq!(back.frame_count, 2);
    // text that does not decode gives no frames
    let bad = phash_from_columns(Some(vec![1]), Some("[[256]]".to_string()), Some(3)).unwrap();
    assert!(bad.individual_hashes.is_empty());
    assert_eq!(bad.frame_count, 3);
    assert!(phash_from_columns(None, Some("[]".to_string()), Some(0)).is_none());
    assert!(phash_from_columns(Some(vec![]), None, Some(0)).is_none());
    assert!(phash_from_columns(Some(vec![]), Some("[]".to_string()), None).is_none());
}

#[test]
fn fingerprint_kinds() {
    assert_eq!(simple_fingerprint_match("simple:00ff", "simple:00ff"), Some(true));
    assert_eq!(simple_fingerprint_match("simple:00ff", "simple:00fe"), Some(false));
    assert_eq!(simple_fingerprint_match("simple:00ff", "1,2,3"), Some(false));
    assert_eq!(simple_fingerprint_match("1,2,3", "simple:00ff"), Some(false));
    assert_eq!(simple_fingerprint_match("1,2,3", "1,2,3"), None);
}

fn gradient_png() -> Vec<u8> {
    let img = image::ImageBuffer::from_fn(32, 32, |x, y| image::Luma([(x * 8 + y) as u8]));
    let mut png = Vec::new();
    image::DynamicImage::ImageLuma8(img).write_to(&mut png, image::ImageOutputFormat::Png).unwrap();
    png
}

#[test]
fn frame_hashes_from_ffmpeg_output() {
    let png = gradient_png();
    let h = frame_hash_from_output(true, &png).unwrap();
    // the default hasher gives 64 bits
    assert_eq!(h.len(), 8);
    assert_eq!(frame_hash_from_output(true, &png), Some(h.clone()));
    assert_eq!(frame_hash_from_output(false, &png), None);
    assert_eq!(frame_hash_from_output(true, &[]), None);
    assert_eq!(frame_hash_from_output(true, b"not a png image"), None);
}

#[test]
fn batch_flushing() {
    assert!(!batch_step(9, 10, false));
    assert!(batch_step(10, 10, false));
    assert!(batch_step(11, 10, false));
    assert!(batch_step(1, 10, true));
    assert!(!batch_step(0, 10, true));
}
