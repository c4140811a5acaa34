use viddupe::chroma::{is_simple_hash, parse_fpcalc_output};
use viddupe::cli::AutoKeepStrategy;
use viddupe::coarse::{format_hash, group_by_coarse_hashes, hash_bytes_to_u64, hashes_match_exactly, CoarseHashes};
use viddupe::interact::select_keep_index;
use viddupe::meta::{classify_codec, classify_resolution, format_resolution, CodecClass, ResolutionClass};
use viddupe::phash::{compute_average_hash, hamming_distance};
use viddupe::scan::{compile_exclude_patterns, format_size, is_excluded, ScanConfig};
use viddupe::util::format_clock;

#[test]
fn test_fpcalc_output_parsing() {
    let mock_output = "DURATION=120.5\nFINGERPRINT=AQABEAmUaEkSRZEGHYmORBGl\nOTHER=value";
    let fingerprint = parse_fpcalc_output(mock_output).unwrap();
    assert_eq!(fingerprint, "AQABEAmUaEkSRZEGHYmORBGl");
}

#[test]
fn test_simple_hash_detection() {
    assert!(is_simple_hash("simple:123456789abcdef0"));
    assert!(!is_simple_hash("AQABEAmUaEkSRZEGHYmORBGl"));
}

#[test]
fn test_hash_conversion() {
    let original_hash = 0x123456789abcdef0u64;
    let hash_bytes = original_hash.to_le_bytes().to_vec();
    let converted_back = hash_bytes_to_u64(&hash_bytes).unwrap();
    assert_eq!(original_hash, converted_back);
}

#[test]
fn test_exact_hash_matching() {
    let hash1 = CoarseHashes {
        head_hash: vec![1, 2, 3, 4, 5, 6, 7, 8],
        tail_hash: vec![9, 10, 11, 12, 13, 14, 15, 16],
    };
    let hash2 = CoarseHashes {
        head_hash: vec![1, 2, 3, 4, 5, 6, 7, 8],
        tail_hash: vec![9, 10, 11, 12, 13, 14, 15, 16],
    };
    let hash3 = CoarseHashes {
        head_hash: vec![1, 2, 3, 4, 5, 6, 7, 9],
        tail_hash: vec![9, 10, 11, 12, 13, 14, 15, 16],
    };
    assert!(hashes_match_exactly(&hash1, &hash2));
    assert!(!hashes_match_exactly(&hash1, &hash3));
}

#[test]
fn test_hash_grouping() {
    let files_with_hashes = vec![
        (1u64, CoarseHashes {
            head_hash: vec![1, 2, 3, 4, 5, 6, 7, 8],
            tail_hash: vec![9, 10, 11, 12, 13, 14, 15, 16],
        }),
        (2u64, CoarseHashes {
            head_hash: vec![1, 2, 3, 4, 5, 6, 7, 8],
            tail_hash: vec![9, 10, 11, 12, 13, 14, 15, 16],
        }),
        (3u64, CoarseHashes {
            head_hash: vec![17, 18, 19, 20, 21, 22, 23, 24],
            tail_hash: vec![25, 26, 27, 28, 29, 30, 31, 32],
        }),
    ];
    let groups = group_by_coarse_hashes(files_with_hashes);
    assert_eq!(groups.len(), 1);
    assert_eq!(groups[0].len(), 2);
    assert!(groups[0].contains(&1));
    assert!(groups[0].contains(&2));
}

#[test]
fn test_hash_formatting() {
    let hash_bytes = vec![0x12, 0x34, 0x56, 0x78, 0x9a, 0xbc, 0xde, 0xf0];
    let formatted = format_hash(&hash_bytes);
    assert_eq!(formatted.len(), 16);
}

#[test]
fn test_resolution_classification() {
    assert_eq!(classify_resolution(Some(1920), Some(1080)), ResolutionClass::FHD);
    assert_eq!(classify_resolution(Some(3840), Some(2160)), ResolutionClass::UHD4K);
    assert_eq!(classify_resolution(Some(1280), Some(720)), ResolutionClass::HD);
    assert_eq!(classify_resolution(None, None), ResolutionClass::Unknown);
}

#[test]
fn test_codec_classification() {
    assert_eq!(classify_codec("h264"), CodecClass::H264);
    assert_eq!(classify_codec("H265"), CodecClass::H265);
    assert_eq!(classify_codec("av1"), CodecClass::AV1);
    assert!(classify_codec("h265").quality_score() > classify_codec("h264").quality_score());
    assert!(classify_codec("av1").quality_score() > classify_codec("h265").quality_score());
}

#[test]
fn test_format_resolution() {
    assert_eq!(format_resolution(Some(1920), Some(1080)), "1920x1080");
    assert_eq!(format_resolution(None, None), "unknown");
    assert_eq!(format_resolution(Some(1920), None), "unknown");
}

#[test]
fn test_hamming_distance() {
    let hash1 = vec![0b10101010, 0b11110000];
    let hash2 = vec![0b10101011, 0b11110001];
    let distance = hamming_distance(&hash1, &hash2).unwrap();
    assert_eq!(distance, 2);
}

#[test]
fn test_average_hash_computation() {
    let hashes = vec![vec![0b11110000], vec![0b11111000], vec![0b11100000]];
    let average = compute_average_hash(&hashes).unwrap();
    assert_eq!(average.len(), 1);
    assert_eq!(average[0] & 0b11110000, 0b11110000);
}

#[test]
fn test_scan_config() {
    let config = ScanConfig {
        extensions: vec![".mp4".to_string(), ".mkv".to_string()],
        include_hidden: false,
        exclude_patterns: vec![r".*test.*".to_string()],
        min_size_bytes: 1024 * 1024,
    };
    assert_eq!(config.extensions.len(), 2);
    assert!(!config.include_hidden);
    assert_eq!(config.min_size_bytes, 1024 * 1024);
}

#[test]
fn test_exclude_patterns() {
    let patterns = vec![".*test.*".to_string(), r"temp_.*\.mp4".to_string()];
    let regexes = compile_exclude_patterns(&patterns).unwrap();
    assert!(is_excluded("/path/test_video.mp4", &regexes));
    assert!(is_excluded("/path/temp_backup.mp4", &regexes));
    assert!(!is_excluded("/path/normal_video.mp4", &regexes));
}

#[test]
fn test_format_duration() {
    assert_eq!(format_clock(65.0f64 as u64), "1:05");
    assert_eq!(format_clock(3661.0f64 as u64), "1:01:01");
    assert_eq!(format_clock(30.5f64 as u64), "0:30");
}

#[test]
fn test_auto_keep_strategies() {
    // file 1: 1,000,000 bytes, quality 75; file 2: 800,000 bytes, quality 85;
    // both modified at the same instant
    let sizes = vec![1_000_000u64, 800_000u64];
    let modified = vec![(1_700_000_000i64, 5u32), (1_700_000_000i64, 5u32)];
    let ids = [1i64, 2i64];
    // the recommended file is the last one of highest quality score (75.0 and
    // 85.0 here); the scores are floating point, so the cluster computes it
    let quality = [75.0f64, 85.0f64];
    let mut recommended: Option<usize> = None;
    for (i, q) in quality.iter().enumerate() {
        match recommended {
            Some(b) if *q < quality[b] => {}
            _ => recommended = Some(i),
        }
    }

    let best = select_keep_index(AutoKeepStrategy::Best, &sizes, &modified, recommended);
    assert_eq!(ids[best], 2);

    let smallest = select_keep_index(AutoKeepStrategy::Smallest, &sizes, &modified, recommended);
    assert_eq!(ids[smallest], 2);

    let newest = select_keep_index(AutoKeepStrategy::Newest, &sizes, &modified, recommended);
    assert!(ids[newest] == 1 || ids[newest] == 2);
}

#[test]
fn test_size_formatting() {
    assert_eq!(format_size(1024), "1.02 KB");
    assert_eq!(format_size(1024 * 1024), "1.05 MB");
    assert_eq!(format_size(1024 * 1024 * 1024), "1.07 GB");
}
