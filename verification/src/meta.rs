use vstd::prelude::*;

use crate::text::{chars_equal, chars_of, decimal, digit_char, lowercase, push_char, push_decimal, to_lowercase};

verus! {

/// Common resolution classes, from lowest to highest.
#[derive(Debug, Clone, Copy, PartialEq, Eq, PartialOrd, Ord, Hash)]
pub enum ResolutionClass {
    Unknown,
    LowRes,
    SD,
    HD,
    FHD,
    QHD,
    UHD4K,
}

impl ResolutionClass {
    /// The display name of the class.
    pub fn label(&self) -> (r: &'static str)
        ensures
            r@ == resolution_label(*self),
    {
        match self {
            ResolutionClass::Unknown => "Unknown",
            ResolutionClass::LowRes => "Low Resolution",
            ResolutionClass::SD => "480p (SD)",
            ResolutionClass::HD => "720p (HD)",
            ResolutionClass::FHD => "1080p (Full HD)",
            ResolutionClass::QHD => "1440p (QHD)",
            ResolutionClass::UHD4K => "4K (UHD)",
        }
    }
}

/// The display name of a resolution class.
pub open spec fn resolution_label(c: ResolutionClass) -> Seq<char> {
    match c {
        ResolutionClass::Unknown => "Unknown"@,
        ResolutionClass::LowRes => "Low Resolution"@,
        ResolutionClass::SD => "480p (SD)"@,
        ResolutionClass::HD => "720p (HD)"@,
        ResolutionClass::FHD => "1080p (Full HD)"@,
        ResolutionClass::QHD => "1440p (QHD)"@,
        ResolutionClass::UHD4K => "4K (UHD)"@,
    }
}

/// The class of a frame of `pixels` pixels.
pub open spec fn class_of_pixels(pixels: nat) -> ResolutionClass {
    if pixels >= 3840 * 2160 {
        ResolutionClass::UHD4K
    } else if pixels >= 2560 * 1440 {
        ResolutionClass::QHD
    } else if pixels >= 1920 * 1080 {
        ResolutionClass::FHD
    } else if pixels >= 1280 * 720 {
        ResolutionClass::HD
    } else if pixels >= 854 * 480 {
        ResolutionClass::SD
    } else {
        ResolutionClass::LowRes
    }
}

/// The classes follow the standard frame sizes: 4K from 3840x2160
/// (8,294,400 pixels), QHD from 2560x1440 (3,686,400), Full HD from
/// 1920x1080 (2,073,600), HD from 1280x720 (921,600), SD from 854x480
/// (409,920), and LowRes below; each class is exactly its band.
pub proof fn lemma_class_bands(p: nat)
    ensures
        class_of_pixels(p) == ResolutionClass::UHD4K <==> p >= 8_294_400,
        class_of_pixels(p) == ResolutionClass::QHD <==> 3_686_400 <= p < 8_294_400,
        class_of_pixels(p) == ResolutionClass::FHD <==> 2_073_600 <= p < 3_686_400,
        class_of_pixels(p) == ResolutionClass::HD <==> 921_600 <= p < 2_073_600,
        class_of_pixels(p) == ResolutionClass::SD <==> 409_920 <= p < 921_600,
        class_of_pixels(p) == ResolutionClass::LowRes <==> p < 409_920,
        class_of_pixels(p) != ResolutionClass::Unknown,
{
}

/// Classifies a resolution by its pixel count; `Unknown` when a dimension
/// is missing.
pub fn classify_resolution(width: Option<u32>, height: Option<u32>) -> (r: ResolutionClass)
    requires
        (width, height) matches (Some(w), Some(h)) ==> w * h <= u32::MAX,
    ensures
        r == match (width, height) {
            (Some(w), Some(h)) => class_of_pixels((w * h) as nat),
            _ => ResolutionClass::Unknown,
        },
        (width, height) matches (Some(w), Some(h)) ==> {
            &&& (r == ResolutionClass::UHD4K <==> w * h >= 8_294_400)
            &&& (r == ResolutionClass::QHD <==> 3_686_400 <= w * h < 8_294_400)
            &&& (r == ResolutionClass::FHD <==> 2_073_600 <= w * h < 3_686_400)
            &&& (r == ResolutionClass::HD <==> 921_600 <= w * h < 2_073_600)
            &&& (r == ResolutionClass::SD <==> 409_920 <= w * h < 921_600)
            &&& (r == ResolutionClass::LowRes <==> w * h < 409_920)
        },
        !((width, height) matches (Some(_), Some(_))) ==> r == ResolutionClass::Unknown,
{
    match (width, height) {
        (Some(w), Some(h)) => {
            proof {
                lemma_class_bands((w * h) as nat);
            }
            let pixels = w * h;
            if pixels >= 3840 * 2160 {
                ResolutionClass::UHD4K
            } else if pixels >= 2560 * 1440 {
                ResolutionClass::QHD
            } else if pixels >= 1920 * 1080 {
                ResolutionClass::FHD
            } else if pixels >= 1280 * 720 {
                ResolutionClass::HD
            } else if pixels >= 854 * 480 {
                ResolutionClass::SD
            } else {
                ResolutionClass::LowRes
            }
        },
        _ => ResolutionClass::Unknown,
    }
}

/// Position of a class in the order of declaration, lowest first.
pub open spec fn resolution_rank(c: ResolutionClass) -> nat {
    match c {
        ResolutionClass::Unknown => 0,
        ResolutionClass::LowRes => 1,
        ResolutionClass::SD => 2,
        ResolutionClass::HD => 3,
        ResolutionClass::FHD => 4,
        ResolutionClass::QHD => 5,
        ResolutionClass::UHD4K => 6,
    }
}

/// A higher pixel count never gives a lower class.
pub proof fn lemma_class_monotone(p1: nat, p2: nat)
    requires
        p1 <= p2,
    ensures
        resolution_rank(class_of_pixels(p1)) <= resolution_rank(class_of_pixels(p2)),
{
}

/// "`width`x`height`", or "unknown" when a dimension is missing.
pub fn format_resolution(width: Option<u32>, height: Option<u32>) -> (r: String)
    ensures
        r@ == match (width, height) {
            (Some(w), Some(h)) => decimal(w as nat) + seq!['x'] + decimal(h as nat),
            _ => "unknown"@,
        },
{
    match (width, height) {
        (Some(w), Some(h)) => {
            let mut s = String::new();
            push_decimal(&mut s, w as u64);
            push_char(&mut s, 'x');
            push_decimal(&mut s, h as u64);
            proof {
                assert(s@ =~= decimal(w as nat) + seq!['x'] + decimal(h as nat));
            }
            s
        },
        _ => String::from_str("unknown"),
    }
}

/// Video codec families, from oldest to most modern.
#[derive(Debug, Clone, PartialEq, Eq, PartialOrd, Ord, Hash)]
pub enum CodecClass {
    MPEG1,
    MPEG2,
    MPEG4,
    VP8,
    H264,
    VP9,
    H265,
    AV1,
    Other(String),
}

/// The family named by a lowercased codec name, if it is a known one.
pub open spec fn known_codec(l: Seq<char>) -> Option<CodecClass> {
    if l == "h264"@ || l == "avc1"@ {
        Some(CodecClass::H264)
    } else if l == "h265"@ || l == "hevc"@ {
        Some(CodecClass::H265)
    } else if l == "av1"@ {
        Some(CodecClass::AV1)
    } else if l == "vp9"@ {
        Some(CodecClass::VP9)
    } else if l == "vp8"@ {
        Some(CodecClass::VP8)
    } else if l == "mpeg4"@ || l == "xvid"@ || l == "divx"@ {
        Some(CodecClass::MPEG4)
    } else if l == "mpeg2"@ {
        Some(CodecClass::MPEG2)
    } else if l == "mpeg1"@ {
        Some(CodecClass::MPEG1)
    } else {
        None
    }
}

/// `r` is the class of a codec whose lowercased name is `lower` and whose
/// name as given is `codec`.
pub open spec fn is_codec_class(r: CodecClass, lower: Seq<char>, codec: Seq<char>) -> bool {
    match known_codec(lower) {
        Some(c) => r == c,
        None => r matches CodecClass::Other(name) && name@ == codec,
    }
}

fn same(a: &Vec<char>, lit: &str) -> (r: bool)
    ensures
        r == (a@ == lit@),
{
    let b = chars_of(lit);
    chars_equal(a.as_slice(), b.as_slice())
}

/// Classifies a codec from its lowercased name `lower`; an unknown codec
/// keeps its name as given, `codec`.
pub fn classify_lowercased_codec(lower: &str, codec: &str) -> (r: CodecClass)
    ensures
        is_codec_class(r, lower@, codec@),
{
    let l = chars_of(lower);
    if same(&l, "h264") || same(&l, "avc1") {
        CodecClass::H264
    } else if same(&l, "h265") || same(&l, "hevc") {
        CodecClass::H265
    } else if same(&l, "av1") {
        CodecClass::AV1
    } else if same(&l, "vp9") {
        CodecClass::VP9
    } else if same(&l, "vp8") {
        CodecClass::VP8
    } else if same(&l, "mpeg4") || same(&l, "xvid") || same(&l, "divx") {
        CodecClass::MPEG4
    } else if same(&l, "mpeg2") {
        CodecClass::MPEG2
    } else if same(&l, "mpeg1") {
        CodecClass::MPEG1
    } else {
        CodecClass::Other(String::from_str(codec))
    }
}

/// Classifies a video codec by its name, ignoring case; an unknown codec is
/// `Other` with its name as given.
pub fn classify_codec(codec: &str) -> (r: CodecClass)
    ensures
        is_codec_class(r, lowercase(codec@), codec@),
{
    let lower = to_lowercase(codec);
    classify_lowercased_codec(lower.as_str(), codec)
}

/// Classification ignores case: two names with the same lowercase form get
/// the same known family, or are both unknown.
pub proof fn lemma_codec_case_insensitive(r1: CodecClass, r2: CodecClass, a: Seq<char>, b: Seq<char>)
    requires
        lowercase(a) == lowercase(b),
        is_codec_class(r1, lowercase(a), a),
        is_codec_class(r2, lowercase(b), b),
    ensures
        known_codec(lowercase(a)) is Some ==> r1 == r2,
        known_codec(lowercase(a)) is None ==> (r1 matches CodecClass::Other(_) && r2 matches CodecClass::Other(
            _,
        )),
{
}

impl CodecClass {
    /// Relative quality of the codec family (higher is better); an unknown
    /// codec counts like MPEG-4.
    pub fn quality_score(&self) -> (r: u32)
        ensures
            r == codec_quality(*self),
    {
        match self {
            CodecClass::MPEG1 => 1,
            CodecClass::MPEG2 => 2,
            CodecClass::MPEG4 => 3,
            CodecClass::VP8 => 4,
            CodecClass::H264 => 5,
            CodecClass::VP9 => 6,
            CodecClass::H265 => 7,
            CodecClass::AV1 => 8,
            CodecClass::Other(_) => 3,
        }
    }

    /// The display name of the codec family.
    pub fn label(&self) -> (r: String)
        ensures
            r@ == codec_label(*self),
    {
        match self {
            CodecClass::MPEG1 => String::from_str("MPEG-1"),
            CodecClass::MPEG2 => String::from_str("MPEG-2"),
            CodecClass::MPEG4 => String::from_str("MPEG-4"),
            CodecClass::VP8 => String::from_str("VP8"),
            CodecClass::H264 => String::from_str("H.264"),
            CodecClass::VP9 => String::from_str("VP9"),
            CodecClass::H265 => String::from_str("H.265"),
            CodecClass::AV1 => String::from_str("AV1"),
            CodecClass::Other(name) => name.clone(),
        }
    }
}

/// The display name of a codec family; an unknown codec shows its name.
pub open spec fn codec_label(c: CodecClass) -> Seq<char> {
    match c {
        CodecClass::MPEG1 => "MPEG-1"@,
        CodecClass::MPEG2 => "MPEG-2"@,
        CodecClass::MPEG4 => "MPEG-4"@,
        CodecClass::VP8 => "VP8"@,
        CodecClass::H264 => "H.264"@,
        CodecClass::VP9 => "VP9"@,
        CodecClass::H265 => "H.265"@,
        CodecClass::AV1 => "AV1"@,
        CodecClass::Other(name) => name@,
    }
}

/// A character of a display name as a codec name writes it: `.` and `-`
/// dropped, ASCII capitals lowered.
pub open spec fn key_char(c: char) -> Seq<char> {
    if c == '.' || c == '-' {
        Seq::empty()
    } else if 'A' <= c <= 'Z' {
        seq![((c as u32) + 32) as char]
    } else {
        seq![c]
    }
}

/// A display name as the lowercase codec name it stands for ("H.264" is
/// "h264", "MPEG-4" is "mpeg4").
pub open spec fn name_key(s: Seq<char>) -> Seq<char>
    decreases s.len(),
{
    if s.len() == 0 {
        Seq::empty()
    } else {
        name_key(s.drop_last()) + key_char(s.last())
    }
}

proof fn lemma_label_keys()
    ensures
        name_key(codec_label(CodecClass::MPEG1)) == "mpeg1"@,
        name_key(codec_label(CodecClass::MPEG2)) == "mpeg2"@,
        name_key(codec_label(CodecClass::MPEG4)) == "mpeg4"@,
        name_key(codec_label(CodecClass::VP8)) == "vp8"@,
        name_key(codec_label(CodecClass::H264)) == "h264"@,
        name_key(codec_label(CodecClass::VP9)) == "vp9"@,
        name_key(codec_label(CodecClass::H265)) == "h265"@,
        name_key(codec_label(CodecClass::AV1)) == "av1"@,
{
    reveal_strlit("MPEG-1");
    reveal_strlit("MPEG-2");
    reveal_strlit("MPEG-4");
    reveal_strlit("VP8");
    reveal_strlit("H.264");
    reveal_strlit("VP9");
    reveal_strlit("H.265");
    reveal_strlit("AV1");
    reveal_strlit("mpeg1");
    reveal_strlit("mpeg2");
    reveal_strlit("mpeg4");
    reveal_strlit("vp8");
    reveal_strlit("h264");
    reveal_strlit("vp9");
    reveal_strlit("h265");
    reveal_strlit("av1");
    assert(name_key("MPEG-1"@) =~= "mpeg1"@) by {
        reveal_with_fuel(name_key, 7);
    }
    assert(name_key("MPEG-2"@) =~= "mpeg2"@) by {
        reveal_with_fuel(name_key, 7);
    }
    assert(name_key("MPEG-4"@) =~= "mpeg4"@) by {
        reveal_with_fuel(name_key, 7);
    }
    assert(name_key("VP8"@) =~= "vp8"@) by {
        reveal_with_fuel(name_key, 4);
    }
    assert(name_key("H.264"@) =~= "h264"@) by {
        reveal_with_fuel(name_key, 6);
    }
    assert(name_key("VP9"@) =~= "vp9"@) by {
        reveal_with_fuel(name_key, 4);
    }
    assert(name_key("H.265"@) =~= "h265"@) by {
        reveal_with_fuel(name_key, 6);
    }
    assert(name_key("AV1"@) =~= "av1"@) by {
        reveal_with_fuel(name_key, 4);
    }
}

/// Every known codec family is recognized by the name its display name
/// spells ("H.264" as "h264", "VP9" as "vp9", "MPEG-2" as "mpeg2", ...).
pub proof fn lemma_family_named_by_label(c: CodecClass)
    requires
        !(c is Other),
    ensures
        known_codec(name_key(codec_label(c))) == Some(c),
{
    lemma_label_keys();
    assert(known_codec("h264"@) == Some(CodecClass::H264)) by {
        reveal_strlit("h264");
    }
    assert(known_codec("h265"@) == Some(CodecClass::H265)) by {
        reveal_strlit("h265");
        reveal_strlit("h264");
        reveal_strlit("avc1");
        assert("h265"@[3] != "h264"@[3]);
        assert("h265"@ != "h264"@);
        assert("h265"@[0] != "avc1"@[0]);
        assert("h265"@ != "avc1"@);
    }
    assert(known_codec("av1"@) == Some(CodecClass::AV1)) by {
        reveal_strlit("av1");
        reveal_strlit("h264");
        reveal_strlit("avc1");
        reveal_strlit("h265");
        reveal_strlit("hevc");
        assert("av1"@.len() != "h264"@.len());
        assert("av1"@ != "h264"@);
        assert("av1"@.len() != "avc1"@.len());
        assert("av1"@ != "avc1"@);
        assert("av1"@.len() != "h265"@.len());
        assert("av1"@ != "h265"@);
        assert("av1"@.len() != "hevc"@.len());
        assert("av1"@ != "hevc"@);
    }
    assert(known_codec("vp9"@) == Some(CodecClass::VP9)) by {
        reveal_strlit("vp9");
        reveal_strlit("h264");
        reveal_strlit("avc1");
        reveal_strlit("h265");
        reveal_strlit("hevc");
        reveal_strlit("av1");
        assert("vp9"@.len() != "h264"@.len());
        assert("vp9"@ != "h264"@);
        assert("vp9"@.len() != "avc1"@.len());
        assert("vp9"@ != "avc1"@);
        assert("vp9"@.len() != "h265"@.len());
        assert("vp9"@ != "h265"@);
        assert("vp9"@.len() != "hevc"@.len());
        assert("vp9"@ != "hevc"@);
        assert("vp9"@[0] != "av1"@[0]);
        assert("vp9"@ != "av1"@);
    }
    assert(known_codec("vp8"@) == Some(CodecClass::VP8)) by {
        reveal_strlit("vp8");
        reveal_strlit("h264");
        reveal_strlit("avc1");
        reveal_strlit("h265");
        reveal_strlit("hevc");
        reveal_strlit("av1");
        reveal_strlit("vp9");
        assert("vp8"@.len() != "h264"@.len());
        assert("vp8"@ != "h264"@);
        assert("vp8"@.len() != "avc1"@.len());
        assert("vp8"@ != "avc1"@);
        assert("vp8"@.len() != "h265"@.len());
        assert("vp8"@ != "h265"@);
        assert("vp8"@.len() != "hevc"@.len());
        assert("vp8"@ != "hevc"@);
        assert("vp8"@[0] != "av1"@[0]);
        assert("vp8"@ != "av1"@);
        assert("vp8"@[2] != "vp9"@[2]);
        assert("vp8"@ != "vp9"@);
    }
    assert(known_codec("mpeg4"@) == Some(CodecClass::MPEG4)) by {
        reveal_strlit("mpeg4");
        reveal_strlit("h264");
        reveal_strlit("avc1");
        reveal_strlit("h265");
        reveal_strlit("hevc");
        reveal_strlit("av1");
        reveal_strlit("vp9");
        reveal_strlit("vp8");
        assert("mpeg4"@.len() != "h264"@.len());
        assert("mpeg4"@ != "h264"@);
        assert("mpeg4"@.len() != "avc1"@.len());
        assert("mpeg4"@ != "avc1"@);
        assert("mpeg4"@.len() != "h265"@.len());
        assert("mpeg4"@ != "h265"@);
        assert("mpeg4"@.len() != "hevc"@.len());
        assert("mpeg4"@ != "hevc"@);
        assert("mpeg4"@.len() != "av1"@.len());
        assert("mpeg4"@ != "av1"@);
        assert("mpeg4"@.len() != "vp9"@.len());
        assert("mpeg4"@ != "vp9"@);
        assert("mpeg4"@.len() != "vp8"@.len());
        assert("mpeg4"@ != "vp8"@);
    }
    assert(known_codec("mpeg2"@) == Some(CodecClass::MPEG2)) by {
        reveal_strlit("mpeg2");
        reveal_strlit("h264");
        reveal_strlit("avc1");
        reveal_strlit("h265");
        reveal_strlit("hevc");
        reveal_strlit("av1");
        reveal_strlit("vp9");
        reveal_strlit("vp8");
        reveal_strlit("mpeg4");
        reveal_strlit("xvid");
        reveal_strlit("divx");
        assert("mpeg2"@.len() != "h264"@.len());
        assert("mpeg2"@ != "h264"@);
        assert("mpeg2"@.len() != "avc1"@.len());
        assert("mpeg2"@ != "avc1"@);
        assert("mpeg2"@.len() != "h265"@.len());
        assert("mpeg2"@ != "h265"@);
        assert("mpeg2"@.len() != "hevc"@.len());
        assert("mpeg2"@ != "hevc"@);
        assert("mpeg2"@.len() != "av1"@.len());
        assert("mpeg2"@ != "av1"@);
        assert("mpeg2"@.len() != "vp9"@.len());
        assert("mpeg2"@ != "vp9"@);
        assert("mpeg2"@.len() != "vp8"@.len());
        assert("mpeg2"@ != "vp8"@);
        assert("mpeg2"@[4] != "mpeg4"@[4]);
        assert("mpeg2"@ != "mpeg4"@);
        assert("mpeg2"@.len() != "xvid"@.len());
        assert("mpeg2"@ != "xvid"@);
        assert("mpeg2"@.len() != "divx"@.len());
        assert("mpeg2"@ != "divx"@);
    }
    assert(known_codec("mpeg1"@) == Some(CodecClass::MPEG1)) by {
        reveal_strlit("mpeg1");
        reveal_strlit("h264");
        reveal_strlit("avc1");
        reveal_strlit("h265");
        reveal_strlit("hevc");
        reveal_strlit("av1");
        reveal_strlit("vp9");
        reveal_strlit("vp8");
        reveal_strlit("mpeg4");
        reveal_strlit("xvid");
        reveal_strlit("divx");
        reveal_strlit("mpeg2");
        assert("mpeg1"@.len() != "h264"@.len());
        assert("mpeg1"@ != "h264"@);
        assert("mpeg1"@.len() != "avc1"@.len());
        assert("mpeg1"@ != "avc1"@);
        assert("mpeg1"@.len() != "h265"@.len());
        assert("mpeg1"@ != "h265"@);
        assert("mpeg1"@.len() != "hevc"@.len());
        assert("mpeg1"@ != "hevc"@);
        assert("mpeg1"@.len() != "av1"@.len());
        assert("mpeg1"@ != "av1"@);
        assert("mpeg1"@.len() != "vp9"@.len());
        assert("mpeg1"@ != "vp9"@);
        assert("mpeg1"@.len() != "vp8"@.len());
        assert("mpeg1"@ != "vp8"@);
        assert("mpeg1"@[4] != "mpeg4"@[4]);
        assert("mpeg1"@ != "mpeg4"@);
        assert("mpeg1"@.len() != "xvid"@.len());
        assert("mpeg1"@ != "xvid"@);
        assert("mpeg1"@.len() != "divx"@.len());
        assert("mpeg1"@ != "divx"@);
        assert("mpeg1"@[4] != "mpeg2"@[4]);
        assert("mpeg1"@ != "mpeg2"@);
    }
}

/// A name is recognized as a family only when it spells that family's
/// display name, or is one of its aliases: `avc1` for H.264, `hevc` for
/// H.265, `xvid` and `divx` for MPEG-4.
pub proof fn lemma_known_names_spell_their_family(l: Seq<char>)
    ensures
        known_codec(l) matches Some(c) ==> {
            ||| l == name_key(codec_label(c))
            ||| (c == CodecClass::H264 && l == "avc1"@)
            ||| (c == CodecClass::H265 && l == "hevc"@)
            ||| (c == CodecClass::MPEG4 && (l == "xvid"@ || l == "divx"@))
        },
{
    lemma_label_keys();
}

/// Relative quality of a codec family.
pub open spec fn codec_quality(c: CodecClass) -> u32 {
    match c {
        CodecClass::MPEG1 => 1,
        CodecClass::MPEG2 => 2,
        CodecClass::MPEG4 => 3,
        CodecClass::VP8 => 4,
        CodecClass::H264 => 5,
        CodecClass::VP9 => 6,
        CodecClass::H265 => 7,
        CodecClass::AV1 => 8,
        CodecClass::Other(_) => 3,
    }
}

/// Among the known families the quality rises strictly in the declared
/// order: MPEG-1 < MPEG-2 < MPEG-4 < VP8 < H.264 < VP9 < H.265 < AV1.
pub proof fn lemma_codec_quality_order()
    ensures
        codec_quality(CodecClass::MPEG1) < codec_quality(CodecClass::MPEG2),
        codec_quality(CodecClass::MPEG2) < codec_quality(CodecClass::MPEG4),
        codec_quality(CodecClass::MPEG4) < codec_quality(CodecClass::VP8),
        codec_quality(CodecClass::VP8) < codec_quality(CodecClass::H264),
        codec_quality(CodecClass::H264) < codec_quality(CodecClass::VP9),
        codec_quality(CodecClass::VP9) < codec_quality(CodecClass::H265),
        codec_quality(CodecClass::H265) < codec_quality(CodecClass::AV1),
{
}

/// An ASCII decimal digit.
pub open spec fn is_digit(c: char) -> bool {
    '0' <= c <= '9'
}

/// The value of a string of decimal digits.
pub open spec fn digits_value(s: Seq<char>) -> nat
    decreases s.len(),
{
    if s.len() == 0 {
        0
    } else {
        digits_value(s.drop_last()) * 10 + ((s.last() as u32) - 48) as nat
    }
}

/// The digits of a number as `u64::from_str` reads them: an optional
/// leading `+`, then the rest.
pub open spec fn unsigned_digits(s: Seq<char>) -> Seq<char> {
    if s.len() > 0 && s[0] == '+' {
        s.skip(1)
    } else {
        s
    }
}

/// What `str::parse::<u64>` returns, as an option: the value of one or more
/// decimal digits after an optional `+`, when it fits in a `u64`.
pub open spec fn parse_u64_spec(s: Seq<char>) -> Option<u64> {
    let d = unsigned_digits(s);
    if d.len() > 0 && (forall|i: int| 0 <= i < d.len() ==> is_digit(#[trigger] d[i])) && digits_value(d)
        <= u64::MAX {
        Some(digits_value(d) as u64)
    } else {
        None
    }
}

proof fn lemma_digits_value_prefix(s: Seq<char>, i: int)
    requires
        0 <= i <= s.len(),
        forall|j: int| 0 <= j < s.len() ==> is_digit(#[trigger] s[j]),
    ensures
        digits_value(s.take(i)) <= digits_value(s),
    decreases s.len(),
{
    if i < s.len() {
        assert(s.drop_last().take(i) =~= s.take(i));
        assert forall|j: int| 0 <= j < s.drop_last().len() implies is_digit(#[trigger] s.drop_last()[j]) by {
            assert(s.drop_last()[j] == s[j]);
        }
        lemma_digits_value_prefix(s.drop_last(), i);
    } else {
        assert(s.take(i) =~= s);
    }
}

proof fn lemma_decimal_digits(n: nat)
    ensures
        decimal(n).len() > 0,
        forall|i: int| 0 <= i < decimal(n).len() ==> is_digit(#[trigger] decimal(n)[i]),
        digits_value(decimal(n)) == n,
    decreases n,
{
    if n < 10 {
        assert(decimal(n) =~= seq![digit_char(n)]);
        assert(decimal(n).drop_last() =~= Seq::<char>::empty());
        assert(digit_char(n) as u32 == n + 48);
        assert(decimal(n).last() == digit_char(n));
        assert(digits_value(decimal(n)) == digits_value(decimal(n).drop_last()) * 10 + ((decimal(n).last() as u32) - 48) as nat);
    } else {
        lemma_decimal_digits(n / 10);
        let d = decimal(n / 10);
        assert(decimal(n) == d.push(digit_char(n % 10)));
        assert(decimal(n).drop_last() =~= d);
        assert forall|i: int| 0 <= i < decimal(n).len() implies is_digit(#[trigger] decimal(n)[i]) by {
            if i < d.len() {
                assert(decimal(n)[i] == d[i]);
            }
        }
        assert(digit_char(n % 10) as u32 == n % 10 + 48);
        assert(decimal(n).last() == digit_char(n % 10));
        assert(digits_value(decimal(n)) == digits_value(d) * 10 + ((decimal(n).last() as u32) - 48) as nat);
        assert((n / 10) * 10 + n % 10 == n) by (nonlinear_arith);
    }
}

/// Reading back the decimal text of a `u64` gives the number.
pub proof fn lemma_parse_reads_decimal(n: u64)
    ensures
        parse_u64_spec(decimal(n as nat)) == Some(n),
{
    lemma_decimal_digits(n as nat);
    let d = decimal(n as nat);
    assert(is_digit(d[0]));
    assert(unsigned_digits(d) == d);
}

/// Parses an unsigned decimal number the way `str::parse::<u64>` does:
/// an optional `+`, then at least one ASCII digit and nothing else, with a
/// value that fits in a `u64`.
pub fn parse_u64(text: &str) -> (r: Option<u64>)
    ensures
        r == parse_u64_spec(text@),
{
    let chars = chars_of(text);
    let start: usize = if chars.len() > 0 && chars[0] == '+' {
        1
    } else {
        0
    };
    let ghost d = unsigned_digits(text@);
    proof {
        assert(d =~= chars@.skip(start as int));
    }
    if start >= chars.len() {
        return None;
    }
    let mut acc: u64 = 0;
    let mut i: usize = start;
    while i < chars.len()
        invariant
            chars@ == text@,
            d == unsigned_digits(text@),
            d == chars@.skip(start as int),
            start <= i <= chars@.len(),
            forall|j: int| 0 <= j < i - start ==> is_digit(#[trigger] d[j]),
            acc == digits_value(d.take(i - start)),
        decreases chars@.len() - i,
    {
        let c = chars[i];
        proof {
            assert(d[i - start] == c);
        }
        if !('0' <= c && c <= '9') {
            proof {
                assert(!is_digit(d[i - start]));
            }
            return None;
        }
        let digit: u64 = (c as u32 - 48) as u64;
        proof {
            assert(d.take(i - start + 1).drop_last() =~= d.take(i - start));
            assert(d.take(i - start + 1).last() == c);
        }
        let next = match acc.checked_mul(10) {
            Some(m) => m.checked_add(digit),
            None => None,
        };
        match next {
            Some(v) => {
                acc = v;
            },
            None => {
                proof {
                    assert(digits_value(d.take(i - start + 1)) == acc * 10 + digit);
                    // the remaining characters are digits or not: either way the
                    // parse fails, since the full value would exceed the range
                    if forall|j: int| 0 <= j < d.len() ==> is_digit(#[trigger] d[j]) {
                        lemma_digits_value_prefix(d, i - start + 1);
                    }
                }
                return None;
            },
        }
        i = i + 1;
    }
    proof {
        assert(d.take(i - start) =~= d);
    }
    Some(acc)
}

/// One stream as the prober reports it.
#[derive(Debug, Clone)]
pub struct ProbeStream {
    pub codec_type: String,
    pub codec_name: Option<String>,
    pub width: Option<u32>,
    pub height: Option<u32>,
    pub bit_rate: Option<String>,
}

/// The stream properties of a video file.
#[derive(Debug, Clone)]
pub struct StreamSummary {
    pub width: Option<u32>,
    pub height: Option<u32>,
    pub video_codec: Option<String>,
    pub audio_codec: Option<String>,
    pub has_audio: bool,
    pub bitrate: Option<u64>,
}

/// The characters of an optional string.
pub open spec fn opt_view(o: Option<String>) -> Option<Seq<char>> {
    match o {
        Some(s) => Some(s@),
        None => None,
    }
}

/// Position of the first stream of type `t`.
pub open spec fn first_of_type(streams: Seq<ProbeStream>, t: Seq<char>) -> Option<int>
    decreases streams.len(),
{
    if streams.len() == 0 {
        None
    } else {
        match first_of_type(streams.drop_last(), t) {
            Some(i) => Some(i),
            None => if streams.last().codec_type@ == t {
                Some(streams.len() - 1)
            } else {
                None
            },
        }
    }
}

/// The parsed value of an optional decimal string.
pub open spec fn parse_opt(o: Option<String>) -> Option<u64> {
    match o {
        Some(s) => parse_u64_spec(s@),
        None => None,
    }
}

/// `summary` describes the streams: width, height and codec of the first
/// video stream, codec of the first audio stream, whether there is audio,
/// and the bitrate of the container when it parses, else that of the first
/// video stream.
pub open spec fn summarizes(streams: Seq<ProbeStream>, format_bit_rate: Option<String>, summary: StreamSummary) -> bool {
    &&& match first_of_type(streams, "video"@) {
        Some(v) => summary.width == streams[v].width && summary.height == streams[v].height
            && opt_view(summary.video_codec) == opt_view(streams[v].codec_name),
        None => summary.width is None && summary.height is None && summary.video_codec is None,
    }
    &&& match first_of_type(streams, "audio"@) {
        Some(a) => summary.has_audio && opt_view(summary.audio_codec) == opt_view(streams[a].codec_name),
        None => !summary.has_audio && summary.audio_codec is None,
    }
    &&& summary.bitrate == match parse_opt(format_bit_rate) {
        Some(b) => Some(b),
        None => match first_of_type(streams, "video"@) {
            Some(v) => parse_opt(streams[v].bit_rate),
            None => None,
        },
    }
}

fn clone_opt(o: &Option<String>) -> (r: Option<String>)
    ensures
        opt_view(r) == opt_view(*o),
{
    match o {
        Some(s) => Some(s.clone()),
        None => None,
    }
}

fn parse_opt_exec(o: &Option<String>) -> (r: Option<u64>)
    ensures
        r == parse_opt(*o),
{
    match o {
        Some(s) => parse_u64(s.as_str()),
        None => None,
    }
}

fn find_first_of_type(streams: &Vec<ProbeStream>, t: &str) -> (r: Option<usize>)
    ensures
        match first_of_type(streams@, t@) {
            Some(i) => r == Some(i as usize),
            None => r is None,
        },
        r matches Some(i) ==> i < streams@.len() && first_of_type(streams@, t@) == Some(i as int),
        r is None ==> first_of_type(streams@, t@) is None,
        first_of_type(streams@, t@) matches Some(i) ==> 0 <= i < streams@.len(),
{
    proof {
        lemma_first_of_type_bounds(streams@, t@);
    }
    let target = chars_of(t);
    let mut i: usize = 0;
    while i < streams.len()
        invariant
            0 <= i <= streams@.len(),
            target@ == t@,
            first_of_type(streams@.take(i as int), t@) is None,
        decreases streams@.len() - i,
    {
        proof {
            assert(streams@.take(i + 1).drop_last() =~= streams@.take(i as int));
            assert(streams@.take(i + 1).last() == streams@[i as int]);
        }
        let ty = chars_of(streams[i].codec_type.as_str());
        if chars_equal(ty.as_slice(), target.as_slice()) {
            proof {
                lemma_first_of_type_prefix(streams@, t@, i as int + 1);
            }
            return Some(i);
        }
        i = i + 1;
    }
    proof {
        assert(streams@.take(i as int) =~= streams@);
    }
    None
}

proof fn lemma_first_of_type_bounds(streams: Seq<ProbeStream>, t: Seq<char>)
    ensures
        first_of_type(streams, t) matches Some(i) ==> 0 <= i < streams.len(),
    decreases streams.len(),
{
    if streams.len() > 0 {
        lemma_first_of_type_bounds(streams.drop_last(), t);
    }
}

proof fn lemma_first_of_type_prefix(streams: Seq<ProbeStream>, t: Seq<char>, n: int)
    requires
        0 <= n <= streams.len(),
        first_of_type(streams.take(n), t) is Some,
    ensures
        first_of_type(streams, t) == first_of_type(streams.take(n), t),
    decreases streams.len(),
{
    if n < streams.len() {
        assert(streams.drop_last().take(n) =~= streams.take(n));
        lemma_first_of_type_prefix(streams.drop_last(), t, n);
    } else {
        assert(streams.take(n) =~= streams);
    }
}

/// Summarizes the streams of a probed file: the first video stream gives
/// width, height and video codec; the first audio stream gives the audio
/// codec and its presence; the container bitrate is used when it parses as
/// a number, else the first video stream's.
pub fn summarize_streams(streams: &Vec<ProbeStream>, format_bit_rate: &Option<String>) -> (r: StreamSummary)
    ensures
        summarizes(streams@, *format_bit_rate, r),
{
    let video = find_first_of_type(streams, "video");
    let audio = find_first_of_type(streams, "audio");
    let mut width: Option<u32> = None;
    let mut height: Option<u32> = None;
    let mut video_codec: Option<String> = None;
    match video {
        Some(v) => {
            width = streams[v].width;
            height = streams[v].height;
            video_codec = clone_opt(&streams[v].codec_name);
        },
        None => {},
    }
    let mut audio_codec: Option<String> = None;
    let mut has_audio = false;
    match audio {
        Some(a) => {
            audio_codec = clone_opt(&streams[a].codec_name);
            has_audio = true;
        },
        None => {},
    }
    let bitrate = match parse_opt_exec(format_bit_rate) {
        Some(b) => Some(b),
        None => match video {
            Some(v) => parse_opt_exec(&streams[v].bit_rate),
            None => None,
        },
    };
    let r = StreamSummary { width, height, video_codec, audio_codec, has_audio, bitrate };
    r
}

} // verus!

