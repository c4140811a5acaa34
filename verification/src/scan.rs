use vstd::prelude::*;

use crate::text::{chars_of, lowercase, push_char, push_chars, to_lowercase};

verus! {

/// What to look for when scanning a directory tree.
#[derive(Debug, Clone)]
pub struct ScanConfig {
    pub extensions: Vec<String>,
    pub include_hidden: bool,
    pub exclude_patterns: Vec<String>,
    pub min_size_bytes: u64,
}

/// Position of the last `.` in a file name.
pub open spec fn last_dot(name: Seq<char>) -> Option<int>
    decreases name.len(),
{
    if name.len() == 0 {
        None
    } else if name.last() == '.' {
        Some(name.len() - 1)
    } else {
        last_dot(name.drop_last())
    }
}

/// The extension of a file name as a path gives it: the part after the
/// last `.`, none when there is no `.` or the only one starts the name.
pub open spec fn extension_of(name: Seq<char>) -> Option<Seq<char>> {
    match last_dot(name) {
        Some(i) => if i > 0 {
            Some(name.skip(i + 1))
        } else {
            None
        },
        None => None,
    }
}

proof fn lemma_last_dot(name: Seq<char>, i: int)
    requires
        -1 <= i < name.len(),
        i >= 0 ==> name[i] == '.',
        forall|j: int| i < j < name.len() ==> name[j] != '.',
    ensures
        last_dot(name) == if i >= 0 {
            Some(i)
        } else {
            None::<int>
        },
    decreases name.len(),
{
    if name.len() > 0 && i < name.len() - 1 {
        assert(name.last() == name[name.len() - 1]);
        assert forall|j: int| i < j < name.drop_last().len() implies name.drop_last()[j] != '.' by {
            assert(name.drop_last()[j] == name[j]);
        }
        if i >= 0 {
            assert(name.drop_last()[i] == name[i]);
        }
        lemma_last_dot(name.drop_last(), i);
    }
}

/// The extension of a file name, lowercased, with a leading `.`.
pub fn file_extension(file_name: &str) -> (r: Option<String>)
    ensures
        match extension_of(file_name@) {
            Some(e) => r matches Some(s) && s@ == seq!['.'] + lowercase(e),
            None => r is None,
        },
{
    let chars = chars_of(file_name);
    let mut i: usize = chars.len();
    while i > 0 && chars[i - 1] != '.'
        invariant
            0 <= i <= chars@.len(),
            forall|j: int| i <= j < chars@.len() ==> chars@[j] != '.',
        decreases i,
    {
        i = i - 1;
    }
    proof {
        lemma_last_dot(chars@, i - 1);
    }
    if i <= 1 {
        return None;
    }
    let mut ext = String::new();
    push_chars(&mut ext, chars.as_slice(), i, chars.len());
    proof {
        assert(ext@ =~= file_name@.skip(i as int));
    }
    let lower = to_lowercase(ext.as_str());
    let mut r = String::from_str(".");
    r.append(lower.as_str());
    proof {
        reveal_strlit(".");
        assert(r@ =~= seq!['.'] + lowercase(file_name@.skip(i as int)));
    }
    Some(r)
}

/// A compiled regular expression (`regex::Regex`).
#[verifier::external_type_specification]
#[verifier::external_body]
pub struct ExRegex(regex::Regex);

/// The error of a pattern that does not compile (`regex::Error`).
#[verifier::external_type_specification]
#[verifier::external_body]
pub struct ExRegexError(regex::Error);

/// Whether `regex::Regex::new` accepts the pattern.
pub uninterp spec fn regex_compiles(pattern: Seq<char>) -> bool;

/// Whether the compiled pattern matches somewhere in the text
/// (`regex::Regex::is_match`).
pub uninterp spec fn regex_finds(pattern: Seq<char>, text: Seq<char>) -> bool;

/// `regex::Regex::new`: succeeds exactly for the patterns it accepts, which
/// depend on the pattern alone.
#[verifier::external_body]
fn regex_new(pattern: &str) -> (r: Result<regex::Regex, regex::Error>)
    ensures
        r is Ok <==> regex_compiles(pattern@),
{
    regex::Regex::new(pattern)
}

/// An exclusion pattern: its text and the expression compiled from it.
pub struct ExcludePattern {
    pattern: String,
    regex: regex::Regex,
}

impl ExcludePattern {
    /// The text of every exclusion pattern is one that `regex::Regex::new`
    /// accepts.
    #[verifier::type_invariant]
    spec fn compiles(self) -> bool {
        regex_compiles(self.pattern@)
    }
}

impl View for ExcludePattern {
    type V = Seq<char>;

    closed spec fn view(&self) -> Seq<char> {
        self.pattern@
    }
}

/// `regex::Regex::is_match` on the expression of an `ExcludePattern`,
/// which was compiled from its text when the pattern was made.
#[verifier::external_body]
fn pattern_matches(p: &ExcludePattern, text: &str) -> (b: bool)
    ensures
        b == regex_finds(p@, text@),
{
    p.regex.is_match(text)
}

/// A pattern that does not compile.
#[derive(Debug, Clone, PartialEq, Eq)]
pub enum ScanError {
    InvalidPattern(String),
}

/// Compiles the exclusion patterns in order; an error naming the first one
/// that does not compile.
pub fn compile_exclude_patterns(patterns: &Vec<String>) -> (r: Result<Vec<ExcludePattern>, ScanError>)
    ensures
        r matches Ok(v) ==> v@.len() == patterns@.len() && forall|i: int|
            0 <= i < patterns@.len() ==> regex_compiles(patterns@[i]@) && (#[trigger] v@[i])@
                == patterns@[i]@,
        r matches Err(ScanError::InvalidPattern(p)) ==> exists|i: int|
            0 <= i < patterns@.len() && !regex_compiles(#[trigger] patterns@[i]@) && p@ == patterns@[i]@
                && forall|j: int| 0 <= j < i ==> regex_compiles(#[trigger] patterns@[j]@),
{
    let mut out: Vec<ExcludePattern> = Vec::new();
    let mut i: usize = 0;
    while i < patterns.len()
        invariant
            0 <= i <= patterns@.len(),
            out@.len() == i,
            forall|j: int| 0 <= j < i ==> regex_compiles(#[trigger] patterns@[j]@),
            forall|j: int| 0 <= j < i ==> (#[trigger] out@[j])@ == patterns@[j]@,
        decreases patterns@.len() - i,
    {
        match regex_new(patterns[i].as_str()) {
            Ok(regex) => {
                let pattern = patterns[i].clone();
                assert(pattern@ == patterns@[i as int]@);
                let p = ExcludePattern { pattern, regex };
                assert(p@ == patterns@[i as int]@);
                assert(regex_compiles(patterns@[i as int]@));
                out.push(p);
                assert(out@[i as int]@ == patterns@[i as int]@);
            },
            Err(_) => {
                assert(!regex_compiles(patterns@[i as int]@));
                return Err(ScanError::InvalidPattern(patterns[i].clone()));
            },
        }
        i = i + 1;
    }
    Ok(out)
}

/// Whether some exclusion pattern matches the path text.
pub fn is_excluded(path_text: &str, patterns: &Vec<ExcludePattern>) -> (r: bool)
    ensures
        r == exists|i: int| 0 <= i < patterns@.len() && regex_finds((#[trigger] patterns@[i])@, path_text@),
{
    let mut i: usize = 0;
    while i < patterns.len()
        invariant
            0 <= i <= patterns@.len(),
            forall|j: int| 0 <= j < i ==> !regex_finds((#[trigger] patterns@[j])@, path_text@),
        decreases patterns@.len() - i,
    {
        if pattern_matches(&patterns[i], path_text) {
            return true;
        }
        i = i + 1;
    }
    false
}

/// What the scan does with a path it walks over.
#[derive(Debug, Clone, Copy, PartialEq, Eq)]
pub enum PathDecision {
    /// Its extension is not one of those asked for.
    NotVideo,
    /// An exclusion pattern matches it.
    Excluded,
    /// It is looked at further.
    Candidate,
}

/// The extension of `name` (as `file_extension` gives it) is one of
/// `extensions`.
pub open spec fn has_wanted_extension(name: Seq<char>, extensions: Seq<String>) -> bool {
    match extension_of(name) {
        Some(e) => exists|i: int| 0 <= i < extensions.len() && (#[trigger] extensions[i])@ == seq!['.'] + lowercase(e),
        None => false,
    }
}

/// Any extension of the list counts, wherever it stands: a file whose
/// lowercased extension equals the `i`-th listed one has a wanted
/// extension, and a file with a wanted extension matches some listed one.
pub proof fn lemma_any_listed_extension_is_wanted(name: Seq<char>, extensions: Seq<String>, i: int)
    ensures
        (0 <= i < extensions.len() && extension_of(name) is Some && extensions[i]@ == seq!['.'] + lowercase(
            extension_of(name)->0,
        )) ==> has_wanted_extension(name, extensions),
        has_wanted_extension(name, extensions) ==> extension_of(name) is Some && exists|k: int|
            0 <= k < extensions.len() && (#[trigger] extensions[k])@ == seq!['.'] + lowercase(extension_of(name)->0),
{
}

fn string_in(s: &String, set: &Vec<String>) -> (r: bool)
    ensures
        r == exists|i: int| 0 <= i < set@.len() && (#[trigger] set@[i])@ == s@,
{
    let mut i: usize = 0;
    while i < set.len()
        invariant
            0 <= i <= set@.len(),
            forall|j: int| 0 <= j < i ==> (#[trigger] set@[j])@ != s@,
        decreases set@.len() - i,
    {
        if set[i] == *s {
            return true;
        }
        i = i + 1;
    }
    false
}

/// Decides on a walked path from its file name and full text: not a video
/// unless its lowercased extension is one of `extensions`, else excluded
/// when a pattern matches the full text, else a candidate.
pub fn classify_path(
    file_name: &str,
    path_text: &str,
    extensions: &Vec<String>,
    patterns: &Vec<ExcludePattern>,
) -> (r: PathDecision)
    ensures
        !has_wanted_extension(file_name@, extensions@) ==> r == PathDecision::NotVideo,
        has_wanted_extension(file_name@, extensions@) ==> r == if exists|i: int|
            0 <= i < patterns@.len() && regex_finds((#[trigger] patterns@[i])@, path_text@)
        {
            PathDecision::Excluded
        } else {
            PathDecision::Candidate
        },
        forall|k: int|
            0 <= k < extensions@.len() && extension_of(file_name@) is Some && (#[trigger] extensions@[k])@ == seq![
                '.',
            ] + lowercase(extension_of(file_name@)->0) ==> r != PathDecision::NotVideo,
        r != PathDecision::NotVideo ==> extension_of(file_name@) is Some && exists|k: int|
            0 <= k < extensions@.len() && (#[trigger] extensions@[k])@ == seq!['.'] + lowercase(
                extension_of(file_name@)->0,
            ),
{
    proof {
        lemma_any_listed_extension_is_wanted(file_name@, extensions@, 0);
    }
    match file_extension(file_name) {
        Some(ext) => {
            if !string_in(&ext, extensions) {
                return PathDecision::NotVideo;
            }
        },
        None => {
            return PathDecision::NotVideo;
        },
    }
    if is_excluded(path_text, patterns) {
        PathDecision::Excluded
    } else {
        PathDecision::Candidate
    }
}

/// The text `humansize::format_size` gives a byte count with its DECIMAL
/// options (powers of 1000, two decimal places, a space before the unit).
pub uninterp spec fn decimal_size_text(bytes: u64) -> Seq<char>;

/// `humansize::format_size(bytes, humansize::DECIMAL)`: the text depends on
/// the count alone.
#[verifier::external_body]
fn humansize_decimal(bytes: u64) -> (r: String)
    ensures
        r@ == decimal_size_text(bytes),
{
    humansize::format_size(bytes, humansize::DECIMAL)
}

/// A size text with the kilo prefix written as a capital `K` (`KB`), the
/// way the tool shows sizes; every other character unchanged.
pub open spec fn capital_kilo(text: Seq<char>) -> Seq<char> {
    text.map_values(|c: char| if c == 'k' { 'K' } else { c })
}

/// Human-readable size in decimal units (powers of 1000): humansize's
/// decimal text, with the kilo unit written `KB`.
pub fn format_size(bytes: u64) -> (r: String)
    ensures
        r@ == capital_kilo(decimal_size_text(bytes)),
{
    let text = humansize_decimal(bytes);
    let chars = chars_of(text.as_str());
    let mut r = String::new();
    let mut i: usize = 0;
    while i < chars.len()
        invariant
            0 <= i <= chars@.len(),
            chars@ == decimal_size_text(bytes),
            r@ == capital_kilo(chars@.take(i as int)),
        decreases chars@.len() - i,
    {
        let c = chars[i];
        push_char(&mut r, if c == 'k' { 'K' } else { c });
        proof {
            assert(capital_kilo(chars@.take(i + 1)) =~= capital_kilo(chars@.take(i as int)).push(
                if c == 'k' { 'K' } else { c },
            ));
        }
        i = i + 1;
    }
    proof {
        assert(chars@.take(i as int) =~= chars@);
    }
    r
}

} // verus!
