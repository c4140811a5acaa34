use vstd::prelude::*;

verus! {

/// Appends one character to a `String` (`String::push`).
#[verifier::external_body]
pub(crate) fn push_char(s: &mut String, c: char)
    ensures
        final(s)@ == old(s)@.push(c),
{
    s.push(c)
}

/// The lowercase form of a string as `str::to_lowercase` computes it (every
/// character mapped by its Unicode lowercase mapping).
pub uninterp spec fn lowercase(s: Seq<char>) -> Seq<char>;

/// `str::to_lowercase`: the result depends on the characters alone.
#[verifier::external_body]
pub(crate) fn to_lowercase(s: &str) -> (r: String)
    ensures
        r@ == lowercase(s@),
{
    s.to_lowercase()
}

/// The characters of a string slice.
pub fn chars_of(s: &str) -> (v: Vec<char>)
    ensures
        v@ == s@,
{
    let n = s.unicode_len();
    let mut v: Vec<char> = Vec::new();
    let mut i: usize = 0;
    while i < n
        invariant
            n == s@.len(),
            0 <= i <= n,
            v@ == s@.take(i as int),
        decreases n - i,
    {
        let c = s.get_char(i);
        v.push(c);
        proof {
            assert(s@.take(i + 1) =~= s@.take(i as int).push(c));
        }
        i = i + 1;
    }
    proof {
        assert(s@.take(n as int) =~= s@);
    }
    v
}

/// Appends the characters `chars[from..to]` to `s`.
pub fn push_chars(s: &mut String, chars: &[char], from: usize, to: usize)
    requires
        from <= to <= chars@.len(),
    ensures
        final(s)@ == old(s)@ + chars@.subrange(from as int, to as int),
{
    let mut i: usize = from;
    while i < to
        invariant
            from <= i <= to <= chars@.len(),
            s@ == old(s)@ + chars@.subrange(from as int, i as int),
        decreases to - i,
    {
        push_char(s, chars[i]);
        proof {
            assert(chars@.subrange(from as int, i + 1) =~= chars@.subrange(from as int, i as int).push(
                chars@[i as int],
            ));
        }
        i = i + 1;
    }
}

/// The decimal digit character for `d < 10`.
pub open spec fn digit_char(d: nat) -> char {
    (d + 48) as char
}

/// The decimal representation of `n`, without leading zeros.
pub open spec fn decimal(n: nat) -> Seq<char>
    decreases n,
{
    if n < 10 {
        seq![digit_char(n)]
    } else {
        decimal(n / 10).push(digit_char(n % 10))
    }
}

fn digit_of(d: u64) -> (c: char)
    requires
        d < 10,
    ensures
        c == digit_char(d as nat),
{
    let b: u8 = (d as u8) + 48;
    b as char
}

/// Appends the decimal representation of `n` to `s`.
pub fn push_decimal(s: &mut String, n: u64)
    ensures
        final(s)@ == old(s)@ + decimal(n as nat),
{
    let mut digits: Vec<char> = Vec::new();
    let mut v: u64 = n;
    loop
        invariant_except_break
            decimal(n as nat) == decimal(v as nat) + digits@.reverse(),
        ensures
            decimal(n as nat) == digits@.reverse(),
        decreases v,
    {
        let c = digit_of(v % 10);
        let ghost old_digits = digits@;
        digits.push(c);
        proof {
            assert(digits@.reverse() =~= seq![c] + old_digits.reverse());
        }
        if v < 10 {
            proof {
                assert(decimal(v as nat) =~= seq![c]);
            }
            break;
        }
        proof {
            assert(decimal(v as nat) == decimal((v / 10) as nat).push(c));
            assert(decimal((v / 10) as nat).push(c) + old_digits.reverse() =~= decimal((v / 10) as nat)
                + digits@.reverse());
        }
        v = v / 10;
    }
    let mut i: usize = digits.len();
    while i > 0
        invariant
            0 <= i <= digits@.len(),
            s@ == old(s)@ + digits@.reverse().take(digits@.len() - i),
        decreases i,
    {
        i = i - 1;
        push_char(s, digits[i]);
        proof {
            assert(digits@.reverse().take(digits@.len() - i) =~= digits@.reverse().take(
                digits@.len() - i - 1,
            ).push(digits@[i as int]));
        }
    }
    proof {
        assert(digits@.reverse().take(digits@.len() as int) =~= digits@.reverse());
    }
}

/// The lowercase hexadecimal digit character for `d < 16`.
pub open spec fn hex_char(d: nat) -> char {
    if d < 10 {
        (d + 48) as char
    } else {
        (d + 87) as char
    }
}

/// Two lowercase hexadecimal digits for a byte.
pub open spec fn hex_pair(b: u8) -> Seq<char> {
    seq![hex_char(b as nat / 16), hex_char(b as nat % 16)]
}

/// Each byte as two lowercase hexadecimal digits, in order.
pub open spec fn hex_bytes(s: Seq<u8>) -> Seq<char>
    decreases s.len(),
{
    if s.len() == 0 {
        Seq::empty()
    } else {
        hex_bytes(s.drop_last()) + hex_pair(s.last())
    }
}

/// The hexadecimal digit character for `d < 16`.
pub fn hex_digit(d: u8) -> (c: char)
    requires
        d < 16,
    ensures
        c == hex_char(d as nat),
{
    if d < 10 {
        let b: u8 = d + 48;
        b as char
    } else {
        let b: u8 = d + 87;
        b as char
    }
}

/// Appends `hex_bytes(bytes)` to `s`.
pub fn push_hex_bytes(s: &mut String, bytes: &[u8])
    ensures
        final(s)@ == old(s)@ + hex_bytes(bytes@),
{
    let mut i: usize = 0;
    while i < bytes.len()
        invariant
            0 <= i <= bytes@.len(),
            s@ == old(s)@ + hex_bytes(bytes@.take(i as int)),
        decreases bytes@.len() - i,
    {
        let b = bytes[i];
        push_char(s, hex_digit(b / 16));
        push_char(s, hex_digit(b % 16));
        proof {
            assert(bytes@.take(i + 1).drop_last() =~= bytes@.take(i as int));
            assert(s@ =~= old(s)@ + hex_bytes(bytes@.take(i + 1)));
        }
        i = i + 1;
    }
    proof {
        assert(bytes@.take(i as int) =~= bytes@);
    }
}

/// Whitespace as `char::is_whitespace` defines it: the characters with the
/// Unicode `White_Space` property.
pub open spec fn is_whitespace(c: char) -> bool {
    let u = c as u32;
    ||| 0x09 <= u <= 0x0d
    ||| u == 0x20
    ||| u == 0x85
    ||| u == 0xa0
    ||| u == 0x1680
    ||| 0x2000 <= u <= 0x200a
    ||| u == 0x2028
    ||| u == 0x2029
    ||| u == 0x202f
    ||| u == 0x205f
    ||| u == 0x3000
}

/// Whether a character is whitespace.
pub fn char_is_whitespace(c: char) -> (b: bool)
    ensures
        b == is_whitespace(c),
{
    let u = c as u32;
    (0x09 <= u && u <= 0x0d) || u == 0x20 || u == 0x85 || u == 0xa0 || u == 0x1680 || (0x2000 <= u
        && u <= 0x200a) || u == 0x2028 || u == 0x2029 || u == 0x202f || u == 0x205f || u == 0x3000
}

/// Index of the first non-whitespace character of `s` (its length when
/// there is none).
pub open spec fn trim_start_index(s: Seq<char>) -> int
    decreases s.len(),
{
    if s.len() == 0 {
        0
    } else if is_whitespace(s[0]) {
        1 + trim_start_index(s.drop_first())
    } else {
        0
    }
}

/// Index just past the last non-whitespace character of `s` (0 when there
/// is none).
pub open spec fn trim_end_index(s: Seq<char>) -> int
    decreases s.len(),
{
    if s.len() == 0 {
        0
    } else if is_whitespace(s.last()) {
        trim_end_index(s.drop_last())
    } else {
        s.len() as int
    }
}

/// `s` without leading and trailing whitespace (`str::trim`).
pub open spec fn trim(s: Seq<char>) -> Seq<char> {
    let e = trim_end_index(s);
    let b = trim_start_index(s);
    if b >= e {
        Seq::empty()
    } else {
        s.subrange(b, e)
    }
}

proof fn lemma_trim_start_bounds(s: Seq<char>)
    ensures
        0 <= trim_start_index(s) <= s.len(),
        forall|i: int| 0 <= i < trim_start_index(s) ==> is_whitespace(#[trigger] s[i]),
        trim_start_index(s) < s.len() ==> !is_whitespace(s[trim_start_index(s)]),
    decreases s.len(),
{
    if s.len() > 0 && is_whitespace(s[0]) {
        lemma_trim_start_bounds(s.drop_first());
        assert forall|i: int| 0 <= i < trim_start_index(s) implies is_whitespace(#[trigger] s[i]) by {
            if i > 0 {
                assert(s[i] == s.drop_first()[i - 1]);
            }
        }
    }
}

proof fn lemma_trim_end_bounds(s: Seq<char>)
    ensures
        0 <= trim_end_index(s) <= s.len(),
        forall|i: int| trim_end_index(s) <= i < s.len() ==> is_whitespace(#[trigger] s[i]),
        trim_end_index(s) > 0 ==> !is_whitespace(s[trim_end_index(s) - 1]),
    decreases s.len(),
{
    if s.len() > 0 && is_whitespace(s.last()) {
        lemma_trim_end_bounds(s.drop_last());
        assert forall|i: int| trim_end_index(s) <= i < s.len() implies is_whitespace(#[trigger] s[i]) by {
            if i < s.len() - 1 {
                assert(s[i] == s.drop_last()[i]);
            }
        }
    }
}

proof fn lemma_trim_start_unique(s: Seq<char>, b: int)
    requires
        0 <= b <= s.len(),
        forall|i: int| 0 <= i < b ==> is_whitespace(#[trigger] s[i]),
        b < s.len() ==> !is_whitespace(s[b]),
    ensures
        trim_start_index(s) == b,
    decreases s.len(),
{
    if s.len() > 0 && b > 0 {
        assert(is_whitespace(s[0]));
        assert forall|i: int| 0 <= i < b - 1 implies is_whitespace(#[trigger] s.drop_first()[i]) by {
            assert(s.drop_first()[i] == s[i + 1]);
        }
        if b - 1 < s.len() - 1 {
            assert(s.drop_first()[b - 1] == s[b]);
        }
        lemma_trim_start_unique(s.drop_first(), b - 1);
    }
}

proof fn lemma_trim_end_unique(s: Seq<char>, e: int)
    requires
        0 <= e <= s.len(),
        forall|i: int| e <= i < s.len() ==> is_whitespace(#[trigger] s[i]),
        e > 0 ==> !is_whitespace(s[e - 1]),
    ensures
        trim_end_index(s) == e,
    decreases s.len(),
{
    if s.len() > 0 && e < s.len() {
        assert(is_whitespace(s[s.len() - 1]));
        assert forall|i: int| e <= i < s.len() - 1 implies is_whitespace(#[trigger] s.drop_last()[i]) by {
            assert(s.drop_last()[i] == s[i]);
        }
        if e > 0 {
            assert(s.drop_last()[e - 1] == s[e - 1]);
        }
        lemma_trim_end_unique(s.drop_last(), e);
    }
}

/// The bounds `(b, e)` of the trimmed part of `chars[from..to]`, as indices
/// into `chars`.
pub fn trim_bounds(chars: &[char], from: usize, to: usize) -> (r: (usize, usize))
    requires
        from <= to <= chars@.len(),
    ensures
        from <= r.0 <= r.1 <= to,
        chars@.subrange(r.0 as int, r.1 as int) == trim(chars@.subrange(from as int, to as int)),
{
    let ghost s = chars@.subrange(from as int, to as int);
    let mut b: usize = from;
    while b < to && char_is_whitespace(chars[b])
        invariant
            from <= b <= to <= chars@.len(),
            forall|i: int| from <= i < b ==> is_whitespace(#[trigger] chars@[i]),
        decreases to - b,
    {
        b = b + 1;
    }
    let mut e: usize = to;
    while e > b && char_is_whitespace(chars[e - 1])
        invariant
            from <= b <= e <= to <= chars@.len(),
            forall|i: int| e <= i < to ==> is_whitespace(#[trigger] chars@[i]),
        decreases e,
    {
        e = e - 1;
    }
    proof {
        lemma_trim_start_unique(s, b - from);
        lemma_trim_start_bounds(s);
        lemma_trim_end_bounds(s);
        if e > b {
            assert(!is_whitespace(chars@[e - 1]));
            lemma_trim_end_unique(s, e - from);
            assert(chars@.subrange(b as int, e as int) =~= s.subrange(b - from, e - from));
        } else {
            // every character of s is whitespace, or the trimmed part is empty
            assert forall|i: int| b - from <= i < s.len() implies is_whitespace(#[trigger] s[i]) by {
                assert(s[i] == chars@[from + i]);
                if b < to {
                    assert(e == b);
                }
            }
            if trim_end_index(s) > b - from {
                assert(!is_whitespace(s[trim_end_index(s) - 1]));
            }
            assert(chars@.subrange(b as int, e as int) =~= Seq::<char>::empty());
        }
    }
    (b, e)
}

/// Whether `s` begins with `prefix`.
pub open spec fn has_prefix(s: Seq<char>, prefix: Seq<char>) -> bool {
    prefix.len() <= s.len() && s.take(prefix.len() as int) == prefix
}

/// Whether `chars[from..to]` begins with `prefix`.
pub fn starts_with_at(chars: &[char], from: usize, to: usize, prefix: &[char]) -> (b: bool)
    requires
        from <= to <= chars@.len(),
    ensures
        b == has_prefix(chars@.subrange(from as int, to as int), prefix@),
{
    let ghost s = chars@.subrange(from as int, to as int);
    if prefix.len() > to - from {
        return false;
    }
    let mut i: usize = 0;
    while i < prefix.len()
        invariant
            prefix@.len() <= to - from,
            from <= to <= chars@.len(),
            s == chars@.subrange(from as int, to as int),
            0 <= i <= prefix@.len(),
            forall|j: int| 0 <= j < i ==> chars@[from + j] == prefix@[j],
        decreases prefix@.len() - i,
    {
        if chars[from + i] != prefix[i] {
            proof {
                assert(s.take(prefix@.len() as int)[i as int] != prefix@[i as int]);
            }
            return false;
        }
        i = i + 1;
    }
    proof {
        assert(s.take(prefix@.len() as int) =~= prefix@);
    }
    true
}

/// Whether two byte strings are equal.
pub fn bytes_equal(a: &[u8], b: &[u8]) -> (r: bool)
    ensures
        r == (a@ == b@),
{
    if a.len() != b.len() {
        return false;
    }
    let mut i: usize = 0;
    while i < a.len()
        invariant
            a@.len() == b@.len(),
            0 <= i <= a@.len(),
            forall|j: int| 0 <= j < i ==> a@[j] == b@[j],
        decreases a@.len() - i,
    {
        if a[i] != b[i] {
            return false;
        }
        i = i + 1;
    }
    proof {
        assert(a@ =~= b@);
    }
    true
}

/// Whether two character strings are equal.
pub fn chars_equal(a: &[char], b: &[char]) -> (r: bool)
    ensures
        r == (a@ == b@),
{
    if a.len() != b.len() {
        return false;
    }
    let mut i: usize = 0;
    while i < a.len()
        invariant
            a@.len() == b@.len(),
            0 <= i <= a@.len(),
            forall|j: int| 0 <= j < i ==> a@[j] == b@[j],
        decreases a@.len() - i,
    {
        if a[i] != b[i] {
            return false;
        }
        i = i + 1;
    }
    proof {
        assert(a@ =~= b@);
    }
    true
}

/// The pieces of `s` between occurrences of `sep` (`str::split`): one more
/// piece than there are separators, empty pieces included.
pub open spec fn split_on(s: Seq<char>, sep: char) -> Seq<Seq<char>>
    decreases s.len(),
{
    if s.len() == 0 {
        seq![Seq::empty()]
    } else {
        let rest = split_on(s.drop_last(), sep);
        if s.last() == sep {
            rest.push(Seq::empty())
        } else {
            rest.update(rest.len() - 1, rest.last().push(s.last()))
        }
    }
}

pub proof fn lemma_split_on_nonempty(s: Seq<char>, sep: char)
    ensures
        split_on(s, sep).len() >= 1,
    decreases s.len(),
{
    if s.len() > 0 {
        lemma_split_on_nonempty(s.drop_last(), sep);
    }
}

/// The `(start, end)` character ranges of the pieces of `chars` between
/// occurrences of `sep`.
pub fn split_ranges(chars: &[char], sep: char) -> (r: Vec<(usize, usize)>)
    ensures
        r@.len() == split_on(chars@, sep).len(),
        forall|i: int|
            0 <= i < r@.len() ==> (#[trigger] r@[i]).0 <= r@[i].1 <= chars@.len() && chars@.subrange(
                r@[i].0 as int,
                r@[i].1 as int,
            ) == split_on(chars@, sep)[i],
{
    let mut r: Vec<(usize, usize)> = Vec::new();
    let mut start: usize = 0;
    let mut k: usize = 0;
    while k < chars.len()
        invariant
            0 <= start <= k <= chars@.len(),
            split_on(chars@.take(k as int), sep).len() == r@.len() + 1,
            forall|i: int|
                0 <= i < r@.len() ==> (#[trigger] r@[i]).0 <= r@[i].1 <= chars@.len() && chars@.subrange(
                    r@[i].0 as int,
                    r@[i].1 as int,
                ) == split_on(chars@.take(k as int), sep)[i],
            chars@.subrange(start as int, k as int) == split_on(chars@.take(k as int), sep).last(),
        decreases chars@.len() - k,
    {
        let ghost prev = split_on(chars@.take(k as int), sep);
        proof {
            assert(chars@.take(k + 1).drop_last() =~= chars@.take(k as int));
            assert(chars@.take(k + 1).last() == chars@[k as int]);
            lemma_split_on_nonempty(chars@.take(k as int), sep);
        }
        if chars[k] == sep {
            r.push((start, k));
            start = k + 1;
            proof {
                assert(chars@.subrange(start as int, k + 1) =~= Seq::<char>::empty());
            }
        } else {
            proof {
                assert(chars@.subrange(start as int, k + 1) =~= chars@.subrange(start as int, k as int).push(
                    chars@[k as int],
                ));
            }
        }
        k = k + 1;
    }
    r.push((start, k));
    proof {
        assert(chars@.take(k as int) =~= chars@);
        lemma_split_on_nonempty(chars@, sep);
    }
    r
}

} // verus!
