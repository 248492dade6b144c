//! Text as sequences of characters: the few steps between `str`, `String` and
//! `Vec<char>` that the rest of the library builds on.

use vstd::prelude::*;

verus! {

/// Appends one character to a string.
///
/// Trusted: the body is `String::push`, which std documents as appending the
/// given character to the end of the string.
#[verifier::external_body]
pub(crate) fn push_char(s: &mut String, c: char)
    ensures
        final(s)@ == old(s)@.push(c),
{
    s.push(c)
}

/// The characters of a string, in order.
pub fn chars_of(s: &str) -> (v: Vec<char>)
    ensures
        v@ == s@,
{
    let mut v: Vec<char> = Vec::new();
    for c in it: s.chars()
        invariant
            v@ == it.seq().take(it.index() as int),
            it.seq() == s@,
    {
        v.push(c);
    }
    v
}

/// The string made of the characters `chars[from..to]`.
pub fn string_of(chars: &[char], from: usize, to: usize) -> (s: String)
    requires
        from <= to <= chars@.len(),
    ensures
        s@ == chars@.subrange(from as int, to as int),
{
    let mut s = String::new();
    let mut i: usize = from;
    while i < to
        invariant
            from <= i <= to <= chars@.len(),
            s@ == chars@.subrange(from as int, i as int),
        decreases to - i,
    {
        push_char(&mut s, chars[i]);
        i += 1;
        assert(chars@.subrange(from as int, i as int) =~= chars@.subrange(from as int, i - 1).push(
            chars@[i - 1],
        ));
    }
    s
}

/// Appends the characters of `tail` to `s`.
pub fn push_str(s: &mut String, tail: &str)
    ensures
        final(s)@ == old(s)@ + tail@,
{
    let ghost before = s@;
    for c in it: tail.chars()
        invariant
            s@ == before + it.seq().take(it.index() as int),
            it.seq() == tail@,
    {
        push_char(s, c);
        assert(it.seq().take(it.index() + 1) =~= it.seq().take(it.index() as int).push(c));
    }
    assert(tail@.take(tail@.len() as int) =~= tail@);
}


/// Reads bytes as UTF-8 text.
///
/// Trusted: the body is `String::from_utf8`, which std documents to fail
/// exactly on bytes that are not valid UTF-8 and else to hand back the string
/// that is made of these bytes.
#[verifier::external_body]
pub(crate) fn utf8_string(bytes: Vec<u8>) -> (r: Option<String>)
    ensures
        r.is_some() == vstd::utf8::valid_utf8(bytes@),
        r matches Some(s) ==> s@ == vstd::utf8::decode_utf8(bytes@),
{
    String::from_utf8(bytes).ok()
}

/// The bytes `raw[from..to]` as a vector of their own.
pub fn bytes_of(raw: &[u8], from: usize, to: usize) -> (v: Vec<u8>)
    requires
        from <= to <= raw@.len(),
    ensures
        v@ == raw@.subrange(from as int, to as int),
{
    let mut v: Vec<u8> = Vec::new();
    let mut i: usize = from;
    while i < to
        invariant
            from <= i <= to <= raw@.len(),
            v@ == raw@.subrange(from as int, i as int),
        decreases to - i,
    {
        v.push(raw[i]);
        i += 1;
        assert(raw@.subrange(from as int, i as int) =~= raw@.subrange(from as int, i - 1).push(
            raw@[i - 1],
        ));
    }
    v
}

/// Appends bytes to a vector.
pub fn push_bytes(out: &mut Vec<u8>, tail: &[u8])
    ensures
        final(out)@ == old(out)@ + tail@,
{
    let mut i: usize = 0;
    while i < tail.len()
        invariant
            i <= tail@.len(),
            out@ == old(out)@ + tail@.take(i as int),
        decreases tail@.len() - i,
    {
        out.push(tail[i]);
        i += 1;
        assert(tail@.take(i as int) =~= tail@.take(i - 1).push(tail@[i - 1]));
    }
    assert(tail@.take(tail@.len() as int) =~= tail@);
}


/// White space: the characters that Unicode gives the property White_Space.
pub open spec fn is_blank(c: char) -> bool {
    ||| c == ' '
    ||| '\t' <= c <= '\r'
    ||| c == '\u{85}'
    ||| c == '\u{a0}'
    ||| c == '\u{1680}'
    ||| '\u{2000}' <= c <= '\u{200a}'
    ||| c == '\u{2028}'
    ||| c == '\u{2029}'
    ||| c == '\u{202f}'
    ||| c == '\u{205f}'
    ||| c == '\u{3000}'
}

/// Whether a character is white space.
pub fn blank(c: char) -> (b: bool)
    ensures
        b == is_blank(c),
{
    c == ' ' || ('\t' <= c && c <= '\r') || c == '\u{85}' || c == '\u{a0}' || c == '\u{1680}' || (
    '\u{2000}' <= c && c <= '\u{200a}') || c == '\u{2028}' || c == '\u{2029}' || c == '\u{202f}'
        || c == '\u{205f}' || c == '\u{3000}'
}

/// `i` is where `s` begins once the white space at its start is taken off.
pub open spec fn is_trim_lo(s: Seq<char>, i: int) -> bool {
    &&& 0 <= i <= s.len()
    &&& forall|k: int| 0 <= k < i ==> is_blank(#[trigger] s[k])
    &&& (i < s.len() ==> !is_blank(s[i]))
}

/// `j` is where `s` ends once the white space at its end is taken off, and
/// not before `lo`.
pub open spec fn is_trim_hi(s: Seq<char>, lo: int, j: int) -> bool {
    &&& lo <= j <= s.len()
    &&& forall|k: int| j <= k < s.len() ==> is_blank(#[trigger] s[k])
    &&& (j > lo ==> !is_blank(s[j - 1]))
}

/// `s` without the white space at its start and at its end.
pub open spec fn trim(s: Seq<char>) -> Seq<char> {
    let lo = choose|i: int| is_trim_lo(s, i);
    let hi = choose|j: int| is_trim_hi(s, lo, j);
    s.subrange(lo, hi)
}

/// The part of `chars[from..to]` that is left when the white space at its
/// start and at its end is taken off, as the places where it begins and ends.
pub fn trim_range(chars: &[char], from: usize, to: usize) -> (r: (usize, usize))
    requires
        from <= to <= chars@.len(),
    ensures
        from <= r.0 <= r.1 <= to,
        chars@.subrange(r.0 as int, r.1 as int) == trim(chars@.subrange(from as int, to as int)),
{
    let ghost s = chars@.subrange(from as int, to as int);
    let mut a: usize = from;
    while a < to && blank(chars[a])
        invariant
            from <= a <= to <= chars@.len(),
            s == chars@.subrange(from as int, to as int),
            forall|k: int| 0 <= k < a - from ==> is_blank(#[trigger] s[k]),
        decreases to - a,
    {
        a += 1;
    }
    let mut b: usize = to;
    while b > a && blank(chars[b - 1])
        invariant
            a <= b <= to <= chars@.len(),
            from <= a,
            s == chars@.subrange(from as int, to as int),
            forall|k: int| b - from <= k < s.len() ==> is_blank(#[trigger] s[k]),
        decreases b - a,
    {
        b -= 1;
    }
    proof {
        assert(is_trim_lo(s, a - from));
        let lo = choose|i: int| is_trim_lo(s, i);
        assert(lo == a - from);
        assert(is_trim_hi(s, lo, b - from));
        let hi = choose|j: int| is_trim_hi(s, lo, j);
        assert(hi == b - from);
        assert(chars@.subrange(a as int, b as int) =~= s.subrange(lo, hi));
    }
    (a, b)
}

/// `s` begins with `prefix`.
pub open spec fn starts_with(s: Seq<char>, prefix: Seq<char>) -> bool {
    &&& prefix.len() <= s.len()
    &&& s.take(prefix.len() as int) == prefix
}

/// Whether `chars[from..to]` begins with `prefix`.
pub fn range_starts_with(chars: &[char], from: usize, to: usize, prefix: &[char]) -> (b: bool)
    requires
        from <= to <= chars@.len(),
    ensures
        b == starts_with(chars@.subrange(from as int, to as int), prefix@),
{
    let ghost s = chars@.subrange(from as int, to as int);
    if to - from < prefix.len() {
        return false;
    }
    let mut i: usize = 0;
    while i < prefix.len()
        invariant
            from <= to <= chars@.len(),
            prefix@.len() <= to - from,
            i <= prefix@.len(),
            s == chars@.subrange(from as int, to as int),
            forall|k: int| 0 <= k < i ==> s[k] == prefix@[k],
        decreases prefix@.len() - i,
    {
        if chars[from + i] != prefix[i] {
            assert(s.take(prefix@.len() as int)[i as int] != prefix@[i as int]);
            return false;
        }
        i += 1;
    }
    assert(s.take(prefix@.len() as int) =~= prefix@);
    true
}

/// `p` is the first place at or after `from` where `s` holds `c`.
pub open spec fn is_next_char(s: Seq<char>, from: int, c: char, p: int) -> bool {
    &&& from <= p < s.len()
    &&& s[p] == c
    &&& forall|i: int| from <= i < p ==> s[i] != c
}

/// The first place at or after `from` where `s` holds `c`, or the length of
/// `s` where there is none.
pub open spec fn next_char(s: Seq<char>, from: int, c: char) -> int {
    if exists|p: int| is_next_char(s, from, c, p) {
        choose|p: int| is_next_char(s, from, c, p)
    } else {
        s.len() as int
    }
}

/// Looks for `c` in `chars` from place `from` on.
pub fn find_char(chars: &[char], from: usize, c: char) -> (p: usize)
    requires
        from <= chars@.len(),
    ensures
        p == next_char(chars@, from as int, c),
        from <= p <= chars@.len(),
        p < chars@.len() ==> chars@[p as int] == c,
        forall|j: int| from <= j < p ==> chars@[j] != c,
{
    let mut i: usize = from;
    while i < chars.len()
        invariant
            from <= i <= chars@.len(),
            forall|j: int| from <= j < i ==> chars@[j] != c,
        decreases chars@.len() - i,
    {
        if chars[i] == c {
            assert(is_next_char(chars@, from as int, c, i as int));
            return i;
        }
        i += 1;
    }
    i
}


/// `i` is the first place at or after `from` where `raw` holds the byte `b`.
pub open spec fn is_next(raw: Seq<u8>, from: int, b: u8, i: int) -> bool {
    &&& from <= i < raw.len()
    &&& raw[i] == b
    &&& forall|j: int| from <= j < i ==> raw[j] != b
}

/// The first place at or after `from` where `raw` holds the byte `b`, or the
/// length of `raw` where there is none.
pub open spec fn next_of(raw: Seq<u8>, from: int, b: u8) -> int {
    if exists|i: int| is_next(raw, from, b, i) {
        choose|i: int| is_next(raw, from, b, i)
    } else {
        raw.len() as int
    }
}

/// Looks for the byte `b` in `raw` from place `from` on.
pub fn find_byte(raw: &[u8], from: usize, b: u8) -> (i: usize)
    requires
        from <= raw@.len(),
    ensures
        i == next_of(raw@, from as int, b),
        from <= i <= raw@.len(),
        i < raw@.len() ==> raw@[i as int] == b,
        forall|j: int| from <= j < i ==> raw@[j] != b,
{
    let mut i: usize = from;
    while i < raw.len()
        invariant
            from <= i <= raw@.len(),
            forall|j: int| from <= j < i ==> raw@[j] != b,
        decreases raw@.len() - i,
    {
        if raw[i] == b {
            assert(is_next(raw@, from as int, b, i as int));
            return i;
        }
        i += 1;
    }
    i
}



/// A number in decimal digits, without leading zeros.
pub open spec fn decimal_text(n: nat) -> Seq<char>
    decreases n,
{
    if n < 10 {
        seq![(48 + n) as u8 as char]
    } else {
        decimal_text(n / 10).push((48 + n % 10) as u8 as char)
    }
}

/// Appends a number in decimal digits.
pub fn push_decimal(out: &mut String, n: u64)
    ensures
        final(out)@ == old(out)@ + decimal_text(n as nat),
    decreases n,
{
    if n >= 10 {
        push_decimal(out, n / 10);
    }
    let d: u8 = 48 + (n % 10) as u8;
    push_char(out, d as char);
    assert(out@ =~= old(out)@ + decimal_text(n as nat));
}



/// The bytes of a text of ASCII characters: one byte for each character.
pub open spec fn ascii_bytes(s: Seq<char>) -> Seq<u8> {
    Seq::new(s.len(), |i: int| s[i] as u8)
}

/// No character comes before the zero character.
proof fn lemma_char_from_zero(c: char)
    ensures
        '\0' <= c,
{
}

/// A text of ASCII characters is written in UTF-8 as its characters, byte by
/// byte.
pub proof fn lemma_ascii_bytes(s: Seq<char>)
    requires
        forall|i: int| 0 <= i < s.len() ==> (#[trigger] s[i]) <= '\u{7f}',
    ensures
        vstd::utf8::encode_utf8(s) == ascii_bytes(s),
{
    assert forall|i: int| 0 <= i < s.len() implies '\0' <= #[trigger] s[i] <= '\u{7f}' by {
        lemma_char_from_zero(s[i]);
    }
    vstd::utf8::is_ascii_chars_encode_utf8(s);
    assert(vstd::utf8::encode_utf8(s) =~= ascii_bytes(s));
}

} // verus!
