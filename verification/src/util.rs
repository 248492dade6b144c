//! Content identity: the 256-bit id of a stored object and its base-32 text form.

use vstd::prelude::*;
use crate::text::push_char;
use vstd::string::StringSliceAdditionalSpecFns;

verus! {

/// A 256-bit content hash: the key of blobs, commits, trees and annotation metadata.
pub type Id = [u8; 32];

/// The SHA-256 digest of a byte sequence.
pub uninterp spec fn sha256(data: Seq<u8>) -> Seq<u8>;

/// Hashes a buffer held in memory.
///
/// Trusted: the body feeds the buffer to `crypto::sha2::Sha256` through
/// `Digest::input` and reads the digest with `Digest::result`; the contract
/// names what comes back `sha256` of the input. The hasher counts its input in
/// bits in a `u64` and panics past that, so longer inputs are left out.
#[verifier::external_body]
pub fn calc_id_buf(buf: &[u8]) -> (id: Id)
    requires
        buf@.len() < 0x2000_0000_0000_0000,
    ensures
        id@ == sha256(buf@),
{
    let mut hasher = crypto::sha2::Sha256::new();
    let mut res = [0u8; 32];
    crypto::digest::Digest::input(&mut hasher, buf);
    crypto::digest::Digest::result(&mut hasher, &mut res);
    res
}

/// The first 32 bytes of a sequence, filled up with zeros.
pub open spec fn id_of(bytes: Seq<u8>) -> Seq<u8> {
    Seq::new(32, |i: int| if i < bytes.len() { bytes[i] } else { 0u8 })
}

/// Makes an id of the first 32 bytes of a slice; missing bytes are zero.
pub fn to_id(slice: &[u8]) -> (id: Id)
    ensures
        id@ == id_of(slice@),
{
    let mut res: Id = [0u8; 32];
    let mut i: usize = 0;
    while i < 32 && i < slice.len()
        invariant
            i <= 32,
            i <= slice@.len(),
            forall|j: int| 0 <= j < i ==> res@[j] == slice@[j],
            forall|j: int| i <= j < 32 ==> res@[j] == 0,
        decreases 32 - i,
    {
        res[i] = slice[i];
        i += 1;
    }
    assert(res@ =~= id_of(slice@));
    res
}

/// The zbase32 alphabet: the character that stands for each 5-bit value.
pub open spec fn zbase32_alphabet() -> Seq<char> {
    seq![
        'y', 'b', 'n', 'd', 'r', 'f', 'g', '8', 'e', 'j', 'k', 'm', 'c', 'p', 'q', 'x',
        'o', 't', '1', 'u', 'w', 'i', 's', 'z', 'a', '3', '4', '5', 'h', '7', '6', '9',
    ]
}

/// The 5-bit value that a byte of text stands for: its place in the alphabet,
/// and 0 for a byte that is not in it.
pub open spec fn zbase32_value(b: u8) -> u8 {
    if exists|v: int| 0 <= v < 32 && zbase32_alphabet()[v] as u8 == b {
        (choose|v: int| 0 <= v < 32 && zbase32_alphabet()[v] as u8 == b) as u8
    } else {
        0
    }
}

/// The `j`-th group of five bits of `data`, taken from the most significant
/// bit of the first byte on; bits past the end are zero.
pub open spec fn quintet(data: Seq<u8>, j: int) -> u8
    recommends
        0 <= 5 * j < 8 * data.len(),
{
    let k = 5 * j / 8;
    let o = (5 * j % 8) as u16;
    let hi = data[k] as u16;
    let lo = if k + 1 < data.len() { data[k + 1] as u16 } else { 0u16 };
    ((((hi << 8) | lo) >> ((11 - o) as u16)) & 31) as u8
}

/// The number of 5-bit groups that cover `n` bytes.
pub open spec fn zbase32_len(n: nat) -> nat {
    ((8 * n + 4) / 5) as nat
}

/// The zbase32 text of a byte sequence: one character for each group of five
/// bits, left-aligned, without padding characters.
pub open spec fn zbase32_text(data: Seq<u8>) -> Seq<char> {
    Seq::new(zbase32_len(data.len()), |j: int| zbase32_alphabet()[quintet(data, j) as int])
}

/// The 5-bit values of a text's bytes.
pub open spec fn zbase32_values(text: Seq<u8>) -> Seq<u8> {
    Seq::new(text.len(), |i: int| zbase32_value(text[i]))
}

/// The `k`-th group of eight bits in a sequence of 5-bit values; bits past the
/// end are zero.
pub open spec fn octet(values: Seq<u8>, k: int) -> u8
    recommends
        0 <= 8 * k < 5 * values.len(),
{
    let a = 8 * k / 5;
    let o = (8 * k % 5) as u16;
    let v0 = values[a] as u16;
    let v1 = if a + 1 < values.len() { values[a + 1] as u16 } else { 0u16 };
    let v2 = if a + 2 < values.len() { values[a + 2] as u16 } else { 0u16 };
    (((((v0 & 31) << 10) | ((v1 & 31) << 5) | (v2 & 31)) >> ((7 - o) as u16)) & 255) as u8
}

/// The number of bytes that `m` characters give: every started byte counts.
pub open spec fn zbase32_byte_len(m: nat) -> nat {
    ((5 * m + 7) / 8) as nat
}

/// The bytes that a zbase32 text stands for. A last byte that the text only
/// starts is filled up with zero bits.
pub open spec fn zbase32_bytes(text: Seq<u8>) -> Seq<u8> {
    Seq::new(zbase32_byte_len(text.len()), |k: int| octet(zbase32_values(text), k))
}

fn zbase32_digit(v: u8) -> (c: char)
    requires
        v < 32,
    ensures
        c == zbase32_alphabet()[v as int],
{
    match v {
        0 => 'y',
        1 => 'b',
        2 => 'n',
        3 => 'd',
        4 => 'r',
        5 => 'f',
        6 => 'g',
        7 => '8',
        8 => 'e',
        9 => 'j',
        10 => 'k',
        11 => 'm',
        12 => 'c',
        13 => 'p',
        14 => 'q',
        15 => 'x',
        16 => 'o',
        17 => 't',
        18 => '1',
        19 => 'u',
        20 => 'w',
        21 => 'i',
        22 => 's',
        23 => 'z',
        24 => 'a',
        25 => '3',
        26 => '4',
        27 => '5',
        28 => 'h',
        29 => '7',
        30 => '6',
        _ => '9',
    }
}


proof fn lemma_alphabet_distinct()
    ensures
        forall|i: int, j: int|
            0 <= i < 32 && 0 <= j < 32 && zbase32_alphabet()[i] as u8 == zbase32_alphabet()[j] as u8
                ==> i == j,
{
    let a = zbase32_alphabet();
    assert forall|i: int, j: int| 0 <= i < 32 && 0 <= j < 32 && a[i] as u8 == a[j] as u8 implies i
        == j by {
        lemma_alphabet_at(i);
        lemma_alphabet_at(j);
    }
}

/// The place and the byte of each character of the alphabet.
proof fn lemma_alphabet_at(i: int)
    requires
        0 <= i < 32,
    ensures
        zbase32_alphabet()[i] as u8 == alphabet_byte(i),
{
}

/// The alphabet as bytes, by arithmetic on the place.
spec fn alphabet_byte(i: int) -> u8 {
    if i == 0 {
        121
    } else if i == 1 {
        98
    } else if i == 2 {
        110
    } else if i == 3 {
        100
    } else if i == 4 {
        114
    } else if i == 5 {
        102
    } else if i == 6 {
        103
    } else if i == 7 {
        56
    } else if i == 8 {
        101
    } else if i == 9 {
        106
    } else if i == 10 {
        107
    } else if i == 11 {
        109
    } else if i == 12 {
        99
    } else if i == 13 {
        112
    } else if i == 14 {
        113
    } else if i == 15 {
        120
    } else if i == 16 {
        111
    } else if i == 17 {
        116
    } else if i == 18 {
        49
    } else if i == 19 {
        117
    } else if i == 20 {
        119
    } else if i == 21 {
        105
    } else if i == 22 {
        115
    } else if i == 23 {
        122
    } else if i == 24 {
        97
    } else if i == 25 {
        51
    } else if i == 26 {
        52
    } else if i == 27 {
        53
    } else if i == 28 {
        104
    } else if i == 29 {
        55
    } else if i == 30 {
        54
    } else {
        57
    }
}

/// A byte that stands at place `v` of the alphabet has the value `v`.
proof fn lemma_value_of_digit(v: int)
    requires
        0 <= v < 32,
    ensures
        zbase32_value(zbase32_alphabet()[v] as u8) == v,
{
    lemma_alphabet_distinct();
}

/// A byte that is no character of the alphabet has the value 0.
proof fn lemma_value_of_other(b: u8)
    requires
        forall|v: int| 0 <= v < 32 ==> alphabet_byte(v) != b,
    ensures
        zbase32_value(b) == 0,
{
    assert forall|v: int| 0 <= v < 32 implies zbase32_alphabet()[v] as u8 != b by {
        lemma_alphabet_at(v);
    }
}

fn zbase32_index(b: u8) -> (v: u8)
    ensures
        v == zbase32_value(b),
        v < 32,
{
    let v: u8 = match b {
        121 => 0,
        98 => 1,
        110 => 2,
        100 => 3,
        114 => 4,
        102 => 5,
        103 => 6,
        56 => 7,
        101 => 8,
        106 => 9,
        107 => 10,
        109 => 11,
        99 => 12,
        112 => 13,
        113 => 14,
        120 => 15,
        111 => 16,
        116 => 17,
        49 => 18,
        117 => 19,
        119 => 20,
        105 => 21,
        115 => 22,
        122 => 23,
        97 => 24,
        51 => 25,
        52 => 26,
        53 => 27,
        104 => 28,
        55 => 29,
        54 => 30,
        57 => 31,
        _ => 32,
    };
    if v == 32 {
        proof {
            lemma_value_of_other(b);
        }
        0
    } else {
        proof {
            lemma_alphabet_at(v as int);
            lemma_value_of_digit(v as int);
        }
        v
    }
}

/// Writes bytes as zbase32 text.
pub fn to_zbase32(dat: &[u8]) -> (text: String)
    ensures
        text@ == zbase32_text(dat@),
{
    let n = dat.len();
    let mut res = String::new();
    let mut k: usize = 0;
    let mut o: u16 = 0;
    let ghost mut j: int = 0;
    while k < n
        invariant
            n == dat@.len(),
            k <= n,
            o < 8,
            k == n ==> o < 5,
            0 <= j,
            5 * j == 8 * k + o,
            res@ == Seq::new(j as nat, |t: int| zbase32_alphabet()[quintet(dat@, t) as int]),
        decreases 8 * (n - k) + 8 - o,
    {
        let hi = dat[k] as u16;
        let lo = if k + 1 < n { dat[k + 1] as u16 } else { 0u16 };
        let shift: u16 = 11 - o;
        let q = (((hi << 8) | lo) >> shift) & 31;
        assert(q < 32) by (bit_vector)
            requires
                q == (((hi << 8) | lo) >> shift) & 31,
        ;
        let c = zbase32_digit(q as u8);
        push_char(&mut res, c);
        proof {
            assert(5 * j / 8 == k as int);
            assert(5 * j % 8 == o as int);
            assert(q as u8 == quintet(dat@, j));
            assert(res@ =~= Seq::new(
                (j + 1) as nat,
                |t: int| zbase32_alphabet()[quintet(dat@, t) as int],
            ));
            j = j + 1;
        }
        o = o + 5;
        if o >= 8 {
            o = o - 8;
            k = k + 1;
        }
    }
    assert(j == zbase32_len(dat@.len()));
    res
}

/// Reads the bytes of a zbase32 text back into the bytes it stands for. Every
/// byte of the text counts as one group of five bits; a byte that is not in
/// the alphabet stands for zero.
pub fn zbase32_decode(b: &[u8]) -> (bytes: Vec<u8>)
    ensures
        bytes@ == zbase32_bytes(b@),
{
    let m = b.len();
    let mut res: Vec<u8> = Vec::new();
    let mut a: usize = 0;
    let mut o: u16 = 0;
    let mut done = m == 0;
    let ghost values = zbase32_values(b@);
    while !done
        invariant
            m == b@.len(),
            values == zbase32_values(b@),
            !done ==> a < m && o < 5 && 8 * res@.len() == 5 * a + o,
            done ==> res@.len() == zbase32_byte_len(m as nat),
            res@.len() <= zbase32_byte_len(m as nat),
            forall|k: int| 0 <= k < res@.len() ==> res@[k] == octet(values, k),
        decreases (if done { 0int } else { 1int }), 5 * (m - a) - o,
    {
        let ghost k = res@.len() as int;
        let v0 = zbase32_index(b[a]) as u16;
        let v1 = if m - a > 1 { zbase32_index(b[a + 1]) as u16 } else { 0u16 };
        let v2 = if m - a > 2 { zbase32_index(b[a + 2]) as u16 } else { 0u16 };
        let shift: u16 = 7 - o;
        let w = ((((v0 & 31) << 10) | ((v1 & 31) << 5) | (v2 & 31)) >> shift) & 255;
        assert(w < 256) by (bit_vector)
            requires
                w == ((((v0 & 31) << 10) | ((v1 & 31) << 5) | (v2 & 31)) >> shift) & 255,
        ;
        proof {
            assert(8 * k / 5 == a as int);
            assert(8 * k % 5 == o as int);
            assert(w as u8 == octet(values, k));
        }
        res.push(w as u8);
        let left = m - a;
        if left == 1 || (left == 2 && o >= 2) {
            done = true;
        } else if o >= 2 {
            a = a + 2;
            o = o - 2;
        } else {
            a = a + 1;
            o = o + 3;
        }
    }
    assert(res@ =~= zbase32_bytes(b@));
    res
}

/// Reads zbase32 text back into bytes. Every byte of the text counts as one
/// group of five bits; a byte that is not in the alphabet stands for zero.
pub fn from_zbase32(s: &str) -> (bytes: Vec<u8>)
    ensures
        bytes@ == zbase32_bytes(s.spec_bytes()),
{
    zbase32_decode(s.as_bytes())
}

/// Reads a zbase32 text as an id: the first 32 bytes it stands for, filled
/// up with zeros.
pub fn zbase32_to_id(s: &str) -> (id: Id)
    ensures
        id@ == id_of(zbase32_bytes(s.spec_bytes())),
{
    let bytes = from_zbase32(s);
    to_id(bytes.as_slice())
}


proof fn lemma_mask_bound(x: u16)
    by (bit_vector)
    ensures
        x & 31 < 32,
{
}

proof fn lemma_octet_at_0(d: u16, lo: u16, v2: u16)
    by (bit_vector)
    requires
        d < 256,
        lo < 256,
    ensures
        ({
            let w = (d << 8) | lo;
            let v0 = (w >> 11) & 31;
            let v1 = (w >> 6) & 31;
            (((((v0 & 31) << 10) | ((v1 & 31) << 5) | (v2 & 31)) >> 7) & 255) == d
        }),
{
}

proof fn lemma_octet_at_1(p: u16, d: u16, lo: u16)
    by (bit_vector)
    requires
        p < 256,
        d < 256,
        lo < 256,
    ensures
        ({
            let v0 = ((((p << 8) | d) >> 6) & 31);
            let v1 = ((((d << 8) | lo) >> 9) & 31);
            let v2 = ((((d << 8) | lo) >> 4) & 31);
            (((((v0 & 31) << 10) | ((v1 & 31) << 5) | (v2 & 31)) >> 4) & 255) == d
        }),
{
}

proof fn lemma_octet_at_2(p: u16, d: u16, lo: u16, v2: u16)
    by (bit_vector)
    requires
        p < 256,
        d < 256,
        lo < 256,
    ensures
        ({
            let v0 = ((((p << 8) | d) >> 4) & 31);
            let v1 = ((((d << 8) | lo) >> 7) & 31);
            (((((v0 & 31) << 10) | ((v1 & 31) << 5) | (v2 & 31)) >> 6) & 255) == d
        }),
{
}

proof fn lemma_octet_at_3(p: u16, d: u16, lo: u16)
    by (bit_vector)
    requires
        p < 256,
        d < 256,
        lo < 256,
    ensures
        ({
            let v0 = ((((p << 8) | d) >> 7) & 31);
            let v1 = ((((d << 8) | lo) >> 10) & 31);
            let v2 = ((((d << 8) | lo) >> 5) & 31);
            (((((v0 & 31) << 10) | ((v1 & 31) << 5) | (v2 & 31)) >> 3) & 255) == d
        }),
{
}

proof fn lemma_octet_at_4(p: u16, d: u16, lo: u16, v2: u16)
    by (bit_vector)
    requires
        p < 256,
        d < 256,
        lo < 256,
    ensures
        ({
            let v0 = ((((p << 8) | d) >> 5) & 31);
            let v1 = ((((d << 8) | lo) >> 8) & 31);
            (((((v0 & 31) << 10) | ((v1 & 31) << 5) | (v2 & 31)) >> 5) & 255) == d
        }),
{
}

/// The byte that only the zero bits after the last byte of the data reach.
proof fn lemma_octet_past_end(p: u16, z: u16)
    by (bit_vector)
    requires
        p < 256,
        z == 0,
    ensures
        ((((((((p << 8) | z) >> 6) & 31) & 31) << 10) | ((z & 31) << 5) | (z & 31)) >> 4) & 255 == 0,
        ((((((((p << 8) | z) >> 4) & 31) & 31) << 10) | ((z & 31) << 5) | (z & 31)) >> 6) & 255 == 0,
        ((((((((p << 8) | z) >> 7) & 31) & 31) << 10) | ((z & 31) << 5) | (z & 31)) >> 3) & 255 == 0,
        ((((((((p << 8) | z) >> 5) & 31) & 31) << 10) | ((z & 31) << 5) | (z & 31)) >> 5) & 255 == 0,
{
}

/// The 16-bit window that `quintet` reads at group `j`, and its shift.
spec fn window(data: Seq<u8>, j: int) -> u16 {
    let k = 5 * j / 8;
    let hi = data[k] as u16;
    let lo = if k + 1 < data.len() { data[k + 1] as u16 } else { 0u16 };
    (hi << 8) | lo
}

proof fn lemma_quintet_bound(data: Seq<u8>, j: int)
    ensures
        quintet(data, j) < 32,
        quintet(data, j) as u16 == (window(data, j) >> ((11 - (5 * j % 8) as u16) as u16)) & 31,
{
    lemma_mask_bound(window(data, j) >> ((11 - (5 * j % 8) as u16) as u16));
}

/// What the text of `data` reads back as, value by value: its 5-bit groups.
proof fn lemma_values_of_text(data: Seq<u8>)
    ensures
        zbase32_values(vstd::utf8::encode_utf8(zbase32_text(data))) == Seq::new(
            zbase32_len(data.len()),
            |j: int| quintet(data, j),
        ),
{
    let text = zbase32_text(data);
    assert forall|j: int| 0 <= j < text.len() implies '\0' <= #[trigger] text[j] <= '\u{7f}' by {
        lemma_quintet_bound(data, j);
        lemma_alphabet_at(quintet(data, j) as int);
    }
    vstd::utf8::is_ascii_chars_encode_utf8(text);
    let bytes = vstd::utf8::encode_utf8(text);
    let values = zbase32_values(bytes);
    let groups = Seq::new(zbase32_len(data.len()), |j: int| quintet(data, j));
    assert forall|j: int| 0 <= j < values.len() implies values[j] == groups[j] by {
        lemma_quintet_bound(data, j);
        lemma_value_of_digit(quintet(data, j) as int);
        assert(bytes[j] == text[j] as u8);
    }
    assert(values =~= groups);
}

/// What decoding a freshly encoded buffer gives: the buffer itself where its
/// length is a multiple of five bytes, and else the buffer and one zero byte.
pub open spec fn zbase32_round_trip(data: Seq<u8>) -> Seq<u8> {
    if data.len() % 5 == 0 {
        data
    } else {
        data.push(0u8)
    }
}

/// Round trip: the text of a buffer reads back as the buffer, with one
/// trailing zero byte where the text ends inside a byte.
pub proof fn lemma_zbase32_round_trip(data: Seq<u8>)
    ensures
        zbase32_bytes(vstd::utf8::encode_utf8(zbase32_text(data))) == zbase32_round_trip(data),
{
    let n = data.len() as int;
    let m = zbase32_len(data.len()) as int;
    let bytes = vstd::utf8::encode_utf8(zbase32_text(data));
    lemma_values_of_text(data);
    let values = zbase32_values(bytes);
    assert(values.len() == m);
    assert(bytes.len() == m);
    let back = zbase32_bytes(bytes);
    let want = zbase32_round_trip(data);
    assert(back.len() == want.len());
    assert forall|k: int| 0 <= k < back.len() implies back[k] == want[k] by {
        let a = 8 * k / 5;
        let r = k % 5;
        assert(back[k] == octet(values, k));
        lemma_quintet_bound(data, a);
        lemma_quintet_bound(data, a + 1);
        lemma_quintet_bound(data, a + 2);
        if k < n {
            let d = data[k] as u16;
            let lo = if k + 1 < n { data[k + 1] as u16 } else { 0u16 };
            let v2 = if a + 2 < m { values[a + 2] as u16 } else { 0u16 };
            assert(a + 1 < m);
            if r == 0 {
                lemma_octet_at_0(d, lo, v2);
            } else {
                let p = data[k - 1] as u16;
                if r == 1 {
                    assert(a + 2 < m);
                    lemma_octet_at_1(p, d, lo);
                } else if r == 2 {
                    lemma_octet_at_2(p, d, lo, v2);
                } else if r == 3 {
                    assert(a + 2 < m);
                    lemma_octet_at_3(p, d, lo);
                } else {
                    lemma_octet_at_4(p, d, lo, v2);
                }
            }
            assert(octet(values, k) == data[k]);
        } else {
            assert(k == n && r != 0);
            assert(a + 1 == m);
            lemma_octet_past_end(data[k - 1] as u16, 0u16);
            assert(octet(values, k) == 0);
        }
    }
    assert(back =~= want);
}


/// The sixteen hex digits in lower case.
pub open spec fn hex_digits() -> Seq<char> {
    seq!['0', '1', '2', '3', '4', '5', '6', '7', '8', '9', 'a', 'b', 'c', 'd', 'e', 'f']
}

/// The lower-case hex text of bytes: two digits for each byte, the high half
/// first.
pub open spec fn hex_text(bytes: Seq<u8>) -> Seq<char> {
    Seq::new(
        2 * bytes.len(),
        |i: int|
            if i % 2 == 0 {
                hex_digits()[bytes[i / 2] as int / 16]
            } else {
                hex_digits()[bytes[i / 2] as int % 16]
            },
    )
}

/// The value of a hex digit of either case.
pub open spec fn hex_value(c: char) -> Option<int> {
    if '0' <= c <= '9' {
        Some(c as int - '0' as int)
    } else if 'a' <= c <= 'f' {
        Some(c as int - 'a' as int + 10)
    } else if 'A' <= c <= 'F' {
        Some(c as int - 'A' as int + 10)
    } else {
        None
    }
}

/// Whether a text is hex: an even number of hex digits.
pub open spec fn is_hex(s: Seq<char>) -> bool {
    &&& s.len() % 2 == 0
    &&& forall|i: int| 0 <= i < s.len() ==> hex_value(#[trigger] s[i]) is Some
}

/// The bytes that a hex text stands for.
pub open spec fn hex_bytes(s: Seq<char>) -> Seq<u8> {
    Seq::new(
        s.len() / 2,
        |i: int| (hex_value(s[2 * i]).unwrap() * 16 + hex_value(s[2 * i + 1]).unwrap()) as u8,
    )
}

/// Writes bytes as lower-case hex text.
///
/// Trusted: the body is `hex::encode`, which writes each byte as two digits
/// taken from `0123456789abcdef`, the high four bits first.
#[verifier::external_body]
pub(crate) fn hex_encode(data: &[u8]) -> (s: String)
    ensures
        s@ == hex_text(data@),
{
    hex::encode(data)
}

/// Reads hex text of either case.
///
/// Trusted: the body is `hex::decode`. It fails on a text of odd length and
/// on one that holds a byte that is no hex digit; else each pair of digits
/// gives one byte, the first digit its high four bits. A character outside
/// ASCII is made of bytes that are no digits, so it fails as well, whatever
/// the parity of the length in bytes.
#[verifier::external_body]
pub(crate) fn hex_decode(s: &str) -> (r: Option<Vec<u8>>)
    ensures
        r.is_some() == is_hex(s@),
        r matches Some(v) ==> v@ == hex_bytes(s@),
{
    hex::decode(s).ok()
}

/// Reads the hex text of an id: 64 digits of either case.
pub fn hex_to_id(s: &str) -> (r: Option<Id>)
    ensures
        r.is_some() == (is_hex(s@) && s@.len() == 64),
        r matches Some(id) ==> id@ == hex_bytes(s@),
{
    match hex_decode(s) {
        Some(v) => {
            if v.len() == 32 {
                let id = to_id(v.as_slice());
                assert(id@ =~= v@);
                Some(id)
            } else {
                None
            }
        },
        None => None,
    }
}


/// The characters of a zbase32 text are digits and small letters, none
/// before `1` and none after `z`.
pub proof fn lemma_zbase32_chars(data: Seq<u8>)
    ensures
        zbase32_text(data).len() == zbase32_len(data.len()),
        forall|j: int|
            0 <= j < zbase32_text(data).len() ==> '1' <= #[trigger] zbase32_text(data)[j] <= 'z',
{
    let text = zbase32_text(data);
    assert forall|j: int| 0 <= j < text.len() implies '1' <= #[trigger] text[j] <= 'z' by {
        lemma_quintet_bound(data, j);
        lemma_alphabet_at(quintet(data, j) as int);
    }
}

/// The zbase32 text of an id reads back as the id.
pub proof fn lemma_zbase32_id_round_trip(id: Seq<u8>)
    requires
        id.len() == 32,
    ensures
        id_of(zbase32_bytes(vstd::utf8::encode_utf8(zbase32_text(id)))) == id,
{
    lemma_zbase32_round_trip(id);
    assert(id_of(id.push(0u8)) =~= id);
}

} // verus!
