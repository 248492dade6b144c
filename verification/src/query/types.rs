//! The words of a text with their places, as the index stores them.

use vstd::prelude::*;
use vstd::relations::{sorted_by, total_ordering};
use vstd::utf8::encode_utf8;
use crate::strmap::{sorted, StrMap};
use crate::text::push_bytes;

verus! {

/// The order of places: by weight, then by position.
pub open spec fn place_lt(a: (u8, u16), b: (u8, u16)) -> bool {
    a.0 < b.0 || (a.0 == b.0 && a.1 < b.1)
}

/// The places stand in strictly ascending order.
pub open spec fn places_sorted(s: Seq<(u8, u16)>) -> bool {
    forall|i: int, j: int| 0 <= i < j < s.len() ==> place_lt(#[trigger] s[i], #[trigger] s[j])
}

/// The places of one word: pairs of a weight and a position, each once, in
/// ascending order.
#[derive(Debug)]
pub struct PosSet {
    items: Vec<(u8, u16)>,
}

impl PosSet {
    #[verifier::type_invariant]
    spec fn ordered(&self) -> bool {
        places_sorted(self.items@)
    }

    /// No places.
    pub fn new() -> (s: PosSet)
        ensures
            s@ == Seq::<(u8, u16)>::empty(),
    {
        PosSet { items: Vec::new() }
    }

    /// The number of places.
    pub fn len(&self) -> (n: usize)
        ensures
            n == self@.len(),
            places_sorted(self@),
    {
        proof {
            use_type_invariant(self);
        }
        self.items.len()
    }

    /// The place at a place of the order.
    pub fn get(&self, i: usize) -> (p: (u8, u16))
        requires
            i < self@.len(),
        ensures
            p == self@[i as int],
    {
        self.items[i]
    }

    /// Puts a place in, unless it is there.
    pub fn insert(&mut self, p: (u8, u16))
        ensures
            places_sorted(final(self)@),
            forall|x: (u8, u16)| final(self)@.contains(x) <==> (old(self)@.contains(x) || x == p),
            final(self)@.len() == if old(self)@.contains(p) {
                old(self)@.len()
            } else {
                old(self)@.len() + 1
            },
    {
        proof {
            use_type_invariant(&*self);
        }
        let ghost before = self.items@;
        let mut i: usize = 0;
        let mut go = true;
        while go && i < self.items.len()
            invariant
                self.items@ == before,
                places_sorted(before),
                i <= before.len(),
                forall|j: int| 0 <= j < i ==> place_lt(#[trigger] before[j], p),
                !go ==> i < before.len() && place_lt(p, before[i as int]),
            decreases (if go { 1int } else { 0int }), before.len() - i,
        {
            let q = self.items[i];
            if q.0 < p.0 || (q.0 == p.0 && q.1 < p.1) {
                i += 1;
            } else if q.0 == p.0 && q.1 == p.1 {
                assert(before[i as int] == p);
                assert forall|x: (u8, u16)| before.contains(x) <==> (before.contains(x) || x == p) by {
                }
                return ;
            } else {
                go = false;
            }
        }
        proof {
            assert forall|j: int| i <= j < before.len() implies place_lt(p, #[trigger] before[j]) by {
                if j > i {
                    assert(place_lt(before[i as int], before[j]));
                }
            }
            if before.contains(p) {
                let k = choose|k: int| 0 <= k < before.len() && before[k] == p;
                if k < i {
                    assert(place_lt(before[k], p));
                } else {
                    assert(place_lt(p, before[k]));
                }
            }
            let after = before.insert(i as int, p);
            assert forall|a: int, b: int| 0 <= a < b < after.len() implies place_lt(
                #[trigger] after[a],
                #[trigger] after[b],
            ) by {
                let oa = if a < i { a } else { a - 1 };
                let ob = if b < i { b } else { b - 1 };
                if a != i && b != i {
                    assert(place_lt(before[oa], before[ob]));
                }
            }
            assert forall|x: (u8, u16)| after.contains(x) <==> (before.contains(x) || x == p) by {
                if after.contains(x) {
                    let k = choose|k: int| 0 <= k < after.len() && after[k] == x;
                    if k < i {
                        assert(before[k] == x);
                    } else if k > i {
                        assert(before[k - 1] == x);
                    }
                }
                if before.contains(x) {
                    let k = choose|k: int| 0 <= k < before.len() && before[k] == x;
                    if k < i {
                        assert(after[k] == x);
                    } else {
                        assert(after[k + 1] == x);
                    }
                }
                if x == p {
                    assert(after[i as int] == x);
                }
            }
        }
        let mut taken: Vec<(u8, u16)> = Vec::new();
        core::mem::swap(&mut self.items, &mut taken);
        taken.insert(i, p);
        core::mem::swap(&mut self.items, &mut taken);
    }
}

impl View for PosSet {
    type V = Seq<(u8, u16)>;

    closed spec fn view(&self) -> Seq<(u8, u16)> {
        self.items@
    }
}

/// The words of a text, each with its places.
#[derive(Debug)]
pub struct TsVector {
    pub data: StrMap<PosSet>,
}

/// A place as the index stores it: the weight in the two highest bits, the
/// position in the other fourteen.
pub open spec fn place_word(p: (u8, u16)) -> u16 {
    ((p.0 % 4) * 16384 + p.1 % 16384) as u16
}

/// The order in which stored places are written.
pub open spec fn word_leq() -> spec_fn(u16, u16) -> bool {
    |a: u16, b: u16| a <= b
}

/// The places of a word as they are written: as stored, in ascending order.
pub open spec fn place_words(places: Seq<(u8, u16)>) -> Seq<u16> {
    places.map_values(|p: (u8, u16)| place_word(p)).sort_by(word_leq())
}

/// A number of 16 bits, the high byte first.
pub open spec fn be16(x: u16) -> Seq<u8> {
    seq![(x / 256) as u8, (x % 256) as u8]
}

/// A number of 32 bits, the highest byte first.
pub open spec fn be32(x: u32) -> Seq<u8> {
    seq![
        (x / 0x100_0000) as u8,
        (x / 0x1_0000 % 256) as u8,
        (x / 256 % 256) as u8,
        (x % 256) as u8,
    ]
}

/// Numbers of 16 bits one after the other.
pub open spec fn be16_all(words: Seq<u16>) -> Seq<u8>
    decreases words.len(),
{
    if words.len() == 0 {
        Seq::empty()
    } else {
        be16_all(words.drop_last()) + be16(words.last())
    }
}

/// The bytes of one word of a text: the word, a zero byte, the number of its
/// places in 16 bits, and the places.
pub open spec fn lexeme_bytes(word: Seq<char>, places: Seq<(u8, u16)>) -> Seq<u8> {
    encode_utf8(word) + seq![0u8] + be16((places.len() % 0x1_0000) as u16) + be16_all(
        place_words(places),
    )
}

/// The bytes of the words of a text, one word after the other.
pub open spec fn lexemes_bytes(entries: Seq<(Seq<char>, PosSet)>) -> Seq<u8>
    decreases entries.len(),
{
    if entries.len() == 0 {
        Seq::empty()
    } else {
        lexemes_bytes(entries.drop_last()) + lexeme_bytes(entries.last().0, entries.last().1@)
    }
}

/// The binary form of the words of a text: their number in 32 bits, and the
/// words in their order.
pub open spec fn tsvector_bytes(entries: Seq<(Seq<char>, PosSet)>) -> Seq<u8> {
    be32((entries.len() % 0x1_0000_0000) as u32) + lexemes_bytes(entries)
}

proof fn lemma_word_leq_total()
    ensures
        total_ordering(word_leq()),
{
    let r = word_leq();
    assert(vstd::relations::reflexive(r));
    assert(vstd::relations::antisymmetric(r));
    assert(vstd::relations::transitive(r));
    assert(vstd::relations::strongly_connected(r));
}

fn push_be16(out: &mut Vec<u8>, x: u16)
    ensures
        final(out)@ == old(out)@ + be16(x),
{
    out.push((x / 256) as u8);
    out.push((x % 256) as u8);
    assert(out@ =~= old(out)@ + be16(x));
}

fn stored_place(p: (u8, u16)) -> (w: u16)
    ensures
        w == place_word(p),
{
    let hi = p.0 as u16;
    let lo = p.1;
    let w = ((hi & 3) << 14) | (lo & 0x3fff);
    assert(w == (hi % 4) * 16384 + lo % 16384) by (bit_vector)
        requires
            w == ((hi & 3) << 14) | (lo & 0x3fff),
    ;
    w
}

/// The places of a word as they are written.
fn sorted_places(places: &PosSet) -> (v: Vec<u16>)
    ensures
        v@ == place_words(places@),
{
    let n = places.len();
    let ghost mapped = places@.map_values(|p: (u8, u16)| place_word(p));
    let mut v: Vec<u16> = Vec::new();
    let mut i: usize = 0;
    assert(mapped.take(0) =~= Seq::<u16>::empty());
    while i < n
        invariant
            n == places@.len(),
            i <= n,
            mapped == places@.map_values(|p: (u8, u16)| place_word(p)),
            sorted_by(v@, word_leq()),
            v@.to_multiset() == mapped.take(i as int).to_multiset(),
        decreases n - i,
    {
        let w = stored_place(places.get(i));
        let ghost before = v@;
        let mut k: usize = 0;
        while k < v.len() && v[k] <= w
            invariant
                v@ == before,
                k <= before.len(),
                forall|j: int| 0 <= j < k ==> before[j] <= w,
            decreases before.len() - k,
        {
            k += 1;
        }
        v.insert(k, w);
        proof {
            vstd::seq_lib::to_multiset_insert(before, k as int, w);
            vstd::seq_lib::to_multiset_build(mapped.take(i as int), w);
            assert(mapped.take(i + 1) =~= mapped.take(i as int).push(w));
            let after = v@;
            assert forall|a: int, b: int| 0 <= a < b < after.len() implies #[trigger] word_leq()(
                after[a],
                after[b],
            ) by {
                let oa = if a < k { a } else { a - 1 };
                let ob = if b < k { b } else { b - 1 };
                if a != k && b != k {
                    assert(word_leq()(before[oa], before[ob]));
                } else if a == k {
                    assert(word_leq()(before[k as int], before[ob]));
                }
            }
        }
        i += 1;
    }
    proof {
        assert(mapped.take(n as int) =~= mapped);
        lemma_word_leq_total();
        mapped.lemma_sort_by_ensures(word_leq());
        vstd::seq_lib::lemma_sorted_unique(v@, mapped.sort_by(word_leq()), word_leq());
    }
    v
}

impl TsVector {
    /// No words.
    pub fn new() -> (t: TsVector)
        ensures
            t.data.pairs() == Seq::<(Seq<char>, PosSet)>::empty(),
    {
        TsVector { data: StrMap::new() }
    }

    /// The binary form in which the index takes the words of a text: the
    /// words in the order of their bytes, the places of each in ascending
    /// order.
    pub fn encode(&self) -> (bytes: Vec<u8>)
        ensures
            bytes@ == tsvector_bytes(self.data.pairs()),
            sorted(self.data.pairs()),
    {
        let n = self.data.len();
        let ghost entries = self.data.pairs();
        let mut out: Vec<u8> = Vec::new();
        let count: u32 = (n as u64 % 0x1_0000_0000) as u32;
        out.push((count / 0x100_0000) as u8);
        out.push((count / 0x1_0000 % 256) as u8);
        out.push((count / 256 % 256) as u8);
        out.push((count % 256) as u8);
        assert(out@ =~= be32(count));
        let mut i: usize = 0;
        assert(entries.take(0) =~= Seq::<(Seq<char>, PosSet)>::empty());
        while i < n
            invariant
                entries == self.data.pairs(),
                n == entries.len(),
                i <= n,
                out@ == be32(count) + lexemes_bytes(entries.take(i as int)),
            decreases n - i,
        {
            let word = self.data.key_at(i);
            let places = self.data.value_at(i);
            proof {
                assert(entries.take(i + 1).drop_last() =~= entries.take(i as int));
                assert(entries.take(i + 1).last() == entries[i as int]);
            }
            push_bytes(&mut out, word.as_str().as_bytes());
            out.push(0u8);
            let m = places.len();
            push_be16(&mut out, (m as u64 % 0x1_0000) as u16);
            let words = sorted_places(places);
            let ghost head = out@;
            let mut k: usize = 0;
            assert(words@.take(0) =~= Seq::<u16>::empty());
            while k < words.len()
                invariant
                    k <= words@.len(),
                    out@ == head + be16_all(words@.take(k as int)),
                decreases words@.len() - k,
            {
                proof {
                    assert(words@.take(k + 1).drop_last() =~= words@.take(k as int));
                    assert(words@.take(k + 1).last() == words@[k as int]);
                }
                push_be16(&mut out, words[k]);
                k += 1;
                assert(out@ =~= head + be16_all(words@.take(k as int)));
            }
            assert(words@.take(words@.len() as int) =~= words@);
            i += 1;
            assert(out@ =~= be32(count) + lexemes_bytes(entries.take(i as int)));
        }
        assert(entries.take(n as int) =~= entries);
        out
    }
}

} // verus!
