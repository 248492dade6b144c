//! A map from text keys to values that keeps its entries in key order, the
//! order of the keys' UTF-8 bytes.

use vstd::prelude::*;
use vstd::utf8::encode_utf8;

verus! {

/// `a` comes before `b` because of what stands at place `p`: up to there the
/// two agree, and there `a` ends or has the smaller byte.
pub open spec fn bytes_lt_at(a: Seq<u8>, b: Seq<u8>, p: int) -> bool {
    &&& 0 <= p <= a.len()
    &&& p < b.len()
    &&& forall|i: int| 0 <= i < p ==> a[i] == b[i]
    &&& (p < a.len() ==> a[p] < b[p])
}

/// Lexicographic order of byte sequences.
pub open spec fn bytes_lt(a: Seq<u8>, b: Seq<u8>) -> bool {
    exists|p: int| bytes_lt_at(a, b, p)
}

/// The order of keys: that of their UTF-8 bytes.
pub open spec fn key_lt(a: Seq<char>, b: Seq<char>) -> bool {
    bytes_lt(encode_utf8(a), encode_utf8(b))
}

pub proof fn lemma_bytes_lt_transitive(a: Seq<u8>, b: Seq<u8>, c: Seq<u8>)
    requires
        bytes_lt(a, b),
        bytes_lt(b, c),
    ensures
        bytes_lt(a, c),
{
    let p = choose|p: int| bytes_lt_at(a, b, p);
    let q = choose|q: int| bytes_lt_at(b, c, q);
    let r = if p <= q { p } else { q };
    assert(bytes_lt_at(a, c, r));
}

pub proof fn lemma_bytes_lt_asymmetric(a: Seq<u8>, b: Seq<u8>)
    requires
        bytes_lt(a, b),
    ensures
        !bytes_lt(b, a),
        a != b,
{
    let p = choose|p: int| bytes_lt_at(a, b, p);
    if bytes_lt(b, a) {
        let q = choose|q: int| bytes_lt_at(b, a, q);
        if p < q {
            assert(b[p] == a[p]);
        } else if q < p {
            assert(a[q] == b[q]);
        }
    }
}

/// Keys are told apart by their bytes.
pub proof fn lemma_key_bytes_injective(a: Seq<char>, b: Seq<char>)
    requires
        encode_utf8(a) == encode_utf8(b),
    ensures
        a == b,
{
    vstd::utf8::encode_utf8_decode_utf8(a);
    vstd::utf8::encode_utf8_decode_utf8(b);
}

/// How one key stands to another.
#[derive(Debug, Copy, Clone, PartialEq, Eq, Structural)]
pub enum Rank {
    Less,
    Equal,
    Greater,
}

/// How `a` stands to `b` in key order.
pub open spec fn rank_of(a: Seq<char>, b: Seq<char>) -> Rank {
    if a == b {
        Rank::Equal
    } else if key_lt(a, b) {
        Rank::Less
    } else {
        Rank::Greater
    }
}

/// Of two different keys one comes first.
pub proof fn lemma_rank_greater(a: Seq<char>, b: Seq<char>)
    requires
        rank_of(a, b) == Rank::Greater,
    ensures
        key_lt(b, a),
{
    let x = encode_utf8(a);
    let y = encode_utf8(b);
    if x == y {
        lemma_key_bytes_injective(a, b);
    }
    lemma_bytes_total(x, y, 0);
}

proof fn lemma_bytes_total(x: Seq<u8>, y: Seq<u8>, i: int)
    requires
        0 <= i <= x.len(),
        i <= y.len(),
        forall|j: int| 0 <= j < i ==> x[j] == y[j],
        x != y,
    ensures
        bytes_lt(x, y) || bytes_lt(y, x),
    decreases x.len() - i,
{
    if i == x.len() {
        if i == y.len() {
            assert(x =~= y);
        } else {
            assert(bytes_lt_at(x, y, i));
        }
    } else if i == y.len() {
        assert(bytes_lt_at(y, x, i));
    } else if x[i] < y[i] {
        assert(bytes_lt_at(x, y, i));
    } else if y[i] < x[i] {
        assert(bytes_lt_at(y, x, i));
    } else {
        lemma_bytes_total(x, y, i + 1);
    }
}

/// Compares two keys byte by byte.
pub fn compare_keys(a: &str, b: &str) -> (r: Rank)
    ensures
        r == rank_of(a@, b@),
{
    let x = a.as_bytes();
    let y = b.as_bytes();
    let mut i: usize = 0;
    while i < x.len() && i < y.len()
        invariant
            x@ == encode_utf8(a@),
            y@ == encode_utf8(b@),
            i <= x@.len(),
            i <= y@.len(),
            forall|j: int| 0 <= j < i ==> x@[j] == y@[j],
        decreases x@.len() - i,
    {
        if x[i] < y[i] {
            proof {
                assert(bytes_lt_at(x@, y@, i as int));
                lemma_bytes_lt_asymmetric(x@, y@);
            }
            return Rank::Less;
        }
        if x[i] > y[i] {
            proof {
                assert(bytes_lt_at(y@, x@, i as int));
                lemma_bytes_lt_asymmetric(y@, x@);
            }
            return Rank::Greater;
        }
        i += 1;
    }
    if x.len() < y.len() {
        proof {
            assert(bytes_lt_at(x@, y@, i as int));
            lemma_bytes_lt_asymmetric(x@, y@);
        }
        Rank::Less
    } else if x.len() > y.len() {
        proof {
            assert(bytes_lt_at(y@, x@, i as int));
            lemma_bytes_lt_asymmetric(y@, x@);
        }
        Rank::Greater
    } else {
        proof {
            assert(x@ =~= y@);
            lemma_key_bytes_injective(a@, b@);
        }
        Rank::Equal
    }
}

/// The entries stand in strictly ascending key order.
pub open spec fn sorted<V>(p: Seq<(Seq<char>, V)>) -> bool {
    forall|i: int, j: int| 0 <= i < j < p.len() ==> key_lt(#[trigger] p[i].0, #[trigger] p[j].0)
}

/// Some entry has the key `k`.
pub open spec fn has_key<V>(p: Seq<(Seq<char>, V)>, k: Seq<char>) -> bool {
    exists|i: int| 0 <= i < p.len() && #[trigger] p[i].0 == k
}

/// The place of an entry with the key `k`.
pub open spec fn place_of<V>(p: Seq<(Seq<char>, V)>, k: Seq<char>) -> int {
    choose|i: int| 0 <= i < p.len() && #[trigger] p[i].0 == k
}

/// The map that a sequence of entries stands for.
pub open spec fn map_of<V>(p: Seq<(Seq<char>, V)>) -> Map<Seq<char>, V> {
    Map::new(|k: Seq<char>| has_key(p, k), |k: Seq<char>| p[place_of(p, k)].1)
}

/// In sorted entries each key stands at one place only.
pub proof fn lemma_sorted_unique<V>(p: Seq<(Seq<char>, V)>, i: int, j: int)
    requires
        sorted(p),
        0 <= i < p.len(),
        0 <= j < p.len(),
        p[i].0 == p[j].0,
    ensures
        i == j,
{
    if i < j {
        lemma_bytes_lt_asymmetric(encode_utf8(p[i].0), encode_utf8(p[j].0));
    } else if j < i {
        lemma_bytes_lt_asymmetric(encode_utf8(p[j].0), encode_utf8(p[i].0));
    }
}

/// The entry at place `i` is what the map holds under its key.
pub proof fn lemma_map_of_at<V>(p: Seq<(Seq<char>, V)>, i: int)
    requires
        sorted(p),
        0 <= i < p.len(),
    ensures
        map_of(p).contains_key(p[i].0),
        map_of(p)[p[i].0] == p[i].1,
        place_of(p, p[i].0) == i,
{
    assert(has_key(p, p[i].0));
    lemma_sorted_unique(p, i, place_of(p, p[i].0));
}

/// A new key put at its place in the order is a new key of the map.
pub proof fn lemma_map_of_insert<V>(p: Seq<(Seq<char>, V)>, pos: int, k: Seq<char>, v: V)
    requires
        sorted(p),
        0 <= pos <= p.len(),
        forall|i: int| 0 <= i < pos ==> key_lt(#[trigger] p[i].0, k),
        forall|i: int| pos <= i < p.len() ==> key_lt(k, #[trigger] p[i].0),
    ensures
        sorted(p.insert(pos, (k, v))),
        map_of(p.insert(pos, (k, v))) == map_of(p).insert(k, v),
        !has_key(p, k),
{
    let q = p.insert(pos, (k, v));
    assert forall|i: int, j: int| 0 <= i < j < q.len() implies key_lt(
        #[trigger] q[i].0,
        #[trigger] q[j].0,
    ) by {
        let oi = if i < pos { i } else { i - 1 };
        let oj = if j < pos { j } else { j - 1 };
        if i != pos && j != pos {
            assert(key_lt(p[oi].0, p[oj].0));
        }
    }
    if has_key(p, k) {
        let i = place_of(p, k);
        if i < pos {
            lemma_bytes_lt_asymmetric(encode_utf8(p[i].0), encode_utf8(k));
        } else {
            lemma_bytes_lt_asymmetric(encode_utf8(k), encode_utf8(p[i].0));
        }
    }
    assert forall|x: Seq<char>| map_of(q).contains_key(x) <==> map_of(p).insert(
        k,
        v,
    ).contains_key(x) by {
        if has_key(q, x) {
            let i = place_of(q, x);
            if i < pos {
                assert(p[i].0 == x);
            } else if i > pos {
                assert(p[i - 1].0 == x);
            }
        }
        if has_key(p, x) {
            let i = place_of(p, x);
            if i < pos {
                assert(q[i].0 == x);
            } else {
                assert(q[i + 1].0 == x);
            }
        }
        if x == k {
            assert(q[pos].0 == x);
        }
    }
    assert forall|x: Seq<char>| map_of(q).contains_key(x) implies map_of(q)[x] == map_of(p).insert(
        k,
        v,
    )[x] by {
        let i = place_of(q, x);
        if i == pos {
        } else {
            let oi = if i < pos { i } else { i - 1 };
            assert(p[oi].0 == x);
            lemma_map_of_at(p, oi);
        }
    }
    assert(map_of(q) =~= map_of(p).insert(k, v));
}

/// A new value at a place is a new value under that place's key.
pub proof fn lemma_map_of_update<V>(p: Seq<(Seq<char>, V)>, pos: int, v: V)
    requires
        sorted(p),
        0 <= pos < p.len(),
    ensures
        sorted(p.update(pos, (p[pos].0, v))),
        map_of(p.update(pos, (p[pos].0, v))) == map_of(p).insert(p[pos].0, v),
{
    let k = p[pos].0;
    let q = p.update(pos, (k, v));
    assert forall|i: int, j: int| 0 <= i < j < q.len() implies key_lt(
        #[trigger] q[i].0,
        #[trigger] q[j].0,
    ) by {
        assert(key_lt(p[i].0, p[j].0));
    }
    assert forall|x: Seq<char>| map_of(q).contains_key(x) <==> map_of(p).insert(
        k,
        v,
    ).contains_key(x) by {
        if has_key(q, x) {
            let i = place_of(q, x);
            assert(p[i].0 == x);
        }
        if has_key(p, x) {
            let i = place_of(p, x);
            assert(q[i].0 == x);
        }
        if x == k {
            assert(q[pos].0 == x);
        }
    }
    assert forall|x: Seq<char>| map_of(q).contains_key(x) implies map_of(q)[x] == map_of(p).insert(
        k,
        v,
    )[x] by {
        let i = place_of(q, x);
        lemma_map_of_at(q, i);
        if i != pos {
            assert(p[i].0 == x);
            lemma_map_of_at(p, i);
        }
    }
    assert(map_of(q) =~= map_of(p).insert(k, v));
}

/// An entry taken out is a key taken out of the map.
pub proof fn lemma_map_of_remove<V>(p: Seq<(Seq<char>, V)>, pos: int)
    requires
        sorted(p),
        0 <= pos < p.len(),
    ensures
        sorted(p.remove(pos)),
        map_of(p.remove(pos)) == map_of(p).remove(p[pos].0),
{
    let k = p[pos].0;
    let q = p.remove(pos);
    assert forall|i: int, j: int| 0 <= i < j < q.len() implies key_lt(
        #[trigger] q[i].0,
        #[trigger] q[j].0,
    ) by {
        let oi = if i < pos { i } else { i + 1 };
        let oj = if j < pos { j } else { j + 1 };
        assert(key_lt(p[oi].0, p[oj].0));
    }
    assert forall|x: Seq<char>| map_of(q).contains_key(x) <==> map_of(p).remove(k).contains_key(
        x,
    ) by {
        if has_key(q, x) {
            let i = place_of(q, x);
            let oi = if i < pos { i } else { i + 1 };
            assert(p[oi].0 == x);
            if x == k {
                lemma_sorted_unique(p, oi, pos);
            }
        }
        if has_key(p, x) && x != k {
            let i = place_of(p, x);
            if i < pos {
                assert(q[i].0 == x);
            } else {
                assert(q[i - 1].0 == x);
            }
        }
    }
    assert forall|x: Seq<char>| map_of(q).contains_key(x) implies map_of(q)[x] == map_of(p).remove(
        k,
    )[x] by {
        let i = place_of(q, x);
        let oi = if i < pos { i } else { i + 1 };
        assert(p[oi].0 == x);
        lemma_map_of_at(p, oi);
    }
    assert(map_of(q) =~= map_of(p).remove(k));
}

/// Stored entries with each key as its characters.
spec fn pairs_of<V>(entries: Seq<(String, V)>) -> Seq<(Seq<char>, V)> {
    Seq::new(entries.len(), |i: int| (entries[i].0@, entries[i].1))
}

/// A map from text keys to values, kept in key order.
#[derive(Debug)]
pub struct StrMap<V> {
    entries: Vec<(String, V)>,
}

impl<V> StrMap<V> {
    /// The entries in key order, each key as its characters.
    pub closed spec fn pairs(&self) -> Seq<(Seq<char>, V)> {
        pairs_of(self.entries@)
    }

    #[verifier::type_invariant]
    spec fn ordered(&self) -> bool {
        sorted(self.pairs())
    }

    /// The keys in order.
    pub open spec fn keys(&self) -> Seq<Seq<char>> {
        Seq::new(self.pairs().len(), |i: int| self.pairs()[i].0)
    }

    /// An empty map.
    pub fn new() -> (m: StrMap<V>)
        ensures
            m.pairs() == Seq::<(Seq<char>, V)>::empty(),
            m@ == Map::<Seq<char>, V>::empty(),
    {
        let m = StrMap { entries: Vec::new() };
        assert(m.pairs() =~= Seq::<(Seq<char>, V)>::empty());
        assert(m@ =~= Map::<Seq<char>, V>::empty());
        m
    }

    /// The number of entries.
    pub fn len(&self) -> (n: usize)
        ensures
            n == self.pairs().len(),
            sorted(self.pairs()),
    {
        proof {
            use_type_invariant(self);
        }
        self.entries.len()
    }

    pub fn is_empty(&self) -> (b: bool)
        ensures
            b == (self.pairs().len() == 0),
    {
        self.entries.len() == 0
    }

    /// Where `key` stands or would stand: whether it is there, and its place.
    fn find(&self, key: &str) -> (r: (bool, usize))
        ensures
            sorted(self.pairs()),
            r.1 <= self.pairs().len(),
            forall|i: int| 0 <= i < r.1 ==> key_lt(#[trigger] self.pairs()[i].0, key@),
            r.0 ==> r.1 < self.pairs().len() && self.pairs()[r.1 as int].0 == key@,
            !r.0 ==> forall|i: int|
                r.1 <= i < self.pairs().len() ==> key_lt(key@, #[trigger] self.pairs()[i].0),
            r.0 == has_key(self.pairs(), key@),
    {
        proof {
            use_type_invariant(self);
        }
        let ghost p = self.pairs();
        let mut i: usize = 0;
        while i < self.entries.len()
            invariant
                p == self.pairs(),
                sorted(p),
                i <= self.entries@.len(),
                p.len() == self.entries@.len(),
                forall|j: int| 0 <= j < i ==> key_lt(#[trigger] p[j].0, key@),
            decreases self.entries@.len() - i,
        {
            let r = compare_keys(self.entries[i].0.as_str(), key);
            assert(self.entries@[i as int].0@ == p[i as int].0);
            match r {
                Rank::Less => {},
                Rank::Equal => {
                    assert(has_key(p, key@));
                    return (true, i);
                },
                Rank::Greater => {
                    proof {
                        lemma_rank_greater(p[i as int].0, key@);
                        assert forall|j: int| i <= j < p.len() implies key_lt(
                            key@,
                            #[trigger] p[j].0,
                        ) by {
                            if j > i {
                                assert(key_lt(p[i as int].0, p[j].0));
                                lemma_bytes_lt_transitive(
                                    encode_utf8(key@),
                                    encode_utf8(p[i as int].0),
                                    encode_utf8(p[j].0),
                                );
                            }
                        }
                        lemma_map_of_insert(p, i as int, key@, p[0].1);
                    }
                    return (false, i);
                },
            }
            i += 1;
        }
        proof {
            lemma_map_of_insert(p, i as int, key@, arbitrary());
        }
        (false, i)
    }

    /// Whether the map holds `key`.
    pub fn contains_key(&self, key: &str) -> (b: bool)
        ensures
            b == self@.contains_key(key@),
    {
        self.find(key).0
    }

    /// The value under `key`, if the map holds it.
    pub fn get(&self, key: &str) -> (r: Option<&V>)
        ensures
            match r {
                Some(v) => self@.contains_key(key@) && *v == self@[key@],
                None => !self@.contains_key(key@),
            },
    {
        let (found, pos) = self.find(key);
        if found {
            proof {
                lemma_map_of_at(self.pairs(), pos as int);
            }
            Some(&self.entries[pos].1)
        } else {
            None
        }
    }

    /// The key at a place of the order.
    pub fn key_at(&self, i: usize) -> (k: &String)
        requires
            i < self.pairs().len(),
        ensures
            k@ == self.pairs()[i as int].0,
    {
        &self.entries[i].0
    }

    /// The value at a place of the order.
    pub fn value_at(&self, i: usize) -> (v: &V)
        requires
            i < self.pairs().len(),
        ensures
            *v == self.pairs()[i as int].1,
            sorted(self.pairs()),
            self@.contains_key(self.pairs()[i as int].0),
            self@[self.pairs()[i as int].0] == *v,
    {
        proof {
            use_type_invariant(self);
            lemma_map_of_at(self.pairs(), i as int);
        }
        &self.entries[i].1
    }

    /// Puts a new value at a place of the order and hands back the old one.
    pub fn replace_at(&mut self, i: usize, value: V) -> (was: V)
        requires
            i < old(self).pairs().len(),
        ensures
            was == old(self).pairs()[i as int].1,
            final(self).pairs() == old(self).pairs().update(
                i as int,
                (old(self).pairs()[i as int].0, value),
            ),
            final(self)@ == old(self)@.insert(old(self).pairs()[i as int].0, value),
    {
        proof {
            use_type_invariant(&*self);
            lemma_map_of_update(self.pairs(), i as int, value);
        }
        let ghost p = self.pairs();
        let mut taken: Vec<(String, V)> = Vec::new();
        core::mem::swap(&mut self.entries, &mut taken);
        let (k, was) = taken.remove(i);
        taken.insert(i, (k, value));
        assert(pairs_of(taken@) =~= p.update(i as int, (p[i as int].0, value)));
        core::mem::swap(&mut self.entries, &mut taken);
        was
    }

    /// Puts `value` under `key` and hands back what stood there before.
    pub fn insert(&mut self, key: String, value: V) -> (was: Option<V>)
        ensures
            final(self)@ == old(self)@.insert(key@, value),
            match was {
                Some(v) => old(self)@.contains_key(key@) && v == old(self)@[key@],
                None => !old(self)@.contains_key(key@),
            },
            sorted(final(self).pairs()),
            insert_pairs(old(self).pairs(), final(self).pairs(), key@, value),
    {
        let ghost p = self.pairs();
        let (found, pos) = self.find(key.as_str());
        let mut taken: Vec<(String, V)> = Vec::new();
        core::mem::swap(&mut self.entries, &mut taken);
        let was = if found {
            proof {
                lemma_map_of_at(p, pos as int);
                lemma_map_of_update(p, pos as int, value);
            }
            let (_, old_value) = taken.remove(pos);
            Some(old_value)
        } else {
            proof {
                lemma_map_of_insert(p, pos as int, key@, value);
            }
            None
        };
        taken.insert(pos, (key, value));
        proof {
            if found {
                assert(pairs_of(taken@) =~= p.update(pos as int, (p[pos as int].0, value)));
            } else {
                assert(pairs_of(taken@) =~= p.insert(pos as int, (key@, value)));
            }
        }
        core::mem::swap(&mut self.entries, &mut taken);
        was
    }

    /// Takes `key` out of the map and hands back its value.
    pub fn remove(&mut self, key: &str) -> (was: Option<V>)
        ensures
            final(self)@ == old(self)@.remove(key@),
            match was {
                Some(v) => old(self)@.contains_key(key@) && v == old(self)@[key@],
                None => !old(self)@.contains_key(key@) && final(self).pairs() == old(self).pairs(),
            },
            sorted(final(self).pairs()),
    {
        let ghost p = self.pairs();
        let (found, pos) = self.find(key);
        if found {
            proof {
                lemma_map_of_at(p, pos as int);
                lemma_map_of_remove(p, pos as int);
            }
            let mut taken: Vec<(String, V)> = Vec::new();
            core::mem::swap(&mut self.entries, &mut taken);
            let (_, old_value) = taken.remove(pos);
            assert(pairs_of(taken@) =~= p.remove(pos as int));
            core::mem::swap(&mut self.entries, &mut taken);
            Some(old_value)
        } else {
            assert(self@.remove(key@) =~= self@);
            None
        }
    }
}

/// How the entries stand after `value` was put under `k`: the entry of `k`
/// has the new value, or a new entry stands at the place that the key order
/// gives it.
pub open spec fn insert_pairs<V>(
    before: Seq<(Seq<char>, V)>,
    after: Seq<(Seq<char>, V)>,
    k: Seq<char>,
    value: V,
) -> bool {
    if has_key(before, k) {
        after == before.update(place_of(before, k), (k, value))
    } else {
        exists|pos: int| 0 <= pos <= before.len() && after == #[trigger] before.insert(pos, (k, value))
    }
}

impl<V> View for StrMap<V> {
    type V = Map<Seq<char>, V>;

    open spec fn view(&self) -> Map<Seq<char>, V> {
        map_of(self.pairs())
    }
}

} // verus!
