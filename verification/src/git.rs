//! The typed objects of the object store: commits, trees, blobs and tags, and
//! the binary form of a tree.

use vstd::prelude::*;
use vstd::utf8::{decode_utf8, encode_utf8, valid_utf8};
use crate::error::{err_format, Error};
use crate::strmap::{key_lt, lemma_map_of_insert, map_of, sorted, StrMap};
use crate::text::{
    bytes_of, chars_of, find_byte, find_char, next_of, next_char, push_bytes, range_starts_with, starts_with, string_of,
    trim, trim_range, utf8_string,
};
use crate::util::{hex_bytes, hex_decode, id_of, is_hex, to_id, Id};

verus! {

/// The id of an object in the store.
pub type Oid = Id;

/// File mode of a commit reference in a tree.
pub const MODE_COMMIT: i32 = 0o160000;

/// File mode of a sub-tree in a tree.
pub const MODE_TREE: i32 = 0o040000;

/// The kind of an object, as a tree entry's mode tells it.
#[derive(Debug, Copy, Clone, PartialEq, Eq, Structural)]
pub enum Type {
    Commit,
    Tree,
    /// A blob with its file mode: regular, executable or symbolic link.
    Blob(i32),
    Tag,
}

impl Type {
    /// The mode that a tree entry of this kind carries.
    pub open spec fn spec_mode(self) -> i32 {
        match self {
            Type::Commit => MODE_COMMIT,
            Type::Tree => MODE_TREE,
            Type::Blob(m) => m,
            Type::Tag => 0,
        }
    }

    /// The kind that a mode stands for; an unknown mode is an opaque blob.
    pub open spec fn spec_from_mode(m: i32) -> Type {
        if m == MODE_COMMIT {
            Type::Commit
        } else if m == MODE_TREE {
            Type::Tree
        } else {
            Type::Blob(m)
        }
    }

    /// The mode that a tree entry of this kind carries.
    pub fn mode(&self) -> (m: i32)
        ensures
            m == self.spec_mode(),
    {
        match self {
            Type::Commit => MODE_COMMIT,
            Type::Tree => MODE_TREE,
            Type::Blob(m) => *m,
            Type::Tag => 0,
        }
    }

    /// The kind that a mode stands for. No mode is refused: one that is
    /// neither a commit's nor a tree's is taken as a blob with that mode.
    pub fn from_mode(m: i32) -> (t: Type)
        ensures
            t == Type::spec_from_mode(m),
    {
        if m == MODE_COMMIT {
            Type::Commit
        } else if m == MODE_TREE {
            Type::Tree
        } else {
            Type::Blob(m)
        }
    }
}

/// The mode of a kind of object leads back to the kind, but for a tag, whose
/// mode 0 reads as a blob, and for a blob that was given the mode of a commit
/// or of a tree.
pub proof fn lemma_mode_round_trip(t: Type)
    requires
        t != Type::Tag,
        t matches Type::Blob(m) ==> m != MODE_COMMIT && m != MODE_TREE,
    ensures
        Type::spec_from_mode(t.spec_mode()) == t,
{
}

/// Every mode is the mode of the kind it stands for.
pub proof fn lemma_from_mode_keeps_mode(m: i32)
    ensures
        Type::spec_from_mode(m).spec_mode() == m,
{
}

/// What has a kind.
pub trait HasType {
    spec fn spec_otype(&self) -> Type;

    fn otype(&self) -> (t: Type)
        ensures
            t == self.spec_otype(),
    ;
}

/// A commit: its parents, its tree, and its message.
#[derive(Debug, Clone)]
pub struct Commit {
    pub parent: Vec<Oid>,
    pub tree: Oid,
    pub comment: String,
}

impl HasType for Commit {
    open spec fn spec_otype(&self) -> Type {
        Type::Commit
    }

    fn otype(&self) -> Type {
        Type::Commit
    }
}

/// One entry of a tree.
#[derive(Debug, Clone)]
pub struct TreeEntry {
    pub name: String,
    pub oid: Oid,
    pub mode: Type,
}

/// A tree: entries with different names, kept in the order of the names'
/// bytes.
#[derive(Debug)]
pub struct Tree {
    entries: StrMap<(Oid, Type)>,
}

impl HasType for Tree {
    open spec fn spec_otype(&self) -> Type {
        Type::Tree
    }

    fn otype(&self) -> Type {
        Type::Tree
    }
}

/// A blob with its file mode.
#[derive(Debug, Clone)]
pub struct Blob {
    pub mode: i32,
    pub data: Option<Vec<u8>>,
}

impl HasType for Blob {
    open spec fn spec_otype(&self) -> Type {
        Type::Blob(self.mode)
    }

    fn otype(&self) -> Type {
        Type::Blob(self.mode)
    }
}

/// A tag: its bytes, where they are at hand.
pub type Tag = Option<Vec<u8>>;

impl HasType for Tag {
    open spec fn spec_otype(&self) -> Type {
        Type::Tag
    }

    fn otype(&self) -> Type {
        Type::Tag
    }
}

/// An object of any kind.
#[derive(Debug)]
pub enum Object {
    Commit(Commit),
    Blob(Blob),
    Tree(Tree),
    Tag(Tag),
}

impl HasType for Object {
    open spec fn spec_otype(&self) -> Type {
        match self {
            Object::Commit(x) => x.spec_otype(),
            Object::Blob(x) => x.spec_otype(),
            Object::Tree(x) => x.spec_otype(),
            Object::Tag(x) => x.spec_otype(),
        }
    }

    fn otype(&self) -> Type {
        match self {
            Object::Commit(x) => x.otype(),
            Object::Blob(x) => x.otype(),
            Object::Tree(x) => x.otype(),
            Object::Tag(x) => x.otype(),
        }
    }
}

/// The 32 bits of a mode as a number without sign.
pub open spec fn mode_bits(m: i32) -> nat {
    if m >= 0 {
        m as nat
    } else {
        (m + 0x1_0000_0000) as nat
    }
}

/// A number in octal digits, without leading zeros.
pub open spec fn octal_text(n: nat) -> Seq<u8>
    decreases n,
{
    if n < 8 {
        seq![(48 + n) as u8]
    } else {
        octal_text(n / 8).push((48 + n % 8) as u8)
    }
}

/// The bytes of one tree entry: the mode in octal, a space, the name, a zero
/// byte, and the 32 bytes of the id.
pub open spec fn entry_bytes(name: Seq<char>, oid: Seq<u8>, mode: Type) -> Seq<u8> {
    octal_text(mode_bits(mode.spec_mode())) + seq![32u8] + encode_utf8(name) + seq![0u8] + oid
}

/// The bytes of a tree: those of its entries, one after the other.
pub open spec fn tree_bytes(entries: Seq<(Seq<char>, (Oid, Type))>) -> Seq<u8>
    decreases entries.len(),
{
    if entries.len() == 0 {
        Seq::empty()
    } else {
        tree_bytes(entries.drop_last()) + entry_bytes(
            entries.last().0,
            entries.last().1.0@,
            entries.last().1.1,
        )
    }
}

fn push_octal(out: &mut Vec<u8>, n: u32)
    ensures
        final(out)@ == old(out)@ + octal_text(n as nat),
    decreases n,
{
    if n >= 8 {
        push_octal(out, n / 8);
    }
    out.push(48 + (n % 8) as u8);
    assert(out@ =~= old(out)@ + octal_text(n as nat));
}

fn mode_number(m: i32) -> (n: u32)
    ensures
        n == mode_bits(m),
{
    if m >= 0 {
        m as u32
    } else {
        (m as i64 + 0x1_0000_0000) as u32
    }
}

impl Tree {
    /// The entries in the order of their names: each name with the id and
    /// kind under it.
    pub closed spec fn pairs(&self) -> Seq<(Seq<char>, (Oid, Type))> {
        self.entries.pairs()
    }

    /// A tree without entries.
    pub fn new() -> (t: Tree)
        ensures
            t.pairs() == Seq::<(Seq<char>, (Oid, Type))>::empty(),
            t@ == Map::<Seq<char>, (Oid, Type)>::empty(),
    {
        Tree { entries: StrMap::new() }
    }

    /// The number of entries.
    pub fn len(&self) -> (n: usize)
        ensures
            n == self.pairs().len(),
            sorted(self.pairs()),
    {
        self.entries.len()
    }

    /// Adds an entry, unless the tree has one of that name: then the tree
    /// stays as it is. Says whether the entry was added.
    pub fn insert(&mut self, entry: TreeEntry) -> (added: bool)
        ensures
            added == !old(self)@.contains_key(entry.name@),
            added ==> final(self)@ == old(self)@.insert(entry.name@, (entry.oid, entry.mode)),
            !added ==> final(self)@ == old(self)@ && final(self).pairs() == old(self).pairs(),
            sorted(final(self).pairs()),
    {
        if self.entries.contains_key(entry.name.as_str()) {
            let _ = self.entries.len();
            false
        } else {
            self.entries.insert(entry.name, (entry.oid, entry.mode));
            true
        }
    }

    /// The entry at a place of the order.
    pub fn entry(&self, i: usize) -> (e: TreeEntry)
        requires
            i < self.pairs().len(),
        ensures
            e.name@ == self.pairs()[i as int].0,
            e.oid == self.pairs()[i as int].1.0,
            e.mode == self.pairs()[i as int].1.1,
    {
        let name = self.entries.key_at(i).clone();
        let v = self.entries.value_at(i);
        TreeEntry { name, oid: v.0, mode: v.1 }
    }

    /// The entry of a name, if the tree has one.
    pub fn get(&self, name: &str) -> (r: Option<(Oid, Type)>)
        ensures
            match r {
                Some(v) => self@.contains_key(name@) && v == self@[name@],
                None => !self@.contains_key(name@),
            },
    {
        match self.entries.get(name) {
            Some(v) => Some((v.0, v.1)),
            None => None,
        }
    }

    /// The binary form of the tree: its entries in the order of their names.
    pub fn encode(&self) -> (bytes: Vec<u8>)
        ensures
            bytes@ == tree_bytes(self.pairs()),
            sorted(self.pairs()),
    {
        let n = self.entries.len();
        let mut out: Vec<u8> = Vec::new();
        let mut i: usize = 0;
        assert(self.pairs().take(0) =~= Seq::empty());
        while i < n
            invariant
                n == self.pairs().len(),
                i <= n,
                out@ == tree_bytes(self.pairs().take(i as int)),
            decreases n - i,
        {
            let name = self.entries.key_at(i);
            let v = self.entries.value_at(i);
            proof {
                assert(self.pairs().take(i + 1).drop_last() =~= self.pairs().take(i as int));
                assert(self.pairs().take(i + 1).last() == self.pairs()[i as int]);
            }
            push_octal(&mut out, mode_number(v.1.mode()));
            out.push(32u8);
            push_bytes(&mut out, name.as_str().as_bytes());
            out.push(0u8);
            push_bytes(&mut out, v.0.as_slice());
            i += 1;
            assert(out@ =~= tree_bytes(self.pairs().take(i as int)));
        }
        assert(self.pairs().take(n as int) =~= self.pairs());
        out
    }
}

impl View for Tree {
    type V = Map<Seq<char>, (Oid, Type)>;

    open spec fn view(&self) -> Map<Seq<char>, (Oid, Type)> {
        map_of(self.pairs())
    }
}


/// Octal digits, one at least.
pub open spec fn is_octal(digits: Seq<u8>) -> bool {
    &&& digits.len() >= 1
    &&& forall|i: int| 0 <= i < digits.len() ==> 48 <= #[trigger] digits[i] <= 55
}

/// The number that octal digits stand for.
pub open spec fn octal_value(digits: Seq<u8>) -> nat
    decreases digits.len(),
{
    if digits.len() == 0 {
        0
    } else {
        (octal_value(digits.drop_last()) * 8 + (digits.last() - 48)) as nat
    }
}

/// The entries that the bytes of a tree hold from place `from` on, each with
/// its name, the bytes of its id and its kind; `None` where an entry is
/// malformed: its mode is not octal or does not fit 31 bits, its name is not
/// UTF-8, or its id is cut short. What follows the last entry and holds no
/// space and zero byte any more is passed over.
pub open spec fn parse_entries(raw: Seq<u8>, from: int) -> Option<Seq<(Seq<char>, Seq<u8>, Type)>>
    decreases raw.len() - from,
{
    let sp = next_of(raw, from, 32);
    let nul = next_of(raw, sp + 1, 0);
    if from < 0 || sp >= raw.len() || nul >= raw.len() || nul <= sp {
        Some(Seq::empty())
    } else if raw.len() < nul + 33 {
        None
    } else if !is_octal(raw.subrange(from, sp)) || octal_value(raw.subrange(from, sp)) > i32::MAX {
        None
    } else if !valid_utf8(raw.subrange(sp + 1, nul)) {
        None
    } else {
        match parse_entries(raw, nul + 33) {
            None => None,
            Some(rest) => Some(
                seq![
                    (
                        decode_utf8(raw.subrange(sp + 1, nul)),
                        raw.subrange(nul + 1, nul + 33),
                        Type::spec_from_mode(octal_value(raw.subrange(from, sp)) as i32),
                    ),
                ] + rest,
            ),
        }
    }
}

/// The tree that a list of entries makes: of two entries with one name the
/// first stays.
pub open spec fn tree_of(entries: Seq<(Seq<char>, Seq<u8>, Type)>) -> Map<
    Seq<char>,
    (Seq<u8>, Type),
>
    decreases entries.len(),
{
    if entries.len() == 0 {
        Map::empty()
    } else {
        let m = tree_of(entries.drop_last());
        let e = entries.last();
        if m.contains_key(e.0) {
            m
        } else {
            m.insert(e.0, (e.1, e.2))
        }
    }
}

/// A list of entries and what follows it.
pub open spec fn entries_then(
    head: Seq<(Seq<char>, Seq<u8>, Type)>,
    tail: Option<Seq<(Seq<char>, Seq<u8>, Type)>>,
) -> Option<Seq<(Seq<char>, Seq<u8>, Type)>> {
    match tail {
        Some(t) => Some(head + t),
        None => None,
    }
}

proof fn lemma_octal_value_grows(digits: Seq<u8>, i: int)
    requires
        0 <= i <= digits.len(),
        forall|k: int| 0 <= k < digits.len() ==> 48 <= #[trigger] digits[k] <= 55,
    ensures
        octal_value(digits.take(i)) <= octal_value(digits),
    decreases digits.len() - i,
{
    if i == digits.len() {
        assert(digits.take(i) =~= digits);
    } else {
        lemma_octal_value_grows(digits, i + 1);
        assert(digits.take(i + 1).drop_last() =~= digits.take(i));
    }
}

/// Reads octal digits as a mode.
fn parse_octal(raw: &[u8], from: usize, to: usize) -> (r: Option<i32>)
    requires
        from <= to <= raw@.len(),
    ensures
        r.is_some() == (is_octal(raw@.subrange(from as int, to as int)) && octal_value(
            raw@.subrange(from as int, to as int),
        ) <= i32::MAX),
        r matches Some(m) ==> m == octal_value(raw@.subrange(from as int, to as int)),
{
    let ghost digits = raw@.subrange(from as int, to as int);
    if from == to {
        return None;
    }
    let mut acc: u64 = 0;
    let mut i: usize = from;
    assert(digits.take(0) =~= Seq::empty());
    while i < to
        invariant
            from <= i <= to <= raw@.len(),
            digits == raw@.subrange(from as int, to as int),
            acc == octal_value(digits.take(i - from)),
            acc <= i32::MAX,
            forall|k: int| 0 <= k < i - from ==> 48 <= #[trigger] digits[k] <= 55,
        decreases to - i,
    {
        let d = raw[i];
        if d < 48 || d > 55 {
            assert(digits[i - from] == d);
            return None;
        }
        proof {
            assert(digits.take(i - from + 1).drop_last() =~= digits.take(i - from));
            assert(digits.take(i - from + 1).last() == d);
        }
        acc = acc * 8 + (d - 48) as u64;
        if acc > 0x7fff_ffff {
            proof {
                let ghost at = i - from + 1;
                if is_octal(digits) {
                    lemma_octal_value_grows(digits, at);
                }
            }
            return None;
        }
        i += 1;
    }
    assert(digits.take(digits.len() as int) =~= digits);
    Some(acc as i32)
}

proof fn lemma_tree_of_push(
    entries: Seq<(Seq<char>, Seq<u8>, Type)>,
    e: (Seq<char>, Seq<u8>, Type),
)
    ensures
        tree_of(entries.push(e)) == if tree_of(entries).contains_key(e.0) {
            tree_of(entries)
        } else {
            tree_of(entries).insert(e.0, (e.1, e.2))
        },
{
    assert(entries.push(e).drop_last() =~= entries);
}

impl Tree {
    /// The tree as a map from names to the bytes of an id and a kind.
    pub open spec fn model(&self) -> Map<Seq<char>, (Seq<u8>, Type)> {
        self@.map_values(|v: (Oid, Type)| (v.0@, v.1))
    }

    /// Reads the binary form of a tree.
    pub fn parse(raw: &[u8]) -> (r: Result<Tree, Error>)
        ensures
            match parse_entries(raw@, 0) {
                Some(entries) => r matches Ok(t) && t.model() == tree_of(entries),
                None => r matches Err(Error::Format(_)),
            },
    {
        let n = raw.len();
        let mut tree = Tree::new();
        let mut pos: usize = 0;
        let ghost mut done: Seq<(Seq<char>, Seq<u8>, Type)> = Seq::empty();
        assert(tree.model() =~= tree_of(done));
        loop
            invariant
                n == raw@.len(),
                pos <= n,
                parse_entries(raw@, 0) == entries_then(done, parse_entries(raw@, pos as int)),
                tree.model() == tree_of(done),
            decreases n - pos,
        {
            let sp = find_byte(raw, pos, 32u8);
            if sp >= n {
                assert(done + Seq::empty() =~= done);
                return Ok(tree);
            }
            let nul = find_byte(raw, sp + 1, 0u8);
            if nul >= n {
                assert(done + Seq::empty() =~= done);
                return Ok(tree);
            }
            if n - nul < 33 {
                return Err(err_format("tree entry: id cut short"));
            }
            let mode = match parse_octal(raw, pos, sp) {
                Some(m) => m,
                None => {
                    return Err(err_format("tree entry: mode is not octal"));
                },
            };
            let name = match utf8_string(bytes_of(raw, sp + 1, nul)) {
                Some(s) => s,
                None => {
                    return Err(err_format("tree entry: name is not UTF-8"));
                },
            };
            let oid = to_id(bytes_of(raw, nul + 1, nul + 33).as_slice());
            let kind = Type::from_mode(mode);
            let ghost e = (name@, oid@, kind);
            proof {
                assert(oid@ =~= raw@.subrange(nul + 1, nul + 33));
                lemma_tree_of_push(done, e);
                let rest = parse_entries(raw@, nul + 33);
                assert(parse_entries(raw@, pos as int) == entries_then(seq![e], rest));
                if rest is Some {
                    assert(done + (seq![e] + rest.unwrap()) =~= done.push(e) + rest.unwrap());
                }
            }
            let ghost before = tree@;
            let added = tree.insert(TreeEntry { name, oid, mode: kind });
            proof {
                let f = |v: (Oid, Type)| (v.0@, v.1);
                if added {
                    assert(before.insert(e.0, (oid, kind)).map_values(f) =~= before.map_values(
                        f,
                    ).insert(e.0, (e.1, e.2)));
                }
                done = done.push(e);
            }
            pos = nul + 33;
        }
    }
}


/// What a commit's text holds: the bytes of its tree id, those of its parent
/// ids, and its message.
pub struct CommitText {
    pub tree: Seq<u8>,
    pub parents: Seq<Seq<u8>>,
    pub comment: Seq<char>,
}

/// The word that begins the line of the tree.
pub open spec fn tree_word() -> Seq<char> {
    seq!['t', 'r', 'e', 'e', ' ']
}

/// The word that begins the line of a parent.
pub open spec fn parent_word() -> Seq<char> {
    seq!['p', 'a', 'r', 'e', 'n', 't', ' ']
}

/// The id of a commit that names no tree: all zero.
pub open spec fn zero_id() -> Seq<u8> {
    Seq::new(32, |i: int| 0u8)
}

/// Reads the text of a commit from place `from` on, line by line, with the
/// tree and the parents found so far. A line `tree <hex>` gives the tree, a
/// line `parent <hex>` one more parent, the first blank line ends the header:
/// what follows it is the message. Other lines are passed over. White space
/// around a line and around its hex text does not count. Text that ends
/// before a blank line has its last, unfinished line as the message. `None`
/// where the text after `tree` or `parent` is not hex.
pub open spec fn scan_commit(text: Seq<char>, from: int, tree: Seq<u8>, parents: Seq<Seq<u8>>) -> Option<
    CommitText,
>
    decreases text.len() - from,
{
    let n = next_char(text, from, '\n');
    if from < 0 || n >= text.len() || n < from {
        Some(CommitText { tree, parents, comment: text.skip(from) })
    } else {
        let line = trim(text.subrange(from, n));
        if starts_with(line, tree_word()) {
            let hex = trim(line.skip(5));
            if is_hex(hex) {
                scan_commit(text, n + 1, id_of(hex_bytes(hex)), parents)
            } else {
                None
            }
        } else if starts_with(line, parent_word()) {
            let hex = trim(line.skip(7));
            if is_hex(hex) {
                scan_commit(text, n + 1, tree, parents.push(id_of(hex_bytes(hex))))
            } else {
                None
            }
        } else if line.len() == 0 {
            Some(CommitText { tree, parents, comment: text.skip(n + 1) })
        } else {
            scan_commit(text, n + 1, tree, parents)
        }
    }
}

/// What the text of a commit holds.
pub open spec fn commit_text(text: Seq<char>) -> Option<CommitText> {
    scan_commit(text, 0, zero_id(), Seq::empty())
}

/// The bytes of each id of a list.
pub open spec fn ids_of(ids: Seq<Id>) -> Seq<Seq<u8>> {
    Seq::new(ids.len(), |i: int| ids[i]@)
}

/// Reads the hex text `chars[from..to]`, white space around it taken off, as
/// an id: the first 32 bytes of what it stands for, filled up with zeros.
fn read_hex(chars: &[char], from: usize, to: usize) -> (r: Option<Id>)
    requires
        from <= to <= chars@.len(),
    ensures
        r.is_some() == is_hex(trim(chars@.subrange(from as int, to as int))),
        r matches Some(id) ==> id@ == id_of(
            hex_bytes(trim(chars@.subrange(from as int, to as int))),
        ),
{
    let (a, b) = trim_range(chars, from, to);
    let hex = string_of(chars, a, b);
    match hex_decode(hex.as_str()) {
        Some(bytes) => Some(to_id(bytes.as_slice())),
        None => None,
    }
}

impl Commit {
    /// What this commit holds, as its text holds it.
    pub open spec fn text(&self) -> CommitText {
        CommitText { tree: self.tree@, parents: ids_of(self.parent@), comment: self.comment@ }
    }

    /// Reads the text of a commit.
    pub fn parse(text: &str) -> (r: Result<Commit, Error>)
        ensures
            match commit_text(text@) {
                Some(t) => r matches Ok(c) && c.text() == t,
                None => r matches Err(Error::Format(_)),
            },
    {
        let chars = chars_of(text);
        let n = chars.len();
        let mut parent: Vec<Oid> = Vec::new();
        let mut tree: Oid = [0u8; 32];
        let mut pos: usize = 0;
        let tree_w: [char; 5] = ['t', 'r', 'e', 'e', ' '];
        let parent_w: [char; 7] = ['p', 'a', 'r', 'e', 'n', 't', ' '];
        assert(tree_w@ =~= tree_word());
        assert(parent_w@ =~= parent_word());
        assert(tree@ =~= zero_id());
        assert(ids_of(parent@) =~= Seq::<Seq<u8>>::empty());
        loop
            invariant
                chars@ == text@,
                n == chars@.len(),
                pos <= n,
                tree_w@ == tree_word(),
                parent_w@ == parent_word(),
                commit_text(text@) == scan_commit(text@, pos as int, tree@, ids_of(parent@)),
            decreases n - pos,
        {
            let end = find_char(chars.as_slice(), pos, '\n');
            if end >= n {
                let comment = string_of(chars.as_slice(), pos, n);
                let c = Commit { parent, tree, comment };
                assert(c.comment@ =~= text@.skip(pos as int));
                return Ok(c);
            }
            let (a, b) = trim_range(chars.as_slice(), pos, end);
            let ghost line = chars@.subrange(a as int, b as int);
            if range_starts_with(chars.as_slice(), a, b, tree_w.as_slice()) {
                assert(line.skip(5) =~= chars@.subrange(a + 5, b as int));
                match read_hex(chars.as_slice(), a + 5, b) {
                    Some(id) => {
                        tree = id;
                    },
                    None => {
                        return Err(err_format("commit: tree id is not hex"));
                    },
                }
            } else if range_starts_with(chars.as_slice(), a, b, parent_w.as_slice()) {
                assert(line.skip(7) =~= chars@.subrange(a + 7, b as int));
                match read_hex(chars.as_slice(), a + 7, b) {
                    Some(id) => {
                        let ghost before = ids_of(parent@);
                        parent.push(id);
                        assert(ids_of(parent@) =~= before.push(id@));
                    },
                    None => {
                        return Err(err_format("commit: parent id is not hex"));
                    },
                }
            } else if a == b {
                let comment = string_of(chars.as_slice(), end + 1, n);
                let c = Commit { parent, tree, comment };
                assert(c.comment@ =~= text@.skip(end + 1));
                return Ok(c);
            }
            pos = end + 1;
        }
    }
}


/// An entry that reads back from the bytes it is written as: its name holds
/// no zero character, and its kind is one that its mode stands for.
pub open spec fn readable_entry(e: (Seq<char>, (Oid, Type))) -> bool {
    &&& forall|k: int| 0 <= k < e.0.len() ==> #[trigger] e.0[k] != '\0'
    &&& !(e.1.1 is Tag)
    &&& e.1.1.spec_mode() >= 0
    &&& (e.1.1 matches Type::Blob(m) ==> m != MODE_COMMIT && m != MODE_TREE)
}

/// An entry as reading gives it: its name, the bytes of its id, its kind.
pub open spec fn entry_view(e: (Seq<char>, (Oid, Type))) -> (Seq<char>, Seq<u8>, Type) {
    (e.0, e.1.0@, e.1.1)
}

/// Entries as reading gives them.
pub open spec fn entry_views(es: Seq<(Seq<char>, (Oid, Type))>) -> Seq<(Seq<char>, Seq<u8>, Type)> {
    Seq::new(es.len(), |i: int| entry_view(es[i]))
}

proof fn lemma_octal_text(n: nat)
    ensures
        is_octal(octal_text(n)),
        octal_value(octal_text(n)) == n,
        forall|k: int| 0 <= k < octal_text(n).len() ==> #[trigger] octal_text(n)[k] != 32,
    decreases n,
{
    if n < 8 {
        let s = octal_text(n);
        assert(s.len() == 1);
        assert(s.drop_last() =~= Seq::<u8>::empty());
        assert(octal_value(s) == n) by {
            reveal_with_fuel(octal_value, 2);
        }
    } else {
        lemma_octal_text(n / 8);
        let head = octal_text(n / 8);
        let s = octal_text(n);
        assert(s.drop_last() =~= head);
        assert(s.last() == (48 + n % 8) as u8);
        assert forall|k: int| 0 <= k < s.len() implies 48 <= #[trigger] s[k] <= 55 by {
            if k < head.len() {
                assert(s[k] == head[k]);
            }
        }
    }
}

proof fn lemma_scalar_bytes_not_zero(c: u32)
    by (bit_vector)
    requires
        c != 0,
        c <= 0x10ffff,
    ensures
        c <= 0x7f ==> (c & 0x7F) as u8 != 0,
        0xC0u8 | ((c >> 6) & 0x1F) as u8 != 0,
        0xE0u8 | ((c >> 12) & 0x0F) as u8 != 0,
        0xF0u8 | ((c >> 18) & 0x7) as u8 != 0,
        0x80u8 | (c & 0x3F) as u8 != 0,
        0x80u8 | ((c >> 6) & 0x3F) as u8 != 0,
        0x80u8 | ((c >> 12) & 0x3F) as u8 != 0,
{
}

proof fn lemma_char_code(c: char)
    requires
        c != '\0',
    ensures
        c as u32 != 0,
        c as u32 <= 0x10ffff,
{
}

/// A text without zero characters has no zero byte in its UTF-8 form.
proof fn lemma_utf8_no_zero(chars: Seq<char>)
    requires
        forall|k: int| 0 <= k < chars.len() ==> #[trigger] chars[k] != '\0',
    ensures
        forall|k: int| 0 <= k < encode_utf8(chars).len() ==> #[trigger] encode_utf8(chars)[k] != 0,
    decreases chars.len(),
{
    if chars.len() > 0 {
        let rest = chars.drop_first();
        assert forall|k: int| 0 <= k < rest.len() implies #[trigger] rest[k] != '\0' by {
            assert(rest[k] == chars[k + 1]);
        }
        lemma_utf8_no_zero(rest);
        let c = chars[0] as u32;
        assert(chars[0] != '\0');
        lemma_char_code(chars[0]);
        lemma_scalar_bytes_not_zero(c);
        let head = vstd::utf8::encode_scalar(c);
        assert forall|k: int| 0 <= k < head.len() implies #[trigger] head[k] != 0 by {
        }
        let all = encode_utf8(chars);
        assert forall|k: int| 0 <= k < all.len() implies #[trigger] all[k] != 0 by {
            if k < head.len() {
                assert(all[k] == head[k]);
            } else {
                assert(all[k] == encode_utf8(rest)[k - head.len()]);
            }
        }
    }
}

proof fn lemma_tree_bytes_concat(a: Seq<(Seq<char>, (Oid, Type))>, b: Seq<(Seq<char>, (Oid, Type))>)
    ensures
        tree_bytes(a + b) == tree_bytes(a) + tree_bytes(b),
    decreases b.len(),
{
    if b.len() == 0 {
        assert(a + b =~= a);
        assert(tree_bytes(a) + tree_bytes(b) =~= tree_bytes(a));
    } else {
        lemma_tree_bytes_concat(a, b.drop_last());
        assert((a + b).drop_last() =~= a + b.drop_last());
        assert((a + b).last() == b.last());
        assert(tree_bytes(a + b) =~= tree_bytes(a) + tree_bytes(b));
    }
}

/// The bytes of a tree begin with those of its first entry.
proof fn lemma_tree_bytes_first(es: Seq<(Seq<char>, (Oid, Type))>)
    requires
        es.len() > 0,
    ensures
        tree_bytes(es) == entry_bytes(es[0].0, es[0].1.0@, es[0].1.1) + tree_bytes(es.drop_first()),
{
    let one = seq![es[0]];
    assert(es =~= one + es.drop_first());
    lemma_tree_bytes_concat(one, es.drop_first());
    assert(one.drop_last() =~= Seq::<(Seq<char>, (Oid, Type))>::empty());
    assert(tree_bytes(one) =~= entry_bytes(es[0].0, es[0].1.0@, es[0].1.1)) by {
        reveal_with_fuel(tree_bytes, 2);
    }
}

/// Where the parts of an entry stand when its bytes begin at `from`.
proof fn lemma_entry_layout(raw: Seq<u8>, from: int, e: (Seq<char>, (Oid, Type)), rest: Seq<u8>)
    requires
        0 <= from <= raw.len(),
        raw.subrange(from, raw.len() as int) == entry_bytes(e.0, e.1.0@, e.1.1) + rest,
        readable_entry(e),
    ensures
        ({
            let digits = octal_text(mode_bits(e.1.1.spec_mode()));
            let name = encode_utf8(e.0);
            let sp = from + digits.len();
            let nul = sp + 1 + name.len();
            &&& next_of(raw, from, 32u8) == sp
            &&& next_of(raw, sp + 1, 0u8) == nul
            &&& nul + 33 <= raw.len()
            &&& raw.subrange(from, sp) == digits
            &&& raw.subrange(sp + 1, nul) == name
            &&& raw.subrange(nul + 1, nul + 33) == e.1.0@
            &&& raw.subrange(nul + 33, raw.len() as int) == rest
        }),
{
    let digits = octal_text(mode_bits(e.1.1.spec_mode()));
    let name = encode_utf8(e.0);
    let oid = e.1.0@;
    let eb = entry_bytes(e.0, oid, e.1.1);
    let tail = raw.subrange(from, raw.len() as int);
    let sp = from + digits.len();
    let nul = sp + 1 + name.len();
    lemma_octal_text(mode_bits(e.1.1.spec_mode()));
    lemma_utf8_no_zero(e.0);
    assert(oid.len() == 32);
    assert(eb.len() == digits.len() + 1 + name.len() + 1 + 32);
    assert(tail.len() == eb.len() + rest.len());
    assert forall|j: int| from <= j < from + eb.len() implies #[trigger] raw[j] == eb[j - from] by {
        assert(raw[j] == tail[j - from]);
    }
    assert forall|j: int| from <= j < sp implies #[trigger] raw[j] != 32 by {
        assert(eb[j - from] == digits[j - from]);
    }
    assert(raw[sp] == 32) by {
        assert(eb[digits.len() as int] == 32);
    }
    assert(crate::text::is_next(raw, from, 32u8, sp));
    assert forall|j: int| sp + 1 <= j < nul implies #[trigger] raw[j] != 0 by {
        assert(eb[j - from] == name[j - sp - 1]);
    }
    assert(raw[nul] == 0) by {
        assert(eb[nul - from] == 0);
    }
    assert(crate::text::is_next(raw, sp + 1, 0u8, nul));
    assert(raw.subrange(from, sp) =~= digits) by {
        assert forall|k: int| 0 <= k < digits.len() implies raw[from + k] == digits[k] by {
            assert(eb[k] == digits[k]);
        }
    }
    assert(raw.subrange(sp + 1, nul) =~= name) by {
        assert forall|k: int| 0 <= k < name.len() implies raw[sp + 1 + k] == name[k] by {
            assert(eb[sp + 1 + k - from] == name[k]);
        }
    }
    assert(raw.subrange(nul + 1, nul + 33) =~= oid) by {
        assert forall|k: int| 0 <= k < 32 implies raw[nul + 1 + k] == oid[k] by {
            assert(eb[nul + 1 + k - from] == oid[k]);
        }
    }
    assert(raw.subrange(nul + 33, raw.len() as int) =~= rest) by {
        assert forall|k: int| 0 <= k < rest.len() implies raw[nul + 33 + k] == rest[k] by {
            assert(raw[nul + 33 + k] == tail[eb.len() + k]);
        }
    }
}

/// The bytes of entries that read back are read back as these entries.
proof fn lemma_parse_tree(raw: Seq<u8>, from: int, es: Seq<(Seq<char>, (Oid, Type))>)
    requires
        0 <= from <= raw.len(),
        raw.subrange(from, raw.len() as int) == tree_bytes(es),
        forall|i: int| 0 <= i < es.len() ==> readable_entry(#[trigger] es[i]),
    ensures
        parse_entries(raw, from) == Some(entry_views(es)),
    decreases es.len(),
{
    if es.len() == 0 {
        assert(raw.subrange(from, raw.len() as int).len() == 0);
        assert(from == raw.len());
        assert(next_of(raw, from, 32u8) == raw.len());
        assert(entry_views(es) =~= Seq::empty());
    } else {
        let e = es[0];
        let rest = es.drop_first();
        lemma_tree_bytes_first(es);
        assert(readable_entry(e));
        lemma_entry_layout(raw, from, e, tree_bytes(rest));
        let n = mode_bits(e.1.1.spec_mode());
        let digits = octal_text(n);
        let name = encode_utf8(e.0);
        let sp = from + digits.len();
        let nul = sp + 1 + name.len();
        lemma_octal_text(n);
        vstd::utf8::encode_utf8_valid_utf8(e.0);
        vstd::utf8::encode_utf8_decode_utf8(e.0);
        assert(n <= i32::MAX);
        assert(Type::spec_from_mode(n as i32) == e.1.1);
        assert forall|i: int| 0 <= i < rest.len() implies readable_entry(#[trigger] rest[i]) by {
            assert(rest[i] == es[i + 1]);
        }
        lemma_parse_tree(raw, nul + 33, rest);
        assert(seq![entry_view(e)] + entry_views(rest) =~= entry_views(es));
    }
}

/// Read back, sorted entries make the tree that they are.
proof fn lemma_tree_of_sorted(es: Seq<(Seq<char>, (Oid, Type))>)
    requires
        sorted(es),
    ensures
        tree_of(entry_views(es)) == map_of(es).map_values(|v: (Oid, Type)| (v.0@, v.1)),
    decreases es.len(),
{
    let f = |v: (Oid, Type)| (v.0@, v.1);
    if es.len() == 0 {
        assert(map_of(es).map_values(f) =~= Map::<Seq<char>, (Seq<u8>, Type)>::empty());
    } else {
        let p = es.drop_last();
        let x = es.last();
        assert forall|i: int, j: int| 0 <= i < j < p.len() implies key_lt(
            #[trigger] p[i].0,
            #[trigger] p[j].0,
        ) by {
            assert(key_lt(es[i].0, es[j].0));
        }
        lemma_tree_of_sorted(p);
        assert forall|i: int| 0 <= i < p.len() implies key_lt(#[trigger] p[i].0, x.0) by {
            assert(key_lt(es[i].0, es[es.len() - 1].0));
        }
        lemma_map_of_insert(p, p.len() as int, x.0, x.1);
        assert(p.insert(p.len() as int, x) =~= es);
        assert(entry_views(es).drop_last() =~= entry_views(p));
        assert(entry_views(es).last() == entry_view(x));
        assert(!map_of(p).map_values(f).contains_key(x.0));
        assert(map_of(p).insert(x.0, x.1).map_values(f) =~= map_of(p).map_values(f).insert(
            x.0,
            (x.1.0@, x.1.1),
        ));
    }
}

/// Round trip of the binary form of a tree: the bytes that are written for
/// entries in the order of their names are read back as the tree of these
/// entries, where each entry is one that reads back: its name holds no zero
/// character, and its kind is a commit, a tree, or a blob whose mode is not
/// negative and is neither that of a commit nor that of a tree.
pub proof fn lemma_tree_round_trip(entries: Seq<(Seq<char>, (Oid, Type))>)
    requires
        sorted(entries),
        forall|i: int| 0 <= i < entries.len() ==> readable_entry(#[trigger] entries[i]),
    ensures
        parse_entries(tree_bytes(entries), 0) == Some(entry_views(entries)),
        tree_of(entry_views(entries)) == map_of(entries).map_values(|v: (Oid, Type)| (v.0@, v.1)),
{
    let raw = tree_bytes(entries);
    assert(raw.subrange(0, raw.len() as int) =~= raw);
    lemma_parse_tree(raw, 0, entries);
    lemma_tree_of_sorted(entries);
}

} // verus!
