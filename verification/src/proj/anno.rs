//! The annotation of one tracked file: its metadata, where it comes from, and
//! whether it is up to date.

use vstd::prelude::*;
use crate::strmap::{compare_keys, Rank};
use crate::error::{err_format, err_not_found, err_unreadable, Error, IoKind};
use crate::text::{
    bytes_of, chars_of, find_byte, next_of, push_char, push_str, range_starts_with, starts_with,
    string_of, trim, trim_range,
};
use crate::text::{ascii_bytes, lemma_ascii_bytes};
use crate::util::{
    calc_id_buf, id_of, lemma_zbase32_chars, lemma_zbase32_id_round_trip, sha256, to_id, to_zbase32,
    zbase32_bytes, zbase32_decode, zbase32_text, Id,
};
use vstd::utf8::encode_utf8;
use crate::value::{
    has_text, is_text, lemma_array_node, lemma_model_get, lemma_model_insert, lemma_model_remove,
    model, nodes_of, without_text, Data, Node, Value,
};

verus! {

/// Whether a tracked file and its annotation agree with what was last saved.
#[derive(Debug, Copy, Clone, PartialEq, Eq, Structural)]
pub enum St {
    /// Nothing has changed.
    Ready,
    /// The file is as it was, the metadata was edited.
    MMeta,
    /// The file has changed, or was never committed.
    MFile,
}

/// The one-letter sign of a state in listings.
pub open spec fn st_sign(st: St) -> Seq<char> {
    match st {
        St::Ready => "."@,
        St::MMeta => "m"@,
        St::MFile => "M"@,
    }
}

pub fn st2chr(st: St) -> (s: String)
    ensures
        s@ == st_sign(st),
{
    match st {
        St::Ready => ".".to_owned(),
        St::MMeta => "m".to_owned(),
        St::MFile => "M".to_owned(),
    }
}

/// The texts of a sequence of strings.
pub open spec fn texts_of(strings: Seq<String>) -> Seq<Seq<char>> {
    Seq::new(strings.len(), |i: int| strings[i]@)
}

/// One step of the metadata edit language.
pub enum Op {
    /// Append a text to the array under a key.
    Add(Seq<char>, Seq<char>),
    /// Take a text out from under a key.
    Del(Seq<char>, Seq<char>),
    /// Put a text under a key in place of what is there.
    Put(Seq<char>, Seq<char>),
    /// Not an edit.
    Skip,
}

/// `p` is the first place of `c` in `s`.
pub open spec fn is_first(s: Seq<char>, c: char, p: int) -> bool {
    &&& 0 <= p < s.len()
    &&& s[p] == c
    &&& forall|i: int| 0 <= i < p ==> s[i] != c
}

/// The first place of `c` in `s`, or the length of `s` where `c` is not in it.
pub open spec fn first_of(s: Seq<char>, c: char) -> int {
    if exists|p: int| is_first(s, c, p) {
        choose|p: int| is_first(s, c, p)
    } else {
        s.len() as int
    }
}

/// The edit that `op` is split at the first `c` into a key and a text.
pub open spec fn split_op(op: Seq<char>, c: char) -> (Seq<char>, Seq<char>) {
    (op.take(first_of(op, c)), op.skip(first_of(op, c) + 1))
}

/// What an edit string asks for. A leading `+` or `-` edits the key `tag`;
/// else the first `+` decides, then the first `-`, then the first `=`.
pub open spec fn parse_op(op: Seq<char>) -> Op {
    if op.len() > 0 && op[0] == '+' {
        Op::Add("tag"@, op.skip(1))
    } else if op.len() > 0 && op[0] == '-' {
        Op::Del("tag"@, op.skip(1))
    } else if first_of(op, '+') < op.len() {
        Op::Add(split_op(op, '+').0, split_op(op, '+').1)
    } else if first_of(op, '-') < op.len() {
        Op::Del(split_op(op, '-').0, split_op(op, '-').1)
    } else if first_of(op, '=') < op.len() {
        Op::Put(split_op(op, '=').0, split_op(op, '=').1)
    } else {
        Op::Skip
    }
}

/// Whether an edit may write under `key`: the key is there already, or is
/// reserved, or new keys are allowed.
pub open spec fn may_write(
    m: Map<Seq<char>, Node>,
    reserved: Seq<Seq<char>>,
    key: Seq<char>,
    allow_new: bool,
) -> bool {
    m.contains_key(key) || reserved.contains(key) || allow_new
}

/// Appending `val` under `key`: a new key gets the text itself, a text or
/// another single value becomes an array of two, an array grows by one; a
/// value that is there already changes nothing.
pub open spec fn op_add(
    m: Map<Seq<char>, Node>,
    reserved: Seq<Seq<char>>,
    key: Seq<char>,
    val: Seq<char>,
    allow_new: bool,
) -> (Map<Seq<char>, Node>, bool) {
    if !may_write(m, reserved, key, allow_new) {
        (m, false)
    } else if !m.contains_key(key) {
        (m.insert(key, Node::Text(val)), true)
    } else {
        match m[key] {
            Node::Array(a) => if a.contains(Node::Text(val)) {
                (m, false)
            } else {
                (m.insert(key, Node::Array(a.push(Node::Text(val)))), true)
            },
            other => if other == Node::Text(val) {
                (m, false)
            } else {
                (m.insert(key, Node::Array(seq![other, Node::Text(val)])), true)
            },
        }
    }
}

/// Putting `val` under `key` in place of what is there.
pub open spec fn op_set(
    m: Map<Seq<char>, Node>,
    reserved: Seq<Seq<char>>,
    key: Seq<char>,
    val: Seq<char>,
    allow_new: bool,
) -> (Map<Seq<char>, Node>, bool) {
    if !may_write(m, reserved, key, allow_new) {
        (m, false)
    } else {
        (m.insert(key, Node::Text(val)), true)
    }
}

/// Taking `val` out from under `key`: a text that is `val` goes with its key,
/// an array that holds `val` loses every item that is `val` and goes with its
/// key when nothing is left. Where there is nothing to take out, because the
/// key is missing or what it holds is neither `val` nor an array with `val`
/// in it, the metadata stay as they are and nothing has changed.
pub open spec fn op_del(m: Map<Seq<char>, Node>, key: Seq<char>, val: Seq<char>) -> (
    Map<Seq<char>, Node>,
    bool,
) {
    if !m.contains_key(key) {
        (m, false)
    } else {
        match m[key] {
            Node::Text(t) => if t == val {
                (m.remove(key), true)
            } else {
                (m, false)
            },
            Node::Array(a) => if a.contains(Node::Text(val)) {
                let kept = a.filter(|n: Node| n != Node::Text(val));
                (
                    if kept.len() > 0 {
                        m.insert(key, Node::Array(kept))
                    } else {
                        m.remove(key)
                    },
                    true,
                )
            } else {
                (m, false)
            },
            _ => (m, false),
        }
    }
}

/// The metadata after one edit, and whether the edit counts as a change.
pub open spec fn apply_op(
    m: Map<Seq<char>, Node>,
    reserved: Seq<Seq<char>>,
    op: Op,
    allow_new: bool,
) -> (Map<Seq<char>, Node>, bool) {
    match op {
        Op::Add(key, val) => op_add(m, reserved, key, val, allow_new),
        Op::Del(key, val) => op_del(m, key, val),
        Op::Put(key, val) => op_set(m, reserved, key, val, allow_new),
        Op::Skip => (m, false),
    }
}

/// The metadata after a list of edit strings, applied in order, and how many
/// of them counted as a change.
pub open spec fn edit_all(
    m: Map<Seq<char>, Node>,
    reserved: Seq<Seq<char>>,
    ops: Seq<Seq<char>>,
    allow_new: bool,
) -> (Map<Seq<char>, Node>, nat)
    decreases ops.len(),
{
    if ops.len() == 0 {
        (m, 0)
    } else {
        let before = edit_all(m, reserved, ops.drop_last(), allow_new);
        let step = apply_op(before.0, reserved, parse_op(ops.last()), allow_new);
        (
            step.0,
            if step.1 {
                before.1 + 1
            } else {
                before.1
            },
        )
    }
}

/// Whether `key` is one of the reserved keys.
fn is_reserved(reserved: &Vec<String>, key: &str) -> (b: bool)
    ensures
        b == texts_of(reserved@).contains(key@),
{
    let mut i: usize = 0;
    while i < reserved.len()
        invariant
            i <= reserved@.len(),
            forall|j: int| 0 <= j < i ==> texts_of(reserved@)[j] != key@,
        decreases reserved@.len() - i,
    {
        if compare_keys(reserved[i].as_str(), key) == Rank::Equal {
            assert(texts_of(reserved@)[i as int] == key@);
            return true;
        }
        i += 1;
    }
    false
}

fn edit_add(data: &mut Data, reserved: &Vec<String>, key: &str, val: &str, allow_new: bool) -> (changed:
    bool)
    ensures
        (model(final(data)@), changed) == op_add(
            model(old(data)@),
            texts_of(reserved@),
            key@,
            val@,
            allow_new,
        ),
{
    let ghost m = model(data@);
    proof {
        lemma_model_get(data@, key@);
    }
    let exists = data.contains_key(key);
    if !exists && !is_reserved(reserved, key) && !allow_new {
        return false;
    }
    let text = Value::Text(val.to_owned());
    match data.remove(key) {
        None => {
            proof {
                lemma_model_insert(data@, key@, text);
            }
            data.insert(key.to_owned(), text);
            true
        },
        Some(was) => {
            let ghost rest = data@;
            proof {
                lemma_model_remove(old(data)@, key@);
            }
            match was {
                Value::Array(mut items) => {
                    proof {
                        lemma_array_node(items);
                    }
                    let ghost before = nodes_of(items@);
                    let present = has_text(&items, val);
                    if !present {
                        items.push(text);
                        assert(nodes_of(items@) =~= before.push(Node::Text(val@)));
                    }
                    let now = Value::Array(items);
                    proof {
                        lemma_array_node(items);
                        lemma_model_insert(rest, key@, now);
                        assert(m.remove(key@).insert(key@, now.node()) =~= m.insert(key@, now.node()));
                        if present {
                            assert(m.insert(key@, m[key@]) =~= m);
                        }
                    }
                    data.insert(key.to_owned(), now);
                    !present
                },
                other => {
                    if is_text(&other, val) {
                        proof {
                            lemma_model_insert(rest, key@, other);
                            assert(m.remove(key@).insert(key@, m[key@]) =~= m);
                        }
                        data.insert(key.to_owned(), other);
                        false
                    } else {
                        let ghost first = other.node();
                        let mut items: Vec<Value> = Vec::new();
                        items.push(other);
                        items.push(text);
                        let now = Value::Array(items);
                        proof {
                            lemma_array_node(items);
                            assert(nodes_of(items@) =~= seq![first, Node::Text(val@)]);
                            lemma_model_insert(rest, key@, now);
                            assert(m.remove(key@).insert(key@, now.node()) =~= m.insert(
                                key@,
                                now.node(),
                            ));
                        }
                        data.insert(key.to_owned(), now);
                        true
                    }
                },
            }
        },
    }
}

fn edit_set(data: &mut Data, reserved: &Vec<String>, key: &str, val: &str, allow_new: bool) -> (changed:
    bool)
    ensures
        (model(final(data)@), changed) == op_set(
            model(old(data)@),
            texts_of(reserved@),
            key@,
            val@,
            allow_new,
        ),
{
    proof {
        lemma_model_get(data@, key@);
    }
    let exists = data.contains_key(key);
    if !exists && !is_reserved(reserved, key) && !allow_new {
        return false;
    }
    let text = Value::Text(val.to_owned());
    proof {
        lemma_model_insert(data@, key@, text);
    }
    data.insert(key.to_owned(), text);
    true
}

fn edit_del(data: &mut Data, key: &str, val: &str) -> (changed: bool)
    ensures
        (model(final(data)@), changed) == op_del(model(old(data)@), key@, val@),
{
    let ghost m = model(data@);
    proof {
        lemma_model_get(data@, key@);
        lemma_model_remove(data@, key@);
    }
    match data.remove(key) {
        None => false,
        Some(was) => {
            let ghost rest = data@;
            match was {
                Value::Text(t) => {
                    if compare_keys(t.as_str(), val) == Rank::Equal {
                        true
                    } else {
                        let back = Value::Text(t);
                        proof {
                            lemma_model_insert(rest, key@, back);
                            assert(m.remove(key@).insert(key@, m[key@]) =~= m);
                        }
                        data.insert(key.to_owned(), back);
                        false
                    }
                },
                Value::Array(items) => {
                    proof {
                        lemma_array_node(items);
                    }
                    if !has_text(&items, val) {
                        let back = Value::Array(items);
                        proof {
                            lemma_array_node(items);
                            lemma_model_insert(rest, key@, back);
                            assert(m.remove(key@).insert(key@, m[key@]) =~= m);
                        }
                        data.insert(key.to_owned(), back);
                        false
                    } else {
                        let (kept, removed) = without_text(items, val);
                        if kept.len() > 0 {
                            let now = Value::Array(kept);
                            proof {
                                lemma_array_node(kept);
                                lemma_model_insert(rest, key@, now);
                                assert(m.remove(key@).insert(key@, now.node()) =~= m.insert(
                                    key@,
                                    now.node(),
                                ));
                            }
                            data.insert(key.to_owned(), now);
                        }
                        true
                    }
                },
                other => {
                    proof {
                        lemma_model_insert(rest, key@, other);
                        assert(m.remove(key@).insert(key@, m[key@]) =~= m);
                    }
                    data.insert(key.to_owned(), other);
                    false
                },
            }
        },
    }
}


/// An edit with its key and text as strings.
enum Step {
    Add(String, String),
    Del(String, String),
    Put(String, String),
    Skip,
}

impl Step {
    spec fn op(self) -> Op {
        match self {
            Step::Add(k, v) => Op::Add(k@, v@),
            Step::Del(k, v) => Op::Del(k@, v@),
            Step::Put(k, v) => Op::Put(k@, v@),
            Step::Skip => Op::Skip,
        }
    }
}

fn find_first(chars: &Vec<char>, c: char) -> (p: usize)
    ensures
        p == first_of(chars@, c),
        p <= chars@.len(),
{
    let mut i: usize = 0;
    while i < chars.len()
        invariant
            i <= chars@.len(),
            forall|j: int| 0 <= j < i ==> chars@[j] != c,
        decreases chars@.len() - i,
    {
        if chars[i] == c {
            assert(is_first(chars@, c, i as int));
            return i;
        }
        i += 1;
    }
    i
}

/// The key before place `p` and the text after it.
fn split_at(chars: &Vec<char>, p: usize) -> (r: (String, String))
    requires
        p < chars@.len(),
    ensures
        r.0@ == chars@.take(p as int),
        r.1@ == chars@.skip(p + 1),
{
    let n = chars.len();
    let key = string_of(chars.as_slice(), 0, p);
    let val = string_of(chars.as_slice(), p + 1, n);
    (key, val)
}

fn parse_step(op: &str) -> (r: Step)
    ensures
        r.op() == parse_op(op@),
{
    let chars = chars_of(op);
    let n = chars.len();
    if n > 0 && chars[0] == '+' {
        return Step::Add("tag".to_owned(), string_of(chars.as_slice(), 1, n));
    }
    if n > 0 && chars[0] == '-' {
        return Step::Del("tag".to_owned(), string_of(chars.as_slice(), 1, n));
    }
    let p = find_first(&chars, '+');
    if p < n {
        let (key, val) = split_at(&chars, p);
        return Step::Add(key, val);
    }
    let p = find_first(&chars, '-');
    if p < n {
        let (key, val) = split_at(&chars, p);
        return Step::Del(key, val);
    }
    let p = find_first(&chars, '=');
    if p < n {
        let (key, val) = split_at(&chars, p);
        return Step::Put(key, val);
    }
    Step::Skip
}

/// The annotation of one tracked file.
#[derive(Debug)]
pub struct Anno {
    /// The commits that this state of the annotation follows; empty for a
    /// file that was never committed.
    pub pid: Vec<Id>,
    /// The id of the imported file content; all zero before the first import.
    pub fid: Id,
    /// The hash of the metadata as it was last saved.
    pub anno_hash: Id,
    /// The metadata.
    pub data: Data,
    /// The directory that holds the sidecar files.
    pub mdir: String,
    /// The path of the tracked file, relative to the directory above `mdir`.
    pub rpath: String,
    /// The keys that an edit may create without being allowed new keys.
    pub reserved: Vec<String>,
}

impl Anno {
    /// The keys that an edit may create without being allowed new keys.
    pub open spec fn reserved_keys(&self) -> Seq<Seq<char>> {
        texts_of(self.reserved@)
    }

    /// What an annotation keeps whatever is done to its metadata and ids.
    pub open spec fn same_place(&self, other: &Anno) -> bool {
        &&& self.mdir@ == other.mdir@
        &&& self.rpath@ == other.rpath@
        &&& self.reserved_keys() == other.reserved_keys()
    }

    /// Applies edit strings to the metadata, in order, and counts those that
    /// changed it.
    pub fn proc_op(&mut self, ops: &[String], allow_new: bool) -> (cnt: u64)
        ensures
            (model(final(self).data@), cnt as nat) == edit_all(
                model(old(self).data@),
                old(self).reserved_keys(),
                texts_of(ops@),
                allow_new,
            ),
            final(self).pid == old(self).pid,
            final(self).fid == old(self).fid,
            final(self).anno_hash == old(self).anno_hash,
            final(self).same_place(old(self)),
    {
        let ghost m0 = model(self.data@);
        let ghost keys = self.reserved_keys();
        let ghost texts = texts_of(ops@);
        let mut cnt: u64 = 0;
        let mut i: usize = 0;
        assert(texts.take(0) =~= Seq::<Seq<char>>::empty());
        while i < ops.len()
            invariant
                i <= ops@.len(),
                cnt <= i,
                texts == texts_of(ops@),
                keys == self.reserved_keys(),
                (model(self.data@), cnt as nat) == edit_all(m0, keys, texts.take(i as int), allow_new),
                self.pid == old(self).pid,
                self.fid == old(self).fid,
                self.anno_hash == old(self).anno_hash,
                self.same_place(old(self)),
            decreases ops@.len() - i,
        {
            let step = parse_step(ops[i].as_str());
            proof {
                assert(texts.take(i + 1).drop_last() =~= texts.take(i as int));
                assert(texts.take(i + 1).last() == ops@[i as int]@);
            }
            let changed = match step {
                Step::Add(key, val) => edit_add(
                    &mut self.data,
                    &self.reserved,
                    key.as_str(),
                    val.as_str(),
                    allow_new,
                ),
                Step::Del(key, val) => edit_del(&mut self.data, key.as_str(), val.as_str()),
                Step::Put(key, val) => edit_set(
                    &mut self.data,
                    &self.reserved,
                    key.as_str(),
                    val.as_str(),
                    allow_new,
                ),
                Step::Skip => false,
            };
            if changed {
                cnt = cnt + 1;
            }
            i += 1;
        }
        assert(texts.take(texts.len() as int) =~= texts);
        cnt
    }
}


/// A point in time as the file system gives it: seconds since 1970 and the
/// nanoseconds past them.
#[derive(Debug, Copy, Clone, PartialEq, Eq, Structural)]
pub struct Stamp {
    pub secs: i64,
    pub nanos: u32,
}

/// What the file system says of a tracked file.
#[derive(Debug, Copy, Clone, PartialEq, Eq, Structural)]
pub struct FileStat {
    pub mtime: Stamp,
    pub size: u64,
}

/// What was found on disk for one annotation: the tracked file, the times of
/// its two sidecars, and the kind of content that the file was sniffed to
/// hold. A part is `None` where it could not be read.
#[derive(Debug)]
pub struct Probe {
    pub file: Option<FileStat>,
    pub meta: Option<Stamp>,
    pub yaml: Option<Stamp>,
    pub mime: String,
}

/// A time in milliseconds since 1970: 0 for a time before that, the largest
/// number there is for one too far off to count.
pub open spec fn spec_millis(t: Stamp) -> nat {
    if t.secs < 0 {
        0
    } else if t.secs * 1000 + t.nanos / 1_000_000 > u64::MAX {
        u64::MAX as nat
    } else {
        (t.secs * 1000 + t.nanos / 1_000_000) as nat
    }
}

/// A time in milliseconds since 1970.
pub fn millis(t: Stamp) -> (ms: u64)
    ensures
        ms == spec_millis(t),
{
    if t.secs < 0 {
        0
    } else {
        let wide: u128 = t.secs as u128 * 1000 + (t.nanos / 1_000_000) as u128;
        if wide > u64::MAX as u128 {
            u64::MAX
        } else {
            wide as u64
        }
    }
}

/// The later of the tracked file's time and the metadata file's time, in
/// milliseconds; a time that could not be read counts as 0.
pub open spec fn newest_millis(probe: Probe) -> nat {
    let f = match probe.file {
        Some(stat) => spec_millis(stat.mtime),
        None => 0,
    };
    let y = match probe.yaml {
        Some(t) => spec_millis(t),
        None => 0,
    };
    if y > f {
        y
    } else {
        f
    }
}

/// The metadata with what was found on disk written into it: the size where
/// the file could be read, the kind of content, and the time of the last
/// change.
pub open spec fn spec_update_meta(m: Map<Seq<char>, Node>, probe: Probe) -> Map<Seq<char>, Node> {
    let sized = match probe.file {
        Some(stat) => m.insert("size"@, Node::Integer(stat.size as int)),
        None => m,
    };
    sized.insert("type"@, Node::Text(probe.mime@)).insert(
        "mtime"@,
        Node::Integer(newest_millis(probe) as int),
    )
}

/// The id that stands for "not yet imported": all zero.
pub open spec fn zero_id() -> Seq<u8> {
    Seq::new(32, |i: int| 0u8)
}

/// Whether an id is all zero.
pub fn is_zero(id: &Id) -> (b: bool)
    ensures
        b == (id@ == zero_id()),
{
    let mut i: usize = 0;
    while i < 32
        invariant
            i <= 32,
            forall|j: int| 0 <= j < i ==> id@[j] == 0,
        decreases 32 - i,
    {
        if id[i] != 0 {
            assert(zero_id()[i as int] == 0);
            return false;
        }
        i += 1;
    }
    assert(id@ =~= zero_id());
    true
}

/// Whether two ids are the same.
pub fn same_id(a: &Id, b: &Id) -> (same: bool)
    ensures
        same == (a@ == b@),
{
    let mut i: usize = 0;
    while i < 32
        invariant
            i <= 32,
            forall|j: int| 0 <= j < i ==> a@[j] == b@[j],
        decreases 32 - i,
    {
        if a[i] != b[i] {
            return false;
        }
        i += 1;
    }
    assert(a@ =~= b@);
    true
}

/// The most bytes that can be hashed.
pub const HASH_LIMIT: u64 = 0x2000_0000_0000_0000;

/// The hash of metadata written as YAML.
pub open spec fn yaml_hash(yaml: Seq<char>) -> Seq<u8> {
    sha256(encode_utf8(yaml))
}

/// Whether what was found on disk leaves out what status needs: the time of
/// the sidecar or that of the tracked file.
pub open spec fn status_unreadable(probe: Probe) -> bool {
    probe.meta is None || probe.file is None
}

/// Where an annotation is found to stand, or why that cannot be told.
pub enum Placed {
    Is(St),
    /// The sidecar or the tracked file could not be read.
    Unreadable,
    /// The YAML text of the metadata is too long to hash.
    TooLong,
}

/// Where an annotation stands, given what was found on disk and the YAML
/// text of its metadata as it is now: it was never committed, or the file
/// changed since the sidecar was written, or the metadata changed since it
/// was saved, or nothing changed.
pub open spec fn place(
    pid: Seq<Id>,
    fid: Seq<u8>,
    anno_hash: Seq<u8>,
    probe: Probe,
    yaml: Seq<char>,
) -> Placed {
    if fid == zero_id() || pid.len() == 0 {
        Placed::Is(St::MFile)
    } else if status_unreadable(probe) {
        Placed::Unreadable
    } else if probe.file->0.mtime != probe.meta->0 {
        Placed::Is(St::MFile)
    } else if encode_utf8(yaml).len() >= HASH_LIMIT {
        Placed::TooLong
    } else if yaml_hash(yaml) != anno_hash {
        Placed::Is(St::MMeta)
    } else {
        Placed::Is(St::Ready)
    }
}

/// Whether the tracked file's time differs from that of a sidecar.
pub open spec fn out_of_sync(probe: Probe) -> bool {
    probe.file->0.mtime != probe.meta->0 || probe.file->0.mtime != probe.yaml->0
}

/// Whether the three times of an annotation's files could all be read.
pub open spec fn sync_readable(probe: Probe) -> bool {
    probe.meta is Some && probe.yaml is Some && probe.file is Some
}

/// The annotation `a1` is `a0` brought up to date with what was found on
/// disk.
pub open spec fn synced(a0: Anno, a1: Anno, probe: Probe) -> bool {
    &&& a1.pid == a0.pid
    &&& a1.fid == a0.fid
    &&& a1.anno_hash == a0.anno_hash
    &&& a1.same_place(&a0)
    &&& model(a1.data@) == if out_of_sync(probe) {
        spec_update_meta(model(a0.data@), probe)
    } else {
        model(a0.data@)
    }
}

/// The ids found in the text of a `.meta` sidecar, section by section.
pub struct MetaIds {
    pub pid: Seq<Seq<u8>>,
    pub fid: Seq<Seq<u8>>,
    pub hash: Seq<Seq<u8>>,
}

impl MetaIds {
    /// The ids with one more under section `section`.
    pub open spec fn with(self, section: int, id: Seq<u8>) -> MetaIds {
        if section == 1 {
            MetaIds { pid: self.pid.push(id), ..self }
        } else if section == 2 {
            MetaIds { fid: self.fid.push(id), ..self }
        } else {
            MetaIds { hash: self.hash.push(id), ..self }
        }
    }
}

/// A line without the carriage return at its end, if it has one.
pub open spec fn strip_cr(line: Seq<u8>) -> Seq<u8> {
    if line.len() > 0 && line.last() == 13 {
        line.drop_last()
    } else {
        line
    }
}

/// `line` begins with `word`.
pub open spec fn line_starts_with(line: Seq<u8>, word: Seq<u8>) -> bool {
    &&& word.len() <= line.len()
    &&& line.take(word.len() as int) == word
}

/// The marker of the section of parent ids.
pub open spec fn pid_mark() -> Seq<u8> {
    seq![35u8, 32, 112, 105, 100]
}

/// The marker of the section of the content id.
pub open spec fn ref_oid_mark() -> Seq<u8> {
    seq![35u8, 32, 114, 101, 102, 95, 111, 105, 100]
}

/// The marker of the section of the metadata hash.
pub open spec fn anno_hash_mark() -> Seq<u8> {
    seq![35u8, 32, 97, 110, 110, 111, 95, 104, 97, 115, 104]
}

/// Reads the bytes of a `.meta` sidecar from place `from` on, line by line.
/// A line that begins with `# pid`, `# ref_oid` or `# anno_hash` opens that
/// section; a line of 52 bytes is the zbase32 text of an id of the section
/// that is open; an empty line is passed over. `None` for any other line: a
/// marker that is none of the three, a line of another length, and an id
/// before the first marker.
pub open spec fn scan_meta(raw: Seq<u8>, from: int, section: int, ids: MetaIds) -> Option<MetaIds>
    decreases raw.len() - from,
{
    if from < 0 || from >= raw.len() {
        Some(ids)
    } else {
        let n = next_of(raw, from, 10u8);
        let line = strip_cr(raw.subrange(from, n));
        let next = if n < raw.len() {
            n + 1
        } else {
            raw.len() as int
        };
        if n < from {
            None
        } else if line_starts_with(line, pid_mark()) {
            scan_meta(raw, next, 1, ids)
        } else if line_starts_with(line, ref_oid_mark()) {
            scan_meta(raw, next, 2, ids)
        } else if line_starts_with(line, anno_hash_mark()) {
            scan_meta(raw, next, 3, ids)
        } else if line.len() == 0 {
            scan_meta(raw, next, section, ids)
        } else if line.len() == 52 && line[0] != 35 && section != 0 {
            scan_meta(raw, next, section, ids.with(section, id_of(zbase32_bytes(line))))
        } else {
            None
        }
    }
}

/// What a `.meta` sidecar holds: its parent ids, and its one content id and
/// its one metadata hash. `None` where the text is malformed or does not hold
/// exactly one of each of the two.
pub open spec fn meta_ids(raw: Seq<u8>) -> Option<MetaIds> {
    match scan_meta(raw, 0, 0, MetaIds { pid: Seq::empty(), fid: Seq::empty(), hash: Seq::empty() }) {
        Some(ids) => if ids.fid.len() == 1 && ids.hash.len() == 1 {
            Some(ids)
        } else {
            None
        },
        None => None,
    }
}

/// The bytes of each id of a list.
pub open spec fn ids_of(ids: Seq<Id>) -> Seq<Seq<u8>> {
    Seq::new(ids.len(), |i: int| ids[i]@)
}

/// The lines of ids in a `.meta` sidecar: each id as zbase32 text and a line
/// feed.
pub open spec fn id_lines(ids: Seq<Seq<u8>>) -> Seq<char>
    decreases ids.len(),
{
    if ids.len() == 0 {
        Seq::empty()
    } else {
        id_lines(ids.drop_last()) + zbase32_text(ids.last()) + seq!['\n']
    }
}

/// The text of a `.meta` sidecar.
pub open spec fn spec_meta_text(pid: Seq<Seq<u8>>, fid: Seq<u8>, hash: Seq<u8>) -> Seq<char> {
    "# pid\n"@ + id_lines(pid) + "\n# ref_oid\n"@ + zbase32_text(fid) + "\n"@ + "\n# anno_hash\n"@
        + zbase32_text(hash) + "\n"@
}

fn line_has_mark(raw: &[u8], from: usize, to: usize, word: &[u8]) -> (b: bool)
    requires
        from <= to <= raw@.len(),
    ensures
        b == line_starts_with(raw@.subrange(from as int, to as int), word@),
{
    let ghost line = raw@.subrange(from as int, to as int);
    if to - from < word.len() {
        return false;
    }
    let mut i: usize = 0;
    while i < word.len()
        invariant
            from <= to <= raw@.len(),
            word@.len() <= to - from,
            i <= word@.len(),
            line == raw@.subrange(from as int, to as int),
            forall|k: int| 0 <= k < i ==> line[k] == word@[k],
        decreases word@.len() - i,
    {
        if raw[from + i] != word[i] {
            assert(line.take(word@.len() as int)[i as int] != word@[i as int]);
            return false;
        }
        i += 1;
    }
    assert(line.take(word@.len() as int) =~= word@);
    true
}

/// The reserved keys of annotation metadata.
pub open spec fn spec_predefined() -> Seq<Seq<char>> {
    seq!["name"@, "type"@, "size"@, "mtime"@, "note"@, "tag"@, "rate"@, "node"@, "level"@]
}

/// The reserved keys of annotation metadata: an edit may create them without
/// being allowed new keys.
pub fn predefined() -> (keys: Vec<String>)
    ensures
        texts_of(keys@) == spec_predefined(),
{
    let mut keys: Vec<String> = Vec::new();
    keys.push("name".to_owned());
    keys.push("type".to_owned());
    keys.push("size".to_owned());
    keys.push("mtime".to_owned());
    keys.push("note".to_owned());
    keys.push("tag".to_owned());
    keys.push("rate".to_owned());
    keys.push("node".to_owned());
    keys.push("level".to_owned());
    assert(texts_of(keys@) =~= spec_predefined());
    keys
}

impl Anno {
    /// An annotation without ids and without metadata.
    pub fn blank(mdir: &str, rpath: &str, reserved: Vec<String>) -> (anno: Anno)
        ensures
            anno.pid@.len() == 0,
            anno.fid@ == zero_id(),
            anno.anno_hash@ == zero_id(),
            anno.data@ == Map::<Seq<char>, Value>::empty(),
            anno.mdir@ == mdir@,
            anno.rpath@ == rpath@,
            anno.reserved_keys() == texts_of(reserved@),
    {
        let anno = Anno {
            pid: Vec::new(),
            fid: [0u8; 32],
            anno_hash: [0u8; 32],
            data: Data::new(),
            mdir: mdir.to_owned(),
            rpath: rpath.to_owned(),
            reserved,
        };
        assert(anno.fid@ =~= zero_id());
        assert(anno.anno_hash@ =~= zero_id());
        anno
    }

    /// The value under a key of the metadata.
    pub fn data_get(&self, key: &str) -> (r: Option<&Value>)
        ensures
            match r {
                Some(v) => self.data@.contains_key(key@) && *v == self.data@[key@],
                None => !self.data@.contains_key(key@),
            },
    {
        self.data.get(key)
    }

    /// The name of the tracked file as the metadata holds it.
    pub open spec fn spec_name(&self) -> Option<Seq<char>> {
        if self.data@.contains_key("name"@) {
            match self.data@["name"@] {
                Value::Text(s) => Some(s@),
                _ => None,
            }
        } else {
            None
        }
    }

    /// The name of the tracked file as the metadata holds it: the text under
    /// the key `name`.
    pub fn get_name(&self) -> (r: Option<String>)
        ensures
            match r {
                Some(s) => self.spec_name() == Some(s@),
                None => self.spec_name() is None,
            },
    {
        match self.data.get("name") {
            Some(Value::Text(s)) => Some(s.clone()),
            _ => None,
        }
    }

    /// Whether a YAML text is too long to hash.
    pub fn too_long(yaml: &str) -> (b: bool)
        ensures
            b == (encode_utf8(yaml@).len() >= HASH_LIMIT),
    {
        yaml.as_bytes().len() as u64 >= HASH_LIMIT
    }

    /// The hash of the metadata, given as the YAML text it is written as.
    /// Text too long to hash is refused.
    pub fn get_hash(yaml: &str) -> (r: Result<Id, Error>)
        ensures
            match r {
                Ok(id) => id@ == yaml_hash(yaml@) && encode_utf8(yaml@).len() < HASH_LIMIT,
                Err(e) => encode_utf8(yaml@).len() >= HASH_LIMIT && e is Simple,
            },
    {
        if Anno::too_long(yaml) {
            return Err(crate::error::err_simple("metadata too long to hash"));
        }
        Ok(calc_id_buf(yaml.as_bytes()))
    }

    /// Where this annotation stands, given what was found on disk and the
    /// YAML text of its metadata as it is now. An annotation that was
    /// committed before cannot be placed where its sidecar or its file could
    /// not be read, or where the text is too long to hash.
    pub fn status(&self, probe: &Probe, yaml: &str) -> (r: Result<St, Error>)
        ensures
            match place(self.pid@, self.fid@, self.anno_hash@, *probe, yaml@) {
                Placed::Is(st) => r matches Ok(got) && got == st,
                Placed::Unreadable => r matches Err(Error::IO(IoKind::Unreadable, _)),
                Placed::TooLong => r matches Err(Error::Simple(_)),
            },
    {
        if is_zero(&self.fid) {
            return Ok(St::MFile);
        }
        if self.pid.len() == 0 {
            return Ok(St::MFile);
        }
        let meta_m = match probe.meta {
            Some(t) => t,
            None => {
                return Err(err_unreadable("sidecar cannot be read"));
            },
        };
        let file_m = match probe.file {
            Some(stat) => stat.mtime,
            None => {
                return Err(err_unreadable("tracked file cannot be read"));
            },
        };
        if file_m != meta_m {
            return Ok(St::MFile);
        }
        let now = Anno::get_hash(yaml)?;
        if !same_id(&now, &self.anno_hash) {
            return Ok(St::MMeta);
        }
        Ok(St::Ready)
    }

    /// Writes what was found on disk into the metadata: the size of the
    /// file, the kind of its content, and the time of the last change.
    pub fn update_meta(&mut self, probe: &Probe)
        ensures
            model(final(self).data@) == spec_update_meta(model(old(self).data@), *probe),
            final(self).pid == old(self).pid,
            final(self).fid == old(self).fid,
            final(self).anno_hash == old(self).anno_hash,
            final(self).same_place(old(self)),
    {
        let mut mt: u64 = 0;
        match probe.file {
            Some(stat) => {
                let v = Value::Integer(stat.size as i128);
                proof {
                    lemma_model_insert(self.data@, "size"@, v);
                }
                self.data.insert("size".to_owned(), v);
                mt = millis(stat.mtime);
            },
            None => {},
        }
        let kind = Value::Text(probe.mime.clone());
        proof {
            lemma_model_insert(self.data@, "type"@, kind);
        }
        self.data.insert("type".to_owned(), kind);
        match probe.yaml {
            Some(t) => {
                let mt1 = millis(t);
                if mt1 > mt {
                    mt = mt1;
                }
            },
            None => {},
        }
        let stamp = Value::Integer(mt as i128);
        proof {
            lemma_model_insert(self.data@, "mtime"@, stamp);
        }
        self.data.insert("mtime".to_owned(), stamp);
    }

    /// Brings the metadata up to what was found on disk, where the tracked
    /// file's time differs from that of a sidecar, and says whether it did.
    /// Nothing is saved. Fails, and changes nothing, where one of the three
    /// times could not be read.
    pub fn sync(&mut self, probe: &Probe) -> (r: Result<bool, Error>)
        ensures
            match r {
                Ok(changed) => sync_readable(*probe) && changed == out_of_sync(*probe)
                    && model(final(self).data@) == if changed {
                    spec_update_meta(model(old(self).data@), *probe)
                } else {
                    model(old(self).data@)
                },
                Err(e) => {
                    &&& !sync_readable(*probe)
                    &&& e matches Error::IO(IoKind::Unreadable, _)
                    &&& *final(self) == *old(self)
                },
            },
            final(self).pid == old(self).pid,
            final(self).fid == old(self).fid,
            final(self).anno_hash == old(self).anno_hash,
            final(self).same_place(old(self)),
    {
        let meta_m = match probe.meta {
            Some(t) => t,
            None => {
                return Err(err_unreadable("sidecar cannot be read"));
            },
        };
        let yaml_m = match probe.yaml {
            Some(t) => t,
            None => {
                return Err(err_unreadable("metadata file cannot be read"));
            },
        };
        let file_m = match probe.file {
            Some(stat) => stat.mtime,
            None => {
                return Err(err_unreadable("tracked file cannot be read"));
            },
        };
        if file_m != meta_m || file_m != yaml_m {
            self.update_meta(probe);
            Ok(true)
        } else {
            Ok(false)
        }
    }

    /// Reads the text of a `.meta` sidecar into this annotation: the parent
    /// ids are added to those it has, the content id and the metadata hash
    /// are set. Malformed text is refused and changes nothing.
    pub fn parse_meta(&mut self, text: &str) -> (r: Result<(), Error>)
        ensures
            match meta_ids(encode_utf8(text@)) {
                Some(ids) => r is Ok && ids_of(final(self).pid@) == ids_of(old(self).pid@) + ids.pid
                    && final(self).fid@ == ids.fid[0] && final(self).anno_hash@ == ids.hash[0],
                None => {
                    &&& r matches Err(Error::Format(_))
                    &&& final(self).pid == old(self).pid
                    &&& final(self).fid == old(self).fid
                    &&& final(self).anno_hash == old(self).anno_hash
                },
            },
            final(self).data == old(self).data,
            final(self).same_place(old(self)),
    {
        let raw = text.as_bytes();
        let n = raw.len();
        let pid_w: [u8; 5] = [35, 32, 112, 105, 100];
        let ref_w: [u8; 9] = [35, 32, 114, 101, 102, 95, 111, 105, 100];
        let hash_w: [u8; 11] = [35, 32, 97, 110, 110, 111, 95, 104, 97, 115, 104];
        assert(pid_w@ =~= pid_mark());
        assert(ref_w@ =~= ref_oid_mark());
        assert(hash_w@ =~= anno_hash_mark());
        let mut pids: Vec<Id> = Vec::new();
        let mut fids: Vec<Id> = Vec::new();
        let mut hashes: Vec<Id> = Vec::new();
        let mut section: u8 = 0;
        let mut pos: usize = 0;
        let ghost start = MetaIds { pid: Seq::empty(), fid: Seq::empty(), hash: Seq::empty() };
        assert(ids_of(pids@) =~= start.pid);
        assert(ids_of(fids@) =~= start.fid);
        assert(ids_of(hashes@) =~= start.hash);
        while pos < n
            invariant
                raw@ == encode_utf8(text@),
                n == raw@.len(),
                pos <= n,
                section <= 3,
                pid_w@ == pid_mark(),
                ref_w@ == ref_oid_mark(),
                hash_w@ == anno_hash_mark(),
                start == (MetaIds { pid: Seq::empty(), fid: Seq::empty(), hash: Seq::empty() }),
                scan_meta(raw@, 0, 0, start) == scan_meta(
                    raw@,
                    pos as int,
                    section as int,
                    MetaIds { pid: ids_of(pids@), fid: ids_of(fids@), hash: ids_of(hashes@) },
                ),
                *self == *old(self),
            decreases n - pos,
        {
            let end = find_byte(raw, pos, 10u8);
            let stop = if end > pos && raw[end - 1] == 13 { end - 1 } else { end };
            let ghost line = strip_cr(raw@.subrange(pos as int, end as int));
            assert(raw@.subrange(pos as int, stop as int) =~= line);
            if line_has_mark(raw, pos, stop, pid_w.as_slice()) {
                section = 1;
            } else if line_has_mark(raw, pos, stop, ref_w.as_slice()) {
                section = 2;
            } else if line_has_mark(raw, pos, stop, hash_w.as_slice()) {
                section = 3;
            } else if stop == pos {
            } else if stop - pos == 52 && raw[pos] != 35 && section != 0 {
                let id = to_id(zbase32_decode(bytes_of(raw, pos, stop).as_slice()).as_slice());
                if section == 1 {
                    let ghost before = ids_of(pids@);
                    pids.push(id);
                    assert(ids_of(pids@) =~= before.push(id@));
                } else if section == 2 {
                    let ghost before = ids_of(fids@);
                    fids.push(id);
                    assert(ids_of(fids@) =~= before.push(id@));
                } else {
                    let ghost before = ids_of(hashes@);
                    hashes.push(id);
                    assert(ids_of(hashes@) =~= before.push(id@));
                }
            } else {
                assert(line.len() == stop - pos);
                assert(line[0] == raw@[pos as int]);
                assert(scan_meta(
                    raw@,
                    pos as int,
                    section as int,
                    MetaIds { pid: ids_of(pids@), fid: ids_of(fids@), hash: ids_of(hashes@) },
                ) is None);
                return Err(err_format("sidecar: line is neither a marker nor an id"));
            }
            pos = if end < n { end + 1 } else { n };
        }
        if fids.len() != 1 || hashes.len() != 1 {
            return Err(err_format("sidecar: content id or metadata hash missing or given twice"));
        }
        let ghost before = ids_of(self.pid@);
        let ghost added = ids_of(pids@);
        let mut i: usize = 0;
        while i < pids.len()
            invariant
                i <= pids@.len(),
                added == ids_of(pids@),
                ids_of(self.pid@) == before + added.take(i as int),
                self.fid == old(self).fid,
                self.anno_hash == old(self).anno_hash,
                self.data == old(self).data,
                self.same_place(old(self)),
            decreases pids@.len() - i,
        {
            let ghost so_far = ids_of(self.pid@);
            self.pid.push(pids[i]);
            i += 1;
            assert(ids_of(self.pid@) =~= so_far.push(pids@[i - 1]@));
            assert(added.take(i as int) =~= added.take(i - 1).push(added[i - 1]));
        }
        assert(added.take(added.len() as int) =~= added);
        self.fid = fids[0];
        self.anno_hash = hashes[0];
        Ok(())
    }

    /// The text of the `.meta` sidecar of this annotation.
    pub fn meta_text(&self) -> (text: String)
        ensures
            text@ == spec_meta_text(ids_of(self.pid@), self.fid@, self.anno_hash@),
    {
        let mut text = "# pid\n".to_owned();
        let ghost ids = ids_of(self.pid@);
        let mut i: usize = 0;
        assert(ids.take(0) =~= Seq::<Seq<u8>>::empty());
        while i < self.pid.len()
            invariant
                i <= self.pid@.len(),
                ids == ids_of(self.pid@),
                text@ == "# pid\n"@ + id_lines(ids.take(i as int)),
            decreases self.pid@.len() - i,
        {
            let zb = to_zbase32(self.pid[i].as_slice());
            proof {
                assert(ids.take(i + 1).drop_last() =~= ids.take(i as int));
                assert(ids.take(i + 1).last() == self.pid@[i as int]@);
            }
            push_str(&mut text, zb.as_str());
            push_char(&mut text, '\n');
            i += 1;
            assert(text@ =~= "# pid\n"@ + id_lines(ids.take(i as int)));
        }
        assert(ids.take(ids.len() as int) =~= ids);
        push_str(&mut text, "\n# ref_oid\n");
        push_str(&mut text, to_zbase32(self.fid.as_slice()).as_str());
        push_str(&mut text, "\n");
        push_str(&mut text, "\n# anno_hash\n");
        push_str(&mut text, to_zbase32(self.anno_hash.as_slice()).as_str());
        push_str(&mut text, "\n");
        text
    }
}


/// The sidecars of an annotation as they were read from disk: the text of
/// the `.meta` file and the metadata that the `.yaml` file holds.
#[derive(Debug)]
pub struct Sidecars {
    pub meta: String,
    pub data: Data,
}

/// What was found on disk at the place of an annotation.
#[derive(Debug)]
pub struct Site {
    /// The sidecar directory is a directory and the tracked file is a file.
    pub present: bool,
    /// The two sidecars, where both are there.
    pub sidecars: Option<Sidecars>,
    /// The times and sizes of the files.
    pub probe: Probe,
}

/// The three dashes that begin a YAML document.
pub open spec fn dashes() -> Seq<char> {
    seq!['-', '-', '-']
}

/// Metadata text as a YAML document: text that does not begin with three
/// dashes gets a line of them put before it.
pub open spec fn spec_yaml_document(yaml: Seq<char>) -> Seq<char> {
    if starts_with(yaml, dashes()) {
        yaml
    } else {
        dashes() + seq!['\n'] + yaml
    }
}

/// Metadata text as a YAML document.
pub fn yaml_document(yaml: &str) -> (doc: String)
    ensures
        doc@ == spec_yaml_document(yaml@),
{
    let chars = chars_of(yaml);
    let mark: [char; 3] = ['-', '-', '-'];
    assert(mark@ =~= dashes());
    assert(chars@.subrange(0, chars@.len() as int) =~= chars@);
    if range_starts_with(chars.as_slice(), 0, chars.len(), mark.as_slice()) {
        yaml.to_owned()
    } else {
        let mut doc = String::new();
        push_char(&mut doc, '-');
        push_char(&mut doc, '-');
        push_char(&mut doc, '-');
        push_char(&mut doc, '\n');
        push_str(&mut doc, yaml);
        assert(doc@ =~= dashes() + seq!['\n'] + yaml@);
        doc
    }
}

/// `i` is where `s` begins once the dashes at its start are taken off.
pub open spec fn is_dash_end(s: Seq<char>, i: int) -> bool {
    &&& 0 <= i <= s.len()
    &&& forall|k: int| 0 <= k < i ==> s[k] == '-'
    &&& (i < s.len() ==> s[i] != '-')
}

/// The message of the commit that records metadata: its YAML text without
/// the dashes at its start and without white space around what is left.
pub open spec fn spec_commit_message(yaml: Seq<char>) -> Seq<char> {
    trim(yaml.skip(choose|i: int| is_dash_end(yaml, i)))
}

/// The message of the commit that records metadata.
pub fn commit_message(yaml: &str) -> (msg: String)
    ensures
        msg@ == spec_commit_message(yaml@),
{
    let chars = chars_of(yaml);
    let n = chars.len();
    let mut i: usize = 0;
    while i < n && chars[i] == '-'
        invariant
            n == chars@.len(),
            i <= n,
            forall|k: int| 0 <= k < i ==> chars@[k] == '-',
        decreases n - i,
    {
        i += 1;
    }
    proof {
        assert(is_dash_end(chars@, i as int));
        let at = choose|i: int| is_dash_end(chars@, i);
        assert(at == i);
        assert(chars@.skip(i as int) =~= chars@.subrange(i as int, n as int));
    }
    let (a, b) = trim_range(chars.as_slice(), i, n);
    string_of(chars.as_slice(), a, b)
}

/// `r` is the annotation that a commit records: `parents` are the commit's
/// parents, `ref_oid` its tree, `data` the metadata that its message holds.
/// With `rendered`, the YAML text of `data` as it would be saved, the
/// metadata hash is that of the text and the path of the file is the name in
/// the metadata; without it the hash is all zero and the path is empty. Text
/// too long to hash is refused.
pub open spec fn decoded(
    parents: Seq<Id>,
    ref_oid: Id,
    data: Data,
    rendered: Option<Seq<char>>,
    reserved: Seq<Seq<char>>,
    r: Result<Anno, Error>,
) -> bool {
    match r {
        Ok(anno) => {
            &&& (rendered is Some ==> encode_utf8(rendered->0).len() < HASH_LIMIT)
            &&& anno.pid@ == parents
            &&& anno.fid == ref_oid
            &&& anno.data == data
            &&& anno.mdir@ == "."@
            &&& anno.reserved_keys() == reserved
            &&& match rendered {
                Some(yaml) => anno.anno_hash@ == yaml_hash(yaml) && anno.rpath@ == match anno.spec_name() {
                    Some(name) => name,
                    None => Seq::<char>::empty(),
                },
                None => anno.anno_hash@ == zero_id() && anno.rpath@ == Seq::<char>::empty(),
            }
        },
        Err(e) => e is Simple && rendered is Some && encode_utf8(rendered->0).len() >= HASH_LIMIT,
    }
}

/// The text of a string that may be there.
pub open spec fn text_of(s: Option<&str>) -> Option<Seq<char>> {
    match s {
        Some(t) => Some(t@),
        None => None,
    }
}

impl Anno {
    /// Makes the annotation that a commit records: `parents` are the
    /// commit's parents, `ref_oid` its tree, `data` the metadata that its
    /// message holds. With `rendered`, the YAML text of `data` as it would be
    /// saved, the metadata hash is set from it and the path of the file from
    /// the name in the metadata.
    pub fn decode(
        parents: &[Id],
        ref_oid: &Id,
        data: Data,
        rendered: Option<&str>,
        reserved: Vec<String>,
    ) -> (r: Result<Anno, Error>)
        ensures
            decoded(parents@, *ref_oid, data, text_of(rendered), texts_of(reserved@), r),
    {
        let mut pid: Vec<Id> = Vec::new();
        let mut i: usize = 0;
        while i < parents.len()
            invariant
                i <= parents@.len(),
                pid@ == parents@.take(i as int),
            decreases parents@.len() - i,
        {
            pid.push(parents[i]);
            i += 1;
            assert(parents@.take(i as int) =~= parents@.take(i - 1).push(parents@[i - 1]));
        }
        assert(parents@.take(parents@.len() as int) =~= parents@);
        let mut res = Anno {
            pid,
            fid: *ref_oid,
            anno_hash: [0u8; 32],
            data,
            mdir: ".".to_owned(),
            rpath: String::new(),
            reserved,
        };
        assert(res.anno_hash@ =~= zero_id());
        match rendered {
            Some(yaml) => {
                res.anno_hash = Anno::get_hash(yaml)?;
                match res.get_name() {
                    Some(name) => {
                        res.rpath = name;
                    },
                    None => {},
                }
            },
            None => {},
        }
        Ok(res)
    }

    /// Whether making an annotation fails for want of files: the tracked
    /// file or the sidecar directory is not there, or the sidecars are not
    /// there and are not to be made.
    pub open spec fn new_missing(load_only: bool, site: Site) -> bool {
        !site.present || (site.sidecars is None && load_only)
    }

    /// Makes the annotation of a tracked file from what was found on disk.
    /// Where both sidecars are there it is read from them, and brought up to
    /// date with the files unless `load_only` is set. Where they are not, a
    /// new annotation is made that holds the file's name and what was found
    /// of the file; the result says so, and the annotation is then to be
    /// saved, which gives it its metadata hash.
    pub fn new(mdir: &str, rpath: &str, load_only: bool, site: Site, reserved: Vec<String>) -> (r:
        Result<(Anno, bool), Error>)
        ensures
            match r {
                Ok((anno, created)) => {
                    &&& !Anno::new_missing(load_only, site)
                    &&& created == (site.sidecars is None)
                    &&& anno.mdir@ == mdir@
                    &&& anno.rpath@ == rpath@
                    &&& anno.reserved_keys() == texts_of(reserved@)
                    &&& match site.sidecars {
                        Some(found) => {
                            &&& meta_ids(encode_utf8(found.meta@)) matches Some(ids)
                            &&& ids_of(anno.pid@) == ids.pid
                            &&& anno.fid@ == ids.fid[0]
                            &&& anno.anno_hash@ == ids.hash[0]
                            &&& (load_only || sync_readable(site.probe))
                            &&& model(anno.data@) == if !load_only && out_of_sync(site.probe) {
                                spec_update_meta(model(found.data@), site.probe)
                            } else {
                                model(found.data@)
                            }
                        },
                        None => {
                            &&& anno.pid@.len() == 0
                            &&& anno.fid@ == zero_id()
                            &&& anno.anno_hash@ == zero_id()
                            &&& model(anno.data@) == spec_update_meta(
                                Map::<Seq<char>, Node>::empty().insert("name"@, Node::Text(rpath@)),
                                site.probe,
                            )
                        },
                    }
                },
                Err(Error::IO(IoKind::NotFound, m)) => Anno::new_missing(load_only, site) && m@ == (
                if !site.present {
                    "file not exist"@
                } else {
                    "manifest not exist"@
                }),
                Err(Error::IO(IoKind::Unreadable, _)) => !Anno::new_missing(load_only, site)
                    && site.sidecars is Some && meta_ids(encode_utf8(site.sidecars->0.meta@)) is Some
                    && !load_only && !sync_readable(site.probe),
                Err(Error::Format(_)) => !Anno::new_missing(load_only, site) && site.sidecars is Some
                    && meta_ids(encode_utf8(site.sidecars->0.meta@)) is None,
                Err(_) => false,
            },
    {
        if !site.present {
            return Err(err_not_found("file not exist"));
        }
        let mut res = Anno::blank(mdir, rpath, reserved);
        let Site { present: _, sidecars, probe } = site;
        match sidecars {
            Some(found) => {
                let Sidecars { meta, data } = found;
                res.parse_meta(meta.as_str())?;
                res.data = data;
                assert(ids_of(res.pid@) =~= meta_ids(encode_utf8(meta@))->0.pid);
                if !load_only {
                    res.sync(&probe)?;
                }
                Ok((res, false))
            },
            None => {
                if load_only {
                    return Err(err_not_found("manifest not exist"));
                }
                let name = Value::Text(rpath.to_owned());
                proof {
                    lemma_model_insert(res.data@, "name"@, name);
                    assert(model(res.data@) =~= Map::<Seq<char>, Node>::empty());
                }
                res.data.insert("name".to_owned(), name);
                res.update_meta(&probe);
                Ok((res, true))
            },
        }
    }

    /// The first half of committing an annotation: it is placed, and unless
    /// nothing changed it is brought up to date with the files. `None` says
    /// that nothing changed and nothing is to be done; else the state is
    /// handed back, and the annotation waits for its content id, where the
    /// file changed, and for the commit that records it.
    pub fn commit(&mut self, probe: &Probe, yaml: &str) -> (r: Result<Option<St>, Error>)
        ensures
            match place(old(self).pid@, old(self).fid@, old(self).anno_hash@, *probe, yaml@) {
                Placed::Unreadable => r matches Err(Error::IO(IoKind::Unreadable, _)) && *final(self) == *old(self),
                Placed::TooLong => r matches Err(Error::Simple(_)) && *final(self) == *old(self),
                Placed::Is(St::Ready) => r matches Ok(None) && *final(self) == *old(self),
                Placed::Is(st) => if sync_readable(*probe) {
                    &&& r matches Ok(Some(got))
                    &&& got == st
                    &&& synced(*old(self), *final(self), *probe)
                } else {
                    r matches Err(Error::IO(IoKind::Unreadable, _)) && *final(self) == *old(self)
                },
            },
    {
        let st = self.status(probe, yaml)?;
        if st == St::Ready {
            return Ok(None);
        }
        match self.sync(probe) {
            Ok(_) => Ok(Some(st)),
            Err(e) => Err(e),
        }
    }

    /// The computing part of saving an annotation. `yaml` is the YAML text of
    /// the metadata, which is what the `.yaml` sidecar is to hold; the
    /// metadata hash is set from it, and the text that the `.meta` sidecar is
    /// to hold, with that hash, is handed back. Text too long to hash is
    /// refused and changes nothing.
    pub fn save(&mut self, yaml: &str) -> (r: Result<String, Error>)
        ensures
            match r {
                Ok(meta) => {
                    &&& encode_utf8(yaml@).len() < HASH_LIMIT
                    &&& final(self).anno_hash@ == yaml_hash(yaml@)
                    &&& meta@ == spec_meta_text(
                        ids_of(old(self).pid@),
                        old(self).fid@,
                        yaml_hash(yaml@),
                    )
                    &&& final(self).pid == old(self).pid
                    &&& final(self).fid == old(self).fid
                    &&& final(self).data == old(self).data
                    &&& final(self).same_place(old(self))
                },
                Err(e) => {
                    &&& e is Simple
                    &&& encode_utf8(yaml@).len() >= HASH_LIMIT
                    &&& *final(self) == *old(self)
                },
            },
    {
        let hash = Anno::get_hash(yaml)?;
        self.anno_hash = hash;
        Ok(self.meta_text())
    }

    /// The second half of committing an annotation: `commit` is the commit
    /// that records it and becomes its one parent, and the annotation is
    /// saved with `yaml`, the YAML text of its metadata: the metadata hash is
    /// set from it and the text for the `.meta` sidecar is handed back. Text
    /// too long to hash is refused and changes nothing.
    pub fn commit_done(&mut self, commit: Id, yaml: &str) -> (r: Result<String, Error>)
        ensures
            match r {
                Ok(meta) => {
                    &&& encode_utf8(yaml@).len() < HASH_LIMIT
                    &&& final(self).pid@ == seq![commit]
                    &&& final(self).anno_hash@ == yaml_hash(yaml@)
                    &&& meta@ == spec_meta_text(seq![commit@], old(self).fid@, yaml_hash(yaml@))
                    &&& final(self).fid == old(self).fid
                    &&& final(self).data == old(self).data
                    &&& final(self).same_place(old(self))
                },
                Err(e) => {
                    &&& e is Simple
                    &&& encode_utf8(yaml@).len() >= HASH_LIMIT
                    &&& *final(self) == *old(self)
                },
            },
    {
        if Anno::too_long(yaml) {
            return Err(crate::error::err_simple("metadata too long to hash"));
        }
        let mut pid: Vec<Id> = Vec::new();
        pid.push(commit);
        self.pid = pid;
        assert(ids_of(self.pid@) =~= seq![commit@]);
        self.save(yaml)
    }
}


/// Staleness: an annotation that was committed and imported, and whose
/// files could be read, is ready where the tracked file has the time of the
/// sidecar and the metadata has the hash that was saved; it counts as a
/// changed file where the two times differ, whatever the metadata; and as
/// changed metadata where the times agree and the hash does not.
pub proof fn lemma_staleness(
    pid: Seq<Id>,
    fid: Seq<u8>,
    anno_hash: Seq<u8>,
    probe: Probe,
    yaml: Seq<char>,
)
    requires
        pid.len() > 0,
        fid != zero_id(),
        !status_unreadable(probe),
        encode_utf8(yaml).len() < HASH_LIMIT,
    ensures
        place(pid, fid, anno_hash, probe, yaml) == Placed::Is(
            if probe.file->0.mtime != probe.meta->0 {
                St::MFile
            } else if yaml_hash(yaml) != anno_hash {
                St::MMeta
            } else {
                St::Ready
            },
        ),
{
}

/// Once it is saved, an annotation that was committed and imported is ready
/// for as long as the tracked file keeps the time of the sidecar: saving
/// stores the hash of the metadata that it writes.
pub proof fn lemma_saved_is_ready(pid: Seq<Id>, fid: Seq<u8>, probe: Probe, yaml: Seq<char>)
    requires
        pid.len() > 0,
        fid != zero_id(),
        !status_unreadable(probe),
        probe.file->0.mtime == probe.meta->0,
        encode_utf8(yaml).len() < HASH_LIMIT,
    ensures
        place(pid, fid, yaml_hash(yaml), probe, yaml) == Placed::Is(St::Ready),
{
}

/// An annotation that was never committed or never imported counts as a
/// changed file, whatever is on disk.
pub proof fn lemma_never_committed(
    pid: Seq<Id>,
    fid: Seq<u8>,
    anno_hash: Seq<u8>,
    probe: Probe,
    yaml: Seq<char>,
)
    requires
        pid.len() == 0 || fid == zero_id(),
    ensures
        place(pid, fid, anno_hash, probe, yaml) == Placed::Is(St::MFile),
{
}

/// An edit that appends a text a second time changes nothing and does not
/// count.
pub proof fn lemma_add_twice(
    m: Map<Seq<char>, Node>,
    reserved: Seq<Seq<char>>,
    key: Seq<char>,
    val: Seq<char>,
    allow_new: bool,
)
    ensures
        ({
            let once = op_add(m, reserved, key, val, allow_new);
            op_add(once.0, reserved, key, val, allow_new) == (once.0, false)
        }),
{
    let once = op_add(m, reserved, key, val, allow_new);
    if may_write(m, reserved, key, allow_new) && m.contains_key(key) {
        match m[key] {
            Node::Array(a) => {
                if !a.contains(Node::Text(val)) {
                    assert(a.push(Node::Text(val)).last() == Node::Text(val));
                }
            },
            other => {
                if other != Node::Text(val) {
                    assert(seq![other, Node::Text(val)][1] == Node::Text(val));
                }
            },
        }
    }
}

/// An edit that is refused for want of leave changes nothing.
pub proof fn lemma_refused_edit(
    m: Map<Seq<char>, Node>,
    reserved: Seq<Seq<char>>,
    key: Seq<char>,
    val: Seq<char>,
)
    requires
        !m.contains_key(key),
        !reserved.contains(key),
    ensures
        op_add(m, reserved, key, val, false) == (m, false),
        op_set(m, reserved, key, val, false) == (m, false),
        op_add(m, reserved, key, val, true) == (m.insert(key, Node::Text(val)), true),
        op_set(m, reserved, key, val, true) == (m.insert(key, Node::Text(val)), true),
{
}

/// An edit that does not count leaves the metadata as they were.
pub proof fn lemma_uncounted_edit(
    m: Map<Seq<char>, Node>,
    reserved: Seq<Seq<char>>,
    op: Op,
    allow_new: bool,
)
    ensures
        !apply_op(m, reserved, op, allow_new).1 ==> apply_op(m, reserved, op, allow_new).0 == m,
{
}

/// Edits of which none counted have left the metadata as they were.
pub proof fn lemma_uncounted_edits(
    m: Map<Seq<char>, Node>,
    reserved: Seq<Seq<char>>,
    ops: Seq<Seq<char>>,
    allow_new: bool,
)
    ensures
        edit_all(m, reserved, ops, allow_new).1 == 0 ==> edit_all(m, reserved, ops, allow_new).0 == m,
    decreases ops.len(),
{
    if ops.len() > 0 {
        lemma_uncounted_edits(m, reserved, ops.drop_last(), allow_new);
        let before = edit_all(m, reserved, ops.drop_last(), allow_new);
        lemma_uncounted_edit(before.0, reserved, parse_op(ops.last()), allow_new);
    }
}


/// Lines put together, each with a line feed after it.
spec fn join_lines(lines: Seq<Seq<char>>) -> Seq<char>
    decreases lines.len(),
{
    if lines.len() == 0 {
        Seq::empty()
    } else {
        lines[0] + seq!['\n'] + join_lines(lines.drop_first())
    }
}

/// What one line of a `.meta` sidecar does to the section that is open and
/// to the ids read so far; `None` for a line that is refused.
spec fn line_step(raw_line: Seq<u8>, section: int, ids: MetaIds) -> Option<(int, MetaIds)> {
    let line = strip_cr(raw_line);
    if line_starts_with(line, pid_mark()) {
        Some((1, ids))
    } else if line_starts_with(line, ref_oid_mark()) {
        Some((2, ids))
    } else if line_starts_with(line, anno_hash_mark()) {
        Some((3, ids))
    } else if line.len() == 0 {
        Some((section, ids))
    } else if line.len() == 52 && line[0] != 35 && section != 0 {
        Some((section, ids.with(section, id_of(zbase32_bytes(line)))))
    } else {
        None
    }
}

/// What a list of lines does to the section that is open and to the ids
/// read so far.
spec fn scan_lines(lines: Seq<Seq<char>>, section: int, ids: MetaIds) -> Option<(int, MetaIds)>
    decreases lines.len(),
{
    if lines.len() == 0 {
        Some((section, ids))
    } else {
        match line_step(ascii_bytes(lines[0]), section, ids) {
            None => None,
            Some(st) => scan_lines(lines.drop_first(), st.0, st.1),
        }
    }
}

/// A line holds ASCII characters only and no line feed.
spec fn plain_line(l: Seq<char>) -> bool {
    forall|k: int| 0 <= k < l.len() ==> (#[trigger] l[k]) <= '\u{7f}' && l[k] != '\n'
}

proof fn lemma_join_ascii(lines: Seq<Seq<char>>)
    requires
        forall|i: int| 0 <= i < lines.len() ==> plain_line(#[trigger] lines[i]),
    ensures
        forall|k: int| 0 <= k < join_lines(lines).len() ==> (#[trigger] join_lines(lines)[k]) <= '\u{7f}',
    decreases lines.len(),
{
    if lines.len() > 0 {
        let rest = lines.drop_first();
        assert forall|i: int| 0 <= i < rest.len() implies plain_line(#[trigger] rest[i]) by {
            assert(rest[i] == lines[i + 1]);
        }
        lemma_join_ascii(rest);
        let head = lines[0] + seq!['\n'];
        let all = join_lines(lines);
        assert(plain_line(lines[0]));
        assert forall|k: int| 0 <= k < all.len() implies (#[trigger] all[k]) <= '\u{7f}' by {
            if k < lines[0].len() {
                assert(all[k] == lines[0][k]);
            } else if k == lines[0].len() {
                assert(all[k] == '\n');
            } else {
                assert(all[k] == join_lines(rest)[k - head.len()]);
            }
        }
    }
}

/// An ASCII character that is no line feed is no line feed as a byte.
proof fn lemma_plain_char(c: char)
    requires
        c <= '\u{7f}',
        c != '\n',
    ensures
        c as u8 != 10,
{
}

/// Reading bytes that are lines put together is reading the lines one by
/// one.
proof fn lemma_scan_join(raw: Seq<u8>, from: int, lines: Seq<Seq<char>>, section: int, ids: MetaIds)
    requires
        0 <= from <= raw.len(),
        raw.subrange(from, raw.len() as int) == ascii_bytes(join_lines(lines)),
        forall|i: int| 0 <= i < lines.len() ==> plain_line(#[trigger] lines[i]),
    ensures
        scan_meta(raw, from, section, ids) == match scan_lines(lines, section, ids) {
            Some(st) => Some(st.1),
            None => None,
        },
    decreases lines.len(),
{
    let tail = raw.subrange(from, raw.len() as int);
    if lines.len() == 0 {
        assert(tail.len() == 0);
    } else {
        let l = lines[0];
        let rest = lines.drop_first();
        let joined = join_lines(lines);
        let n = from + l.len();
        assert(plain_line(l));
        assert(joined.len() == l.len() + 1 + join_lines(rest).len());
        assert(tail.len() == joined.len());
        assert forall|j: int| from <= j < n implies #[trigger] raw[j] == l[j - from] as u8 && raw[j]
            != 10 by {
            let k = j - from;
            assert(l[k] <= '\u{7f}' && l[k] != '\n');
            assert(tail[k] == joined[k] as u8);
            assert(joined[k] == l[k]);
            assert(raw[j] == tail[k]);
            lemma_plain_char(l[k]);
        }
        assert(raw[n] == 10) by {
            assert(tail[l.len() as int] == joined[l.len() as int] as u8);
            assert(joined[l.len() as int] == '\n');
            assert(raw[n] == tail[l.len() as int]);
        }
        assert(crate::text::is_next(raw, from, 10u8, n));
        assert(next_of(raw, from, 10u8) == n);
        assert(raw.subrange(from, n) =~= ascii_bytes(l));
        assert(raw.subrange(n + 1, raw.len() as int) =~= ascii_bytes(join_lines(rest))) by {
            assert forall|k: int| 0 <= k < join_lines(rest).len() implies raw[n + 1 + k]
                == join_lines(rest)[k] as u8 by {
                assert(tail[l.len() + 1 + k] == joined[l.len() + 1 + k] as u8);
                assert(joined[l.len() + 1 + k] == join_lines(rest)[k]);
                assert(raw[n + 1 + k] == tail[l.len() + 1 + k]);
            }
        }
        assert forall|i: int| 0 <= i < rest.len() implies plain_line(#[trigger] rest[i]) by {
            assert(rest[i] == lines[i + 1]);
        }
        match line_step(ascii_bytes(l), section, ids) {
            None => {},
            Some(st) => {
                lemma_scan_join(raw, n + 1, rest, st.0, st.1);
            },
        }
    }
}

proof fn lemma_join_concat(a: Seq<Seq<char>>, b: Seq<Seq<char>>)
    ensures
        join_lines(a + b) == join_lines(a) + join_lines(b),
    decreases a.len(),
{
    if a.len() == 0 {
        assert(a + b =~= b);
        assert(join_lines(a) + join_lines(b) =~= join_lines(b));
    } else {
        lemma_join_concat(a.drop_first(), b);
        assert((a + b).drop_first() =~= a.drop_first() + b);
        assert((a + b)[0] == a[0]);
        assert(join_lines(a + b) =~= join_lines(a) + join_lines(b));
    }
}

proof fn lemma_scan_concat(a: Seq<Seq<char>>, b: Seq<Seq<char>>, section: int, ids: MetaIds)
    ensures
        scan_lines(a + b, section, ids) == match scan_lines(a, section, ids) {
            Some(st) => scan_lines(b, st.0, st.1),
            None => None,
        },
    decreases a.len(),
{
    if a.len() == 0 {
        assert(a + b =~= b);
    } else {
        assert((a + b).drop_first() =~= a.drop_first() + b);
        assert((a + b)[0] == a[0]);
        match line_step(ascii_bytes(a[0]), section, ids) {
            None => {},
            Some(st) => {
                lemma_scan_concat(a.drop_first(), b, st.0, st.1);
            },
        }
    }
}

/// The zbase32 texts of a list of ids.
spec fn id_texts(ids: Seq<Seq<u8>>) -> Seq<Seq<char>> {
    Seq::new(ids.len(), |i: int| zbase32_text(ids[i]))
}

/// A line that does not begin with `#` begins with none of the markers.
proof fn lemma_not_marked(line: Seq<u8>)
    requires
        line.len() > 0,
        line[0] != 35,
    ensures
        !line_starts_with(line, pid_mark()),
        !line_starts_with(line, ref_oid_mark()),
        !line_starts_with(line, anno_hash_mark()),
{
    if line_starts_with(line, pid_mark()) {
        assert(line.take(5)[0] == pid_mark()[0]);
    }
    if line_starts_with(line, ref_oid_mark()) {
        assert(line.take(9)[0] == ref_oid_mark()[0]);
    }
    if line_starts_with(line, anno_hash_mark()) {
        assert(line.take(11)[0] == anno_hash_mark()[0]);
    }
}

/// The line of an id: 52 plain characters that are neither `#` nor a
/// carriage return, and that read back as the id.
proof fn lemma_id_text(id: Seq<u8>)
    requires
        id.len() == 32,
    ensures
        plain_line(zbase32_text(id)),
        ascii_bytes(zbase32_text(id)).len() == 52,
        ascii_bytes(zbase32_text(id))[0] != 35,
        ascii_bytes(zbase32_text(id))[51] != 13,
        id_of(zbase32_bytes(ascii_bytes(zbase32_text(id)))) == id,
{
    let z = zbase32_text(id);
    lemma_zbase32_chars(id);
    lemma_zbase32_id_round_trip(id);
    lemma_ascii_bytes(z);
    assert(z.len() == 52);
    assert('1' <= z[0] <= 'z');
    assert('1' <= z[51] <= 'z');
}

/// The line of an id is plain, and it is read as the id in an open section.
proof fn lemma_id_line(id: Seq<u8>, section: int, ids: MetaIds)
    requires
        id.len() == 32,
        1 <= section <= 3,
    ensures
        plain_line(zbase32_text(id)),
        line_step(ascii_bytes(zbase32_text(id)), section, ids) == Some(
            (section, ids.with(section, id)),
        ),
{
    lemma_id_text(id);
    let line = ascii_bytes(zbase32_text(id));
    lemma_not_marked(line);
    assert(line.last() == line[51]);
    assert(strip_cr(line) == line);
}

proof fn lemma_id_lines_scan(pids: Seq<Seq<u8>>, ids: MetaIds)
    requires
        forall|i: int| 0 <= i < pids.len() ==> (#[trigger] pids[i]).len() == 32,
    ensures
        scan_lines(id_texts(pids), 1, ids) == Some((1int, MetaIds { pid: ids.pid + pids, ..ids })),
        forall|i: int| 0 <= i < pids.len() ==> plain_line(#[trigger] id_texts(pids)[i]),
        join_lines(id_texts(pids)) == id_lines(pids),
    decreases pids.len(),
{
    if pids.len() == 0 {
        assert(ids.pid + pids =~= ids.pid);
        assert(id_texts(pids) =~= Seq::<Seq<char>>::empty());
    } else {
        let head = pids.drop_last();
        let last = pids.last();
        lemma_id_lines_scan(head, ids);
        let mid = MetaIds { pid: ids.pid + head, ..ids };
        lemma_id_line(last, 1, mid);
        let one = seq![zbase32_text(last)];
        assert(id_texts(pids) =~= id_texts(head) + one);
        lemma_scan_concat(id_texts(head), one, 1, ids);
        assert(one.drop_first() =~= Seq::<Seq<char>>::empty());
        assert(scan_lines(one, 1, mid) == Some((1int, mid.with(1, last)))) by {
            reveal_with_fuel(scan_lines, 2);
        }
        assert(ids.pid + head + seq![last] =~= ids.pid + pids);
        assert(mid.with(1, last).pid =~= ids.pid + pids);
        assert forall|i: int| 0 <= i < pids.len() implies plain_line(#[trigger] id_texts(pids)[i]) by {
            if i < head.len() {
                assert(id_texts(pids)[i] == id_texts(head)[i]);
            }
        }
        lemma_join_concat(id_texts(head), one);
        assert(join_lines(one) =~= zbase32_text(last) + seq!['\n']) by {
            reveal_with_fuel(join_lines, 2);
        }
        assert(id_lines(pids) =~= id_lines(head) + zbase32_text(last) + seq!['\n']);
    }
}

/// The five characters of the marker of the parent ids.
spec fn pid_line() -> Seq<char> {
    seq!['#', ' ', 'p', 'i', 'd']
}

/// The nine characters of the marker of the content id.
spec fn ref_oid_line() -> Seq<char> {
    seq!['#', ' ', 'r', 'e', 'f', '_', 'o', 'i', 'd']
}

/// The eleven characters of the marker of the metadata hash.
spec fn anno_hash_line() -> Seq<char> {
    seq!['#', ' ', 'a', 'n', 'n', 'o', '_', 'h', 'a', 's', 'h']
}

/// The lines of a `.meta` sidecar after those of the parent ids.
spec fn tail_lines(fid: Seq<u8>, hash: Seq<u8>) -> Seq<Seq<char>> {
    seq![
        Seq::<char>::empty(),
        ref_oid_line(),
        zbase32_text(fid),
        Seq::<char>::empty(),
        anno_hash_line(),
        zbase32_text(hash),
    ]
}

proof fn lemma_marker_lines()
    ensures
        ascii_bytes(pid_line()) == pid_mark(),
        ascii_bytes(ref_oid_line()) == ref_oid_mark(),
        ascii_bytes(anno_hash_line()) == anno_hash_mark(),
        plain_line(pid_line()),
        plain_line(ref_oid_line()),
        plain_line(anno_hash_line()),
        plain_line(Seq::<char>::empty()),
{
    assert(ascii_bytes(pid_line()) =~= pid_mark());
    assert(ascii_bytes(ref_oid_line()) =~= ref_oid_mark());
    assert(ascii_bytes(anno_hash_line()) =~= anno_hash_mark());
}

proof fn lemma_marker_steps(section: int, ids: MetaIds)
    ensures
        line_step(ascii_bytes(pid_line()), section, ids) == Some((1int, ids)),
        line_step(ascii_bytes(ref_oid_line()), section, ids) == Some((2int, ids)),
        line_step(ascii_bytes(anno_hash_line()), section, ids) == Some((3int, ids)),
        line_step(ascii_bytes(Seq::<char>::empty()), section, ids) == Some((section, ids)),
{
    lemma_marker_lines();
    let p = pid_mark();
    let r = ref_oid_mark();
    let h = anno_hash_mark();
    assert(strip_cr(p) == p);
    assert(strip_cr(r) == r);
    assert(strip_cr(h) == h);
    assert(p.take(5) =~= p);
    assert(r.take(9) =~= r);
    assert(h.take(11) =~= h);
    assert(!line_starts_with(r, p)) by {
        if line_starts_with(r, p) {
            assert(r.take(5)[2] == p[2]);
        }
    }
    assert(!line_starts_with(h, p)) by {
        if line_starts_with(h, p) {
            assert(h.take(5)[2] == p[2]);
        }
    }
    assert(!line_starts_with(h, r)) by {
        if line_starts_with(h, r) {
            assert(h.take(9)[2] == r[2]);
        }
    }
    let e = ascii_bytes(Seq::<char>::empty());
    assert(e.len() == 0);
    assert(strip_cr(e) == e);
}

/// The lines of the `.meta` sidecar that is written for the ids of an
/// annotation.
spec fn meta_lines(pid: Seq<Seq<u8>>, fid: Seq<u8>, hash: Seq<u8>) -> Seq<Seq<char>> {
    seq![pid_line()] + id_texts(pid) + tail_lines(fid, hash)
}

proof fn lemma_meta_lines_join(pid: Seq<Seq<u8>>, fid: Seq<u8>, hash: Seq<u8>)
    requires
        forall|i: int| 0 <= i < pid.len() ==> (#[trigger] pid[i]).len() == 32,
    ensures
        join_lines(meta_lines(pid, fid, hash)) == spec_meta_text(pid, fid, hash),
{
    let first = seq![pid_line()];
    let tail = tail_lines(fid, hash);
    lemma_id_lines_scan(pid, MetaIds { pid: Seq::empty(), fid: Seq::empty(), hash: Seq::empty() });
    reveal_strlit("# pid\n");
    reveal_strlit("\n# ref_oid\n");
    reveal_strlit("\n");
    reveal_strlit("\n# anno_hash\n");
    lemma_join_concat(first + id_texts(pid), tail);
    lemma_join_concat(first, id_texts(pid));
    assert(first.drop_first() =~= Seq::<Seq<char>>::empty());
    assert(join_lines(first) =~= "# pid\n"@) by {
        reveal_with_fuel(join_lines, 2);
    }
    assert(join_lines(tail) =~= "\n# ref_oid\n"@ + zbase32_text(fid) + "\n"@ + "\n# anno_hash\n"@
        + zbase32_text(hash) + "\n"@) by {
        lemma_join_tail(fid, hash);
    }
    assert(join_lines(meta_lines(pid, fid, hash)) =~= spec_meta_text(pid, fid, hash));
}

proof fn lemma_meta_lines_plain(pid: Seq<Seq<u8>>, fid: Seq<u8>, hash: Seq<u8>)
    requires
        forall|i: int| 0 <= i < pid.len() ==> (#[trigger] pid[i]).len() == 32,
        fid.len() == 32,
        hash.len() == 32,
    ensures
        forall|i: int|
            0 <= i < meta_lines(pid, fid, hash).len() ==> plain_line(
                #[trigger] meta_lines(pid, fid, hash)[i],
            ),
{
    let start = MetaIds { pid: Seq::empty(), fid: Seq::empty(), hash: Seq::empty() };
    let lines = meta_lines(pid, fid, hash);
    let tail = tail_lines(fid, hash);
    lemma_marker_lines();
    lemma_id_lines_scan(pid, start);
    lemma_id_line(fid, 2, start);
    lemma_id_line(hash, 3, start);
    assert forall|i: int| 0 <= i < lines.len() implies plain_line(#[trigger] lines[i]) by {
        if i == 0 {
        } else if i < 1 + pid.len() {
            assert(lines[i] == id_texts(pid)[i - 1]);
        } else {
            let k = i - 1 - pid.len();
            assert(lines[i] == tail[k]);
        }
    }
}

proof fn lemma_meta_lines_scan(pid: Seq<Seq<u8>>, fid: Seq<u8>, hash: Seq<u8>)
    requires
        forall|i: int| 0 <= i < pid.len() ==> (#[trigger] pid[i]).len() == 32,
        fid.len() == 32,
        hash.len() == 32,
    ensures
        scan_lines(
            meta_lines(pid, fid, hash),
            0,
            MetaIds { pid: Seq::empty(), fid: Seq::empty(), hash: Seq::empty() },
        ) == Some((3int, MetaIds { pid, fid: seq![fid], hash: seq![hash] })),
{
    let start = MetaIds { pid: Seq::empty(), fid: Seq::empty(), hash: Seq::empty() };
    let first = seq![pid_line()];
    let tail = tail_lines(fid, hash);
    lemma_id_lines_scan(pid, start);
    lemma_scan_concat(first + id_texts(pid), tail, 0, start);
    lemma_scan_concat(first, id_texts(pid), 0, start);
    lemma_marker_steps(0, start);
    assert(first.drop_first() =~= Seq::<Seq<char>>::empty());
    assert(scan_lines(first, 0, start) == Some((1int, start))) by {
        reveal_with_fuel(scan_lines, 2);
    }
    let mid = MetaIds { pid: start.pid + pid, ..start };
    assert(mid.pid =~= pid);
    lemma_scan_tail(fid, hash, mid);
}

/// Round trip of the `.meta` sidecar: the text that is written for the
/// ids of an annotation is read back as these ids.
pub proof fn lemma_meta_round_trip(pid: Seq<Seq<u8>>, fid: Seq<u8>, hash: Seq<u8>)
    requires
        forall|i: int| 0 <= i < pid.len() ==> (#[trigger] pid[i]).len() == 32,
        fid.len() == 32,
        hash.len() == 32,
    ensures
        meta_ids(encode_utf8(spec_meta_text(pid, fid, hash))) == Some(
            MetaIds { pid, fid: seq![fid], hash: seq![hash] },
        ),
{
    let start = MetaIds { pid: Seq::empty(), fid: Seq::empty(), hash: Seq::empty() };
    let lines = meta_lines(pid, fid, hash);
    let text = spec_meta_text(pid, fid, hash);
    lemma_meta_lines_join(pid, fid, hash);
    lemma_meta_lines_plain(pid, fid, hash);
    lemma_join_ascii(lines);
    lemma_ascii_bytes(text);
    let raw = encode_utf8(text);
    assert(raw.subrange(0, raw.len() as int) =~= ascii_bytes(join_lines(lines)));
    lemma_scan_join(raw, 0, lines, 0, start);
    lemma_meta_lines_scan(pid, fid, hash);
}

proof fn lemma_join_tail(fid: Seq<u8>, hash: Seq<u8>)
    ensures
        join_lines(tail_lines(fid, hash)) == seq!['\n'] + ref_oid_line() + seq!['\n'] + zbase32_text(
            fid,
        ) + seq!['\n'] + seq!['\n'] + anno_hash_line() + seq!['\n'] + zbase32_text(hash)
            + seq!['\n'],
{
    let t0 = tail_lines(fid, hash);
    let t1 = t0.drop_first();
    let t2 = t1.drop_first();
    let t3 = t2.drop_first();
    let t4 = t3.drop_first();
    let t5 = t4.drop_first();
    let t6 = t5.drop_first();
    assert(t6.len() == 0);
    assert(join_lines(t6) =~= Seq::<char>::empty());
    assert(join_lines(t5) =~= zbase32_text(hash) + seq!['\n']);
    assert(join_lines(t4) =~= anno_hash_line() + seq!['\n'] + join_lines(t5));
    assert(join_lines(t3) =~= seq!['\n'] + join_lines(t4));
    assert(join_lines(t2) =~= zbase32_text(fid) + seq!['\n'] + join_lines(t3));
    assert(join_lines(t1) =~= ref_oid_line() + seq!['\n'] + join_lines(t2));
    assert(join_lines(t0) =~= seq!['\n'] + join_lines(t1));
    assert(join_lines(t0) =~= seq!['\n'] + ref_oid_line() + seq!['\n'] + zbase32_text(fid) + seq![
        '\n',
    ] + seq!['\n'] + anno_hash_line() + seq!['\n'] + zbase32_text(hash) + seq!['\n']);
}

proof fn lemma_scan_tail(fid: Seq<u8>, hash: Seq<u8>, ids: MetaIds)
    requires
        fid.len() == 32,
        hash.len() == 32,
        ids.fid.len() == 0,
        ids.hash.len() == 0,
    ensures
        scan_lines(tail_lines(fid, hash), 1, ids) == Some(
            (3int, MetaIds { pid: ids.pid, fid: seq![fid], hash: seq![hash] }),
        ),
{
    let t0 = tail_lines(fid, hash);
    let t1 = t0.drop_first();
    let t2 = t1.drop_first();
    let t3 = t2.drop_first();
    let t4 = t3.drop_first();
    let t5 = t4.drop_first();
    let t6 = t5.drop_first();
    let with_fid = ids.with(2, fid);
    let with_both = with_fid.with(3, hash);
    lemma_marker_steps(1, ids);
    lemma_marker_steps(2, with_fid);
    lemma_id_line(fid, 2, ids);
    lemma_id_line(hash, 3, with_fid);
    assert(t6.len() == 0);
    assert(scan_lines(t6, 3, with_both) == Some((3int, with_both)));
    assert(scan_lines(t5, 3, with_fid) == Some((3int, with_both)));
    assert(scan_lines(t4, 2, with_fid) == Some((3int, with_both)));
    assert(scan_lines(t3, 2, with_fid) == Some((3int, with_both)));
    assert(scan_lines(t2, 2, ids) == Some((3int, with_both)));
    assert(scan_lines(t1, 1, ids) == Some((3int, with_both)));
    assert(scan_lines(t0, 1, ids) == Some((3int, with_both)));
    assert(with_both.fid =~= seq![fid]);
    assert(with_both.hash =~= seq![hash]);
}

} // verus!
