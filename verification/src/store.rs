//! The object store seen from the library: the commands that reach it, what
//! their output says, and the steps of committing and of walking a changeset.

use vstd::prelude::*;
use vstd::utf8::{decode_utf8, valid_utf8};
use crate::error::{err_format, err_simple, Error, IoKind};
use crate::conf::Conf;
use crate::git::{Commit, Tree, TreeEntry, Type};
use crate::proj::anno::{
    commit_message, decoded, ids_of, place, spec_commit_message, spec_meta_text, sync_readable,
    synced,
    text_of, texts_of, yaml_hash, Anno, Placed,
    Probe, St, HASH_LIMIT,
};
use crate::proj::manifest::Manifest;
use crate::strmap::{StrMap, bytes_lt, bytes_lt_at, lemma_bytes_lt_asymmetric, lemma_bytes_lt_transitive, map_of, sorted, Rank};
use crate::value::model;
use vstd::utf8::encode_utf8;
use crate::value::{Data, Value};
use crate::text::{
    bytes_of, chars_of, decimal_text, find_char, next_char, push_char, push_decimal, push_str, string_of, trim, trim_range,
    utf8_string,
};
use crate::util::{hex_bytes, hex_encode, hex_text, hex_to_id, is_hex, Id};

verus! {

/// The length of an id in bytes.
pub const OID_LEN: usize = 32;

/// No two ids of the list begin with the same `len` bytes.
pub open spec fn unique_prefix(ids: Seq<Id>, len: int) -> bool {
    forall|i: int, j: int|
        0 <= j < i < ids.len() ==> (#[trigger] ids[i])@.take(len) != (#[trigger] ids[j])@.take(len)
}

/// No two ids of the list are the same.
pub open spec fn distinct_ids(ids: Seq<Id>) -> bool {
    forall|i: int, j: int| 0 <= j < i < ids.len() ==> (#[trigger] ids[i])@ != (#[trigger] ids[j])@
}

/// Whether two ids begin with the same `len` bytes.
fn same_prefix(a: &Id, b: &Id, len: usize) -> (same: bool)
    requires
        len <= 32,
    ensures
        same == (a@.take(len as int) == b@.take(len as int)),
{
    let mut k: usize = 0;
    while k < len
        invariant
            k <= len <= 32,
            forall|t: int| 0 <= t < k ==> a@[t] == b@[t],
        decreases len - k,
    {
        if a[k] != b[k] {
            assert(a@.take(len as int)[k as int] != b@.take(len as int)[k as int]);
            return false;
        }
        k += 1;
    }
    assert(a@.take(len as int) =~= b@.take(len as int));
    true
}

/// Whether no two ids of the list begin with the same `len` bytes.
fn prefixes_differ(list: &Vec<Id>, len: usize) -> (b: bool)
    requires
        len <= 32,
    ensures
        b == unique_prefix(list@, len as int),
{
    let n = list.len();
    let mut i: usize = 1;
    while i < n
        invariant
            n == list@.len(),
            1 <= i,
            len <= 32,
            forall|x: int, y: int|
                0 <= y < x < i && x < n ==> (#[trigger] list@[x])@.take(len as int) != (
                #[trigger] list@[y])@.take(len as int),
        decreases n - i,
    {
        let mut j: usize = 0;
        while j < i
            invariant
                n == list@.len(),
                j <= i < n,
                len <= 32,
                forall|y: int|
                    0 <= y < j ==> list@[i as int]@.take(len as int) != (#[trigger] list@[y])@.take(
                        len as int,
                    ),
            decreases i - j,
        {
            if same_prefix(&list[i], &list[j], len) {
                return false;
            }
            j += 1;
        }
        i += 1;
    }
    true
}

/// `len` is the number of leading bytes that the names of the ids in a
/// changeset's tree are made of: the least number from 1 to 32 by which the
/// ids can be told apart, and 32 where no such number tells them apart.
pub open spec fn is_min_uniq(ids: Seq<Id>, len: int) -> bool {
    &&& 1 <= len <= 32
    &&& forall|l: int| 1 <= l < len ==> !unique_prefix(ids, l)
    &&& (unique_prefix(ids, len) || len == 32)
}

/// The least number of leading bytes, from 1 to 32, by which the ids of the
/// list can be told apart; 32 where even whole ids cannot tell them apart,
/// which is where an id occurs twice.
pub fn min_uniq_len(list: &Vec<Id>) -> (len: usize)
    ensures
        is_min_uniq(list@, len as int),
        distinct_ids(list@) ==> unique_prefix(list@, len as int),
        !distinct_ids(list@) ==> len == 32,
        list@.len() <= 1 ==> len == 1,
{
    let mut res: usize = 1;
    while res < 33
        invariant
            1 <= res <= 33,
            forall|l: int| 1 <= l < res ==> !unique_prefix(list@, l),
            list@.len() <= 1 ==> res == 1,
        decreases 33 - res,
    {
        if prefixes_differ(list, res) {
            return res;
        }
        res += 1;
    }
    proof {
        lemma_whole_ids(list@);
    }
    32
}

/// Whole ids tell apart the ids of a list exactly where no id occurs twice,
/// and ids that occur twice are told apart by no number of leading bytes.
pub proof fn lemma_whole_ids(ids: Seq<Id>)
    ensures
        unique_prefix(ids, 32) == distinct_ids(ids),
        !distinct_ids(ids) ==> forall|l: int| !unique_prefix(ids, l),
{
    if distinct_ids(ids) {
        assert forall|i: int, j: int| 0 <= j < i < ids.len() implies (#[trigger] ids[i])@.take(32) != (
        #[trigger] ids[j])@.take(32) by {
            assert(ids[i]@.take(32) =~= ids[i]@);
            assert(ids[j]@.take(32) =~= ids[j]@);
        }
    } else {
        let (i, j) = choose|i: int, j: int|
            0 <= j < i < ids.len() && (#[trigger] ids[i])@ == (#[trigger] ids[j])@;
        assert forall|l: int| !unique_prefix(ids, l) by {
            assert(ids[i]@.take(l) == ids[j]@.take(l));
        }
    }
}

/// The number of leading bytes that names are made of is fixed by the ids.
pub proof fn lemma_min_uniq_one(ids: Seq<Id>, a: int, b: int)
    requires
        is_min_uniq(ids, a),
        is_min_uniq(ids, b),
    ensures
        a == b,
{
}

/// The mode of a kind of object.
pub fn type2mode(t: &Type) -> (m: i32)
    ensures
        m == t.spec_mode(),
{
    t.mode()
}

/// The name of the host whose changesets this store writes.
pub open spec fn localhost() -> Seq<char> {
    "localhost"@
}

/// The ref that holds the tip of a changeset.
pub open spec fn spec_ref_remote(name: Seq<char>) -> Seq<char> {
    "refs/remotes/"@ + name + "/"@ + localhost()
}

/// The ref that holds how far a changeset has been indexed.
pub open spec fn spec_ref_local(name: Seq<char>) -> Seq<char> {
    "refs/heads/"@ + name
}

/// The ref that holds the tip of a changeset.
pub fn ref_remote(name: &str) -> (r: String)
    ensures
        r@ == spec_ref_remote(name@),
{
    let mut r = "refs/remotes/".to_owned();
    push_str(&mut r, name);
    push_str(&mut r, "/");
    push_str(&mut r, "localhost");
    r
}

/// The ref that holds how far a changeset has been indexed.
pub fn ref_local(name: &str) -> (r: String)
    ensures
        r@ == spec_ref_local(name@),
{
    let mut r = "refs/heads/".to_owned();
    push_str(&mut r, name);
    r
}

/// A number in decimal digits, two of them at least.
pub open spec fn two_digits(n: nat) -> Seq<char> {
    if n < 10 {
        seq!['0'] + decimal_text(n)
    } else {
        decimal_text(n)
    }
}

/// The distance of a time zone from UTC, given in seconds, as git writes it:
/// a sign, the hours and the minutes.
pub open spec fn zone_text(offset: int) -> Seq<char> {
    let minutes = (if offset < 0 { -offset } else { offset }) / 60;
    (if offset < 0 { seq!['-'] } else { seq!['+'] }) + two_digits((minutes / 60) as nat) + two_digits(
        (minutes % 60) as nat,
    )
}

fn push_two_digits(out: &mut String, n: u64)
    ensures
        final(out)@ == old(out)@ + two_digits(n as nat),
{
    if n < 10 {
        push_char(out, '0');
    }
    push_decimal(out, n);
    assert(out@ =~= old(out)@ + two_digits(n as nat));
}

/// The distance of a time zone from UTC as git writes it.
pub fn format_zone(offset: i32) -> (zone: String)
    ensures
        zone@ == zone_text(offset as int),
{
    let wide: i64 = offset as i64;
    let minutes: u64 = (if wide < 0 { -wide } else { wide }) as u64 / 60;
    let mut zone = String::new();
    push_char(&mut zone, if offset < 0 { '-' } else { '+' });
    push_two_digits(&mut zone, minutes / 60);
    push_two_digits(&mut zone, minutes % 60);
    assert(zone@ =~= zone_text(offset as int));
    zone
}


/// A command for the driver to run, as the library builds it.
#[derive(Debug)]
pub struct Command {
    pub program: String,
    /// Variables to set in the command's environment.
    pub env: Vec<(String, String)>,
    pub args: Vec<String>,
    /// What to write to the command's standard input before closing it;
    /// `None` for a command that gets no input.
    pub input: Option<Vec<u8>>,
}

/// What a command did: whether it ended well, and what it wrote to its
/// standard output.
#[derive(Debug)]
pub struct Output {
    pub success: bool,
    pub stdout: Vec<u8>,
}

/// A command as plain text and bytes.
pub struct Call {
    pub program: Seq<char>,
    pub env: Seq<(Seq<char>, Seq<char>)>,
    pub args: Seq<Seq<char>>,
    pub input: Option<Seq<u8>>,
}

/// The texts of a list of strings.
pub open spec fn texts(strings: Seq<String>) -> Seq<Seq<char>> {
    Seq::new(strings.len(), |i: int| strings[i]@)
}

/// The texts of a list of pairs of strings.
pub open spec fn text_pairs(pairs: Seq<(String, String)>) -> Seq<(Seq<char>, Seq<char>)> {
    Seq::new(pairs.len(), |i: int| (pairs[i].0@, pairs[i].1@))
}

impl View for Command {
    type V = Call;

    open spec fn view(&self) -> Call {
        Call {
            program: self.program@,
            env: text_pairs(self.env@),
            args: texts(self.args@),
            input: match self.input {
                Some(bytes) => Some(bytes@),
                None => None,
            },
        }
    }
}

/// The text that a command wrote, without the white space around it. `None`
/// where what it wrote is not UTF-8.
pub open spec fn output_text(stdout: Seq<u8>) -> Option<Seq<char>> {
    if valid_utf8(stdout) {
        Some(trim(decode_utf8(stdout)))
    } else {
        None
    }
}

/// The id that a command wrote as 64 hex digits. `None` where it wrote
/// anything else.
pub open spec fn output_id(stdout: Seq<u8>) -> Option<Seq<u8>> {
    match output_text(stdout) {
        Some(t) => if is_hex(t) && t.len() == 64 {
            Some(hex_bytes(t))
        } else {
            None
        },
        None => None,
    }
}

/// Reads the id that a command wrote as 64 hex digits, white space around
/// them passed over.
pub fn read_output_id(stdout: &[u8]) -> (r: Option<Id>)
    ensures
        match r {
            Some(id) => output_id(stdout@) == Some(id@),
            None => output_id(stdout@) is None,
        },
{
    let text = match utf8_string(bytes_of(stdout, 0, stdout.len())) {
        Some(t) => t,
        None => {
            assert(stdout@.subrange(0, stdout@.len() as int) =~= stdout@);
            return None;
        },
    };
    assert(stdout@.subrange(0, stdout@.len() as int) =~= stdout@);
    let chars = chars_of(text.as_str());
    assert(chars@.subrange(0, chars@.len() as int) =~= chars@);
    let (a, b) = trim_range(chars.as_slice(), 0, chars.len());
    let hex = string_of(chars.as_slice(), a, b);
    hex_to_id(hex.as_str())
}

/// The object store and the time that its commits are dated with.
#[derive(Debug, Clone)]
pub struct Store {
    /// The directory of the content store and of the object database.
    pub root: String,
    /// The time of the commits that are made, in seconds since 1970.
    pub date: u64,
    /// The time zone of the commits that are made.
    pub zone: String,
}

/// A count of seconds as the 64 bits that hold it, read without sign.
pub open spec fn date_bits(now: i64) -> nat {
    if now >= 0 {
        now as nat
    } else {
        (now + 0x1_0000_0000_0000_0000) as nat
    }
}

/// The list of one variable that tells git where the object database is.
pub open spec fn git_env(root: Seq<char>) -> Seq<(Seq<char>, Seq<char>)> {
    seq![("GIT_DIR"@, root)]
}

/// A call of git in the object database under `root`.
pub open spec fn git_call(root: Seq<char>, args: Seq<Seq<char>>) -> Call {
    Call { program: "git"@, env: git_env(root), args, input: None }
}

/// The date of a commit as git reads it: the seconds and the time zone.
pub open spec fn date_text(time: nat, zone: Seq<char>) -> Seq<char> {
    decimal_text(time) + seq![' '] + zone
}

/// The arguments that name the parents of a commit: `-p` and the hex text of
/// the id, for each.
pub open spec fn parent_args(parents: Seq<Id>) -> Seq<Seq<char>>
    decreases parents.len(),
{
    if parents.len() == 0 {
        Seq::empty()
    } else {
        parent_args(parents.drop_last()) + seq!["-p"@, hex_text(parents.last()@)]
    }
}

/// The call that makes a commit.
pub open spec fn commit_tree_call(
    root: Seq<char>,
    zone: Seq<char>,
    parents: Seq<Id>,
    tree: Seq<u8>,
    time: nat,
    msg: Seq<char>,
) -> Call {
    Call {
        program: "git"@,
        env: seq![
            ("GIT_DIR"@, root),
            ("GIT_AUTHOR_DATE"@, date_text(time, zone)),
            ("GIT_COMMITTER_DATE"@, date_text(time, zone)),
        ],
        args: seq!["commit-tree"@] + parent_args(parents) + seq!["-m"@, msg, hex_text(tree)],
        input: None,
    }
}

/// The call that imports a file into the content store.
pub open spec fn import_call(root: Seq<char>, path: Seq<char>) -> Call {
    Call {
        program: "bup256"@,
        env: seq![("BUP_DIR"@, root), ("BUP_FORCE_TTY"@, "3"@), ("LC_ALL"@, "C"@)],
        args: seq!["split"@, "-t"@, path],
        input: None,
    }
}

/// The call that writes out a file of the content store.
pub open spec fn join_call(root: Seq<char>, id: Seq<u8>) -> Call {
    Call {
        program: "bup256"@,
        env: seq![("BUP_DIR"@, root), ("LC_ALL"@, "C"@)],
        args: seq!["join"@, hex_text(id)],
        input: None,
    }
}

/// What a command gave that is to end well and to write an id: the id; or
/// the failure that names the command, where it did not end well; or the
/// failure of a malformed answer.
pub open spec fn id_result(out: Output, r: Result<Id, Error>, failed: Seq<char>) -> bool {
    if !out.success {
        r matches Err(Error::Simple(m)) && m@ == failed
    } else {
        match output_id(out.stdout@) {
            Some(id) => r matches Ok(got) && got@ == id,
            None => r matches Err(Error::Format(_)),
        }
    }
}

fn read_id_result(out: &Output, failed: &str) -> (r: Result<Id, Error>)
    ensures
        id_result(*out, r, failed@),
{
    if !out.success {
        return Err(err_simple(failed));
    }
    match read_output_id(out.stdout.as_slice()) {
        Some(id) => Ok(id),
        None => Err(err_format("command did not write an id")),
    }
}

fn one(a: &str) -> (v: Vec<String>)
    ensures
        texts(v@) == seq![a@],
{
    let mut v: Vec<String> = Vec::new();
    v.push(a.to_owned());
    assert(texts(v@) =~= seq![a@]);
    v
}

fn add_arg(args: &mut Vec<String>, a: String)
    ensures
        texts(final(args)@) == texts(old(args)@).push(a@),
{
    args.push(a);
    assert(texts(args@) =~= texts(old(args)@).push(a@));
}

fn add_env(env: &mut Vec<(String, String)>, name: &str, value: String)
    ensures
        text_pairs(final(env)@) == text_pairs(old(env)@).push((name@, value@)),
{
    env.push((name.to_owned(), value));
    assert(text_pairs(env@) =~= text_pairs(old(env)@).push((name@, value@)));
}

impl Store {
    /// The name of the host whose changesets this store writes.
    pub const LOCALHOST: &'static str = "localhost";

    /// The store under the directory that the settings name, with the time
    /// `now`, in seconds since 1970, and the time zone `offset` seconds east
    /// of UTC.
    pub fn new(conf: &Conf, now: i64, offset: i32) -> (store: Store)
        ensures
            store.root@ == conf.root@,
            store.date == date_bits(now),
            store.zone@ == zone_text(offset as int),
    {
        let mut res = Store { root: conf.root(), date: 0, zone: "+0000".to_owned() };
        res.update_time(now, offset);
        res
    }

    /// Sets the time and the time zone that commits are dated with.
    pub fn update_time(&mut self, now: i64, offset: i32)
        ensures
            final(self).root == old(self).root,
            final(self).date == date_bits(now),
            final(self).zone@ == zone_text(offset as int),
    {
        self.date = if now >= 0 {
            now as u64
        } else {
            (now as i128 + 0x1_0000_0000_0000_0000) as u64
        };
        self.zone = format_zone(offset);
    }

    fn git(&self, args: Vec<String>) -> (cmd: Command)
        ensures
            cmd@ == git_call(self.root@, texts(args@)),
    {
        let mut env: Vec<(String, String)> = Vec::new();
        add_env(&mut env, "GIT_DIR", self.root.clone());
        assert(text_pairs(env@) =~= git_env(self.root@));
        Command { program: "git".to_owned(), env, args, input: None }
    }

    /// The command that reads a ref.
    pub fn git_show_ref_cmd(&self, git_ref: &str) -> (cmd: Command)
        ensures
            cmd@ == git_call(self.root@, seq!["show-ref"@, "--verify"@, "--hash"@, git_ref@]),
    {
        let mut args = one("show-ref");
        add_arg(&mut args, "--verify".to_owned());
        add_arg(&mut args, "--hash".to_owned());
        add_arg(&mut args, git_ref.to_owned());
        assert(texts(args@) =~= seq!["show-ref"@, "--verify"@, "--hash"@, git_ref@]);
        self.git(args)
    }

    /// What reading a ref gave: the id that the ref holds, and `None` for a
    /// ref that is not there.
    pub fn git_show_ref(out: &Output) -> (r: Result<Option<Id>, Error>)
        ensures
            if !out.success {
                r matches Ok(None)
            } else {
                match output_id(out.stdout@) {
                    Some(id) => r matches Ok(Some(got)) && got@ == id,
                    None => r matches Err(Error::Format(_)),
                }
            },
    {
        if !out.success {
            return Ok(None);
        }
        match read_output_id(out.stdout.as_slice()) {
            Some(id) => Ok(Some(id)),
            None => Err(err_format("show-ref did not write an id")),
        }
    }

    /// The command that sets a ref to a commit.
    pub fn git_update_ref_cmd(&self, git_ref: &str, commit: &Id) -> (cmd: Command)
        ensures
            cmd@ == git_call(self.root@, seq!["update-ref"@, git_ref@, hex_text(commit@)]),
    {
        let mut args = one("update-ref");
        add_arg(&mut args, git_ref.to_owned());
        add_arg(&mut args, hex_encode(commit.as_slice()));
        assert(texts(args@) =~= seq!["update-ref"@, git_ref@, hex_text(commit@)]);
        self.git(args)
    }

    /// What setting a ref gave.
    pub fn git_update_ref(out: &Output) -> (r: Result<(), Error>)
        ensures
            out.success ==> r is Ok,
            !out.success ==> (r matches Err(Error::Simple(m)) && m@ == "git update-ref fail"@),
    {
        if !out.success {
            return Err(err_simple("git update-ref fail"));
        }
        Ok(())
    }

    /// The command that writes out an object of the kind `tp`.
    pub fn git_cat_file_cmd(&self, tp: &str, oid: &Id) -> (cmd: Command)
        ensures
            cmd@ == git_call(self.root@, seq!["cat-file"@, tp@, hex_text(oid@)]),
    {
        let mut args = one("cat-file");
        add_arg(&mut args, tp.to_owned());
        add_arg(&mut args, hex_encode(oid.as_slice()));
        assert(texts(args@) =~= seq!["cat-file"@, tp@, hex_text(oid@)]);
        self.git(args)
    }

    /// The command that writes out a commit.
    pub fn read_commit_cmd(&self, oid: &Id) -> (cmd: Command)
        ensures
            cmd@ == git_call(self.root@, seq!["cat-file"@, "commit"@, hex_text(oid@)]),
    {
        self.git_cat_file_cmd("commit", oid)
    }

    /// What writing out a commit gave: the commit that the text holds.
    pub fn read_commit(out: &Output) -> (r: Result<Commit, Error>)
        ensures
            if !out.success {
                r matches Err(Error::Simple(m)) && m@ == "git cat-file fail"@
            } else if !valid_utf8(out.stdout@) {
                r matches Err(Error::Format(_))
            } else {
                match crate::git::commit_text(decode_utf8(out.stdout@)) {
                    Some(t) => r matches Ok(c) && c.text() == t,
                    None => r matches Err(Error::Format(_)),
                }
            },
    {
        if !out.success {
            return Err(err_simple("git cat-file fail"));
        }
        assert(out.stdout@.subrange(0, out.stdout@.len() as int) =~= out.stdout@);
        match utf8_string(bytes_of(out.stdout.as_slice(), 0, out.stdout.len())) {
            Some(text) => Commit::parse(text.as_str()),
            None => Err(err_format("commit is not UTF-8")),
        }
    }

    /// The command that writes out a tree.
    pub fn read_tree_cmd(&self, oid: &Id) -> (cmd: Command)
        ensures
            cmd@ == git_call(self.root@, seq!["cat-file"@, "tree"@, hex_text(oid@)]),
    {
        self.git_cat_file_cmd("tree", oid)
    }

    /// What writing out a tree gave: the tree that the bytes hold.
    pub fn read_tree(out: &Output) -> (r: Result<Tree, Error>)
        ensures
            if !out.success {
                r matches Err(Error::Simple(m)) && m@ == "git cat-file fail"@
            } else {
                match crate::git::parse_entries(out.stdout@, 0) {
                    Some(entries) => r matches Ok(t) && t.model() == crate::git::tree_of(entries),
                    None => r matches Err(Error::Format(_)),
                }
            },
    {
        if !out.success {
            return Err(err_simple("git cat-file fail"));
        }
        Tree::parse(out.stdout.as_slice())
    }

    /// The command that stores a tree: it is handed the tree's binary form.
    pub fn write_tree_cmd(&self, tree: &Tree) -> (cmd: Command)
        ensures
            cmd@ == (Call {
                input: Some(crate::git::tree_bytes(tree.pairs())),
                ..git_call(
                    self.root@,
                    seq!["hash-object"@, "-t"@, "tree"@, "--stdin"@, "-w"@],
                )
            }),
            sorted(tree.pairs()),
    {
        let mut args = one("hash-object");
        add_arg(&mut args, "-t".to_owned());
        add_arg(&mut args, "tree".to_owned());
        add_arg(&mut args, "--stdin".to_owned());
        add_arg(&mut args, "-w".to_owned());
        assert(texts(args@) =~= seq!["hash-object"@, "-t"@, "tree"@, "--stdin"@, "-w"@]);
        let mut cmd = self.git(args);
        cmd.input = Some(tree.encode());
        cmd
    }

    /// What storing a tree gave: the id of the tree.
    pub fn write_tree(out: &Output) -> (r: Result<Id, Error>)
        ensures
            id_result(*out, r, "git hash-object fail"@),
    {
        read_id_result(out, "git hash-object fail")
    }

    /// The command that makes a commit of `tree` with the given parents,
    /// dated `time` in the store's time zone, with the message `msg`.
    pub fn commit_tree_cmd(&self, parents: &[Id], tree: &Id, time: u64, msg: &str) -> (cmd: Command)
        ensures
            cmd@ == commit_tree_call(self.root@, self.zone@, parents@, tree@, time as nat, msg@),
    {
        let mut date = String::new();
        push_decimal(&mut date, time);
        push_char(&mut date, ' ');
        push_str(&mut date, self.zone.as_str());
        assert(date@ =~= date_text(time as nat, self.zone@));
        let mut args = one("commit-tree");
        let mut i: usize = 0;
        assert(parents@.take(0) =~= Seq::<Id>::empty());
        while i < parents.len()
            invariant
                i <= parents@.len(),
                texts(args@) == seq!["commit-tree"@] + parent_args(parents@.take(i as int)),
            decreases parents@.len() - i,
        {
            proof {
                assert(parents@.take(i + 1).drop_last() =~= parents@.take(i as int));
                assert(parents@.take(i + 1).last() == parents@[i as int]);
            }
            add_arg(&mut args, "-p".to_owned());
            add_arg(&mut args, hex_encode(parents[i].as_slice()));
            i += 1;
            assert(texts(args@) =~= seq!["commit-tree"@] + parent_args(parents@.take(i as int)));
        }
        assert(parents@.take(parents@.len() as int) =~= parents@);
        add_arg(&mut args, "-m".to_owned());
        add_arg(&mut args, msg.to_owned());
        add_arg(&mut args, hex_encode(tree.as_slice()));
        let mut env: Vec<(String, String)> = Vec::new();
        add_env(&mut env, "GIT_DIR", self.root.clone());
        add_env(&mut env, "GIT_AUTHOR_DATE", date.clone());
        add_env(&mut env, "GIT_COMMITTER_DATE", date);
        let cmd = Command { program: "git".to_owned(), env, args, input: None };
        proof {
            let want = commit_tree_call(
                self.root@,
                self.zone@,
                parents@,
                tree@,
                time as nat,
                msg@,
            );
            assert(cmd@.args =~= want.args);
            assert(cmd@.env =~= want.env);
        }
        cmd
    }

    /// What making a commit gave: the id of the commit.
    pub fn commit_tree(out: &Output) -> (r: Result<Id, Error>)
        ensures
            id_result(*out, r, "git commit-tree fail"@),
    {
        read_id_result(out, "git commit-tree fail")
    }

    /// The command that makes the commit of an annotation: its tree is the
    /// content id, its parents are those of the annotation, its message is
    /// the YAML text of the metadata, and it is dated with the store's time
    /// and zone.
    pub fn commit_anno_cmd(&self, anno: &Anno, yaml: &str) -> (cmd: Command)
        ensures
            cmd@ == commit_tree_call(
                self.root@,
                self.zone@,
                anno.pid@,
                anno.fid@,
                self.date as nat,
                spec_commit_message(yaml@),
            ),
    {
        let msg = commit_message(yaml);
        self.commit_tree_cmd(anno.pid.as_slice(), &anno.fid, self.date, msg.as_str())
    }

    /// The command that imports the file at `path` into the content store.
    pub fn import_cmd(&self, path: &str) -> (cmd: Command)
        ensures
            cmd@ == import_call(self.root@, path@),
    {
        let mut args = one("split");
        add_arg(&mut args, "-t".to_owned());
        add_arg(&mut args, path.to_owned());
        let mut env: Vec<(String, String)> = Vec::new();
        add_env(&mut env, "BUP_DIR", self.root.clone());
        add_env(&mut env, "BUP_FORCE_TTY", "3".to_owned());
        add_env(&mut env, "LC_ALL", "C".to_owned());
        let cmd = Command { program: "bup256".to_owned(), env, args, input: None };
        proof {
            assert(cmd@.args =~= import_call(self.root@, path@).args);
            assert(cmd@.env =~= import_call(self.root@, path@).env);
        }
        cmd
    }

    /// What importing a file gave: the id of its content.
    pub fn import(out: &Output) -> (r: Result<Id, Error>)
        ensures
            id_result(*out, r, "bup split fail"@),
    {
        read_id_result(out, "bup split fail")
    }

    /// The command that writes out the content with the id `id`.
    pub fn spawn_bup_join(&self, id: &Id) -> (cmd: Command)
        ensures
            cmd@ == join_call(self.root@, id@),
    {
        let mut args = one("join");
        add_arg(&mut args, hex_encode(id.as_slice()));
        let mut env: Vec<(String, String)> = Vec::new();
        add_env(&mut env, "BUP_DIR", self.root.clone());
        add_env(&mut env, "LC_ALL", "C".to_owned());
        let cmd = Command { program: "bup256".to_owned(), env, args, input: None };
        proof {
            assert(cmd@.args =~= join_call(self.root@, id@).args);
            assert(cmd@.env =~= join_call(self.root@, id@).env);
        }
        cmd
    }
}


/// What a commit of the manifest made: the commits of the annotations that
/// had changed, in the manifest's order, and the commit of the changeset that
/// holds them, if any was made.
#[derive(Debug)]
pub struct CommitResult {
    pub obj_list: Vec<Id>,
    pub oid: Option<Id>,
}

/// The tree of a changeset: each commit under the hex text of its first
/// `len` bytes; of two commits with one name the first stays.
pub open spec fn names_tree(ids: Seq<Id>, len: int) -> Map<Seq<char>, (Id, Type)>
    decreases ids.len(),
{
    if ids.len() == 0 {
        Map::empty()
    } else {
        let m = names_tree(ids.drop_last(), len);
        let name = hex_text(ids.last()@.take(len));
        if m.contains_key(name) {
            m
        } else {
            m.insert(name, (ids.last(), Type::Commit))
        }
    }
}

/// The tree of a changeset that holds the given commits.
pub fn changeset_tree(ids: &Vec<Id>) -> (r: (Tree, usize))
    ensures
        is_min_uniq(ids@, r.1 as int),
        r.0@ == names_tree(ids@, r.1 as int),
{
    let len = min_uniq_len(ids);
    let mut tree = Tree::new();
    let mut i: usize = 0;
    assert(ids@.take(0) =~= Seq::<Id>::empty());
    while i < ids.len()
        invariant
            i <= ids@.len(),
            1 <= len <= 32,
            tree@ == names_tree(ids@.take(i as int), len as int),
        decreases ids@.len() - i,
    {
        proof {
            assert(ids@.take(i + 1).drop_last() =~= ids@.take(i as int));
            assert(ids@.take(i + 1).last() == ids@[i as int]);
        }
        let id = ids[i];
        let name = hex_encode(bytes_of(id.as_slice(), 0, len).as_slice());
        assert(id@.subrange(0, len as int) =~= id@.take(len as int));
        tree.insert(TreeEntry { name, oid: id, mode: Type::Commit });
        i += 1;
    }
    assert(ids@.take(ids@.len() as int) =~= ids@);
    (tree, len)
}

/// Where a commit of the manifest stands.
#[derive(Debug, Clone, Copy)]
pub enum Phase {
    /// Not begun.
    Idle,
    /// Waiting for what is on disk for the annotation at this place.
    Probing(usize),
    /// Waiting for the import of the file of the annotation at this place.
    Importing(usize),
    /// Waiting for the YAML text of the annotation at this place.
    Rendering(usize),
    /// Waiting for the commit of the annotation at this place.
    Recording(usize),
    /// Waiting for the annotation at this place to be saved.
    Saving(usize),
    /// Waiting for the changeset's tree to be stored.
    WritingTree,
    /// Waiting for the tip of the changeset; the id is that of the tree.
    ReadingTip(Id),
    /// Waiting for the changeset's commit.
    Committing,
    /// Waiting for the ref to be set to the changeset's commit.
    Advancing(Id),
    /// Over: finished or failed.
    Done,
}

/// A commit of the manifest in progress.
#[derive(Debug)]
pub struct CommitRun {
    pub phase: Phase,
    /// The commits made so far.
    pub obj_list: Vec<Id>,
    /// The YAML text of the metadata that the awaited commit records.
    pub yaml: String,
}

/// What the driver is to do next.
#[derive(Debug)]
pub enum Request {
    /// Look at the files of the annotation at this place and write out its
    /// metadata as YAML.
    Probe(usize),
    /// Write out the metadata of the annotation at this place as YAML.
    Render(usize),
    /// Run a command.
    Run(Command),
    /// Save the annotation at place `at`: write `meta` as its `.meta`
    /// sidecar and `yaml` as its `.yaml` sidecar, and set the times of the
    /// three files to the time of the tracked file.
    Save { at: usize, meta: String, yaml: String },
    /// Nothing more: the commit is over.
    Finish(CommitResult),
}

/// What the driver did.
#[derive(Debug)]
pub enum Reply {
    /// It begins, at the time `now` in seconds since 1970, in the time zone
    /// `offset` seconds east of UTC.
    Begin { now: i64, offset: i32 },
    /// What it found on disk, the YAML text of the metadata, and the path of
    /// the tracked file.
    Probed { probe: Probe, yaml: String, path: String },
    /// The YAML text of the metadata.
    Rendered(String),
    /// What the command gave.
    Ran(Output),
    /// The annotation is saved.
    Saved,
}

/// The call that stores the tree of a changeset.
pub open spec fn write_tree_call(root: Seq<char>, bytes: Seq<u8>) -> Call {
    Call {
        input: Some(bytes),
        ..git_call(root, seq!["hash-object"@, "-t"@, "tree"@, "--stdin"@, "-w"@])
    }
}

/// The annotation at a place of the manifest.
pub open spec fn anno_at(m: Manifest, i: int) -> Anno {
    m.anno_map.pairs()[i].1
}

/// The manifest `m1` is `m0` with the annotation at place `i` replaced by `a`.
pub open spec fn replaced(m0: Manifest, m1: Manifest, i: int, a: Anno) -> bool {
    &&& m1.mdir == m0.mdir
    &&& m1.anno_map.pairs() == m0.anno_map.pairs().update(i, (m0.anno_map.pairs()[i].0, a))
}

/// What follows once the annotations before place `j` are done: the next
/// annotation is looked at; or, after the last, the commit is over where no
/// commit was made, and else the tree of the changeset is stored.
pub open spec fn goes_on(
    root: Seq<char>,
    entries: int,
    j: int,
    made: Seq<Id>,
    run1: CommitRun,
    r: Result<Request, Error>,
) -> bool {
    if j < entries {
        &&& r matches Ok(Request::Probe(at))
        &&& at == j
        &&& run1.phase matches Phase::Probing(now)
        &&& now == j
        &&& run1.obj_list@ == made
    } else if made.len() == 0 {
        &&& r matches Ok(Request::Finish(res))
        &&& res.obj_list@.len() == 0
        &&& res.oid is None
        &&& run1.phase is Done
    } else {
        &&& r matches Ok(Request::Run(cmd))
        &&& run1.phase is WritingTree
        &&& run1.obj_list@ == made
        &&& exists|len: int, p: Seq<(Seq<char>, (Id, Type))>| stores_tree(root, made, len, p, cmd@)
    }
}

/// The call `call` stores the tree of the changeset that holds the commits
/// `made`: its entries `p` stand in the order of their names, which are the
/// hex texts of the first `len` bytes of the commits' ids.
pub open spec fn stores_tree(
    root: Seq<char>,
    made: Seq<Id>,
    len: int,
    p: Seq<(Seq<char>, (Id, Type))>,
    call: Call,
) -> bool {
    &&& is_min_uniq(made, len)
    &&& sorted(p)
    &&& map_of(p) == names_tree(made, len)
    &&& call == write_tree_call(root, crate::git::tree_bytes(p))
}

/// The failure of a command that was to write an id: the failure that names
/// the command where it did not end well, and else that of a malformed
/// answer.
pub open spec fn id_failure(out: Output, r: Result<Request, Error>, failed: Seq<char>) -> bool {
    if !out.success {
        r matches Err(Error::Simple(m)) && m@ == failed
    } else {
        r matches Err(Error::Format(_))
    }
}

/// The failure of a step that names a place that the manifest does not have,
/// or that was handed a reply of the wrong kind.
pub open spec fn misled(r: Result<Request, Error>) -> bool {
    r matches Err(Error::Simple(_))
}

/// One step of the commit of a manifest: what the state and the driver's
/// reply lead to. A reply that does not answer what was asked for, and a
/// place that the manifest does not have, end the commit with a failure, as
/// does every failure of a step.
pub open spec fn commit_step(
    s0: Store,
    run0: CommitRun,
    m0: Manifest,
    reply: Reply,
    s1: Store,
    run1: CommitRun,
    m1: Manifest,
    r: Result<Request, Error>,
) -> bool {
    &&& s1.root == s0.root
    &&& match r {
        Ok(_) => commit_step_inner(s0, run0, m0, reply, s1, run1, m1, r),
        Err(e) => run1.phase is Done && exists|failed: CommitRun, inner: Error|
            {
                &&& #[trigger] commit_step_inner(s0, run0, m0, reply, s1, failed, m1, Err(inner))
                &&& inner.framed(&e, failure_context(run0.phase, m0))
            },
    }
}

/// The name of the stage of a commit.
pub open spec fn stage_text(phase: Phase) -> Seq<char> {
    match phase {
        Phase::Idle => "begin"@,
        Phase::Probing(_) => "status"@,
        Phase::Importing(_) => "import"@,
        Phase::Rendering(_) => "metadata"@,
        Phase::Recording(_) => "commit"@,
        Phase::Saving(_) => "save"@,
        Phase::WritingTree => "tree"@,
        Phase::ReadingTip(_) => "tip"@,
        Phase::Committing => "changeset"@,
        Phase::Advancing(_) => "ref"@,
        Phase::Done => "done"@,
    }
}

/// The place in the manifest that a stage of a commit works on, if it
/// works on one.
pub open spec fn stage_place(phase: Phase) -> Option<usize> {
    match phase {
        Phase::Probing(i) => Some(i),
        Phase::Importing(i) => Some(i),
        Phase::Rendering(i) => Some(i),
        Phase::Recording(i) => Some(i),
        Phase::Saving(i) => Some(i),
        _ => None,
    }
}

/// Where a failure of a commit happened: the stage, and the path of the
/// annotation that it worked on.
pub open spec fn failure_context(phase: Phase, m: Manifest) -> Seq<char> {
    match stage_place(phase) {
        Some(i) => if i < m.anno_map.pairs().len() {
            stage_text(phase) + " of "@ + m.anno_map.pairs()[i as int].0
        } else {
            stage_text(phase)
        },
        None => stage_text(phase),
    }
}

/// What one step of the commit of a manifest leads to, but for where the
/// run stands after a failure.
pub open spec fn commit_step_inner(
    s0: Store,
    run0: CommitRun,
    m0: Manifest,
    reply: Reply,
    s1: Store,
    run1: CommitRun,
    m1: Manifest,
    r: Result<Request, Error>,
) -> bool {
    let n = m0.anno_map.pairs().len() as int;
    match (run0.phase, reply) {
        (Phase::Idle, Reply::Begin { now, offset }) => {
            &&& s1.date == date_bits(now)
            &&& s1.zone@ == zone_text(offset as int)
            &&& m1 == m0
            &&& goes_on(s1.root@, n, 0, Seq::empty(), run1, r)
        },
        (Phase::Probing(i), Reply::Probed { probe, yaml, path }) => {
            &&& s1 == s0
            &&& if i >= n {
                misled(r) && m1 == m0
            } else {
                let a0 = anno_at(m0, i as int);
                let same = m1.mdir == m0.mdir && m1.anno_map.pairs() == m0.anno_map.pairs();
                match place(a0.pid@, a0.fid@, a0.anno_hash@, probe, yaml@) {
                    Placed::Unreadable => r matches Err(Error::IO(IoKind::Unreadable, _)) && same,
                    Placed::TooLong => r matches Err(Error::Simple(_)) && same,
                    Placed::Is(St::Ready) => same && goes_on(
                        s1.root@,
                        n,
                        i + 1,
                        run0.obj_list@,
                        run1,
                        r,
                    ),
                    Placed::Is(st) => if !sync_readable(probe) {
                        r matches Err(Error::IO(IoKind::Unreadable, _)) && same
                    } else {
                        &&& replaced(m0, m1, i as int, anno_at(m1, i as int))
                        &&& synced(a0, anno_at(m1, i as int), probe)
                        &&& run1.obj_list@ == run0.obj_list@
                        &&& if st == St::MFile {
                            &&& r matches Ok(Request::Run(cmd))
                            &&& cmd@ == import_call(s0.root@, path@)
                            &&& run1.phase matches Phase::Importing(at)
                            &&& at == i
                        } else {
                            &&& r matches Ok(Request::Render(at))
                            &&& at == i
                            &&& run1.phase matches Phase::Rendering(now)
                            &&& now == i
                        }
                    },
                }
            }
        },
        (Phase::Importing(i), Reply::Ran(out)) => {
            &&& s1 == s0
            &&& if i >= n {
                misled(r) && m1 == m0
            } else if !out.success || output_id(out.stdout@) is None {
                id_failure(out, r, "bup split fail"@) && m1 == m0
            } else {
                let a0 = anno_at(m0, i as int);
                let a1 = anno_at(m1, i as int);
                &&& r matches Ok(Request::Render(at))
                &&& at == i
                &&& run1.phase matches Phase::Rendering(now)
                &&& now == i
                &&& run1.obj_list@ == run0.obj_list@
                &&& replaced(m0, m1, i as int, a1)
                &&& a1.fid@ == output_id(out.stdout@)->0
                &&& a1.pid == a0.pid
                &&& a1.anno_hash == a0.anno_hash
                &&& a1.data == a0.data
                &&& a1.same_place(&a0)
            }
        },
        (Phase::Rendering(i), Reply::Rendered(yaml)) => {
            &&& s1 == s0
            &&& m1 == m0
            &&& if i >= n || encode_utf8(yaml@).len() >= HASH_LIMIT {
                misled(r)
            } else {
                let a0 = anno_at(m0, i as int);
                &&& r matches Ok(Request::Run(cmd))
                &&& cmd@ == commit_tree_call(
                    s0.root@,
                    s0.zone@,
                    a0.pid@,
                    a0.fid@,
                    s0.date as nat,
                    spec_commit_message(yaml@),
                )
                &&& run1.phase matches Phase::Recording(at)
                &&& at == i
                &&& run1.yaml@ == yaml@
                &&& run1.obj_list@ == run0.obj_list@
            }
        },
        (Phase::Recording(i), Reply::Ran(out)) => {
            &&& s1 == s0
            &&& if i >= n {
                misled(r) && m1 == m0
            } else if !out.success || output_id(out.stdout@) is None {
                id_failure(out, r, "git commit-tree fail"@) && m1 == m0
            } else if encode_utf8(run0.yaml@).len() >= HASH_LIMIT {
                misled(r) && m1 == m0
            } else {
                let a0 = anno_at(m0, i as int);
                let a1 = anno_at(m1, i as int);
                &&& r matches Ok(Request::Save { at, meta, yaml })
                &&& at == i
                &&& yaml@ == run0.yaml@
                &&& meta@ == spec_meta_text(
                    seq![output_id(out.stdout@)->0],
                    a0.fid@,
                    yaml_hash(run0.yaml@),
                )
                &&& run1.phase matches Phase::Saving(now)
                &&& now == i
                &&& run1.obj_list@.len() == run0.obj_list@.len() + 1
                &&& run1.obj_list@.drop_last() == run0.obj_list@
                &&& run1.obj_list@.last()@ == output_id(out.stdout@)->0
                &&& replaced(m0, m1, i as int, a1)
                &&& a1.pid@ == seq![run1.obj_list@.last()]
                &&& a1.anno_hash@ == yaml_hash(run0.yaml@)
                &&& a1.fid == a0.fid
                &&& a1.data == a0.data
                &&& a1.same_place(&a0)
            }
        },
        (Phase::Saving(i), Reply::Saved) => {
            &&& s1 == s0
            &&& m1 == m0
            &&& if i >= n {
                misled(r)
            } else {
                goes_on(s1.root@, n, i + 1, run0.obj_list@, run1, r)
            }
        },
        (Phase::WritingTree, Reply::Ran(out)) => {
            &&& s1 == s0
            &&& m1 == m0
            &&& if !out.success || output_id(out.stdout@) is None {
                id_failure(out, r, "git hash-object fail"@)
            } else {
                &&& r matches Ok(Request::Run(cmd))
                &&& cmd@ == git_call(
                    s0.root@,
                    seq!["show-ref"@, "--verify"@, "--hash"@, spec_ref_remote(localhost())],
                )
                &&& run1.phase matches Phase::ReadingTip(tree)
                &&& tree@ == output_id(out.stdout@)->0
                &&& run1.obj_list@ == run0.obj_list@
            }
        },
        (Phase::ReadingTip(tree), Reply::Ran(out)) => {
            &&& s1 == s0
            &&& m1 == m0
            &&& if out.success && output_id(out.stdout@) is None {
                r matches Err(Error::Format(_))
            } else {
                &&& r matches Ok(Request::Run(cmd))
                &&& exists|tip: Seq<Id>|
                    {
                        &&& #[trigger] tip.len() == (if out.success { 1int } else { 0int })
                        &&& (out.success ==> tip[0]@ == output_id(out.stdout@)->0)
                        &&& cmd@ == commit_tree_call(
                            s0.root@,
                            s0.zone@,
                            tip,
                            tree@,
                            s0.date as nat,
                            Seq::empty(),
                        )
                    }
                &&& run1.phase is Committing
                &&& run1.obj_list@ == run0.obj_list@
            }
        },
        (Phase::Committing, Reply::Ran(out)) => {
            &&& s1 == s0
            &&& m1 == m0
            &&& if !out.success || output_id(out.stdout@) is None {
                id_failure(out, r, "git commit-tree fail"@)
            } else {
                &&& r matches Ok(Request::Run(cmd))
                &&& cmd@ == git_call(
                    s0.root@,
                    seq![
                        "update-ref"@,
                        spec_ref_remote(localhost()),
                        hex_text(output_id(out.stdout@)->0),
                    ],
                )
                &&& run1.phase matches Phase::Advancing(cset)
                &&& cset@ == output_id(out.stdout@)->0
                &&& run1.obj_list@ == run0.obj_list@
            }
        },
        (Phase::Advancing(cset), Reply::Ran(out)) => {
            &&& s1 == s0
            &&& m1 == m0
            &&& if !out.success {
                r matches Err(Error::Simple(m)) && m@ == "git update-ref fail"@
            } else {
                &&& r matches Ok(Request::Finish(res))
                &&& res.obj_list@ == run0.obj_list@
                &&& res.oid == Some(cset)
                &&& run1.phase is Done
            }
        },
        _ => misled(r) && s1 == s0 && m1 == m0,
    }
}

impl CommitRun {
    /// A commit of the manifest that has not begun.
    pub fn new() -> (run: CommitRun)
        ensures
            run.phase is Idle,
            run.obj_list@.len() == 0,
            run.yaml@.len() == 0,
    {
        CommitRun { phase: Phase::Idle, obj_list: Vec::new(), yaml: String::new() }
    }
}

impl Store {
    fn goes_on(&self, run: &mut CommitRun, manifest: &Manifest, j: usize) -> (r: Result<
        Request,
        Error,
    >)
        ensures
            goes_on(
                self.root@,
                manifest.anno_map.pairs().len() as int,
                j as int,
                old(run).obj_list@,
                *final(run),
                r,
            ),
            r is Ok,
    {
        if j < manifest.len() {
            run.phase = Phase::Probing(j);
            return Ok(Request::Probe(j));
        }
        if run.obj_list.len() == 0 {
            run.phase = Phase::Done;
            return Ok(Request::Finish(CommitResult { obj_list: Vec::new(), oid: None }));
        }
        let (tree, len) = changeset_tree(&run.obj_list);
        let cmd = self.write_tree_cmd(&tree);
        run.phase = Phase::WritingTree;
        proof {
            assert(stores_tree(self.root@, run.obj_list@, len as int, tree.pairs(), cmd@));
        }
        Ok(Request::Run(cmd))
    }

    fn step(&mut self, run: &mut CommitRun, manifest: &mut Manifest, reply: Reply) -> (r: Result<
        Request,
        Error,
    >)
        ensures
            final(self).root == old(self).root,
            commit_step_inner(
                *old(self),
                *old(run),
                *old(manifest),
                reply,
                *final(self),
                *final(run),
                *final(manifest),
                r,
            ),
    {
        let phase = run.phase;
        match (phase, reply) {
            (Phase::Idle, Reply::Begin { now, offset }) => {
                self.update_time(now, offset);
                let mut made: Vec<Id> = Vec::new();
                core::mem::swap(&mut run.obj_list, &mut made);
                self.goes_on(run, manifest, 0)
            },
            (Phase::Probing(i), Reply::Probed { probe, yaml, path }) => {
                if i >= manifest.len() {
                    return Err(err_simple("no such annotation"));
                }
                let ghost a0 = anno_at(*manifest, i as int);
                let mut anno = manifest.anno_map.replace_at(i, Anno::blank("", "", Vec::new()));
                let placed = anno.commit(&probe, yaml.as_str());
                manifest.anno_map.replace_at(i, anno);
                proof {
                    assert(manifest.anno_map.pairs() =~= old(manifest).anno_map.pairs().update(
                        i as int,
                        (old(manifest).anno_map.pairs()[i as int].0, anno),
                    ));
                    if anno == a0 {
                        assert(manifest.anno_map.pairs() =~= old(manifest).anno_map.pairs());
                    }
                }
                match placed {
                    Err(e) => Err(e),
                    Ok(None) => self.goes_on(run, manifest, i + 1),
                    Ok(Some(St::MFile)) => {
                        run.phase = Phase::Importing(i);
                        Ok(Request::Run(self.import_cmd(path.as_str())))
                    },
                    Ok(Some(_)) => {
                        run.phase = Phase::Rendering(i);
                        Ok(Request::Render(i))
                    },
                }
            },
            (Phase::Importing(i), Reply::Ran(out)) => {
                if i >= manifest.len() {
                    return Err(err_simple("no such annotation"));
                }
                let id = Store::import(&out)?;
                let mut anno = manifest.anno_map.replace_at(i, Anno::blank("", "", Vec::new()));
                anno.fid = id;
                manifest.anno_map.replace_at(i, anno);
                proof {
                    assert(manifest.anno_map.pairs() =~= old(manifest).anno_map.pairs().update(
                        i as int,
                        (old(manifest).anno_map.pairs()[i as int].0, anno),
                    ));
                }
                run.phase = Phase::Rendering(i);
                Ok(Request::Render(i))
            },
            (Phase::Rendering(i), Reply::Rendered(yaml)) => {
                if i >= manifest.len() {
                    return Err(err_simple("no such annotation"));
                }
                if Anno::too_long(yaml.as_str()) {
                    return Err(err_simple("metadata too long to hash"));
                }
                let cmd = self.commit_anno_cmd(manifest.anno_map.value_at(i), yaml.as_str());
                run.yaml = yaml;
                run.phase = Phase::Recording(i);
                Ok(Request::Run(cmd))
            },
            (Phase::Recording(i), Reply::Ran(out)) => {
                if i >= manifest.len() {
                    return Err(err_simple("no such annotation"));
                }
                let id = Store::commit_tree(&out)?;
                if Anno::too_long(run.yaml.as_str()) {
                    return Err(err_simple("metadata too long to hash"));
                }
                let mut yaml = String::new();
                core::mem::swap(&mut run.yaml, &mut yaml);
                let mut anno = manifest.anno_map.replace_at(i, Anno::blank("", "", Vec::new()));
                let saved = anno.commit_done(id, yaml.as_str());
                manifest.anno_map.replace_at(i, anno);
                proof {
                    assert(manifest.anno_map.pairs() =~= old(manifest).anno_map.pairs().update(
                        i as int,
                        (old(manifest).anno_map.pairs()[i as int].0, anno),
                    ));
                }
                match saved {
                    Ok(meta) => {
                        run.obj_list.push(id);
                        assert(run.obj_list@.drop_last() =~= old(run).obj_list@);
                        assert(seq![id@] =~= seq![output_id(out.stdout@)->0]);
                        run.phase = Phase::Saving(i);
                        Ok(Request::Save { at: i, meta, yaml })
                    },
                    Err(e) => Err(e),
                }
            },
            (Phase::Saving(i), Reply::Saved) => {
                if i >= manifest.len() {
                    return Err(err_simple("no such annotation"));
                }
                self.goes_on(run, manifest, i + 1)
            },
            (Phase::WritingTree, Reply::Ran(out)) => {
                let tree = Store::write_tree(&out)?;
                let name = ref_remote(Store::LOCALHOST);
                let cmd = self.git_show_ref_cmd(name.as_str());
                run.phase = Phase::ReadingTip(tree);
                Ok(Request::Run(cmd))
            },
            (Phase::ReadingTip(tree), Reply::Ran(out)) => {
                let mut tip: Vec<Id> = Vec::new();
                match Store::git_show_ref(&out)? {
                    Some(id) => {
                        tip.push(id);
                    },
                    None => {},
                }
                let cmd = self.commit_tree_cmd(tip.as_slice(), &tree, self.date, "");
                proof {
                    reveal_strlit("");
                    assert(""@ =~= Seq::<char>::empty());
                    assert(tip@.len() == (if out.success { 1int } else { 0int }));
                }
                run.phase = Phase::Committing;
                Ok(Request::Run(cmd))
            },
            (Phase::Committing, Reply::Ran(out)) => {
                let cset = Store::commit_tree(&out)?;
                let name = ref_remote(Store::LOCALHOST);
                let cmd = self.git_update_ref_cmd(name.as_str(), &cset);
                run.phase = Phase::Advancing(cset);
                Ok(Request::Run(cmd))
            },
            (Phase::Advancing(cset), Reply::Ran(out)) => {
                Store::git_update_ref(&out)?;
                let mut made: Vec<Id> = Vec::new();
                core::mem::swap(&mut run.obj_list, &mut made);
                run.phase = Phase::Done;
                Ok(Request::Finish(CommitResult { obj_list: made, oid: Some(cset) }))
            },
            _ => Err(err_simple("reply does not answer the request")),
        }
    }

    /// Takes the commit of a manifest one step further: given what the
    /// driver did, says what it is to do next. The driver begins with
    /// `Reply::Begin` and goes on until it is handed `Request::Finish` or a
    /// failure; it answers each request with the reply of its kind.
    pub fn commit(&mut self, run: &mut CommitRun, manifest: &mut Manifest, reply: Reply) -> (r:
        Result<Request, Error>)
        ensures
            commit_step(
                *old(self),
                *old(run),
                *old(manifest),
                reply,
                *final(self),
                *final(run),
                *final(manifest),
                r,
            ),
    {
        let phase = run.phase;
        let ghost keys = manifest.anno_map.pairs();
        match self.step(run, manifest, reply) {
            Ok(request) => Ok(request),
            Err(inner) => {
                let ghost failed = *run;
                run.phase = Phase::Done;
                let context = Store::failure_context(phase, manifest);
                let e = inner.in_context(context.as_str());
                assert(commit_step_inner(
                    *old(self),
                    *old(run),
                    *old(manifest),
                    reply,
                    *self,
                    failed,
                    *manifest,
                    Err(inner),
                ));
                Err(e)
            },
        }
    }

    fn stage_name(phase: Phase) -> (name: String)
        ensures
            name@ == stage_text(phase),
    {
        match phase {
            Phase::Idle => "begin".to_owned(),
            Phase::Probing(_) => "status".to_owned(),
            Phase::Importing(_) => "import".to_owned(),
            Phase::Rendering(_) => "metadata".to_owned(),
            Phase::Recording(_) => "commit".to_owned(),
            Phase::Saving(_) => "save".to_owned(),
            Phase::WritingTree => "tree".to_owned(),
            Phase::ReadingTip(_) => "tip".to_owned(),
            Phase::Committing => "changeset".to_owned(),
            Phase::Advancing(_) => "ref".to_owned(),
            Phase::Done => "done".to_owned(),
        }
    }

    /// Where a failure of a commit happened.
    fn failure_context(phase: Phase, manifest: &Manifest) -> (context: String)
        ensures
            context@ == failure_context(phase, *manifest),
    {
        let mut context = Store::stage_name(phase);
        let place = match phase {
            Phase::Probing(i) => Some(i),
            Phase::Importing(i) => Some(i),
            Phase::Rendering(i) => Some(i),
            Phase::Recording(i) => Some(i),
            Phase::Saving(i) => Some(i),
            _ => None,
        };
        match place {
            Some(i) => {
                if i < manifest.len() {
                    push_str(&mut context, " of ");
                    push_str(&mut context, manifest.anno_map.key_at(i).as_str());
                }
            },
            None => {},
        }
        context
    }
}


/// The ids stand in strictly ascending order of their bytes.
pub open spec fn ids_sorted(ids: Seq<Id>) -> bool {
    forall|i: int, j: int| 0 <= i < j < ids.len() ==> bytes_lt((#[trigger] ids[i])@, (#[trigger] ids[j])@)
}

/// One of the ids has the bytes `x`.
pub open spec fn has_id(ids: Seq<Id>, x: Seq<u8>) -> bool {
    exists|i: int| 0 <= i < ids.len() && (#[trigger] ids[i])@ == x
}

/// How the id `a` stands to the id `b` in the order of their bytes.
pub fn compare_ids(a: &Id, b: &Id) -> (r: Rank)
    ensures
        r is Less ==> bytes_lt(a@, b@),
        r is Equal ==> a@ == b@,
        r is Greater ==> bytes_lt(b@, a@),
{
    let mut i: usize = 0;
    while i < 32
        invariant
            i <= 32,
            forall|j: int| 0 <= j < i ==> a@[j] == b@[j],
        decreases 32 - i,
    {
        if a[i] < b[i] {
            assert(bytes_lt_at(a@, b@, i as int));
            return Rank::Less;
        }
        if a[i] > b[i] {
            assert(bytes_lt_at(b@, a@, i as int));
            return Rank::Greater;
        }
        i += 1;
    }
    assert(a@ =~= b@);
    Rank::Equal
}

/// Puts an id into a list that is kept in ascending order and holds no id
/// twice; an id that is there already changes nothing.
pub fn insert_id(list: &mut Vec<Id>, id: Id)
    requires
        ids_sorted(old(list)@),
    ensures
        ids_sorted(final(list)@),
        forall|x: Seq<u8>| has_id(final(list)@, x) <==> (has_id(old(list)@, x) || x == id@),
{
    let ghost before = list@;
    let mut i: usize = 0;
    let mut go = true;
    while go && i < list.len()
        invariant
            list@ == before,
            ids_sorted(before),
            i <= before.len(),
            forall|j: int| 0 <= j < i ==> bytes_lt((#[trigger] before[j])@, id@),
            !go ==> i < before.len() && bytes_lt(id@, before[i as int]@),
        decreases (if go { 1int } else { 0int }), before.len() - i,
    {
        match compare_ids(&list[i], &id) {
            Rank::Less => {
                i += 1;
            },
            Rank::Equal => {
                assert forall|x: Seq<u8>| has_id(before, x) <==> (has_id(before, x) || x == id@) by {
                    if x == id@ {
                        assert(before[i as int]@ == x);
                    }
                }
                return ;
            },
            Rank::Greater => {
                go = false;
            },
        }
    }
    proof {
        assert forall|j: int| i <= j < before.len() implies bytes_lt(id@, (#[trigger] before[j])@) by {
            if j > i {
                lemma_bytes_lt_transitive(id@, before[i as int]@, before[j]@);
            }
        }
    }
    list.insert(i, id);
    proof {
        let after = list@;
        assert forall|a: int, b: int| 0 <= a < b < after.len() implies bytes_lt(
            (#[trigger] after[a])@,
            (#[trigger] after[b])@,
        ) by {
            let oa = if a < i { a } else { a - 1 };
            let ob = if b < i { b } else { b - 1 };
            if a != i && b != i {
                assert(bytes_lt(before[oa]@, before[ob]@));
            }
        }
        assert forall|x: Seq<u8>| has_id(after, x) <==> (has_id(before, x) || x == id@) by {
            if has_id(after, x) {
                let k = choose|k: int| 0 <= k < after.len() && (#[trigger] after[k])@ == x;
                if k < i {
                    assert(before[k]@ == x);
                } else if k > i {
                    assert(before[k - 1]@ == x);
                }
            }
            if has_id(before, x) {
                let k = choose|k: int| 0 <= k < before.len() && (#[trigger] before[k])@ == x;
                if k < i {
                    assert(after[k]@ == x);
                } else {
                    assert(after[k + 1]@ == x);
                }
            }
            if x == id@ {
                assert(after[i as int]@ == x);
            }
        }
    }
}

/// The tree has an entry of the kind commit with the id `x`.
pub open spec fn has_commit(p: Seq<(Seq<char>, (Id, Type))>, x: Seq<u8>) -> bool {
    exists|j: int| 0 <= j < p.len() && (#[trigger] p[j]).1.1 == Type::Commit && p[j].1.0@ == x
}

/// The commits that a tree holds: the ids of its entries of the kind commit,
/// in ascending order, each once.
pub fn commit_ids(tree: &Tree) -> (ids: Vec<Id>)
    ensures
        ids_sorted(ids@),
        forall|x: Seq<u8>| has_id(ids@, x) <==> has_commit(tree.pairs(), x),
{
    let n = tree.len();
    let ghost p = tree.pairs();
    let mut ids: Vec<Id> = Vec::new();
    let mut i: usize = 0;
    while i < n
        invariant
            p == tree.pairs(),
            n == p.len(),
            i <= n,
            ids_sorted(ids@),
            forall|x: Seq<u8>| has_id(ids@, x) <==> has_commit(p.take(i as int), x),
        decreases n - i,
    {
        let e = tree.entry(i);
        let ghost before = ids@;
        let added = match e.mode {
            Type::Commit => {
                insert_id(&mut ids, e.oid);
                true
            },
            _ => false,
        };
        proof {
            let short = p.take(i as int);
            let long = p.take(i + 1);
            assert forall|x: Seq<u8>| has_id(ids@, x) <==> has_commit(long, x) by {
                if has_commit(long, x) {
                    let j = choose|j: int|
                        0 <= j < long.len() && (#[trigger] long[j]).1.1 == Type::Commit && long[j].1.0@
                            == x;
                    if j < i {
                        assert(short[j] == long[j]);
                        assert(has_commit(short, x));
                    }
                }
                if has_commit(short, x) {
                    let j = choose|j: int|
                        0 <= j < short.len() && (#[trigger] short[j]).1.1 == Type::Commit
                            && short[j].1.0@ == x;
                    assert(long[j] == short[j]);
                }
                if added && x == e.oid@ {
                    assert(long[i as int] == p[i as int]);
                }
            }
        }
        i += 1;
    }
    assert(p.take(n as int) =~= p);
    ids
}

/// Where a walk of a changeset stands.
#[derive(Debug, Clone, Copy)]
pub enum WalkPhase {
    /// Not begun.
    Idle,
    /// Waiting for the tip of the changeset.
    ReadingTip,
    /// Waiting for the place up to which the changeset is indexed; the id is
    /// the tip.
    ReadingBoundary(Id),
    /// Waiting for the commit with this id.
    ReadingCommit(Id),
    /// Waiting for the tree of the commit with this id.
    ReadingTree(Id),
    /// Over: finished or failed.
    Done,
}

/// A walk of a changeset in progress.
#[derive(Debug)]
pub struct Walk {
    pub phase: WalkPhase,
    /// The place at which the walk stops: what is indexed already.
    pub boundary: Option<Id>,
    /// The commits still to visit; the last is visited next.
    pub remain: Vec<Id>,
    /// The parents of the commit whose tree is being read.
    pub parents: Vec<Id>,
    /// What was found so far: each changeset commit visited, with the
    /// annotation commits in its tree.
    pub found: Vec<(Id, Vec<Id>)>,
}

/// What the driver of a walk is to do next.
#[derive(Debug)]
pub enum WalkRequest {
    /// Run a command.
    Run(Command),
    /// Nothing more: the walk is over, and this is what it found, the
    /// newest first.
    Finish(Vec<(Id, Vec<Id>)>),
}

/// Whether an id is the boundary of a walk.
pub open spec fn at_boundary(boundary: Option<Id>, id: Id) -> bool {
    boundary matches Some(b) && b@ == id@
}

/// The commits still to visit without those at the end that are the
/// boundary.
pub open spec fn skip_boundary(remain: Seq<Id>, boundary: Option<Id>) -> Seq<Id>
    decreases remain.len(),
{
    if remain.len() > 0 && at_boundary(boundary, remain.last()) {
        skip_boundary(remain.drop_last(), boundary)
    } else {
        remain
    }
}

/// What a walk goes on with when `remain` is what is left to visit: it is
/// over where nothing is left inside the boundary, and else the last commit
/// that is not the boundary is read.
pub open spec fn walks_on(root: Seq<char>, w0: Walk, remain: Seq<Id>, found: Seq<(Id, Vec<Id>)>, w1: Walk, r: Result<
    WalkRequest,
    Error,
>) -> bool {
    let rest = skip_boundary(remain, w0.boundary);
    if rest.len() == 0 {
        &&& r matches Ok(WalkRequest::Finish(res))
        &&& res@ == found
        &&& w1.phase is Done
    } else {
        &&& r matches Ok(WalkRequest::Run(cmd))
        &&& cmd@ == git_call(root, seq!["cat-file"@, "commit"@, hex_text(rest.last()@)])
        &&& w1.phase matches WalkPhase::ReadingCommit(id)
        &&& id == rest.last()
        &&& w1.remain@ == rest.drop_last()
        &&& w1.found@ == found
        &&& w1.boundary == w0.boundary
    }
}

/// `ids` are the annotation commits that the bytes of a tree hold: `t` is
/// the tree that the bytes stand for, and `ids` are the ids of its entries of
/// the kind commit, in ascending order, each once.
pub open spec fn commits_of(stdout: Seq<u8>, t: Tree, ids: Vec<Id>) -> bool {
    &&& t.model() == crate::git::tree_of(crate::git::parse_entries(stdout, 0)->0)
    &&& ids_sorted(ids@)
    &&& forall|x: Seq<u8>| has_id(ids@, x) <==> has_commit(t.pairs(), x)
}

/// One step of the walk of the changeset `name`: what the state and the
/// output of the command that was asked for lead to. The driver begins with
/// no output and goes on until it is handed `WalkRequest::Finish` or a
/// failure. A changeset without a tip cannot be walked.
pub open spec fn walk_step(
    root: Seq<char>,
    name: Seq<char>,
    w0: Walk,
    out: Option<Output>,
    w1: Walk,
    r: Result<WalkRequest, Error>,
) -> bool {
    match (w0.phase, out) {
        (WalkPhase::Idle, None) => {
            &&& r matches Ok(WalkRequest::Run(cmd))
            &&& cmd@ == git_call(
                root,
                seq!["show-ref"@, "--verify"@, "--hash"@, spec_ref_remote(name)],
            )
            &&& w1.phase is ReadingTip
        },
        (WalkPhase::ReadingTip, Some(o)) => {
            if !o.success {
                r matches Err(Error::Simple(_))
            } else if output_id(o.stdout@) is None {
                r matches Err(Error::Format(_))
            } else {
                &&& r matches Ok(WalkRequest::Run(cmd))
                &&& cmd@ == git_call(
                    root,
                    seq!["show-ref"@, "--verify"@, "--hash"@, spec_ref_local(name)],
                )
                &&& w1.phase matches WalkPhase::ReadingBoundary(from)
                &&& from@ == output_id(o.stdout@)->0
            }
        },
        (WalkPhase::ReadingBoundary(from), Some(o)) => {
            if o.success && output_id(o.stdout@) is None {
                r matches Err(Error::Format(_))
            } else {
                exists|w: Walk|
                    {
                        &&& match #[trigger] w.boundary {
                            Some(b) => o.success && b@ == output_id(o.stdout@)->0,
                            None => !o.success,
                        }
                        &&& walks_on(root, w, seq![from], Seq::empty(), w1, r)
                    }
            }
        },
        (WalkPhase::ReadingCommit(id), Some(o)) => {
            if !o.success {
                r matches Err(Error::Simple(_))
            } else if !valid_utf8(o.stdout@) || crate::git::commit_text(decode_utf8(o.stdout@))
                is None {
                r matches Err(Error::Format(_))
            } else {
                let c = crate::git::commit_text(decode_utf8(o.stdout@))->0;
                &&& r matches Ok(WalkRequest::Run(cmd))
                &&& cmd@ == git_call(root, seq!["cat-file"@, "tree"@, hex_text(c.tree)])
                &&& w1.phase matches WalkPhase::ReadingTree(at)
                &&& at == id
                &&& crate::git::ids_of(w1.parents@) == c.parents
                &&& w1.remain@ == w0.remain@
                &&& w1.found@ == w0.found@
                &&& w1.boundary == w0.boundary
            }
        },
        (WalkPhase::ReadingTree(id), Some(o)) => {
            if !o.success {
                r matches Err(Error::Simple(_))
            } else if crate::git::parse_entries(o.stdout@, 0) is None {
                r matches Err(Error::Format(_))
            } else {
                exists|ids: Vec<Id>, t: Tree|
                    {
                        &&& #[trigger] commits_of(o.stdout@, t, ids)
                        &&& walks_on(
                            root,
                            w0,
                            w0.remain@ + w0.parents@,
                            w0.found@.push((id, ids)),
                            w1,
                            r,
                        )
                    }
            }
        },
        _ => r matches Err(Error::Simple(_)),
    }
}

impl Walk {
    /// A walk that has not begun: it waits for nothing, knows no boundary,
    /// has no commit left to visit and has found none.
    pub fn new() -> (w: Walk)
        ensures
            w.phase is Idle,
            w.boundary is None,
            w.remain@ == Seq::<Id>::empty(),
            w.parents@ == Seq::<Id>::empty(),
            w.found@ == Seq::<(Id, Vec<Id>)>::empty(),
    {
        Walk {
            phase: WalkPhase::Idle,
            boundary: None,
            remain: Vec::new(),
            parents: Vec::new(),
            found: Vec::new(),
        }
    }
}

impl Store {
    fn walks_on(&self, walk: &mut Walk) -> (r: Result<WalkRequest, Error>)
        ensures
            walks_on(self.root@, *old(walk), old(walk).remain@, old(walk).found@, *final(walk), r),
    {
        loop
            invariant
                walk.boundary == old(walk).boundary,
                walk.found == old(walk).found,
                skip_boundary(walk.remain@, walk.boundary) == skip_boundary(
                    old(walk).remain@,
                    old(walk).boundary,
                ),
            decreases walk.remain@.len(),
        {
            let id = match walk.remain.pop() {
                Some(id) => id,
                None => {
                    let mut found: Vec<(Id, Vec<Id>)> = Vec::new();
                    core::mem::swap(&mut walk.found, &mut found);
                    walk.phase = WalkPhase::Done;
                    return Ok(WalkRequest::Finish(found));
                },
            };
            let stop = match &walk.boundary {
                Some(b) => compare_ids(b, &id) == Rank::Equal,
                None => false,
            };
            if !stop {
                proof {
                    if let Some(b) = walk.boundary {
                        if b@ == id@ {
                            lemma_bytes_lt_asymmetric(b@, id@);
                        }
                    }
                }
                let cmd = self.read_commit_cmd(&id);
                walk.phase = WalkPhase::ReadingCommit(id);
                return Ok(WalkRequest::Run(cmd));
            }
        }
    }

    /// Takes the walk of the changeset `changeset` one step further: from
    /// its tip towards its roots, stopping where it is indexed already. Each
    /// commit visited is found with the annotation commits that its tree
    /// holds.
    pub fn walk_cset(&self, changeset: &str, walk: &mut Walk, out: Option<Output>) -> (r: Result<
        WalkRequest,
        Error,
    >)
        ensures
            walk_step(self.root@, changeset@, *old(walk), out, *final(walk), r),
    {
        let phase = walk.phase;
        match (phase, out) {
            (WalkPhase::Idle, None) => {
                let name = ref_remote(changeset);
                walk.phase = WalkPhase::ReadingTip;
                Ok(WalkRequest::Run(self.git_show_ref_cmd(name.as_str())))
            },
            (WalkPhase::ReadingTip, Some(o)) => {
                let from = match Store::git_show_ref(&o)? {
                    Some(id) => id,
                    None => {
                        return Err(err_simple("changeset has no tip"));
                    },
                };
                let name = ref_local(changeset);
                walk.phase = WalkPhase::ReadingBoundary(from);
                Ok(WalkRequest::Run(self.git_show_ref_cmd(name.as_str())))
            },
            (WalkPhase::ReadingBoundary(from), Some(o)) => {
                walk.boundary = Store::git_show_ref(&o)?;
                let mut remain: Vec<Id> = Vec::new();
                remain.push(from);
                walk.remain = remain;
                walk.found = Vec::new();
                let ghost start = *walk;
                assert(walk.remain@ =~= seq![from]);
                assert(walk.found@ =~= Seq::empty());
                let r = self.walks_on(walk);
                assert(walks_on(self.root@, start, seq![from], Seq::empty(), *walk, r));
                r
            },
            (WalkPhase::ReadingCommit(id), Some(o)) => {
                let commit = Store::read_commit(&o)?;
                let cmd = self.read_tree_cmd(&commit.tree);
                walk.parents = commit.parent;
                walk.phase = WalkPhase::ReadingTree(id);
                Ok(WalkRequest::Run(cmd))
            },
            (WalkPhase::ReadingTree(id), Some(o)) => {
                let tree = Store::read_tree(&o)?;
                let ids = commit_ids(&tree);
                walk.found.push((id, ids));
                let mut parents: Vec<Id> = Vec::new();
                core::mem::swap(&mut walk.parents, &mut parents);
                let mut i: usize = 0;
                while i < parents.len()
                    invariant
                        i <= parents@.len(),
                        parents@ == old(walk).parents@,
                        walk.remain@ == old(walk).remain@ + parents@.take(i as int),
                        walk.found@ == old(walk).found@.push((id, ids)),
                        walk.boundary == old(walk).boundary,
                    decreases parents@.len() - i,
                {
                    walk.remain.push(parents[i]);
                    i += 1;
                    assert(parents@.take(i as int) =~= parents@.take(i - 1).push(parents@[i - 1]));
                    assert(walk.remain@ =~= old(walk).remain@ + parents@.take(i as int));
                }
                assert(parents@.take(parents@.len() as int) =~= parents@);
                let ghost mid = *walk;
                let r = self.walks_on(walk);
                proof {
                    assert(skip_boundary(mid.remain@, mid.boundary) == skip_boundary(
                        old(walk).remain@ + old(walk).parents@,
                        old(walk).boundary,
                    ));
                    assert(commits_of(o.stdout@, tree, ids));
                    assert(walks_on(
                        self.root@,
                        *old(walk),
                        old(walk).remain@ + old(walk).parents@,
                        old(walk).found@.push((id, ids)),
                        *walk,
                        r,
                    ));
                }
                r
            },
            _ => Err(err_simple("output does not answer the request")),
        }
    }
}


/// A line without the carriage return at its end, if it has one.
pub open spec fn strip_cr(line: Seq<char>) -> Seq<char> {
    if line.len() > 0 && line.last() == '\r' {
        line.drop_last()
    } else {
        line
    }
}

/// Reads the list of all refs from place `from` on, line by line, into the
/// refs read so far. A line holds the hex text of an id, a space, and the
/// name of the ref, which ends at the next space or at the end of the line.
/// `None` where a line is not of this form.
pub open spec fn scan_refs(text: Seq<char>, from: int, refs: Map<Seq<char>, Seq<u8>>) -> Option<
    Map<Seq<char>, Seq<u8>>,
>
    decreases text.len() - from,
{
    if from < 0 || from >= text.len() {
        Some(refs)
    } else {
        let n = next_char(text, from, '\n');
        let line = strip_cr(text.subrange(from, n));
        let next = if n < text.len() {
            n + 1
        } else {
            text.len() as int
        };
        let sp = next_char(line, 0, ' ');
        let hex = line.take(sp);
        let rest = line.skip(sp + 1);
        let name = rest.take(next_char(rest, 0, ' '));
        if n < from || sp >= line.len() || !is_hex(hex) || hex.len() != 64 {
            None
        } else {
            scan_refs(text, next, refs.insert(name, hex_bytes(hex)))
        }
    }
}

/// The refs of a map, each with the bytes of its id.
pub open spec fn ref_bytes(refs: Map<Seq<char>, Id>) -> Map<Seq<char>, Seq<u8>> {
    refs.map_values(|id: Id| id@)
}

impl Store {
    /// The command that lists all refs.
    pub fn git_show_ref_all_cmd(&self) -> (cmd: Command)
        ensures
            cmd@ == git_call(self.root@, seq!["show-ref"@]),
    {
        self.git(one("show-ref"))
    }

    /// What listing all refs gave: each ref with the id it holds. A command
    /// that failed found no refs.
    pub fn git_show_ref_all(out: &Output) -> (r: Result<StrMap<Id>, Error>)
        ensures
            if !out.success {
                r matches Ok(m) && m@ == Map::<Seq<char>, Id>::empty()
            } else if !valid_utf8(out.stdout@) {
                r matches Err(Error::Format(_))
            } else {
                match scan_refs(decode_utf8(out.stdout@), 0, Map::empty()) {
                    Some(refs) => r matches Ok(m) && ref_bytes(m@) == refs,
                    None => r matches Err(Error::Format(_)),
                }
            },
    {
        let mut res: StrMap<Id> = StrMap::new();
        if !out.success {
            return Ok(res);
        }
        assert(out.stdout@.subrange(0, out.stdout@.len() as int) =~= out.stdout@);
        let text = match utf8_string(bytes_of(out.stdout.as_slice(), 0, out.stdout.len())) {
            Some(t) => t,
            None => {
                return Err(err_format("list of refs is not UTF-8"));
            },
        };
        let chars = chars_of(text.as_str());
        let n = chars.len();
        let mut pos: usize = 0;
        let ghost all = chars@;
        assert(ref_bytes(res@) =~= Map::<Seq<char>, Seq<u8>>::empty());
        while pos < n
            invariant
                all == chars@,
                n == all.len(),
                pos <= n,
                out.success,
                valid_utf8(out.stdout@),
                all == decode_utf8(out.stdout@),
                scan_refs(all, 0, Map::empty()) == scan_refs(all, pos as int, ref_bytes(res@)),
            decreases n - pos,
        {
            let end = find_char(chars.as_slice(), pos, '\n');
            let stop = if end > pos && chars[end - 1] == '\r' { end - 1 } else { end };
            let ghost line = strip_cr(all.subrange(pos as int, end as int));
            assert(all.subrange(pos as int, stop as int) =~= line);
            let mut sp: usize = pos;
            while sp < stop && chars[sp] != ' '
                invariant
                    pos <= sp <= stop <= n,
                    all == chars@,
                    n == all.len(),
                    line == all.subrange(pos as int, stop as int),
                    forall|k: int| 0 <= k < sp - pos ==> line[k] != ' ',
                decreases stop - sp,
            {
                sp += 1;
            }
            proof {
                if sp < stop {
                    assert(crate::text::is_next_char(line, 0, ' ', sp - pos));
                }
                assert(next_char(line, 0, ' ') == sp - pos);
            }
            if sp >= stop {
                return Err(err_format("ref without a name"));
            }
            let hex = string_of(chars.as_slice(), pos, sp);
            assert(hex@ =~= line.take(sp - pos));
            let id = match hex_to_id(hex.as_str()) {
                Some(id) => id,
                None => {
                    return Err(err_format("ref without an id"));
                },
            };
            let ghost rest = line.skip(sp - pos + 1);
            let mut e: usize = sp + 1;
            while e < stop && chars[e] != ' '
                invariant
                    sp + 1 <= e <= stop <= n,
                    pos <= sp,
                    all == chars@,
                    n == all.len(),
                    line == all.subrange(pos as int, stop as int),
                    rest == line.skip(sp - pos + 1),
                    forall|k: int| 0 <= k < e - sp - 1 ==> rest[k] != ' ',
                decreases stop - e,
            {
                e += 1;
            }
            proof {
                if e < stop {
                    assert(crate::text::is_next_char(rest, 0, ' ', e - sp - 1));
                }
                assert(next_char(rest, 0, ' ') == e - sp - 1);
            }
            let name = string_of(chars.as_slice(), sp + 1, e);
            assert(name@ =~= rest.take(e - sp - 1));
            proof {
                let f = |id: Id| id@;
                assert(res@.insert(name@, id).map_values(f) =~= res@.map_values(f).insert(
                    name@,
                    id@,
                ));
            }
            res.insert(name, id);
            pos = if end < n { end + 1 } else { n };
        }
        Ok(res)
    }

    /// The annotation that a commit records, given the metadata that its
    /// message holds: its parents are the commit's parents and its content
    /// id is the commit's tree. With `rendered`, the YAML text of `data` as
    /// it would be saved, the metadata hash is that of the text and the path
    /// of the file is the name in the metadata.
    pub fn read_commit_anno(
        commit: &Commit,
        data: Data,
        rendered: Option<&str>,
        reserved: Vec<String>,
    ) -> (r: Result<Anno, Error>)
        ensures
            decoded(commit.parent@, commit.tree, data, text_of(rendered), texts_of(reserved@), r),
    {
        Anno::decode(commit.parent.as_slice(), &commit.tree, data, rendered, reserved)
    }
}


/// Idempotent commit, step by step: where an annotation is found ready, the
/// commit asks for no import, no commit and no saving, leaves the manifest as
/// it is, and goes on to the next annotation. After the last one, with no
/// commit made, it is over: it made no changeset and set no ref.
pub proof fn lemma_ready_step(
    s0: Store,
    run0: CommitRun,
    m0: Manifest,
    reply: Reply,
    s1: Store,
    run1: CommitRun,
    m1: Manifest,
    r: Result<Request, Error>,
)
    requires
        commit_step(s0, run0, m0, reply, s1, run1, m1, r),
        run0.phase is Probing,
        run0.phase->Probing_0 < m0.anno_map.pairs().len(),
        run0.obj_list@.len() == 0,
        reply is Probed,
        place(
            anno_at(m0, run0.phase->Probing_0 as int).pid@,
            anno_at(m0, run0.phase->Probing_0 as int).fid@,
            anno_at(m0, run0.phase->Probing_0 as int).anno_hash@,
            reply->probe,
            reply->yaml@,
        ) == Placed::Is(St::Ready),
    ensures
        m1.anno_map.pairs() == m0.anno_map.pairs(),
        s1 == s0,
        match r {
            Ok(Request::Probe(j)) => j == run0.phase->Probing_0 + 1 && j < m0.anno_map.pairs().len()
                && run1.obj_list@.len() == 0,
            Ok(Request::Finish(res)) => run0.phase->Probing_0 + 1 == m0.anno_map.pairs().len()
                && res.obj_list@.len() == 0 && res.oid is None,
            _ => false,
        },
{
}

/// The commit that records an annotation: its parents are those of the
/// annotation, its tree is the content id, its message is the metadata, and
/// it is dated with the time and zone of the run, whatever the metadata
/// hold. The run then waits for that commit with the metadata at hand.
pub proof fn lemma_recorded_commit(
    s0: Store,
    run0: CommitRun,
    m0: Manifest,
    reply: Reply,
    s1: Store,
    run1: CommitRun,
    m1: Manifest,
    r: Result<Request, Error>,
)
    requires
        commit_step(s0, run0, m0, reply, s1, run1, m1, r),
        run0.phase is Rendering,
        run0.phase->Rendering_0 < m0.anno_map.pairs().len(),
        reply is Rendered,
        encode_utf8(reply->Rendered_0@).len() < HASH_LIMIT,
    ensures
        m1 == m0,
        r matches Ok(Request::Run(cmd)) && cmd@ == commit_tree_call(
            s0.root@,
            s0.zone@,
            anno_at(m0, run0.phase->Rendering_0 as int).pid@,
            anno_at(m0, run0.phase->Rendering_0 as int).fid@,
            s0.date as nat,
            spec_commit_message(reply->Rendered_0@),
        ) && cmd@.env[1] == ("GIT_AUTHOR_DATE"@, date_text(s0.date as nat, s0.zone@)) && cmd@.env[2]
            == ("GIT_COMMITTER_DATE"@, date_text(s0.date as nat, s0.zone@)),
        run1.phase == Phase::Recording(run0.phase->Rendering_0),
        run1.yaml@ == reply->Rendered_0@,
{
}

/// Saving after the commit of an annotation: the commit is the one parent
/// of the annotation, the metadata hash is that of the metadata that the
/// commit records, and the sidecars that are to be written hold just that.
pub proof fn lemma_saved_commit(
    s0: Store,
    run0: CommitRun,
    m0: Manifest,
    reply: Reply,
    s1: Store,
    run1: CommitRun,
    m1: Manifest,
    r: Result<Request, Error>,
)
    requires
        commit_step(s0, run0, m0, reply, s1, run1, m1, r),
        run0.phase is Recording,
        run0.phase->Recording_0 < m0.anno_map.pairs().len(),
        reply is Ran,
        reply->Ran_0.success,
        output_id(reply->Ran_0.stdout@) is Some,
        encode_utf8(run0.yaml@).len() < HASH_LIMIT,
    ensures
        ({
            let i = run0.phase->Recording_0 as int;
            let commit = output_id(reply->Ran_0.stdout@)->0;
            let a0 = anno_at(m0, i);
            let a1 = anno_at(m1, i);
            &&& r matches Ok(Request::Save { at, meta, yaml })
            &&& at == i
            &&& yaml@ == run0.yaml@
            &&& meta@ == spec_meta_text(ids_of(a1.pid@), a1.fid@, a1.anno_hash@)
            &&& a1.pid@.len() == 1
            &&& a1.pid@[0]@ == commit
            &&& a1.anno_hash@ == yaml_hash(run0.yaml@)
            &&& a1.fid == a0.fid
            &&& a1.data == a0.data
            &&& run1.obj_list@ == run0.obj_list@.push(a1.pid@[0])
        }),
{
    let i = run0.phase->Recording_0 as int;
    let a1 = anno_at(m1, i);
    assert(ids_of(a1.pid@) =~= seq![output_id(reply->Ran_0.stdout@)->0]);
    assert(run1.obj_list@ =~= run1.obj_list@.drop_last().push(run1.obj_list@.last()));
}

/// A commit of a manifest begins with its first annotation; that of an
/// empty manifest is over at once and made nothing.
pub proof fn lemma_begin_step(
    s0: Store,
    run0: CommitRun,
    m0: Manifest,
    reply: Reply,
    s1: Store,
    run1: CommitRun,
    m1: Manifest,
    r: Result<Request, Error>,
)
    requires
        commit_step(s0, run0, m0, reply, s1, run1, m1, r),
        run0.phase is Idle,
        reply is Begin,
    ensures
        m1 == m0,
        match r {
            Ok(Request::Probe(j)) => j == 0 && m0.anno_map.pairs().len() > 0 && run1.obj_list@.len()
                == 0,
            Ok(Request::Finish(res)) => m0.anno_map.pairs().len() == 0 && res.obj_list@.len() == 0
                && res.oid is None,
            _ => false,
        },
{
}

/// The names in the tree of a changeset tell its commits apart: where no
/// two of the commits are the same, no two of them get the same name.
pub proof fn lemma_names_tell_apart(ids: Seq<Id>, len: int, i: int, j: int)
    requires
        is_min_uniq(ids, len),
        distinct_ids(ids),
        0 <= j < i < ids.len(),
    ensures
        ids[i]@.take(len) != ids[j]@.take(len),
{
    if !unique_prefix(ids, len) {
        assert forall|a: int, b: int| 0 <= b < a < ids.len() implies (#[trigger] ids[a])@.take(32) != (
        #[trigger] ids[b])@.take(32) by {
            assert(ids[a]@.take(32) =~= ids[a]@);
            assert(ids[b]@.take(32) =~= ids[b]@);
        }
        assert(unique_prefix(ids, 32));
    }
}


/// A commit of a manifest in which every annotation is found ready, as the
/// states it goes through and what is asked and answered at each step: it
/// begins idle, each step leads from one state to the next, and after the
/// first step each answer is what was found of the annotation that was
/// asked about, which is found ready.
pub open spec fn ready_run(
    stores: Seq<Store>,
    runs: Seq<CommitRun>,
    manifests: Seq<Manifest>,
    replies: Seq<Reply>,
    results: Seq<Result<Request, Error>>,
) -> bool {
    let n = manifests[0].anno_map.pairs().len();
    &&& stores.len() == n + 2
    &&& runs.len() == n + 2
    &&& manifests.len() == n + 2
    &&& replies.len() == n + 1
    &&& results.len() == n + 1
    &&& runs[0].phase is Idle
    &&& replies[0] is Begin
    &&& forall|k: int|
        0 <= k <= n ==> #[trigger] commit_step(
            stores[k],
            runs[k],
            manifests[k],
            replies[k],
            stores[k + 1],
            runs[k + 1],
            manifests[k + 1],
            results[k],
        )
    &&& forall|k: int|
        1 <= k <= n ==> (#[trigger] replies[k]) is Probed && place(
            anno_at(manifests[k], k - 1).pid@,
            anno_at(manifests[k], k - 1).fid@,
            anno_at(manifests[k], k - 1).anno_hash@,
            replies[k]->probe,
            replies[k]->yaml@,
        ) == Placed::Is(St::Ready)
}

/// The request is to look at the annotation at place `k`.
pub open spec fn asks_to_look(r: Result<Request, Error>, k: int) -> bool {
    r matches Ok(Request::Probe(j)) && j == k
}

proof fn lemma_ready_run_upto(
    stores: Seq<Store>,
    runs: Seq<CommitRun>,
    manifests: Seq<Manifest>,
    replies: Seq<Reply>,
    results: Seq<Result<Request, Error>>,
    k: int,
)
    requires
        ready_run(stores, runs, manifests, replies, results),
        0 <= k <= manifests[0].anno_map.pairs().len(),
    ensures
        manifests[k + 1].anno_map.pairs() == manifests[0].anno_map.pairs(),
        k < manifests[0].anno_map.pairs().len() ==> {
            &&& results[k] matches Ok(Request::Probe(j))
            &&& j == k
            &&& runs[k + 1].phase matches Phase::Probing(at)
            &&& at == k
            &&& runs[k + 1].obj_list@.len() == 0
        },
        k == manifests[0].anno_map.pairs().len() ==> {
            &&& results[k] matches Ok(Request::Finish(res))
            &&& res.obj_list@.len() == 0
            &&& res.oid is None
        },
    decreases k,
{
    let n = manifests[0].anno_map.pairs().len() as int;
    assert(commit_step(
        stores[k],
        runs[k],
        manifests[k],
        replies[k],
        stores[k + 1],
        runs[k + 1],
        manifests[k + 1],
        results[k],
    ));
    if k == 0 {
        lemma_begin_step(
            stores[0],
            runs[0],
            manifests[0],
            replies[0],
            stores[1],
            runs[1],
            manifests[1],
            results[0],
        );
    } else {
        lemma_ready_run_upto(stores, runs, manifests, replies, results, k - 1);
        assert(replies[k] is Probed);
        lemma_ready_step(
            stores[k],
            runs[k],
            manifests[k],
            replies[k],
            stores[k + 1],
            runs[k + 1],
            manifests[k + 1],
            results[k],
        );
    }
}

/// Idempotent commit: a commit of a manifest in which every annotation is
/// found ready asks to look at each annotation in turn and for nothing else:
/// no import, no commit and no saving, no tree and no ref. It leaves the
/// manifest as it is, and ends without a changeset.
pub proof fn lemma_ready_run(
    stores: Seq<Store>,
    runs: Seq<CommitRun>,
    manifests: Seq<Manifest>,
    replies: Seq<Reply>,
    results: Seq<Result<Request, Error>>,
)
    requires
        ready_run(stores, runs, manifests, replies, results),
    ensures
        forall|k: int|
            0 <= k < manifests[0].anno_map.pairs().len() ==> asks_to_look(#[trigger] results[k], k),
        results[manifests[0].anno_map.pairs().len() as int] matches Ok(Request::Finish(res))
            && res.obj_list@.len() == 0 && res.oid is None,
        forall|k: int|
            0 <= k <= manifests[0].anno_map.pairs().len() + 1 ==> (
            #[trigger] manifests[k]).anno_map.pairs() == manifests[0].anno_map.pairs(),
{
    let n = manifests[0].anno_map.pairs().len() as int;
    assert forall|k: int| 0 <= k < n implies asks_to_look(#[trigger] results[k], k) by {
        lemma_ready_run_upto(stores, runs, manifests, replies, results, k);
    }
    lemma_ready_run_upto(stores, runs, manifests, replies, results, n);
    assert forall|k: int| 0 <= k <= n + 1 implies (#[trigger] manifests[k]).anno_map.pairs()
        == manifests[0].anno_map.pairs() by {
        if k > 0 {
            lemma_ready_run_upto(stores, runs, manifests, replies, results, k - 1);
        }
    }
}

} // verus!
