//! What is written into the index for an annotation and for a file.

use vstd::prelude::*;
use crate::json::{find_member, member_place, member_text, text_of_member, Json};
use crate::text::{chars_of, push_char, push_str, range_starts_with, starts_with, string_of};
use crate::util::Id;

verus! {

/// The key of the name of the file in an annotation.
pub const ANNO_NAME: &'static str = "name";

/// The key of the notes in an annotation.
pub const ANNO_NOTE: &'static str = "note";

/// The key of the text that the document parser found.
pub const TIKA_CONTENT: &'static str = "X-TIKA:content";

/// The key of the kind of content that the document parser found.
pub const CONTENT_TYPE: &'static str = "Content-Type";

/// The bytes of an id.
pub fn id2ref(id: &Id) -> (r: &[u8])
    ensures
        r@ == id@,
{
    id.as_slice()
}

/// The lines that notes add to the name of a file: one line for each note, a
/// note that is no text giving an empty line.
pub open spec fn note_lines(notes: Seq<Json>) -> Seq<char>
    decreases notes.len(),
{
    if notes.len() == 0 {
        Seq::empty()
    } else {
        note_lines(notes.drop_last()) + seq!['\n'] + match notes.last() {
            Json::Text(s) => s@,
            _ => Seq::<char>::empty(),
        }
    }
}

/// The text that is indexed for an annotation: the name of the file, and
/// after it the note, or each note of a list of notes, on lines of their own.
pub open spec fn spec_anno_doc(members: Seq<(String, Json)>) -> Seq<char> {
    let name = member_text(members, "name"@);
    let i = member_place(members, "note"@);
    if i < members.len() {
        match members[i].1 {
            Json::Array(notes) => name + note_lines(notes@),
            Json::Text(s) => name + seq!['\n'] + s@,
            _ => name,
        }
    } else {
        name
    }
}

/// Takes the notes out of the metadata of an annotation and hands back the
/// text that is indexed for it.
pub fn anno_doc(members: &mut Vec<(String, Json)>) -> (doc: String)
    ensures
        doc@ == spec_anno_doc(old(members)@),
        final(members)@ == if member_place(old(members)@, "note"@) < old(members)@.len() {
            old(members)@.remove(member_place(old(members)@, "note"@))
        } else {
            old(members)@
        },
{
    let mut doc = text_of_member(members, "name");
    let i = find_member(members, "note");
    if i < members.len() {
        let (_, note) = members.remove(i);
        match note {
            Json::Array(notes) => {
                let ghost name = doc@;
                let mut k: usize = 0;
                assert(notes@.take(0) =~= Seq::<Json>::empty());
                while k < notes.len()
                    invariant
                        k <= notes@.len(),
                        doc@ == name + note_lines(notes@.take(k as int)),
                    decreases notes@.len() - k,
                {
                    proof {
                        assert(notes@.take(k + 1).drop_last() =~= notes@.take(k as int));
                        assert(notes@.take(k + 1).last() == notes@[k as int]);
                    }
                    push_char(&mut doc, '\n');
                    match &notes[k] {
                        Json::Text(s) => {
                            push_str(&mut doc, s.as_str());
                        },
                        _ => {},
                    }
                    k += 1;
                    assert(doc@ =~= name + note_lines(notes@.take(k as int)));
                }
                assert(notes@.take(notes@.len() as int) =~= notes@);
            },
            Json::Text(s) => {
                push_char(&mut doc, '\n');
                push_str(&mut doc, s.as_str());
            },
            _ => {},
        }
    }
    doc
}

/// What the document parser found of a file: the kind of its content, and
/// its text where there is one.
pub struct FileDoc {
    pub content_type: String,
    pub content: Option<String>,
}

/// Takes the text out of what the document parser found of a file and hands
/// it back with the kind of content. The member of the text is taken out
/// whatever it holds; only a text is handed back.
pub fn file_doc(members: &mut Vec<(String, Json)>) -> (doc: FileDoc)
    ensures
        doc.content_type@ == member_text(old(members)@, "Content-Type"@),
        ({
            let i = member_place(old(members)@, "X-TIKA:content"@);
            if i < old(members)@.len() {
                &&& final(members)@ == old(members)@.remove(i)
                &&& match old(members)@[i].1 {
                    Json::Text(s) => doc.content matches Some(c) && c@ == s@,
                    _ => doc.content is None,
                }
            } else {
                final(members)@ == old(members)@ && doc.content is None
            }
        }),
{
    let content_type = text_of_member(members, "Content-Type");
    let i = find_member(members, "X-TIKA:content");
    let content = if i < members.len() {
        let (_, v) = members.remove(i);
        match v {
            Json::Text(s) => Some(s),
            _ => None,
        }
    } else {
        None
    };
    FileDoc { content_type, content }
}

/// What a walk found, the oldest first.
pub fn index_order(found: Vec<(Id, Vec<Id>)>) -> (r: Vec<(Id, Vec<Id>)>)
    ensures
        r@ == found@.reverse(),
{
    let ghost all = found@;
    let mut rest = found;
    let mut r: Vec<(Id, Vec<Id>)> = Vec::new();
    while rest.len() > 0
        invariant
            rest@.len() <= all.len(),
            rest@ == all.take(rest@.len() as int),
            r@ == all.skip(rest@.len() as int).reverse(),
        decreases rest@.len(),
    {
        let ghost n = rest@.len() as int;
        let x = rest.pop().unwrap();
        r.push(x);
        assert(rest@ =~= all.take(n - 1));
        assert(r@ =~= all.skip(n - 1).reverse());
    }
    assert(all.skip(0) =~= all);
    r
}

/// The beginning of the name of the ref of a changeset's tip.
pub open spec fn remote_head() -> Seq<char> {
    seq!['r', 'e', 'f', 's', '/', 'r', 'e', 'm', 'o', 't', 'e', 's', '/']
}

/// The end of the name of the ref of a changeset's tip.
pub open spec fn remote_tail() -> Seq<char> {
    seq!['/', 'l', 'o', 'c', 'a', 'l', 'h', 'o', 's', 't']
}

/// The changeset whose tip a ref holds: the name between `refs/remotes/`
/// and `/localhost`. `None` for a ref of another name.
pub open spec fn spec_changeset_of_ref(name: Seq<char>) -> Option<Seq<char>> {
    if starts_with(name, remote_head()) && name.len() >= 23 && name.skip(name.len() - 10)
        == remote_tail() {
        Some(name.subrange(13, name.len() - 10))
    } else {
        None
    }
}

/// The changeset whose tip a ref holds.
pub fn changeset_of_ref(name: &str) -> (r: Option<String>)
    ensures
        match r {
            Some(c) => spec_changeset_of_ref(name@) == Some(c@),
            None => spec_changeset_of_ref(name@) is None,
        },
{
    let chars = chars_of(name);
    let n = chars.len();
    let head: [char; 13] = ['r', 'e', 'f', 's', '/', 'r', 'e', 'm', 'o', 't', 'e', 's', '/'];
    let tail: [char; 10] = ['/', 'l', 'o', 'c', 'a', 'l', 'h', 'o', 's', 't'];
    assert(head@ =~= remote_head());
    assert(tail@ =~= remote_tail());
    assert(chars@.subrange(0, n as int) =~= chars@);
    if n < 23 {
        return None;
    }
    assert(chars@.subrange(n - 10, n as int) =~= name@.skip(n - 10));
    if !range_starts_with(chars.as_slice(), 0, n, head.as_slice()) {
        return None;
    }
    if !range_starts_with(chars.as_slice(), n - 10, n, tail.as_slice()) {
        assert(name@.skip(n - 10).take(10) =~= name@.skip(n - 10));
        return None;
    }
    assert(name@.skip(n - 10).take(10) =~= name@.skip(n - 10));
    Some(string_of(chars.as_slice(), 13, n - 10))
}

} // verus!
