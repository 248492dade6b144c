//! JSON values as the index stores them.

use vstd::prelude::*;
use crate::strmap::{compare_keys, Rank};
use crate::text::{chars_of, push_char};

verus! {

/// A JSON value. A number is held as the text that writes it.
#[derive(Debug)]
pub enum Json {
    Null,
    Bool(bool),
    Number(String),
    Text(String),
    Array(Vec<Json>),
    /// An object, as its members in order.
    Object(Vec<(String, Json)>),
}

/// `t` is what `f` makes of the text `s`.
pub open spec fn text_mapped<F: Fn(&str) -> String>(f: F, s: Seq<char>, t: String) -> bool {
    exists|x: &str| x@ == s && #[trigger] f.ensures((x,), t)
}

/// `b` is `a` with `f` applied to each text in it, at any depth. Names of
/// members, numbers and all else stay as they are.
pub open spec fn str_mapped<F: Fn(&str) -> String>(f: F, a: Json, b: Json) -> bool
    decreases a,
{
    match a {
        Json::Null => b is Null,
        Json::Bool(x) => b matches Json::Bool(y) && x == y,
        Json::Number(x) => b matches Json::Number(y) && x@ == y@,
        Json::Text(s) => b matches Json::Text(t) && text_mapped(f, s@, t),
        Json::Array(xs) => b matches Json::Array(ys) && xs@.len() == ys@.len() && forall|i: int|
            0 <= i < xs@.len() ==> str_mapped(f, #[trigger] xs@[i], ys@[i]),
        Json::Object(xs) => b matches Json::Object(ys) && xs@.len() == ys@.len() && forall|i: int|
            0 <= i < xs@.len() ==> (#[trigger] xs@[i]).0@ == ys@[i].0@ && str_mapped(
                f,
                xs@[i].1,
                ys@[i].1,
            ),
    }
}

/// Applies `f` to each text in a JSON value, at any depth.
pub fn json_do_map_str<F: Fn(&str) -> String>(v: Json, f: &F) -> (r: Json)
    requires
        forall|s: &str| #[trigger] f.requires((s,)),
    ensures
        str_mapped(*f, v, r),
    decreases v,
{
    let ghost v0 = v;
    match v {
        Json::Null => Json::Null,
        Json::Bool(x) => Json::Bool(x),
        Json::Number(x) => Json::Number(x),
        Json::Text(s) => {
            let x = s.as_str();
            let t = f(x);
            assert(x@ == s@ && (*f).ensures((x,), t));
            let r = Json::Text(t);
            assert(text_mapped(*f, s@, t));
            assert(str_mapped(*f, v0, r));
            r
        },
        Json::Array(xs) => {
            let ghost xs0 = xs;
            let ghost all = xs@;
            let mut ys: Vec<Json> = Vec::new();
            for x in it: xs
                invariant
                    all == it.seq(),
                    all == xs0@,
                    v0 == Json::Array(xs0),
                    v0 == v,
                    forall|s: &str| #[trigger] f.requires((s,)),
                    ys@.len() == it.index(),
                    forall|i: int| 0 <= i < ys@.len() ==> str_mapped(*f, #[trigger] all[i], ys@[i]),
            {
                proof {
                    vstd::std_specs::vec::axiom_vec_index_decreases(xs0, it.index() as int);
                    assert(x == xs0@[it.index() as int]);
                    assert(v0 is Array && v0->Array_0 == xs0);
                }
                let y = json_do_map_str(x, f);
                ys.push(y);
            }
            assert(ys@.len() == all.len());
            let r = Json::Array(ys);
            assert(str_mapped(*f, v0, r)) by {
                assert(v0->Array_0@ == all);
                assert(r->Array_0@ == ys@);
            }
            r
        },
        Json::Object(xs) => {
            let ghost xs0 = xs;
            let ghost all = xs@;
            let mut ys: Vec<(String, Json)> = Vec::new();
            for x in it: xs
                invariant
                    all == it.seq(),
                    all == xs0@,
                    v0 == Json::Object(xs0),
                    v0 == v,
                    forall|s: &str| #[trigger] f.requires((s,)),
                    ys@.len() == it.index(),
                    forall|i: int|
                        0 <= i < ys@.len() ==> (#[trigger] all[i]).0@ == ys@[i].0@ && str_mapped(
                            *f,
                            all[i].1,
                            ys@[i].1,
                        ),
            {
                proof {
                    vstd::std_specs::vec::axiom_vec_index_decreases(xs0, it.index() as int);
                    assert(x == xs0@[it.index() as int]);
                    assert(v0 is Object && v0->Object_0 == xs0);
                }
                let (k, x1) = x;
                let y = json_do_map_str(x1, f);
                ys.push((k, y));
            }
            assert(ys@.len() == all.len());
            let r = Json::Object(ys);
            assert(str_mapped(*f, v0, r)) by {
                assert(v0->Object_0@ == all);
                assert(r->Object_0@ == ys@);
            }
            r
        },
    }
}


/// `i` is the place of the first member with the name `key`.
pub open spec fn is_member(members: Seq<(String, Json)>, key: Seq<char>, i: int) -> bool {
    &&& 0 <= i < members.len()
    &&& members[i].0@ == key
    &&& forall|k: int| 0 <= k < i ==> (#[trigger] members[k]).0@ != key
}

/// The place of the first member with the name `key`, or the number of
/// members where there is none.
pub open spec fn member_place(members: Seq<(String, Json)>, key: Seq<char>) -> int {
    if exists|i: int| is_member(members, key, i) {
        choose|i: int| is_member(members, key, i)
    } else {
        members.len() as int
    }
}

/// Looks for the first member with the name `key`.
pub fn find_member(members: &Vec<(String, Json)>, key: &str) -> (i: usize)
    ensures
        i == member_place(members@, key@),
        i <= members@.len(),
        i < members@.len() ==> members@[i as int].0@ == key@,
{
    let mut i: usize = 0;
    while i < members.len()
        invariant
            i <= members@.len(),
            forall|k: int| 0 <= k < i ==> (#[trigger] members@[k]).0@ != key@,
        decreases members@.len() - i,
    {
        if compare_keys(members[i].0.as_str(), key) == Rank::Equal {
            assert(is_member(members@, key@, i as int));
            return i;
        }
        i += 1;
    }
    i
}

/// The text of a member: what the first member with the name `key` holds
/// where that is a text, and the empty text else.
pub open spec fn member_text(members: Seq<(String, Json)>, key: Seq<char>) -> Seq<char> {
    let i = member_place(members, key);
    if i < members.len() {
        match members[i].1 {
            Json::Text(s) => s@,
            _ => Seq::empty(),
        }
    } else {
        Seq::empty()
    }
}

/// The text of a member, or the empty text.
pub fn text_of_member(members: &Vec<(String, Json)>, key: &str) -> (t: String)
    ensures
        t@ == member_text(members@, key@),
{
    let i = find_member(members, key);
    if i < members.len() {
        match &members[i].1 {
            Json::Text(s) => s.clone(),
            _ => String::new(),
        }
    } else {
        String::new()
    }
}

/// A text without its zero characters.
pub open spec fn spec_without_nul(s: Seq<char>) -> Seq<char> {
    s.filter(|c: char| c != '\0')
}

/// A text without its zero characters.
pub fn without_nul(s: &str) -> (r: String)
    ensures
        r@ == spec_without_nul(s@),
{
    let chars = chars_of(s);
    let mut r = String::new();
    let mut i: usize = 0;
    proof {
        reveal(Seq::filter);
        assert(chars@.take(0) =~= Seq::<char>::empty());
    }
    while i < chars.len()
        invariant
            i <= chars@.len(),
            chars@ == s@,
            r@ == spec_without_nul(chars@.take(i as int)),
        decreases chars@.len() - i,
    {
        proof {
            reveal(Seq::filter);
            assert(chars@.take(i + 1).drop_last() =~= chars@.take(i as int));
            assert(chars@.take(i + 1).last() == chars@[i as int]);
        }
        if chars[i] != '\0' {
            push_char(&mut r, chars[i]);
        }
        i += 1;
    }
    assert(chars@.take(chars@.len() as int) =~= chars@);
    r
}

} // verus!
