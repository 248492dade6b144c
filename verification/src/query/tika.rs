//! What the document parser gives.

use encoding::Encoding;
use vstd::prelude::*;
use crate::json::{member_text, text_of_member, Json};

verus! {

/// A text that was read as Latin-1 although it was written in GB18030, read
/// again as it was meant; `None` for a text that is no Latin-1 or whose
/// bytes are no GB18030.
pub uninterp spec fn latin1_as_gb18030(s: Seq<char>) -> Option<Seq<char>>;

/// Reads a text again that was read as Latin-1 although it was written in
/// GB18030.
///
/// Trusted: the body writes the text in Latin-1 with `ISO_8859_1.encode` and
/// reads the bytes with `GB18030.decode`, both strict, and gives `None` where
/// either fails. What comes back depends on the text alone and is named
/// `latin1_as_gb18030`.
#[verifier::external_body]
fn try_fix_mp3(s: &str) -> (r: Option<String>)
    ensures
        match r {
            Some(t) => latin1_as_gb18030(s@) == Some(t@),
            None => latin1_as_gb18030(s@) is None,
        },
{
    match encoding::all::ISO_8859_1.encode(s, encoding::EncoderTrap::Strict).map(
        |b| encoding::all::GB18030.decode(&b, encoding::DecoderTrap::Strict),
    ) {
        Ok(Ok(s1)) => Some(s1),
        _ => None,
    }
}

/// `b` is the member `a` of what was found of a sound file, with its text
/// read again where that can be done.
pub open spec fn member_fixed(a: (String, Json), b: (String, Json)) -> bool {
    &&& b.0@ == a.0@
    &&& match a.1 {
        Json::Text(s) => match latin1_as_gb18030(s@) {
            Some(t) => b.1 matches Json::Text(u) && u@ == t,
            None => b.1 == a.1,
        },
        _ => b.1 == a.1,
    }
}

/// `out` is what is kept of what the document parser found: of the first
/// document only, what was found; and where that is a sound file of the kind
/// `audio/mpeg`, with each text read again as GB18030 where that can be done.
pub open spec fn tika_kept(found: Seq<Vec<(String, Json)>>, out: Seq<Vec<(String, Json)>>) -> bool {
    if found.len() == 0 {
        out.len() == 0
    } else {
        &&& out.len() == 1
        &&& if member_text(found[0]@, "Content-Type"@) == "audio/mpeg"@ {
            &&& out[0]@.len() == found[0]@.len()
            &&& forall|i: int|
                0 <= i < found[0]@.len() ==> member_fixed(#[trigger] found[0]@[i], out[0]@[i])
        } else {
            out[0] == found[0]
        }
    }
}

/// Keeps of what the document parser found what is indexed: the first
/// document, which stands for the file itself.
pub fn tika_res(found: Vec<Vec<(String, Json)>>) -> (out: Vec<Vec<(String, Json)>>)
    ensures
        tika_kept(found@, out@),
{
    let ghost all = found@;
    let mut rest = found;
    let mut out: Vec<Vec<(String, Json)>> = Vec::new();
    if rest.len() == 0 {
        return out;
    }
    let first = rest.swap_remove(0);
    assert(first == all[0]);
    let kind = text_of_member(&first, "Content-Type");
    if crate::strmap::compare_keys(kind.as_str(), "audio/mpeg") == crate::strmap::Rank::Equal {
        let ghost members = first@;
        let mut fixed: Vec<(String, Json)> = Vec::new();
        for m in it: first
            invariant
                members == it.seq(),
                fixed@.len() == it.index(),
                forall|i: int| 0 <= i < fixed@.len() ==> member_fixed(#[trigger] members[i], fixed@[i]),
        {
            let (k, v) = m;
            let v1 = match v {
                Json::Text(s) => match try_fix_mp3(s.as_str()) {
                    Some(t) => Json::Text(t),
                    None => Json::Text(s),
                },
                other => other,
            };
            fixed.push((k, v1));
        }
        out.push(fixed);
    } else {
        out.push(first);
    }
    out
}

} // verus!
