//! The annotations found under one directory, by the path of their file.

use vstd::prelude::*;
use crate::error::Error;
use crate::proj::anno::Anno;
use crate::strmap::StrMap;
use crate::text::{chars_of, string_of};

verus! {

/// The end of the name of the sidecar that marks an annotation.
pub open spec fn meta_suffix() -> Seq<char> {
    seq!['.', 'm', 'e', 't', 'a']
}

/// The path of the tracked file that a sidecar of the name `path` belongs
/// to: the name without `.meta` at its end. `None` for another name.
pub open spec fn spec_sidecar_rpath(path: Seq<char>) -> Option<Seq<char>> {
    if path.len() >= 5 && path.skip(path.len() - 5) == meta_suffix() {
        Some(path.take(path.len() - 5))
    } else {
        None
    }
}

/// The path of the tracked file that a sidecar belongs to.
pub fn sidecar_rpath(path: &str) -> (r: Option<String>)
    ensures
        match r {
            Some(s) => spec_sidecar_rpath(path@) == Some(s@),
            None => spec_sidecar_rpath(path@) is None,
        },
{
    let chars = chars_of(path);
    let n = chars.len();
    if n < 5 {
        return None;
    }
    let ghost tail = path@.skip(n - 5);
    if chars[n - 5] == '.' && chars[n - 4] == 'm' && chars[n - 3] == 'e' && chars[n - 2] == 't'
        && chars[n - 1] == 'a' {
        assert(tail =~= meta_suffix());
        Some(string_of(chars.as_slice(), 0, n - 5))
    } else {
        assert(tail[0] == chars@[n - 5]);
        assert(tail[1] == chars@[n - 4]);
        assert(tail[2] == chars@[n - 3]);
        assert(tail[3] == chars@[n - 2]);
        assert(tail[4] == chars@[n - 1]);
        None
    }
}

/// The annotations that were loaded, of a list of paths each with what
/// loading its annotation gave: a path whose annotation failed to load is
/// passed over, and of two entries with one path the later stays.
pub open spec fn loaded_map(found: Seq<(String, Result<Anno, Error>)>) -> Map<Seq<char>, Anno>
    decreases found.len(),
{
    if found.len() == 0 {
        Map::empty()
    } else {
        let before = loaded_map(found.drop_last());
        match found.last().1 {
            Ok(anno) => before.insert(found.last().0@, anno),
            Err(_) => before,
        }
    }
}

/// The annotations found under one directory, by the path of their file, in
/// the order of the paths.
#[derive(Debug)]
pub struct Manifest {
    /// The directory that holds the sidecar files.
    pub mdir: String,
    /// The annotations by the path of their file.
    pub anno_map: StrMap<Anno>,
}

impl Manifest {
    /// The manifest of the directory `mdir`, made of what loading each
    /// annotation found there gave. An annotation that failed to load is left
    /// out; the others stay.
    pub fn new(mdir: &str, found: Vec<(String, Result<Anno, Error>)>) -> (m: Manifest)
        ensures
            m.mdir@ == mdir@,
            m.anno_map@ == loaded_map(found@),
    {
        let mut anno_map: StrMap<Anno> = StrMap::new();
        let ghost all = found@;
        for entry in it: found
            invariant
                all == it.seq(),
                anno_map@ == loaded_map(all.take(it.index() as int)),
        {
            let ghost i = it.index() as int;
            proof {
                assert(all.take(i + 1).drop_last() =~= all.take(i));
                assert(all.take(i + 1).last() == entry);
            }
            let (path, loaded) = entry;
            match loaded {
                Ok(anno) => {
                    anno_map.insert(path, anno);
                },
                Err(_) => {},
            }
        }
        assert(all.take(all.len() as int) =~= all);
        Manifest { mdir: mdir.to_owned(), anno_map }
    }

    /// Puts an annotation under the path of its file, in place of the one
    /// that may be there, and hands back the path.
    pub fn add(&mut self, rpath: &str, anno: Anno) -> (name: String)
        ensures
            name@ == rpath@,
            final(self).anno_map@ == old(self).anno_map@.insert(rpath@, anno),
            final(self).mdir == old(self).mdir,
    {
        self.anno_map.insert(rpath.to_owned(), anno);
        rpath.to_owned()
    }

    /// The number of annotations.
    pub fn len(&self) -> (n: usize)
        ensures
            n == self.anno_map.pairs().len(),
    {
        self.anno_map.len()
    }
}

} // verus!
