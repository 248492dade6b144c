//! Search patterns and the statements that look them up.

use vstd::prelude::*;
use crate::text::{chars_of, push_char, push_decimal, push_str, string_of};

verus! {

/// One search pattern.
#[derive(Debug, Clone)]
pub enum Search {
    /// A tag that has to be there (`true`) or must not be there (`false`).
    Tag(String, bool),
    /// A key and a value of the metadata, each with whether it holds a wild
    /// card and so has to be matched rather than compared.
    Attr(String, bool, String, bool),
    /// Words to find in the text.
    Fts(String),
}

/// A search pattern as plain text.
pub enum Pattern {
    Tag(Seq<char>, bool),
    Attr(Seq<char>, bool, Seq<char>, bool),
    Fts(Seq<char>),
}

impl View for Search {
    type V = Pattern;

    open spec fn view(&self) -> Pattern {
        match self {
            Search::Tag(x, b) => Pattern::Tag(x@, *b),
            Search::Attr(k, b0, v, b1) => Pattern::Attr(k@, *b0, v@, *b1),
            Search::Fts(x) => Pattern::Fts(x@),
        }
    }
}

/// Whether a text holds a wild card: `_` or `%`.
pub open spec fn need_match(x: Seq<char>) -> bool {
    x.contains('_') || x.contains('%')
}

/// `p` is the last place of `c` in `s`.
pub open spec fn is_last(s: Seq<char>, c: char, p: int) -> bool {
    &&& 0 <= p < s.len()
    &&& s[p] == c
    &&& forall|i: int| p < i < s.len() ==> s[i] != c
}

/// What a word of a query asks for: a leading `+` or `-` asks for a tag to
/// be there or not; else the last `:` parts a key from a value; else the word
/// is looked for in the text.
pub open spec fn pattern_of(s: Seq<char>) -> Pattern {
    if s.len() > 0 && s[0] == '+' {
        Pattern::Tag(s.skip(1), true)
    } else if s.len() > 0 && s[0] == '-' {
        Pattern::Tag(s.skip(1), false)
    } else if exists|p: int| is_last(s, ':', p) {
        let p = choose|p: int| is_last(s, ':', p);
        Pattern::Attr(s.take(p), need_match(s.take(p)), s.skip(p + 1), need_match(s.skip(p + 1)))
    } else {
        Pattern::Fts(s)
    }
}

fn range_needs_match(chars: &[char], from: usize, to: usize) -> (b: bool)
    requires
        from <= to <= chars@.len(),
    ensures
        b == need_match(chars@.subrange(from as int, to as int)),
{
    let ghost s = chars@.subrange(from as int, to as int);
    let mut i: usize = from;
    while i < to
        invariant
            from <= i <= to <= chars@.len(),
            s == chars@.subrange(from as int, to as int),
            forall|k: int| 0 <= k < i - from ==> s[k] != '_' && s[k] != '%',
        decreases to - i,
    {
        if chars[i] == '_' || chars[i] == '%' {
            assert(s[i - from] == chars@[i as int]);
            return true;
        }
        i += 1;
    }
    false
}

/// Reads one word of a query.
pub fn to_search(s: &str) -> (r: Search)
    ensures
        r@ == pattern_of(s@),
{
    let chars = chars_of(s);
    let n = chars.len();
    if n > 0 && chars[0] == '+' {
        return Search::Tag(string_of(chars.as_slice(), 1, n), true);
    }
    if n > 0 && chars[0] == '-' {
        return Search::Tag(string_of(chars.as_slice(), 1, n), false);
    }
    let mut i: usize = n;
    while i > 0
        invariant
            n == chars@.len(),
            chars@ == s@,
            !(n > 0 && (chars@[0] == '+' || chars@[0] == '-')),
            i <= n,
            forall|k: int| i <= k < n ==> chars@[k] != ':',
        decreases i,
    {
        if chars[i - 1] == ':' {
            let p = i - 1;
            proof {
                assert(is_last(chars@, ':', p as int));
                let q = choose|q: int| is_last(chars@, ':', q);
                assert(q == p);
                assert(chars@.take(p as int) =~= chars@.subrange(0, p as int));
                assert(chars@.skip(p + 1) =~= chars@.subrange(p + 1, n as int));
            }
            let k = string_of(chars.as_slice(), 0, p);
            let v = string_of(chars.as_slice(), p + 1, n);
            let b0 = range_needs_match(chars.as_slice(), 0, p);
            let b1 = range_needs_match(chars.as_slice(), p + 1, n);
            return Search::Attr(k, b0, v, b1);
        }
        i -= 1;
    }
    Search::Fts(s.to_owned())
}

/// A text with each `%` written as `:*`.
pub open spec fn prefix_marks(x: Seq<char>) -> Seq<char>
    decreases x.len(),
{
    if x.len() == 0 {
        Seq::empty()
    } else if x.last() == '%' {
        prefix_marks(x.drop_last()) + seq![':', '*']
    } else {
        prefix_marks(x.drop_last()).push(x.last())
    }
}

/// The statement that finds the files for one pattern.
pub open spec fn spec_gen_sql(s: Pattern) -> Seq<char> {
    match s {
        Pattern::Tag(x, true) => "select fid from obj.doc where attr ? 'tag' and (attr->>'tag' = '"@
            + x + "' or attr->>'tag' like '%\""@ + x + "\"%')"@,
        Pattern::Tag(x, false) =>
            "select fid from obj.doc group by fid having not bool_or(attr->>'tag' = '"@ + x
            + "' or attr->>'tag' like '%\""@ + x + "\"%')"@,
        Pattern::Attr(k, true, v, b1) =>
            "select z0.fid from obj.doc as z0, lateral (select * from jsonb_each_text(z0.attr) where \"key\" ilike '"@
            + k + "' and (\"value\" "@ + equal_op(b1) + " '"@ + v + "' or \"value\" "@ + like_op(b1)
            + " '%\""@ + v + "\"%')) as z1"@,
        Pattern::Attr(k, false, v, b1) => "select fid from obj.doc where (attr->>'"@ + k + "' "@
            + equal_op(b1) + " '"@ + v + "') or (attr->>'"@ + k + "' "@ + like_op(b1) + " '%\""@ + v
            + "\"%')"@,
        Pattern::Fts(x) => "select fid from obj.fts where to_tsquery('"@ + prefix_marks(x)
            + "') @@ doc"@,
    }
}

/// The operator that compares a value: a match where the value holds a wild
/// card.
pub open spec fn equal_op(matching: bool) -> Seq<char> {
    if matching {
        "ilike"@
    } else {
        "="@
    }
}

/// The operator that looks for a value inside a list: a match without
/// regard to case where the value holds a wild card.
pub open spec fn like_op(matching: bool) -> Seq<char> {
    if matching {
        "ilike"@
    } else {
        "like"@
    }
}

fn push_prefix_marks(out: &mut String, x: &str)
    ensures
        final(out)@ == old(out)@ + prefix_marks(x@),
{
    let chars = chars_of(x);
    let mut i: usize = 0;
    assert(chars@.take(0) =~= Seq::<char>::empty());
    while i < chars.len()
        invariant
            i <= chars@.len(),
            chars@ == x@,
            out@ == old(out)@ + prefix_marks(chars@.take(i as int)),
        decreases chars@.len() - i,
    {
        proof {
            assert(chars@.take(i + 1).drop_last() =~= chars@.take(i as int));
            assert(chars@.take(i + 1).last() == chars@[i as int]);
        }
        if chars[i] == '%' {
            push_char(out, ':');
            push_char(out, '*');
        } else {
            push_char(out, chars[i]);
        }
        i += 1;
        assert(out@ =~= old(out)@ + prefix_marks(chars@.take(i as int)));
    }
    assert(chars@.take(chars@.len() as int) =~= chars@);
}

/// Writes the statement that finds the files for one pattern. The texts of
/// the pattern are put in as they are.
pub fn gen_sql(s: &Search) -> (sql: String)
    ensures
        sql@ == spec_gen_sql(s@),
{
    match s {
        Search::Tag(x, b) => {
            let mut sql = if *b {
                "select fid from obj.doc where attr ? 'tag' and (attr->>'tag' = '".to_owned()
            } else {
                "select fid from obj.doc group by fid having not bool_or(attr->>'tag' = '".to_owned()
            };
            push_str(&mut sql, x.as_str());
            push_str(&mut sql, "' or attr->>'tag' like '%\"");
            push_str(&mut sql, x.as_str());
            push_str(&mut sql, "\"%')");
            sql
        },
        Search::Attr(k, b0, v, b1) => {
            let op0 = if *b1 { "ilike" } else { "=" };
            let op1 = if *b1 { "ilike" } else { "like" };
            if *b0 {
                let mut sql =
                    "select z0.fid from obj.doc as z0, lateral (select * from jsonb_each_text(z0.attr) where \"key\" ilike '".to_owned();
                push_str(&mut sql, k.as_str());
                push_str(&mut sql, "' and (\"value\" ");
                push_str(&mut sql, op0);
                push_str(&mut sql, " '");
                push_str(&mut sql, v.as_str());
                push_str(&mut sql, "' or \"value\" ");
                push_str(&mut sql, op1);
                push_str(&mut sql, " '%\"");
                push_str(&mut sql, v.as_str());
                push_str(&mut sql, "\"%')) as z1");
                sql
            } else {
                let mut sql = "select fid from obj.doc where (attr->>'".to_owned();
                push_str(&mut sql, k.as_str());
                push_str(&mut sql, "' ");
                push_str(&mut sql, op0);
                push_str(&mut sql, " '");
                push_str(&mut sql, v.as_str());
                push_str(&mut sql, "') or (attr->>'");
                push_str(&mut sql, k.as_str());
                push_str(&mut sql, "' ");
                push_str(&mut sql, op1);
                push_str(&mut sql, " '%\"");
                push_str(&mut sql, v.as_str());
                push_str(&mut sql, "\"%')");
                sql
            }
        },
        Search::Fts(x) => {
            let mut sql = "select fid from obj.fts where to_tsquery('".to_owned();
            push_prefix_marks(&mut sql, x.as_str());
            push_str(&mut sql, "') @@ doc");
            sql
        },
    }
}

/// The part of the search statement that joins the patterns: each pattern's
/// statement as a table `y0`, `y1`, and so on.
pub open spec fn joined_tables(patt: Seq<Pattern>) -> Seq<char>
    decreases patt.len(),
{
    if patt.len() == 0 {
        Seq::empty()
    } else {
        joined_tables(patt.drop_last()) + ", ("@ + spec_gen_sql(patt.last()) + ") as y"@
            + crate::text::decimal_text((patt.len() - 1) as nat)
    }
}

/// The part of the search statement that ties each pattern's table to the
/// annotation.
pub open spec fn joined_conditions(n: nat) -> Seq<char>
    decreases n,
{
    if n == 0 {
        Seq::empty()
    } else {
        joined_conditions((n - 1) as nat) + " y"@ + crate::text::decimal_text((n - 1) as nat)
            + ".fid = x.rid and "@
    }
}

/// The patterns of a list as plain text.
pub open spec fn patterns_of(patt: Seq<Search>) -> Seq<Pattern> {
    Seq::new(patt.len(), |i: int| patt[i]@)
}

/// The statement that finds the annotations that meet every pattern: all of
/// them, or only those not obsolete; at most `limit` of them where `limit` is
/// above zero.
pub open spec fn spec_search_sql(patt: Seq<Pattern>, all: bool, limit: int) -> Seq<char> {
    "select distinct x.id, x.rid from (select id, rid from obj.anno "@ + (if all {
        ""@
    } else {
        "where obsolete = false"@
    }) + ") as x"@ + joined_tables(patt) + " where "@ + joined_conditions(patt.len()) + " true"@
        + (if limit > 0 {
        " limit "@ + crate::text::decimal_text(limit as nat)
    } else {
        Seq::<char>::empty()
    })
}

/// Writes the statement that finds the annotations that meet every pattern.
pub fn search_sql(patt: &[Search], all: bool, limit: i64) -> (sql: String)
    ensures
        sql@ == spec_search_sql(patterns_of(patt@), all, limit as int),
{
    let ghost ps = patterns_of(patt@);
    let mut sql = "select distinct x.id, x.rid from (select id, rid from obj.anno ".to_owned();
    push_str(&mut sql, if all { "" } else { "where obsolete = false" });
    push_str(&mut sql, ") as x");
    let ghost head = sql@;
    let mut y: usize = 0;
    assert(ps.take(0) =~= Seq::<Pattern>::empty());
    while y < patt.len()
        invariant
            y <= patt@.len(),
            ps == patterns_of(patt@),
            sql@ == head + joined_tables(ps.take(y as int)),
        decreases patt@.len() - y,
    {
        proof {
            assert(ps.take(y + 1).drop_last() =~= ps.take(y as int));
            assert(ps.take(y + 1).last() == patt@[y as int]@);
        }
        let s = gen_sql(&patt[y]);
        push_str(&mut sql, ", (");
        push_str(&mut sql, s.as_str());
        push_str(&mut sql, ") as y");
        push_decimal(&mut sql, y as u64);
        y += 1;
        assert(sql@ =~= head + joined_tables(ps.take(y as int)));
    }
    assert(ps.take(ps.len() as int) =~= ps);
    push_str(&mut sql, " where ");
    let ghost mid = sql@;
    let mut i: usize = 0;
    while i < y
        invariant
            i <= y,
            sql@ == mid + joined_conditions(i as nat),
        decreases y - i,
    {
        push_str(&mut sql, " y");
        push_decimal(&mut sql, i as u64);
        push_str(&mut sql, ".fid = x.rid and ");
        i += 1;
        assert(sql@ =~= mid + joined_conditions(i as nat));
    }
    push_str(&mut sql, " true");
    if limit > 0 {
        push_str(&mut sql, " limit ");
        push_decimal(&mut sql, limit as u64);
    }
    assert(sql@ =~= spec_search_sql(ps, all, limit as int));
    sql
}

/// The statement that reads the metadata of an annotation.
pub fn attr_sql() -> (sql: String)
    ensures
        sql@ == "select attr from obj.doc where id = $1"@,
{
    "select attr from obj.doc where id = $1".to_owned()
}

/// The statement that reads the metadata of the annotations of a file: of
/// all of them, or of those not obsolete.
pub open spec fn spec_attr_f2a_sql(all: bool) -> Seq<char> {
    "select distinct doc.attr from obj.doc, obj.anno where anno.rid = $1 and anno.id = doc.id"@ + (
    if all {
        Seq::<char>::empty()
    } else {
        " and anno.obsolete = false"@
    })
}

/// The statement that reads the metadata of the annotations of a file.
pub fn attr_f2a_sql(all: bool) -> (sql: String)
    ensures
        sql@ == spec_attr_f2a_sql(all),
{
    let mut sql =
        "select distinct doc.attr from obj.doc, obj.anno where anno.rid = $1 and anno.id = doc.id".to_owned();
    if !all {
        push_str(&mut sql, " and anno.obsolete = false");
    }
    sql
}

/// The table of selections: that of a session, or the lasting one.
pub open spec fn sel_table(tmp: bool) -> Seq<char> {
    if tmp {
        "sel.tmp"@
    } else {
        "sel.pers"@
    }
}

/// The statement that reads the ids of a selection.
pub fn sel_load_sql(tmp: bool) -> (sql: String)
    ensures
        sql@ == "select id from "@ + sel_table(tmp) + " where sel = $1"@,
{
    let mut sql = "select id from ".to_owned();
    push_str(&mut sql, if tmp { "sel.tmp" } else { "sel.pers" });
    push_str(&mut sql, " where sel = $1");
    sql
}

/// The statement that lists the selections.
pub fn sel_list_sql(tmp: bool) -> (sql: String)
    ensures
        sql@ == "select sel from "@ + sel_table(tmp) + " group by sel"@,
{
    let mut sql = "select sel from ".to_owned();
    push_str(&mut sql, if tmp { "sel.tmp" } else { "sel.pers" });
    push_str(&mut sql, " group by sel");
    sql
}

/// What saving a selection begins with.
#[derive(Debug, Copy, Clone, PartialEq, Eq, Structural)]
pub enum SelSave {
    /// The selection is emptied first.
    Clear,
    /// The selection must not be there yet.
    MustBeNew,
    /// The ids are added to what is there.
    Append,
}

/// What saving a selection begins with: emptying wins over appending, and
/// without either the selection has to be new.
pub fn sel_save_mode(clear: bool, append: bool) -> (mode: SelSave)
    ensures
        mode == if clear {
            SelSave::Clear
        } else if append {
            SelSave::Append
        } else {
            SelSave::MustBeNew
        },
{
    if clear {
        SelSave::Clear
    } else if append {
        SelSave::Append
    } else {
        SelSave::MustBeNew
    }
}

/// The failure of saving under the name of a selection that is there.
pub fn sel_exists(sel: &str) -> (e: crate::query::error::Error)
    ensures
        e matches crate::query::error::Error::Simple(m) && m@ == "sel '"@ + sel@ + "' already exist"@,
{
    let mut m = "sel '".to_owned();
    push_str(&mut m, sel);
    push_str(&mut m, "' already exist");
    crate::query::error::Error::Simple(m)
}

} // verus!
