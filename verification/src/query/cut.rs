//! Cutting text into the words that the index looks up.

use vstd::prelude::*;
use crate::query::types::{places_sorted, PosSet, TsVector};
use crate::strmap::StrMap;
use crate::text::{bytes_of, chars_of, find_char, push_char, string_of, trim, trim_range, utf8_string};
use vstd::utf8::{decode_utf8, encode_utf8, valid_utf8};

verus! {

/// The characters that end a run of words.
pub open spec fn punctuation() -> Seq<char> {
    seq![
        '.', ',', '"', '\'', '?', '!', ':', ';', '(', ')', '[', ']', '{', '}', '\\', '+', '-', '*',
        '/', '|', '\u{3001}', '\u{3002}', '\u{ff0c}', '\u{201d}', '\u{201c}', '\u{ff1f}',
        '\u{ff01}', '\u{ff1a}', '\u{ff1b}', '$', '_', '\u{ff08}', '\u{ff09}', '\u{b7}', '\u{300c}',
        '\u{300d}', '\u{ff5e}', '\u{300a}', '\u{300b}',
    ]
}

/// Whether a character ends a run of words.
pub fn is_punctuation(c: char) -> (b: bool)
    ensures
        b == punctuation().contains(c),
{
    let p: [char; 39] = [
        '.', ',', '"', '\'', '?', '!', ':', ';', '(', ')', '[', ']', '{', '}', '\\', '+', '-', '*',
        '/', '|', '\u{3001}', '\u{3002}', '\u{ff0c}', '\u{201d}', '\u{201c}', '\u{ff1f}',
        '\u{ff01}', '\u{ff1a}', '\u{ff1b}', '$', '_', '\u{ff08}', '\u{ff09}', '\u{b7}', '\u{300c}',
        '\u{300d}', '\u{ff5e}', '\u{300a}', '\u{300b}',
    ];
    assert(p@ =~= punctuation());
    let mut i: usize = 0;
    while i < 39
        invariant
            i <= 39,
            p@ == punctuation(),
            forall|k: int| 0 <= k < i ==> p@[k] != c,
        decreases 39 - i,
    {
        if p[i] == c {
            return true;
        }
        i += 1;
    }
    false
}

/// Whether a character is a letter, as Unicode has it.
pub uninterp spec fn alphabetic(c: char) -> bool;

/// Whether a character is a letter.
///
/// Trusted: the body is `char::is_alphabetic`, which depends on the
/// character alone.
#[verifier::external_body]
fn is_alphabetic(c: char) -> (b: bool)
    ensures
        b == alphabetic(c),
{
    c.is_alphabetic()
}

/// The runs that `s` is cut into from place `from` on, when the run at hand
/// began at `start` and `latin` says that it holds letters only so far. A run
/// ends after a punctuation character; one that comes right after letters
/// only ends its run as well, unless it is a letter itself. What is left
/// after the last punctuation character is the last run.
pub open spec fn runs_from(s: Seq<char>, from: int, start: int, latin: bool) -> Seq<Seq<char>>
    decreases s.len() - from,
{
    if from < 0 || from >= s.len() {
        if 0 <= start < s.len() {
            seq![s.subrange(start, s.len() as int)]
        } else {
            Seq::empty()
        }
    } else if !(latin && alphabetic(s[from])) && punctuation().contains(s[from]) {
        seq![s.subrange(start, from + 1)] + runs_from(s, from + 1, from + 1, true)
    } else {
        runs_from(s, from + 1, start, latin && alphabetic(s[from]))
    }
}

/// Cuts a line into runs that each end after a punctuation character. The
/// runs, one after the other, make up the line.
pub fn split_non_latin_words(ln: &str) -> (words: Vec<String>)
    ensures
        crate::proj::anno::texts_of(words@) == runs_from(ln@, 0, 0, true),
{
    let chars = chars_of(ln);
    let n = chars.len();
    let mut words: Vec<String> = Vec::new();
    let mut start: usize = 0;
    let mut latin = true;
    let mut i: usize = 0;
    let ghost s = ln@;
    assert(crate::proj::anno::texts_of(words@) =~= Seq::<Seq<char>>::empty());
    while i < n
        invariant
            chars@ == s,
            n == s.len(),
            start <= i <= n,
            runs_from(s, 0, 0, true) == crate::proj::anno::texts_of(words@) + runs_from(
                s,
                i as int,
                start as int,
                latin,
            ),
        decreases n - i,
    {
        let c = chars[i];
        if !(latin && is_alphabetic(c)) {
            latin = false;
            if is_punctuation(c) {
                let ghost before = crate::proj::anno::texts_of(words@);
                words.push(string_of(chars.as_slice(), start, i + 1));
                proof {
                    let run = s.subrange(start as int, i + 1);
                    assert(crate::proj::anno::texts_of(words@) =~= before.push(run));
                    assert(before + (seq![run] + runs_from(s, i + 1, i + 1, true)) =~= before.push(
                        run,
                    ) + runs_from(s, i + 1, i + 1, true));
                }
                start = i + 1;
                latin = true;
            }
        }
        i += 1;
    }
    if start < n {
        let ghost before = crate::proj::anno::texts_of(words@);
        words.push(string_of(chars.as_slice(), start, n));
        assert(crate::proj::anno::texts_of(words@) =~= before.push(s.subrange(start as int, n as int)));
        assert(before + seq![s.subrange(start as int, n as int)] =~= before.push(
            s.subrange(start as int, n as int),
        ));
    } else {
        assert(crate::proj::anno::texts_of(words@) + Seq::<Seq<char>>::empty()
            =~= crate::proj::anno::texts_of(words@));
    }
    words
}


/// The words that are never indexed.
#[derive(Debug)]
pub struct StopWords {
    pub words: StrMap<bool>,
}

/// Whether a text is one decimal digit.
pub open spec fn is_digit_word(w: Seq<char>) -> bool {
    w.len() == 1 && '0' <= w[0] <= '9'
}

/// Whether a text is one punctuation character.
pub open spec fn is_punctuation_word(w: Seq<char>) -> bool {
    w.len() == 1 && punctuation().contains(w[0])
}

/// `text[from..to]` is a line of `text`: it begins at the start or after a
/// line feed, ends before a line feed or at the end, and holds no line feed.
/// Nothing follows the last line feed.
pub open spec fn is_line(text: Seq<char>, from: int, to: int) -> bool {
    &&& 0 <= from <= to <= text.len()
    &&& from < text.len()
    &&& (from == 0 || text[from - 1] == '\n')
    &&& (to == text.len() || text[to] == '\n')
    &&& forall|k: int| from <= k < to ==> text[k] != '\n'
}

/// A line of `text`, white space around it taken off, is `w`.
pub open spec fn has_line(text: Seq<char>, w: Seq<char>) -> bool {
    exists|from: int, to: int| #[trigger] is_line(text, from, to) && trim(text.subrange(from, to)) == w
}

fn one_char(c: char) -> (s: String)
    ensures
        s@ == seq![c],
{
    let mut s = String::new();
    push_char(&mut s, c);
    assert(s@ =~= seq![c]);
    s
}

/// Adds each character of a list as a word of its own.
fn add_chars(words: &mut StrMap<bool>, list: &[char])
    ensures
        forall|w: Seq<char>|
            #[trigger] final(words)@.dom().contains(w) <==> (old(words)@.dom().contains(w) || (w.len()
                == 1 && list@.contains(w[0]))),
{
    let mut i: usize = 0;
    while i < list.len()
        invariant
            i <= list@.len(),
            forall|w: Seq<char>|
                #[trigger] words@.dom().contains(w) <==> (old(words)@.dom().contains(w) || (w.len()
                    == 1 && list@.take(i as int).contains(w[0]))),
        decreases list@.len() - i,
    {
        let ghost before = words@.dom();
        words.insert(one_char(list[i]), true);
        proof {
            assert(words@.dom() =~= before.insert(seq![list@[i as int]]));
            let short = list@.take(i as int);
            let long = list@.take(i + 1);
            assert forall|w: Seq<char>| #[trigger]
                words@.dom().contains(w) <==> (old(words)@.dom().contains(w) || (w.len() == 1
                    && long.contains(w[0]))) by {
                assert(before.contains(w) <==> (old(words)@.dom().contains(w) || (w.len() == 1
                    && short.contains(w[0]))));
                if w.len() == 1 && short.contains(w[0]) {
                    let k = choose|k: int| 0 <= k < short.len() && short[k] == w[0];
                    assert(long[k] == w[0]);
                }
                if w.len() == 1 && long.contains(w[0]) {
                    let k = choose|k: int| 0 <= k < long.len() && long[k] == w[0];
                    if k < i {
                        assert(short[k] == w[0]);
                    } else {
                        assert(w =~= seq![list@[i as int]]);
                    }
                }
                if w == seq![list@[i as int]] {
                    assert(long[i as int] == w[0]);
                }
            }
        }
        i += 1;
    }
    assert(list@.take(list@.len() as int) =~= list@);
}

impl StopWords {
    /// The words as a set of texts.
    pub open spec fn set(&self) -> Set<Seq<char>> {
        self.words@.dom()
    }

    /// The stop words that are always there: each punctuation character and
    /// each decimal digit.
    pub fn new() -> (stop: StopWords)
        ensures
            forall|w: Seq<char>|
                stop.set().contains(w) <==> (is_punctuation_word(w) || is_digit_word(w)),
    {
        let p: [char; 39] = [
            '.', ',', '"', '\'', '?', '!', ':', ';', '(', ')', '[', ']', '{', '}', '\\', '+', '-',
            '*', '/', '|', '\u{3001}', '\u{3002}', '\u{ff0c}', '\u{201d}', '\u{201c}', '\u{ff1f}',
            '\u{ff01}', '\u{ff1a}', '\u{ff1b}', '$', '_', '\u{ff08}', '\u{ff09}', '\u{b7}',
            '\u{300c}', '\u{300d}', '\u{ff5e}', '\u{300a}', '\u{300b}',
        ];
        assert(p@ =~= punctuation());
        let d: [char; 10] = ['0', '1', '2', '3', '4', '5', '6', '7', '8', '9'];
        let mut words: StrMap<bool> = StrMap::new();
        add_chars(&mut words, p.as_slice());
        add_chars(&mut words, d.as_slice());
        let stop = StopWords { words };
        proof {
            assert forall|w: Seq<char>| stop.set().contains(w) <==> (is_punctuation_word(w)
                || is_digit_word(w)) by {
                if is_digit_word(w) {
                    let k = w[0] as int - '0' as int;
                    assert(d@[k] == w[0]);
                }
                if w.len() == 1 && d@.contains(w[0]) {
                    let k = choose|k: int| 0 <= k < 10 && d@[k] == w[0];
                }
            }
        }
        stop
    }

    /// Adds the lines of a list of stop words, white space around each taken
    /// off.
    pub fn add_lines(&mut self, text: &str)
        ensures
            forall|w: Seq<char>|
                final(self).set().contains(w) <==> (old(self).set().contains(w) || has_line(text@, w)),
    {
        let chars = chars_of(text);
        let n = chars.len();
        let ghost s = text@;
        let mut pos: usize = 0;
        while pos < n
            invariant
                chars@ == s,
                n == s.len(),
                pos <= n,
                pos < n ==> (pos == 0 || s[pos - 1] == '\n'),
                forall|w: Seq<char>|
                    self.set().contains(w) <==> (old(self).set().contains(w) || exists|
                        from: int,
                        to: int,
                    |
                        from < pos && #[trigger] is_line(s, from, to) && trim(s.subrange(from, to)) == w),
            decreases n - pos,
        {
            let end = find_char(chars.as_slice(), pos, '\n');
            let (a, b) = trim_range(chars.as_slice(), pos, end);
            let word = string_of(chars.as_slice(), a, b);
            let ghost before = self.set();
            let ghost line_word = word@;
            self.words.insert(word, true);
            assert(self.set() =~= before.insert(line_word));
            let next = if end < n { end + 1 } else { n };
            proof {
                assert(is_line(s, pos as int, end as int));
                assert forall|w: Seq<char>| self.set().contains(w) <==> (old(self).set().contains(w)
                    || exists|from: int, to: int|
                    from < next && #[trigger] is_line(s, from, to) && trim(s.subrange(from, to)) == w) by {
                    if exists|from: int, to: int|
                        from < next && #[trigger] is_line(s, from, to) && trim(s.subrange(from, to))
                            == w {
                        let (from, to) = choose|from: int, to: int|
                            from < next && #[trigger] is_line(s, from, to) && trim(
                                s.subrange(from, to),
                            ) == w;
                        if from >= pos {
                            // a line that begins in this line is this line
                            if from > pos {
                                assert(s[from - 1] == '\n');
                            }
                            if to < end {
                                assert(s[to] == '\n');
                            } else if to > end {
                                assert(s[end as int] == '\n');
                            }
                        }
                    }
                }
            }
            pos = next;
        }
        proof {
            assert forall|w: Seq<char>| self.set().contains(w) <==> (old(self).set().contains(w)
                || has_line(s, w)) by {
                if has_line(s, w) {
                    let (from, to) = choose|from: int, to: int| #[trigger]
                        is_line(s, from, to) && trim(s.subrange(from, to)) == w;
                    assert(from < pos);
                }
            }
        }
    }

    /// Whether a word is a stop word.
    pub fn contains(&self, w: &str) -> (b: bool)
        ensures
            b == self.set().contains(w@),
    {
        self.words.contains_key(w)
    }
}

/// The Chinese word cutter of `jieba_rs` with the dictionary that comes with
/// it. Nothing is known of what is inside, and only `new_jieba` makes one, so
/// that every cutter of this type cuts alike.
#[verifier::external_body]
pub struct ChineseCutter {
    inner: jieba_rs::Jieba,
}

/// Words with their places as plain text and numbers.
pub open spec fn spans_of(v: Seq<(String, usize)>) -> Seq<(Seq<char>, int)> {
    Seq::new(v.len(), |i: int| (v[i].0@, v[i].1 as int))
}

/// The tokens that the Chinese word cutter finds in a text, in its search
/// mode and with its own dictionary: each with the place, in characters,
/// where it begins.
pub uninterp spec fn jieba_tokens(ln: Seq<char>) -> Seq<(Seq<char>, int)>;

/// The stem of an English word.
pub uninterp spec fn english_stem(w: Seq<char>) -> Seq<char>;

/// A text in lower case.
pub uninterp spec fn lowercase(w: Seq<char>) -> Seq<char>;

/// Whether a text is taken to be Japanese.
pub uninterp spec fn japanese(text: Seq<char>) -> bool;

/// Makes the Chinese word cutter with the dictionary that comes with it.
///
/// Trusted: the body is `jieba_rs::Jieba::new`. Nothing is claimed of the
/// cutter; what it finds has a name of its own.
#[verifier::external_body]
fn new_jieba() -> ChineseCutter {
    ChineseCutter { inner: jieba_rs::Jieba::new() }
}

/// Cuts a text with the Chinese word cutter.
///
/// Trusted: the body is `Jieba::tokenize` in search mode without the hidden
/// Markov model, and keeps of each token its word and the place, counted in
/// characters, where it begins. A `ChineseCutter` is always the one that
/// `new_jieba` makes, so what it finds depends on the text alone and is named
/// `jieba_tokens`.
#[verifier::external_body]
fn tokenize(jieba: &ChineseCutter, ln: &str) -> (r: Vec<(String, usize)>)
    ensures
        spans_of(r@) == jieba_tokens(ln@),
{
    jieba.inner.tokenize(ln, jieba_rs::TokenizeMode::Search, false).into_iter().map(
        |t| (t.word.to_string(), t.start),
    ).collect()
}

/// Stems an English word.
///
/// Trusted: the body makes the English stemmer of `rust_stemmers` and calls
/// `Stemmer::stem`; the stem depends on the word alone and is named
/// `english_stem`.
#[verifier::external_body]
fn stem(w: &str) -> (r: String)
    ensures
        r@ == english_stem(w@),
{
    rust_stemmers::Stemmer::create(rust_stemmers::Algorithm::English).stem(w).to_string()
}

/// Writes a text in lower case.
///
/// Trusted: the body is `str::to_lowercase`, whose result depends on the
/// text alone and is named `lowercase`.
#[verifier::external_body]
fn to_lowercase(w: &str) -> (r: String)
    ensures
        r@ == lowercase(w@),
{
    w.to_lowercase()
}

/// Whether a text is taken to be Japanese.
///
/// Trusted: the body is `whatlang::detect` and asks whether the language it
/// names is Japanese; a text of which it names no language is not. The
/// answer depends on the text alone and is named `japanese`.
#[verifier::external_body]
fn detect_japanese(w: &str) -> (b: bool)
    ensures
        b == japanese(w@),
{
    whatlang::detect(w).map(|info| info.lang() == whatlang::Lang::Jpn).unwrap_or(false)
}

/// Whether a text is taken to be Japanese.
pub fn is_japanese(text: &str) -> (b: bool)
    ensures
        b == japanese(text@),
{
    detect_japanese(text)
}

/// The number of bytes that the first `k` characters of a text take.
pub open spec fn byte_offset(ln: Seq<char>, k: int) -> int {
    encode_utf8(ln.take(if k < ln.len() { k } else { ln.len() as int })).len() as int
}

/// The words that one token of the Chinese and English cutter gives: none
/// where its word, trimmed and in lower case, is empty or a stop word, or
/// where its place cannot be counted; else the stem of that word, at the
/// place in bytes behind `off` where the token begins.
pub open spec fn cn_en_word(stop: Set<Seq<char>>, off: int, ln: Seq<char>, token: (Seq<char>, int)) -> Seq<
    (Seq<char>, int),
> {
    let w = lowercase(trim(token.0));
    if w.len() == 0 || stop.contains(w) || off + byte_offset(ln, token.1) > usize::MAX {
        Seq::empty()
    } else {
        seq![(english_stem(w), off + byte_offset(ln, token.1))]
    }
}

/// The words that the tokens of the Chinese and English cutter give.
pub open spec fn cn_en_words(
    stop: Set<Seq<char>>,
    off: int,
    ln: Seq<char>,
    tokens: Seq<(Seq<char>, int)>,
) -> Seq<(Seq<char>, int)>
    decreases tokens.len(),
{
    if tokens.len() == 0 {
        Seq::empty()
    } else {
        cn_en_words(stop, off, ln, tokens.drop_last()) + cn_en_word(stop, off, ln, tokens.last())
    }
}

/// The words that one token of the Japanese cutter gives: none where the
/// bytes that it spans are no text of their own or a stop word, or where its
/// place cannot be counted; else these bytes as text, at the place behind
/// `off` where they begin.
pub open spec fn ja_word(stop: Set<Seq<char>>, off: int, raw: Seq<u8>, range: (usize, usize)) -> Seq<
    (Seq<char>, int),
> {
    let span = raw.subrange(range.0 as int, range.1 as int);
    if !(range.0 <= range.1 <= raw.len()) || !valid_utf8(span) || stop.contains(decode_utf8(span))
        || off + range.0 > usize::MAX {
        Seq::empty()
    } else {
        seq![(decode_utf8(span), off + range.0)]
    }
}

/// The words that the tokens of the Japanese cutter give.
pub open spec fn ja_words(stop: Set<Seq<char>>, off: int, raw: Seq<u8>, ranges: Seq<(usize, usize)>) -> Seq<
    (Seq<char>, int),
>
    decreases ranges.len(),
{
    if ranges.len() == 0 {
        Seq::empty()
    } else {
        ja_words(stop, off, raw, ranges.drop_last()) + ja_word(stop, off, raw, ranges.last())
    }
}

/// Picks the words of a Japanese text out of the spans that the cutter
/// found: each span that is text of its own and no stop word, with the place
/// behind `off` where it begins.
pub fn pick_ja_words(stop: &StopWords, off: usize, ln: &str, ranges: &Vec<(usize, usize)>) -> (r: Vec<
    (String, usize),
>)
    ensures
        spans_of(r@) == ja_words(stop.set(), off as int, encode_utf8(ln@), ranges@),
{
    let raw = ln.as_bytes();
    let n = raw.len();
    let mut res: Vec<(String, usize)> = Vec::new();
    let mut i: usize = 0;
    assert(ranges@.take(0) =~= Seq::<(usize, usize)>::empty());
    assert(spans_of(res@) =~= Seq::<(Seq<char>, int)>::empty());
    while i < ranges.len()
        invariant
            i <= ranges@.len(),
            raw@ == encode_utf8(ln@),
            n == raw@.len(),
            spans_of(res@) == ja_words(stop.set(), off as int, raw@, ranges@.take(i as int)),
        decreases ranges@.len() - i,
    {
        let (s, e) = ranges[i];
        proof {
            assert(ranges@.take(i + 1).drop_last() =~= ranges@.take(i as int));
            assert(ranges@.take(i + 1).last() == ranges@[i as int]);
        }
        let ghost before = spans_of(res@);
        if s <= e && e <= n {
            match utf8_string(bytes_of(raw, s, e)) {
                Some(word) => {
                    if !stop.contains(word.as_str()) {
                        match off.checked_add(s) {
                            Some(at) => {
                                res.push((word, at));
                                assert(spans_of(res@) =~= before.push((word@, at as int)));
                                assert(before + seq![(word@, at as int)] =~= before.push(
                                    (word@, at as int),
                                ));
                            },
                            None => {},
                        }
                    }
                },
                None => {},
            }
        }
        i += 1;
        assert(spans_of(res@) =~= ja_words(stop.set(), off as int, raw@, ranges@.take(i as int)));
    }
    assert(ranges@.take(ranges@.len() as int) =~= ranges@);
    res
}

/// What cuts text into words: the stop words and the Chinese and English
/// word cutter. Japanese text is cut outside, with a dictionary that this
/// library does not hold; the cutter is handed the spans that were found.
pub struct Cutter {
    pub stop: StopWords,
    jieba: ChineseCutter,
}

impl Cutter {
    /// The stop words of the cutter.
    pub closed spec fn stop_set(&self) -> Set<Seq<char>> {
        self.stop.set()
    }

    /// A cutter with the given stop words.
    pub fn new(stop: StopWords) -> (c: Cutter)
        ensures
            c.stop_set() == stop.set(),
    {
        Cutter { stop, jieba: new_jieba() }
    }

    /// The words of a text that is not Japanese, with the places in bytes
    /// behind `off` where they begin.
    pub fn cut_cn_en(&self, off: usize, ln: &str) -> (r: Vec<(String, usize)>)
        ensures
            spans_of(r@) == cn_en_words(self.stop_set(), off as int, ln@, jieba_tokens(ln@)),
    {
        let tokens = tokenize(&self.jieba, ln);
        let chars = chars_of(ln);
        let n = chars.len();
        let ghost all = spans_of(tokens@);
        let mut res: Vec<(String, usize)> = Vec::new();
        let mut i: usize = 0;
        assert(all.take(0) =~= Seq::<(Seq<char>, int)>::empty());
        assert(spans_of(res@) =~= Seq::<(Seq<char>, int)>::empty());
        while i < tokens.len()
            invariant
                i <= tokens@.len(),
                all == spans_of(tokens@),
                chars@ == ln@,
                n == chars@.len(),
                spans_of(res@) == cn_en_words(self.stop_set(), off as int, ln@, all.take(i as int)),
            decreases tokens@.len() - i,
        {
            proof {
                assert(all.take(i + 1).drop_last() =~= all.take(i as int));
                assert(all.take(i + 1).last() == (tokens@[i as int].0@, tokens@[i as int].1 as int));
            }
            let ghost before = spans_of(res@);
            let ghost token = all.take(i + 1).last();
            let start = tokens[i].1;
            let word_chars = chars_of(tokens[i].0.as_str());
            assert(word_chars@.subrange(0, word_chars@.len() as int) =~= word_chars@);
            let (a, b) = trim_range(word_chars.as_slice(), 0, word_chars.len());
            let trimmed = string_of(word_chars.as_slice(), a, b);
            let word = to_lowercase(trimmed.as_str());
            assert(token == (tokens@[i as int].0@, start as int));
            assert(word@ == lowercase(trim(token.0)));
            let empty = chars_of(word.as_str()).len() == 0;
            if !empty && !self.stop.contains(word.as_str()) {
                let k = if start < n { start } else { n };
                let head = string_of(chars.as_slice(), 0, k);
                assert(head@ =~= ln@.take(k as int));
                let head_len = head.as_str().as_bytes().len();
                assert(head_len == byte_offset(ln@, token.1));
                match off.checked_add(head_len) {
                    Some(at) => {
                        let stemmed = stem(word.as_str());
                        res.push((stemmed, at));
                        assert(spans_of(res@) =~= before.push((stemmed@, at as int)));
                        assert(before + seq![(stemmed@, at as int)] =~= before.push(
                            (stemmed@, at as int),
                        ));
                        assert(cn_en_word(self.stop_set(), off as int, ln@, token) == seq![
                            (stemmed@, at as int),
                        ]);
                    },
                    None => {
                        assert(before + Seq::<(Seq<char>, int)>::empty() =~= before);
                        assert(cn_en_word(self.stop_set(), off as int, ln@, token).len() == 0);
                    },
                }
            } else {
                assert(before + Seq::<(Seq<char>, int)>::empty() =~= before);
                assert(cn_en_word(self.stop_set(), off as int, ln@, token).len() == 0);
            }
            assert(spans_of(res@) == before + cn_en_word(self.stop_set(), off as int, ln@, token));
            i += 1;
        }
        assert(all.take(all.len() as int) =~= all);
        res
    }

    /// The words of a Japanese text, with the places in bytes behind `off`
    /// where they begin: what `pick_ja_words` picks, with the cutter's stop
    /// words, out of the spans that the Japanese cutter found in the text.
    pub fn cut_ja(&self, off: usize, ln: &str, spans: &Vec<(usize, usize)>) -> (r: Vec<(String, usize)>)
        ensures
            spans_of(r@) == ja_words(self.stop_set(), off as int, encode_utf8(ln@), spans@),
    {
        pick_ja_words(&self.stop, off, ln, spans)
    }
}

/// The number of bytes that the runs of a line take, and the largest number
/// there is where they take more.
pub open spec fn run_offset(runs: Seq<Seq<char>>) -> int
    decreases runs.len(),
{
    if runs.len() == 0 {
        0
    } else {
        let t = run_offset(runs.drop_last()) + encode_utf8(runs.last()).len();
        if t > usize::MAX {
            usize::MAX as int
        } else {
            t
        }
    }
}

/// The spans that the Japanese cutter found in the run at place `i` of a
/// line; none where the list does not reach that far.
pub open spec fn spans_at(ja: Seq<Vec<(usize, usize)>>, i: int) -> Seq<(usize, usize)> {
    if 0 <= i < ja.len() {
        ja[i]@
    } else {
        Seq::empty()
    }
}

/// The words of a run that stands `off` bytes into its line: those of the
/// spans that the Japanese cutter found in it where the run is taken to be
/// Japanese, and else those of the Chinese and English cutter.
pub open spec fn run_words(
    stop: Set<Seq<char>>,
    off: int,
    run: Seq<char>,
    spans: Seq<(usize, usize)>,
) -> Seq<(Seq<char>, int)> {
    if japanese(run) {
        ja_words(stop, off, encode_utf8(run), spans)
    } else {
        cn_en_words(stop, off, run, jieba_tokens(run))
    }
}

/// The words of the runs of a line, one run after the other; `ja` holds
/// for each run the spans that the Japanese cutter found in it.
pub open spec fn line_words(
    stop: Set<Seq<char>>,
    runs: Seq<Seq<char>>,
    ja: Seq<Vec<(usize, usize)>>,
) -> Seq<(Seq<char>, int)>
    decreases runs.len(),
{
    if runs.len() == 0 {
        Seq::empty()
    } else {
        line_words(stop, runs.drop_last(), ja) + run_words(
            stop,
            run_offset(runs.drop_last()),
            runs.last(),
            spans_at(ja, runs.len() - 1),
        )
    }
}

impl Cutter {
    /// The words of a line with the places in bytes where they begin: the
    /// line is cut into runs at its punctuation, and each run is cut by the
    /// cutter of its language. `ja` holds, for each run in order, the spans
    /// that the Japanese cutter found in it; those of a run that is not
    /// taken to be Japanese play no part, and a run that the list does not
    /// reach has none.
    pub fn cut_ln(&self, ln: &str, ja: &Vec<Vec<(usize, usize)>>) -> (r: Vec<(String, usize)>)
        ensures
            spans_of(r@) == line_words(self.stop_set(), runs_from(ln@, 0, 0, true), ja@),
    {
        let words = split_non_latin_words(ln);
        let ghost runs = crate::proj::anno::texts_of(words@);
        let none: Vec<(usize, usize)> = Vec::new();
        let mut res: Vec<(String, usize)> = Vec::new();
        let mut offset: usize = 0;
        let mut i: usize = 0;
        assert(runs.take(0) =~= Seq::<Seq<char>>::empty());
        assert(spans_of(res@) =~= Seq::<(Seq<char>, int)>::empty());
        while i < words.len()
            invariant
                i <= words@.len(),
                none@.len() == 0,
                runs == crate::proj::anno::texts_of(words@),
                offset == run_offset(runs.take(i as int)),
                spans_of(res@) == line_words(self.stop_set(), runs.take(i as int), ja@),
            decreases words@.len() - i,
        {
            let word = words[i].as_str();
            let ghost head = spans_of(res@);
            proof {
                assert(runs.take(i + 1).drop_last() =~= runs.take(i as int));
                assert(runs.take(i + 1).last() == word@);
            }
            let mut part = if detect_japanese(word) {
                let spans = if i < ja.len() {
                    &ja[i]
                } else {
                    &none
                };
                assert(spans@ =~= spans_at(ja@, i as int));
                self.cut_ja(offset, word, spans)
            } else {
                self.cut_cn_en(offset, word)
            };
            let ghost tail = spans_of(part@);
            assert(tail == run_words(self.stop_set(), offset as int, word@, spans_at(ja@, i as int)));
            res.append(&mut part);
            assert(spans_of(res@) =~= head + tail);
            offset = match offset.checked_add(word.as_bytes().len()) {
                Some(t) => t,
                None => usize::MAX,
            };
            i += 1;
        }
        assert(runs.take(runs.len() as int) =~= runs);
        res
    }
}

/// The words of a stretch of text, each with the set of its places.
pub type Lexemes = Map<Seq<char>, Set<(u8, u16)>>;

/// Where the grouping of words stands: the place where the stretch at hand
/// begins, its words so far, and the stretches that are done.
pub struct Groups {
    pub rel: int,
    pub cur: Lexemes,
    pub out: Seq<(int, Lexemes)>,
}

/// The width of a stretch of text in bytes.
pub const STRETCH: u64 = 16384;

/// The most places that a word may have before its stretch is closed.
pub const FULL: usize = 254;

/// The place that is stored for a word at byte `p`: weight 0 and the 16 low
/// bits of `p + 1`.
pub open spec fn group_place(p: int) -> (u8, u16) {
    (0u8, ((p % 0x1_0000 + 1) % 0x1_0000) as u16)
}

/// The grouping after one more word at byte `p`: a word that lies a stretch
/// or more behind the start closes the stretch at hand and begins the next
/// one a stretch further on; the word is then put down with its place; and a
/// word that has got its 254th place closes the stretch as well.
pub open spec fn group_step(g: Groups, word: Seq<char>, p: int) -> Groups {
    let g1 = if p >= g.rel + STRETCH {
        Groups { rel: g.rel + STRETCH, cur: Map::empty(), out: g.out.push((g.rel, g.cur)) }
    } else {
        g
    };
    let places = (if g1.cur.contains_key(word) {
        g1.cur[word]
    } else {
        Set::empty()
    }).insert(group_place(p));
    let cur = g1.cur.insert(word, places);
    if places.len() >= FULL {
        Groups { rel: g1.rel, cur: Map::empty(), out: g1.out.push((g1.rel, cur)) }
    } else {
        Groups { rel: g1.rel, cur, out: g1.out }
    }
}

/// The grouping after all the given words, in order.
pub open spec fn group_all(data: Seq<(Seq<char>, int)>) -> Groups
    decreases data.len(),
{
    if data.len() == 0 {
        Groups { rel: 0, cur: Map::empty(), out: Seq::empty() }
    } else {
        group_step(group_all(data.drop_last()), data.last().0, data.last().1)
    }
}

/// The stretches that the given words are grouped into: those that were
/// closed, and the one at hand where it holds a word.
pub open spec fn grouped(data: Seq<(Seq<char>, int)>) -> Seq<(int, Lexemes)> {
    let g = group_all(data);
    if g.cur.dom().len() > 0 {
        g.out.push((g.rel, g.cur))
    } else {
        g.out
    }
}

/// The words of a stretch, each with the set of its places.
pub open spec fn lexemes_of(t: TsVector) -> Lexemes {
    t.data@.map_values(|s: PosSet| s@.to_set())
}

/// Stretches, each with where it begins and its words.
pub open spec fn stretches_of(v: Seq<(u64, TsVector)>) -> Seq<(int, Lexemes)> {
    Seq::new(v.len(), |i: int| (v[i].0 as int, lexemes_of(v[i].1)))
}

proof fn lemma_places_unique(s: Seq<(u8, u16)>)
    requires
        places_sorted(s),
    ensures
        s.no_duplicates(),
        s.to_set().len() == s.len(),
        s.to_set().finite(),
{
    assert forall|i: int, j: int| 0 <= i < s.len() && 0 <= j < s.len() && i != j implies s[i]
        != s[j] by {
        if i < j {
            assert(crate::query::types::place_lt(s[i], s[j]));
        } else {
            assert(crate::query::types::place_lt(s[j], s[i]));
        }
    }
    s.unique_seq_to_set();
}

/// Puts a word with its place into the words of a stretch and says how many
/// places the word then has.
fn put_place(t: &mut TsVector, word: String, place: (u8, u16)) -> (count: usize)
    ensures
        lexemes_of(*final(t)) == lexemes_of(*old(t)).insert(
            word@,
            (if lexemes_of(*old(t)).contains_key(word@) {
                lexemes_of(*old(t))[word@]
            } else {
                Set::empty()
            }).insert(place),
        ),
        count == lexemes_of(*final(t))[word@].len(),
{
    let ghost before = t.data@;
    let mut places = match t.data.remove(word.as_str()) {
        Some(p) => p,
        None => PosSet::new(),
    };
    let ghost old_set = places@.to_set();
    proof {
        if !before.contains_key(word@) {
            assert(old_set =~= Set::<(u8, u16)>::empty());
        }
    }
    let ghost mid = t.data@;
    places.insert(place);
    let count = places.len();
    proof {
        lemma_places_unique(places@);
        assert(places@.to_set() =~= old_set.insert(place));
    }
    t.data.insert(word, places);
    proof {
        assert(t.data@ =~= before.insert(word@, places));
        assert(lexemes_of(*t) =~= lexemes_of(*old(t)).insert(word@, old_set.insert(place)));
    }
    count
}

/// Groups the words of a text, each with the byte where it begins, into
/// stretches for the index.
pub fn group_words(data: Vec<(String, usize)>) -> (res: Vec<(u64, TsVector)>)
    ensures
        stretches_of(res@) == grouped(spans_of(data@)),
{
    let ghost all = spans_of(data@);
    let mut rel: u64 = 0;
    let mut res: Vec<(u64, TsVector)> = Vec::new();
    let mut d1 = TsVector::new();
    proof {
        assert(all.take(0) =~= Seq::<(Seq<char>, int)>::empty());
        assert(stretches_of(res@) =~= Seq::<(int, Lexemes)>::empty());
        assert(lexemes_of(d1) =~= Map::<Seq<char>, Set<(u8, u16)>>::empty());
    }
    for item in it: data
        invariant
            all == spans_of(it.seq()),
            group_all(all.take(it.index() as int)) == (Groups {
                rel: rel as int,
                cur: lexemes_of(d1),
                out: stretches_of(res@),
            }),
    {
        let ghost i = it.index() as int;
        let ghost g = group_all(all.take(i));
        proof {
            assert(all.take(i + 1).drop_last() =~= all.take(i));
            assert(all.take(i + 1).last() == (item.0@, item.1 as int));
        }
        let (v, at) = item;
        let p: u64 = at as u64;
        if p >= STRETCH && p - STRETCH >= rel {
            let mut closed = TsVector::new();
            core::mem::swap(&mut d1, &mut closed);
            let ghost before = stretches_of(res@);
            res.push((rel, closed));
            proof {
                assert(stretches_of(res@) =~= before.push((rel as int, lexemes_of(closed))));
                assert(lexemes_of(d1) =~= Map::<Seq<char>, Set<(u8, u16)>>::empty());
            }
            rel = rel + STRETCH;
        }
        let place: (u8, u16) = (0u8, ((p % 0x1_0000 + 1) % 0x1_0000) as u16);
        let slen = put_place(&mut d1, v, place);
        if slen >= FULL {
            let mut closed = TsVector::new();
            core::mem::swap(&mut d1, &mut closed);
            let ghost before = stretches_of(res@);
            res.push((rel, closed));
            proof {
                assert(stretches_of(res@) =~= before.push((rel as int, lexemes_of(closed))));
                assert(lexemes_of(d1) =~= Map::<Seq<char>, Set<(u8, u16)>>::empty());
            }
        }
    }
    proof {
        assert(all.take(all.len() as int) =~= all);
    }
    if d1.data.len() > 0 {
        let ghost before = stretches_of(res@);
        proof {
            crate::strmap::lemma_map_of_at(d1.data.pairs(), 0);
            assert(lexemes_of(d1).dom().contains(d1.data.pairs()[0].0));
            lemma_lexemes_finite(d1);
            assert(lexemes_of(d1).dom().len() > 0) by {
                if lexemes_of(d1).dom().len() == 0 {
                    assert(lexemes_of(d1).dom() =~= Set::<Seq<char>>::empty());
                }
            }
        }
        res.push((rel, d1));
        assert(stretches_of(res@) =~= before.push((rel as int, lexemes_of(d1))));
    } else {
        proof {
            assert(d1.data.pairs().len() == 0);
            assert(lexemes_of(d1).dom() =~= Set::<Seq<char>>::empty()) by {
                assert forall|k: Seq<char>| !lexemes_of(d1).dom().contains(k) by {
                    if crate::strmap::has_key(d1.data.pairs(), k) {
                    }
                }
            }
        }
    }
    res
}

/// The words of a stretch are finitely many.
proof fn lemma_lexemes_finite(t: TsVector)
    ensures
        lexemes_of(t).dom().finite(),
{
    let p = t.data.pairs();
    let keys = Seq::new(p.len(), |i: int| p[i].0);
    assert(lexemes_of(t).dom() =~= keys.to_set()) by {
        assert forall|k: Seq<char>| lexemes_of(t).dom().contains(k) <==> keys.to_set().contains(
            k,
        ) by {
            if crate::strmap::has_key(p, k) {
                let i = crate::strmap::place_of(p, k);
                assert(keys[i] == k);
            }
            if keys.contains(k) {
                let i = choose|i: int| 0 <= i < keys.len() && keys[i] == k;
                assert(p[i].0 == k);
            }
        }
    }
    vstd::seq_lib::seq_to_set_is_finite(keys);
}

/// A text with each line feed, carriage return and zero character turned
/// into a space.
pub open spec fn one_line(c: Seq<char>) -> Seq<char> {
    Seq::new(
        c.len(),
        |i: int|
            if c[i] == '\r' || c[i] == '\n' || c[i] == '\0' {
                ' '
            } else {
                c[i]
            },
    )
}

/// A text as one line: each line feed, carriage return and zero character
/// turned into a space.
pub fn to_one_line(c: &str) -> (line: String)
    ensures
        line@ == one_line(c@),
{
    let chars = chars_of(c);
    let mut line = String::new();
    let mut i: usize = 0;
    while i < chars.len()
        invariant
            i <= chars@.len(),
            chars@ == c@,
            line@ == one_line(c@).take(i as int),
        decreases chars@.len() - i,
    {
        let x = chars[i];
        push_char(&mut line, if x == '\r' || x == '\n' || x == '\0' { ' ' } else { x });
        i += 1;
        assert(line@ =~= one_line(c@).take(i as int));
    }
    assert(one_line(c@).take(chars@.len() as int) =~= one_line(c@));
    line
}

impl Cutter {
    /// The words of a text for the index, in stretches: the text is taken as
    /// one line, cut into words, and the words are grouped. `ja` holds, for
    /// each run of that line in order, the spans that the Japanese cutter
    /// found in it. The kind of the content plays no part.
    pub fn cut(&self, _mt: &str, c: &str, ja: &Vec<Vec<(usize, usize)>>) -> (res: Vec<(u64, TsVector)>)
        ensures
            stretches_of(res@) == grouped(
                line_words(self.stop_set(), runs_from(one_line(c@), 0, 0, true), ja@),
            ),
    {
        let line = to_one_line(c);
        let data = self.cut_ln(line.as_str(), ja);
        group_words(data)
    }
}

} // verus!
