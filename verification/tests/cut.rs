use nephrite4::query::cut::{
    group_words, is_japanese, is_punctuation, pick_ja_words, split_non_latin_words, to_one_line,
    Cutter, StopWords,
};
use nephrite4::query::types::{PosSet, TsVector};

fn cutter() -> Cutter {
    Cutter::new(StopWords::new())
}

// The spans of the words of a Japanese line, given the words in order.
fn spans_of_words(words: &[&str]) -> Vec<(usize, usize)> {
    let mut at = 0;
    let mut spans = vec![];
    for w in words {
        spans.push((at, at + w.len()));
        at += w.len();
    }
    spans
}

fn taro() -> Vec<Vec<(usize, usize)>> {
    vec![spans_of_words(&[
        "太郎", "は", "次郎", "が", "持っ", "て", "いる", "本", "を", "花子", "に", "渡し", "た", "。",
    ])]
}

fn t_cut_ln_cn_(s: &str, ja: &Vec<Vec<(usize, usize)>>) -> usize {
    let mut stop = StopWords::new();
    stop.add_lines("は\nが\nを\nに\nた\nて\nいる\n了\n个\n有\n");
    let res = Cutter::new(stop).cut_ln(s, ja);
    let n = res.len();

    for (w, i) in res {
        assert_eq!(&s[i..i + w.len()], w);
    }
    n
}

#[test]
fn t_cut_ln_cn() {
    // 太郎 次郎 持っ 本 花子 渡し are left once the stop words are out
    assert_eq!(t_cut_ln_cn_("太郎は次郎が持っている本を花子に渡した。", &taro()), 6);
    assert!(t_cut_ln_cn_("我们中出了一个好人。从前有座山，山上有座庙，庙里有个和尚。", &vec![]) > 0);
}

#[test]
fn punctuation_characters() {
    for c in ['.', ',', '"', '\'', '?', '!', '_', '$', '、', '。', '，', '《', '》', '～', '·'] {
        assert!(is_punctuation(c), "{}", c);
    }
    for c in ['a', ' ', '0', '#', '@', '中', '\n', '='] {
        assert!(!is_punctuation(c), "{}", c);
    }
}

#[test]
fn lines_are_cut_after_punctuation() {
    assert_eq!(split_non_latin_words(""), Vec::<String>::new());
    assert_eq!(split_non_latin_words("abc"), vec!["abc"]);
    assert_eq!(split_non_latin_words("a.b"), vec!["a.", "b"]);
    assert_eq!(split_non_latin_words("a.b."), vec!["a.", "b."]);
    assert_eq!(split_non_latin_words("..a"), vec![".", ".", "a"]);
    assert_eq!(split_non_latin_words("one two, three! 4"), vec!["one two,", " three!", " 4"]);
    assert_eq!(
        split_non_latin_words("从前有座山，山上有座庙。x"),
        vec!["从前有座山，", "山上有座庙。", "x"]
    );
    let line = "a-b_c (d) [e]";
    assert_eq!(split_non_latin_words(line).concat(), line);
}

#[test]
fn stop_words() {
    let mut stop = StopWords::new();
    assert!(stop.contains("."));
    assert!(stop.contains("。"));
    assert!(stop.contains("7"));
    assert!(!stop.contains("the"));
    assert!(!stop.contains(""));
    assert!(!stop.contains(".."));
    assert!(!stop.contains("10"));
    stop.add_lines("the\n  a  \r\nof\n\nlast");
    for w in ["the", "a", "of", "last", ""] {
        assert!(stop.contains(w), "{:?}", w);
    }
    assert!(!stop.contains("  a  "));
    assert!(!stop.contains("an"));
    let mut other = StopWords::new();
    other.add_lines("x\n");
    assert!(other.contains("x"));
    assert!(!other.contains(""));
    other.add_lines("");
    assert!(!other.contains(""));
}

#[test]
fn english_words_are_put_in_lower_case_and_stemmed() {
    let c = cutter();
    let words = c.cut_cn_en(100, "Looking Dogs");
    assert_eq!(words, vec![("look".to_string(), 100), ("dog".to_string(), 108)]);
    let mut stop = StopWords::new();
    stop.add_lines("looking\n");
    let c = Cutter::new(stop);
    assert_eq!(c.cut_cn_en(0, "Looking Dogs"), vec![("dog".to_string(), 8)]);
}

#[test]
fn chinese_words_keep_their_place_in_bytes() {
    let c = cutter();
    let line = "我们中出了一个好人";
    let words = c.cut_cn_en(7, line);
    assert!(!words.is_empty());
    for (w, at) in words {
        assert_eq!(&line[at - 7..at - 7 + w.len()], w);
    }
}

#[test]
fn lines_of_several_runs_count_their_places_from_the_start() {
    let c = cutter();
    let line = "running dogs, jumping cats";
    let words = c.cut_ln(line, &vec![]);
    assert_eq!(
        words,
        vec![
            ("run".to_string(), 0),
            ("dog".to_string(), 8),
            ("jump".to_string(), 14),
            ("cat".to_string(), 22),
        ]
    );
}

#[test]
fn japanese_text_is_cut_by_the_spans_that_are_handed_in() {
    let line = "太郎は次郎が持っている本を花子に渡した。";
    assert!(is_japanese(line));
    assert!(!is_japanese("running dogs"));
    assert!(!is_japanese(""));
    let c = cutter();
    // without spans there are no words
    assert_eq!(c.cut_ja(0, line, &vec![]), vec![]);
    assert_eq!(c.cut_ln(line, &vec![]), vec![]);
    assert_eq!(c.cut_ln(line, &vec![vec![]]), vec![]);
    let words = c.cut_ln(line, &taro());
    assert_eq!(words.len(), 13);
    assert_eq!(words[0], ("太郎".to_string(), 0));
    assert_eq!(words[1], ("は".to_string(), 6));
    assert_eq!(words[12], ("た".to_string(), 54));
    assert_eq!(c.cut_ja(5, line, &taro()[0])[2], ("次郎".to_string(), 14));
}

#[test]
fn each_run_of_a_line_has_its_own_spans() {
    let c = cutter();
    // an English run, a Japanese run, an English run
    let line = "running dogs, これはペンです。 jumping";
    let runs = split_non_latin_words(line);
    assert_eq!(runs, vec!["running dogs,", " これはペンです。", " jumping"]);
    assert!(is_japanese(&runs[1]));
    let ja = vec![
        vec![(0, 7)], // plays no part: the run is not Japanese
        vec![(1, 7), (7, 10), (10, 16), (16, 22), (22, 25)],
    ];
    assert_eq!(
        c.cut_ln(line, &ja),
        vec![
            ("run".to_string(), 0),
            ("dog".to_string(), 8),
            ("これ".to_string(), 14),
            ("は".to_string(), 20),
            ("ペン".to_string(), 23),
            ("です".to_string(), 29),
            ("jump".to_string(), 39),
        ]
    );
}

#[test]
fn japanese_words_are_picked_out_of_spans() {
    let mut stop = StopWords::new();
    stop.add_lines("は\n");
    let line = "太郎は次郎。";
    let spans = vec![(0, 6), (6, 9), (9, 15), (15, 18), (1, 4), (3, 2), (0, 99), (18, 18)];
    let words = pick_ja_words(&stop, 10, line, &spans);
    assert_eq!(
        words,
        vec![("太郎".to_string(), 10), ("次郎".to_string(), 19), (String::new(), 28)]
    );
    assert_eq!(pick_ja_words(&stop, usize::MAX, line, &vec![(3, 6)]), vec![]);
}

fn places(t: &TsVector, word: &str) -> Vec<(u8, u16)> {
    let s: &PosSet = t.data.get(word).unwrap();
    (0..s.len()).map(|i| s.get(i)).collect()
}

fn words(list: &[(&str, usize)]) -> Vec<(String, usize)> {
    list.iter().map(|(w, p)| (w.to_string(), *p)).collect()
}

#[test]
fn words_are_grouped_into_stretches() {
    assert!(group_words(vec![]).is_empty());

    let g = group_words(words(&[("a", 0), ("b", 5), ("a", 9), ("a", 9)]));
    assert_eq!(g.len(), 1);
    assert_eq!(g[0].0, 0);
    assert_eq!(g[0].1.data.len(), 2);
    assert_eq!(places(&g[0].1, "a"), vec![(0, 1), (0, 10)]);
    assert_eq!(places(&g[0].1, "b"), vec![(0, 6)]);

    // a word a stretch further on closes the stretch, even an empty one
    let g = group_words(words(&[("a", 16383), ("b", 16384), ("c", 40000)]));
    assert_eq!(g.len(), 3);
    assert_eq!(g[0].0, 0);
    assert_eq!(places(&g[0].1, "a"), vec![(0, 16384)]);
    assert_eq!(g[1].0, 16384);
    assert_eq!(places(&g[1].1, "b"), vec![(0, 16385)]);
    assert_eq!(g[2].0, 32768);
    assert_eq!(places(&g[2].1, "c"), vec![(0, 40001)]);
    let g = group_words(words(&[("far", 100000)]));
    assert_eq!(g.len(), 2);
    assert_eq!(g[0].0, 0);
    assert_eq!(g[0].1.data.len(), 0);
    assert_eq!(g[1].0, 16384);
    assert_eq!(places(&g[1].1, "far"), vec![(0, 34465)]);
    let g = group_words(words(&[("wrap", 65535)]));
    assert_eq!(places(&g[1].1, "wrap"), vec![(0, 0)]);
}

#[test]
fn a_word_with_254_places_closes_its_stretch() {
    let many: Vec<(String, usize)> = (0..300).map(|i| ("w".to_string(), i)).collect();
    let g = group_words(many);
    assert_eq!(g.len(), 2);
    assert_eq!(places(&g[0].1, "w").len(), 254);
    assert_eq!(places(&g[1].1, "w").len(), 46);
    assert_eq!(g[1].0, 0);
    let exact: Vec<(String, usize)> = (0..254).map(|i| ("w".to_string(), i)).collect();
    assert_eq!(group_words(exact).len(), 1);
}

#[test]
fn the_binary_form_of_words() {
    let t = TsVector::new();
    assert_eq!(t.encode(), vec![0, 0, 0, 0]);

    let mut g = group_words(words(&[("b", 0), ("a", 299), ("b", 2), ("é", 5)]));
    let t = g.remove(0).1;
    assert_eq!(
        t.encode(),
        vec![
            0, 0, 0, 3, // three words
            b'a', 0, 0, 1, 0x01, 0x2c, //
            b'b', 0, 0, 2, 0, 1, 0, 3, //
            0xc3, 0xa9, 0, 0, 1, 0, 6,
        ]
    );
}

#[test]
fn places_are_written_by_weight_and_position() {
    let mut s = PosSet::new();
    for p in [(1u8, 5u16), (0, 9), (3, 1), (0, 9), (4, 7), (0, 0x7fff), (0, 3)] {
        s.insert(p);
    }
    assert_eq!(s.len(), 6);
    let listed: Vec<(u8, u16)> = (0..s.len()).map(|i| s.get(i)).collect();
    assert_eq!(listed, vec![(0, 3), (0, 9), (0, 0x7fff), (1, 5), (3, 1), (4, 7)]);
    let mut t = TsVector::new();
    t.data.insert("w".to_string(), s);
    assert_eq!(
        t.encode(),
        vec![
            0, 0, 0, 1, b'w', 0, 0, 6, //
            0x00, 0x03, 0x00, 0x07, 0x00, 0x09, 0x3f, 0xff, 0x40, 0x05, 0xc0, 0x01,
        ]
    );
}

#[test]
fn a_text_is_cut_as_one_line() {
    let c = cutter();
    assert_eq!(to_one_line("running\r\ndogs\0run"), "running  dogs run");
    let g = c.cut("text/plain", "running\r\ndogs\0run", &vec![]);
    assert_eq!(g.len(), 1);
    assert_eq!(places(&g[0].1, "run"), vec![(0, 1), (0, 15)]);
    assert_eq!(places(&g[0].1, "dog"), vec![(0, 10)]);
    assert!(c.cut("", "", &vec![]).is_empty());

    let g = c.cut("text/plain", "これは\nペンです", &vec![vec![(0, 6), (10, 16)]]);
    assert_eq!(g.len(), 1);
    assert_eq!(places(&g[0].1, "これ"), vec![(0, 1)]);
    assert_eq!(places(&g[0].1, "ペン"), vec![(0, 11)]);
}
