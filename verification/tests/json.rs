use nephrite4::json::{find_member, json_do_map_str, text_of_member, without_nul, Json};
use nephrite4::query::index::{anno_doc, changeset_of_ref, file_doc, id2ref, index_order};
use nephrite4::query::tika::tika_res;

fn text(s: &str) -> Json {
    Json::Text(s.to_string())
}

fn object(members: &[(&str, Json)]) -> Vec<(String, Json)> {
    let mut v = Vec::new();
    for (k, j) in members {
        let copy = match j {
            Json::Text(s) => Json::Text(s.clone()),
            Json::Number(s) => Json::Number(s.clone()),
            Json::Bool(b) => Json::Bool(*b),
            Json::Array(a) => Json::Array(
                a.iter()
                    .map(|x| match x {
                        Json::Text(s) => Json::Text(s.clone()),
                        Json::Number(s) => Json::Number(s.clone()),
                        _ => Json::Null,
                    })
                    .collect(),
            ),
            _ => Json::Null,
        };
        v.push((k.to_string(), copy));
    }
    v
}

fn show(j: &Json) -> String {
    format!("{:?}", j)
}

#[test]
fn test_json_do_map_str() {
    let js = Json::Object(object(&[("a", text("z1z2")), ("b", text("zzqq"))]));
    let js = json_do_map_str(js, &|s: &str| s.replace("z", "##"));
    assert_eq!(
        show(&js),
        show(&Json::Object(object(&[("a", text("##1##2")), ("b", text("####qq"))])))
    );

    let js1 = Json::Object(object(&[("a", text("a\u{0}b"))]));
    assert_eq!(show(&js1), show(&Json::Object(object(&[("a", text("a\0b"))]))));
}

#[test]
fn texts_are_mapped_at_any_depth_and_nothing_else() {
    let js = Json::Array(vec![
        text("a"),
        Json::Number("1".to_string()),
        Json::Null,
        Json::Bool(true),
        Json::Object(vec![("a".to_string(), Json::Array(vec![text("a"), text("b")]))]),
    ]);
    let out = json_do_map_str(js, &|s: &str| format!("<{}>", s));
    let want = Json::Array(vec![
        text("<a>"),
        Json::Number("1".to_string()),
        Json::Null,
        Json::Bool(true),
        Json::Object(vec![("a".to_string(), Json::Array(vec![text("<a>"), text("<b>")]))]),
    ]);
    assert_eq!(show(&out), show(&want));
    assert_eq!(show(&json_do_map_str(text("a\0b\0"), &|s: &str| without_nul(s))), show(&text("ab")));
}

#[test]
fn zero_characters_are_taken_out() {
    assert_eq!(without_nul("a\0b\0\0c"), "abc");
    assert_eq!(without_nul("\0"), "");
    assert_eq!(without_nul(""), "");
    assert_eq!(without_nul("plain"), "plain");
}

#[test]
fn members_are_found_by_name() {
    let m = object(&[("a", text("1")), ("b", Json::Null), ("a", text("2"))]);
    assert_eq!(find_member(&m, "a"), 0);
    assert_eq!(find_member(&m, "b"), 1);
    assert_eq!(find_member(&m, "c"), 3);
    assert_eq!(text_of_member(&m, "a"), "1");
    assert_eq!(text_of_member(&m, "b"), "");
    assert_eq!(text_of_member(&m, "c"), "");
}

#[test]
fn the_text_that_is_indexed_for_an_annotation() {
    let mut m = object(&[("name", text("a.txt")), ("size", Json::Number("3".to_string()))]);
    assert_eq!(anno_doc(&mut m), "a.txt");
    assert_eq!(m.len(), 2);

    let mut m = object(&[("name", text("a.txt")), ("note", text("first\nsecond"))]);
    assert_eq!(anno_doc(&mut m), "a.txt\nfirst\nsecond");
    assert_eq!(m.len(), 1);
    assert_eq!(m[0].0, "name");

    let notes = Json::Array(vec![text("one"), Json::Null, text("two")]);
    let mut m = object(&[("note", notes), ("name", text("b"))]);
    assert_eq!(anno_doc(&mut m), "b\none\n\ntwo");
    assert_eq!(m.len(), 1);

    let mut m = object(&[("note", Json::Bool(true))]);
    assert_eq!(anno_doc(&mut m), "");
    assert!(m.is_empty());

    let mut m = object(&[("name", Json::Null), ("note", Json::Array(vec![]))]);
    assert_eq!(anno_doc(&mut m), "");
}

#[test]
fn the_text_that_is_indexed_for_a_file() {
    let mut m = object(&[
        ("Content-Type", text("text/plain")),
        ("X-TIKA:content", text("hello")),
        ("title", text("t")),
    ]);
    let d = file_doc(&mut m);
    assert_eq!(d.content_type, "text/plain");
    assert_eq!(d.content, Some("hello".to_string()));
    assert_eq!(m.len(), 2);
    assert_eq!(m[1].0, "title");

    let mut m = object(&[("X-TIKA:content", Json::Null)]);
    let d = file_doc(&mut m);
    assert_eq!(d.content_type, "");
    assert_eq!(d.content, None);
    assert!(m.is_empty());

    let mut m = object(&[("a", Json::Null)]);
    assert_eq!(file_doc(&mut m).content, None);
    assert_eq!(m.len(), 1);
}

#[test]
fn the_order_of_indexing_and_the_names_of_changesets() {
    let found = vec![([3u8; 32], vec![[1u8; 32]]), ([2u8; 32], vec![]), ([1u8; 32], vec![[9u8; 32]])];
    let order = index_order(found);
    assert_eq!(order[0].0, [1u8; 32]);
    assert_eq!(order[0].1, vec![[9u8; 32]]);
    assert_eq!(order[2].0, [3u8; 32]);
    assert_eq!(index_order(vec![]), vec![]);

    assert_eq!(changeset_of_ref("refs/remotes/work/localhost"), Some("work".to_string()));
    assert_eq!(changeset_of_ref("refs/remotes/a/b/localhost"), Some("a/b".to_string()));
    assert_eq!(changeset_of_ref("refs/remotes//localhost"), Some(String::new()));
    assert_eq!(changeset_of_ref("refs/remotes/localhost"), None);
    assert_eq!(changeset_of_ref("refs/heads/work/localhost"), None);
    assert_eq!(changeset_of_ref("refs/remotes/work/other"), None);
    assert_eq!(changeset_of_ref(""), None);
    assert_eq!(id2ref(&[7u8; 32]), &[7u8; 32][..]);
}

#[test]
fn of_what_the_parser_found_the_first_document_is_kept() {
    assert!(tika_res(vec![]).is_empty());
    let docs = vec![
        object(&[("Content-Type", text("text/plain")), ("title", text("\u{d6}\u{d0}"))]),
        object(&[("Content-Type", text("inner"))]),
    ];
    let out = tika_res(docs);
    assert_eq!(out.len(), 1);
    assert_eq!(show(&out[0][1].1), show(&text("\u{d6}\u{d0}")));
}

#[test]
fn texts_of_sound_files_are_read_again() {
    // the two bytes d6 d0 are one character in GB18030
    let docs = vec![object(&[
        ("Content-Type", text("audio/mpeg")),
        ("title", text("\u{d6}\u{d0}")),
        ("n", Json::Number("1".to_string())),
        ("far", text("\u{4e2d}")),
    ])];
    let out = tika_res(docs);
    assert_eq!(out.len(), 1);
    assert_eq!(out[0].len(), 4);
    assert_eq!(show(&out[0][0].1), show(&text("audio/mpeg")));
    assert_eq!(show(&out[0][1].1), show(&text("\u{4e2d}")));
    assert_eq!(show(&out[0][2].1), show(&Json::Number("1".to_string())));
    // a text that is no Latin-1 stays as it is
    assert_eq!(show(&out[0][3].1), show(&text("\u{4e2d}")));
}
