use nephrite4::error::{Error, IoKind};
use nephrite4::proj::anno::{
    commit_message, is_zero, millis, predefined, same_id, st2chr, yaml_document, Anno, FileStat,
    Probe, Sidecars, Site, St, Stamp,
};
use nephrite4::util::{calc_id_buf, to_zbase32};
use nephrite4::value::{Data, Value};

fn blank() -> Anno {
    Anno::blank(".nephrite", "a.txt", predefined())
}

fn ops(list: &[&str]) -> Vec<String> {
    list.iter().map(|s| s.to_string()).collect()
}

fn text(s: &str) -> Value {
    Value::Text(s.to_string())
}

fn show(v: Option<&Value>) -> String {
    format!("{:?}", v)
}

fn stamp(secs: i64) -> Stamp {
    Stamp { secs, nanos: 0 }
}

fn probe(file: i64, meta: i64, yaml: i64) -> Probe {
    Probe {
        file: Some(FileStat { mtime: stamp(file), size: 3 }),
        meta: Some(stamp(meta)),
        yaml: Some(stamp(yaml)),
        mime: "text/plain".to_string(),
    }
}

#[test]
fn signs_of_the_states() {
    assert_eq!(st2chr(St::Ready), ".");
    assert_eq!(st2chr(St::MMeta), "m");
    assert_eq!(st2chr(St::MFile), "M");
}

#[test]
fn the_reserved_keys() {
    assert_eq!(
        predefined(),
        vec!["name", "type", "size", "mtime", "note", "tag", "rate", "node", "level"]
    );
}

#[test]
fn proc_op_adds_a_tag_without_leave() {
    let mut a = blank();
    assert_eq!(a.proc_op(&ops(&["+urgent"]), false), 1);
    assert_eq!(show(a.data_get("tag")), show(Some(&text("urgent"))));
}

#[test]
fn proc_op_refuses_a_new_key_without_leave() {
    let mut a = blank();
    assert_eq!(a.proc_op(&ops(&["custom=val"]), false), 0);
    assert!(a.data_get("custom").is_none());
    assert_eq!(a.proc_op(&ops(&["custom=val"]), true), 1);
    assert_eq!(show(a.data_get("custom")), show(Some(&text("val"))));
    // once the key is there it may be written without leave
    assert_eq!(a.proc_op(&ops(&["custom=other"]), false), 1);
    assert_eq!(show(a.data_get("custom")), show(Some(&text("other"))));
}

#[test]
fn proc_op_with_other_reserved_keys() {
    let mut a = Anno::blank(".nephrite", "a.txt", vec!["only".to_string()]);
    assert_eq!(a.proc_op(&ops(&["+urgent"]), false), 0);
    assert_eq!(a.proc_op(&ops(&["only=1"]), false), 1);
}

#[test]
fn proc_op_appending_makes_arrays_and_passes_over_what_is_there() {
    let mut a = blank();
    assert_eq!(a.proc_op(&ops(&["+a", "+b", "+a", "+c", "+b"]), false), 3);
    let want = Value::Array(vec![text("a"), text("b"), text("c")]);
    assert_eq!(show(a.data_get("tag")), show(Some(&want)));
    assert_eq!(a.proc_op(&ops(&["+a"]), false), 0);
    assert_eq!(show(a.data_get("tag")), show(Some(&want)));
}

#[test]
fn proc_op_appending_to_a_value_that_is_no_text() {
    let mut a = blank();
    a.data.insert("rate".to_string(), Value::Integer(5));
    assert_eq!(a.proc_op(&ops(&["rate+good"]), false), 1);
    let want = Value::Array(vec![Value::Integer(5), text("good")]);
    assert_eq!(show(a.data_get("rate")), show(Some(&want)));
}

#[test]
fn proc_op_removing() {
    let mut a = blank();
    a.proc_op(&ops(&["+a", "+b", "+c"]), false);
    assert_eq!(a.proc_op(&ops(&["-b"]), false), 1);
    assert_eq!(show(a.data_get("tag")), show(Some(&Value::Array(vec![text("a"), text("c")]))));
    assert_eq!(a.proc_op(&ops(&["-x"]), false), 0);
    assert_eq!(a.proc_op(&ops(&["-a", "-c"]), false), 2);
    assert!(a.data_get("tag").is_none());
    assert_eq!(a.proc_op(&ops(&["-a"]), false), 0);

    a.proc_op(&ops(&["note=hello"]), false);
    assert_eq!(a.proc_op(&ops(&["note-other"]), false), 0);
    assert_eq!(show(a.data_get("note")), show(Some(&text("hello"))));
    assert_eq!(a.proc_op(&ops(&["note-hello"]), false), 1);
    assert!(a.data_get("note").is_none());
}

#[test]
fn proc_op_removing_where_nothing_is_to_take_out_changes_nothing() {
    let mut a = blank();
    a.data.insert("size".to_string(), Value::Integer(5));
    assert_eq!(a.proc_op(&ops(&["size-5"]), false), 0);
    assert_eq!(show(a.data_get("size")), show(Some(&Value::Integer(5))));

    a.data.insert("tag".to_string(), Value::Array(vec![]));
    assert_eq!(a.proc_op(&ops(&["-x"]), false), 0);
    assert_eq!(show(a.data_get("tag")), show(Some(&Value::Array(vec![]))));

    a.data.insert("tag".to_string(), Value::Array(vec![Value::Integer(1), text("x")]));
    assert_eq!(a.proc_op(&ops(&["-y", "level-1"]), false), 0);
    assert_eq!(
        show(a.data_get("tag")),
        show(Some(&Value::Array(vec![Value::Integer(1), text("x")])))
    );
    assert_eq!(a.proc_op(&ops(&["-x"]), false), 1);
    assert_eq!(show(a.data_get("tag")), show(Some(&Value::Array(vec![Value::Integer(1)]))));
}

#[test]
fn proc_op_picks_the_edit_by_the_first_sign() {
    let mut a = blank();
    // '+' before '-' before '='
    assert_eq!(a.proc_op(&ops(&["note=a+b"]), true), 1);
    assert_eq!(show(a.data_get("note=a")), show(Some(&text("b"))));
    assert_eq!(a.proc_op(&ops(&["note=x-y"]), true), 0);
    assert_eq!(a.proc_op(&ops(&["note=x"]), true), 1);
    assert_eq!(show(a.data_get("note")), show(Some(&text("x"))));
    // the empty key and the empty text
    assert_eq!(a.proc_op(&ops(&["="]), true), 1);
    assert_eq!(show(a.data_get("")), show(Some(&text(""))));
    // no sign: no edit
    assert_eq!(a.proc_op(&ops(&["plain", ""]), true), 0);
    // what follows the first sign is the text
    assert_eq!(a.proc_op(&ops(&["level=1=2"]), false), 1);
    assert_eq!(show(a.data_get("level")), show(Some(&text("1=2"))));
    assert_eq!(a.proc_op(&ops(&["+"]), false), 1);
    assert_eq!(show(a.data_get("tag")), show(Some(&text(""))));
}

#[test]
fn proc_op_leaves_the_ids_alone() {
    let mut a = blank();
    a.pid.push([1u8; 32]);
    a.fid = [2u8; 32];
    a.anno_hash = [3u8; 32];
    a.proc_op(&ops(&["+a", "note=b"]), false);
    assert_eq!(a.pid, vec![[1u8; 32]]);
    assert_eq!(a.fid, [2u8; 32]);
    assert_eq!(a.anno_hash, [3u8; 32]);
    assert_eq!(a.rpath, "a.txt");
    assert_eq!(a.mdir, ".nephrite");
}

fn committed(yaml: &str) -> Anno {
    let mut a = blank();
    a.pid.push([1u8; 32]);
    a.fid = [2u8; 32];
    a.anno_hash = calc_id_buf(yaml.as_bytes());
    a
}

#[test]
fn status_of_a_saved_annotation_is_ready() {
    let a = committed("name: a.txt\n");
    assert_eq!(a.status(&probe(10, 10, 10), "name: a.txt\n").unwrap(), St::Ready);
}

#[test]
fn status_after_the_file_changed_is_mfile() {
    let a = committed("name: a.txt\n");
    assert_eq!(a.status(&probe(11, 10, 10), "name: a.txt\n").unwrap(), St::MFile);
    let mut p = probe(10, 10, 10);
    p.file = Some(FileStat { mtime: Stamp { secs: 10, nanos: 1 }, size: 3 });
    assert_eq!(a.status(&p, "name: a.txt\n").unwrap(), St::MFile);
}

#[test]
fn status_after_the_metadata_changed_is_mmeta() {
    let a = committed("name: a.txt\n");
    assert_eq!(a.status(&probe(10, 10, 10), "name: a.txt\ntag: x\n").unwrap(), St::MMeta);
    // the time of the yaml sidecar does not count
    assert_eq!(a.status(&probe(10, 10, 99), "name: a.txt\n").unwrap(), St::Ready);
}

#[test]
fn status_of_what_was_never_committed_is_mfile() {
    let mut a = committed("x");
    a.fid = [0u8; 32];
    assert_eq!(a.status(&probe(10, 10, 10), "x").unwrap(), St::MFile);
    let mut a = committed("x");
    a.pid.clear();
    assert_eq!(a.status(&probe(10, 10, 10), "x").unwrap(), St::MFile);
    // before anything is read
    let p = Probe { file: None, meta: None, yaml: None, mime: String::new() };
    assert_eq!(a.status(&p, "x").unwrap(), St::MFile);
    assert_eq!(blank().status(&p, "").unwrap(), St::MFile);
}

#[test]
fn status_fails_where_files_cannot_be_read() {
    let a = committed("x");
    let mut p = probe(10, 10, 10);
    p.meta = None;
    assert!(matches!(a.status(&p, "x"), Err(Error::IO(IoKind::Unreadable, _))));
    let mut p = probe(10, 10, 10);
    p.file = None;
    assert!(matches!(a.status(&p, "x"), Err(Error::IO(IoKind::Unreadable, _))));
    let mut p = probe(10, 10, 10);
    p.yaml = None;
    assert_eq!(a.status(&p, "x").unwrap(), St::Ready);
}

#[test]
fn milliseconds_of_a_time() {
    assert_eq!(millis(Stamp { secs: 0, nanos: 0 }), 0);
    assert_eq!(millis(Stamp { secs: 12, nanos: 345_678_901 }), 12_345);
    assert_eq!(millis(Stamp { secs: 1, nanos: 999_999 }), 1000);
    assert_eq!(millis(Stamp { secs: -1, nanos: 5 }), 0);
    assert_eq!(millis(Stamp { secs: i64::MAX, nanos: 0 }), u64::MAX);
    assert_eq!(millis(Stamp { secs: 18_446_744_073_709_551, nanos: 615_000_000 }), u64::MAX);
    assert_eq!(millis(Stamp { secs: 18_446_744_073_709_551, nanos: 614_999_999 }), u64::MAX - 1);
}

#[test]
fn update_meta_writes_size_type_and_time() {
    let mut a = blank();
    a.data.insert("size".to_string(), text("old"));
    let p = Probe {
        file: Some(FileStat { mtime: Stamp { secs: 5, nanos: 0 }, size: 42 }),
        meta: None,
        yaml: Some(Stamp { secs: 7, nanos: 500_000_000 }),
        mime: "image/png".to_string(),
    };
    a.update_meta(&p);
    assert_eq!(show(a.data_get("size")), show(Some(&Value::Integer(42))));
    assert_eq!(show(a.data_get("type")), show(Some(&text("image/png"))));
    assert_eq!(show(a.data_get("mtime")), show(Some(&Value::Integer(7500))));

    // the file's time where it is the later one; no size where the file cannot be read
    let mut b = blank();
    let p = Probe { file: None, meta: None, yaml: None, mime: "x/y".to_string() };
    b.update_meta(&p);
    assert!(b.data_get("size").is_none());
    assert_eq!(show(b.data_get("mtime")), show(Some(&Value::Integer(0))));
    let mut c = blank();
    c.update_meta(&probe(9, 1, 2));
    assert_eq!(show(c.data_get("mtime")), show(Some(&Value::Integer(9000))));
}

#[test]
fn sync_updates_only_where_times_differ() {
    let mut a = blank();
    assert_eq!(a.sync(&probe(10, 10, 10)).unwrap(), false);
    assert_eq!(a.data.len(), 0);
    assert_eq!(a.sync(&probe(10, 10, 11)).unwrap(), true);
    assert_eq!(show(a.data_get("mtime")), show(Some(&Value::Integer(11000))));
    let mut b = blank();
    assert_eq!(b.sync(&probe(10, 9, 10)).unwrap(), true);
    assert_eq!(show(b.data_get("size")), show(Some(&Value::Integer(3))));
    let mut c = blank();
    let mut p = probe(10, 9, 10);
    p.yaml = None;
    assert!(matches!(c.sync(&p), Err(Error::IO(IoKind::Unreadable, _))));
    assert_eq!(c.data.len(), 0);
}

#[test]
fn meta_text_and_back() {
    let mut a = blank();
    let mut one = [0u8; 32];
    for (i, b) in one.iter_mut().enumerate() {
        *b = i as u8;
    }
    a.pid.push(one);
    a.pid.push([255u8; 32]);
    a.fid = [7u8; 32];
    a.anno_hash = [9u8; 32];
    let text = a.meta_text();
    assert_eq!(
        text,
        format!(
            "# pid\n{}\n{}\n\n# ref_oid\n{}\n\n# anno_hash\n{}\n",
            "yyyoryarywdyqnyjbefoadeqbhebnrounoktcfaadrpbs8y7daxo",
            to_zbase32(&[255u8; 32]),
            to_zbase32(&[7u8; 32]),
            to_zbase32(&[9u8; 32])
        )
    );
    let mut b = blank();
    b.parse_meta(&text).unwrap();
    assert_eq!(b.pid, a.pid);
    assert_eq!(b.fid, a.fid);
    assert_eq!(b.anno_hash, a.anno_hash);
}

#[test]
fn meta_text_of_a_new_annotation() {
    let a = blank();
    let y = "y".repeat(52);
    assert_eq!(a.meta_text(), format!("# pid\n\n# ref_oid\n{}\n\n# anno_hash\n{}\n", y, y));
    let mut b = blank();
    b.parse_meta(&a.meta_text()).unwrap();
    assert!(b.pid.is_empty());
    assert!(is_zero(&b.fid));
}

#[test]
fn parse_meta_reads_carriage_returns_and_a_last_line_without_end() {
    let y = "y".repeat(52);
    let n = "n".repeat(52);
    let mut a = blank();
    a.parse_meta(&format!("# ref_oid\r\n{}\r\n# anno_hash is here\n{}", n, y)).unwrap();
    assert!(is_zero(&a.anno_hash));
    assert!(!is_zero(&a.fid));
    assert!(same_id(&a.fid, &nephrite4::util::zbase32_to_id(&n)));
}

#[test]
fn parse_meta_refuses_malformed_text() {
    let y = "y".repeat(52);
    let good = format!("# pid\n\n# ref_oid\n{}\n\n# anno_hash\n{}\n", y, y);
    for bad in [
        String::new(),
        format!("{}\n# ref_oid\n{}\n", y, y),
        good.replace("# pid", "# what"),
        good.replace(&format!("# ref_oid\n{}", y), "# ref_oid\nyyy"),
        format!("{}{}\n", good, y),
        good.replace(&format!("\n# anno_hash\n{}\n", y), ""),
        format!("# pid\n{}x\n", y),
        good.replace("# ref_oid\n", "# ref_oid\nnot an id\n"),
    ] {
        let mut a = blank();
        a.pid.push([5u8; 32]);
        assert!(matches!(a.parse_meta(&bad), Err(Error::Format(_))), "{:?}", bad);
        assert_eq!(a.pid, vec![[5u8; 32]]);
        assert!(is_zero(&a.fid));
    }
}

#[test]
fn names_and_hashes() {
    let mut a = blank();
    assert_eq!(a.get_name(), None);
    a.data.insert("name".to_string(), Value::Integer(1));
    assert_eq!(a.get_name(), None);
    a.data.insert("name".to_string(), text("b.txt"));
    assert_eq!(a.get_name(), Some("b.txt".to_string()));
    assert_eq!(Anno::get_hash("abc").unwrap(), calc_id_buf(b"abc"));
    assert_eq!(
        hex::encode(Anno::get_hash("---\nname: a.txt\n").unwrap()),
        "697f4824dfa7ac222bd6bebff7e90daf7fd23fcc486132d0f3032537119ea960"
    );
}

#[test]
fn yaml_documents_and_commit_messages() {
    assert_eq!(yaml_document("a: 1\n"), "---\na: 1\n");
    assert_eq!(yaml_document("---\na: 1\n"), "---\na: 1\n");
    assert_eq!(yaml_document("--- a"), "--- a");
    assert_eq!(yaml_document("--"), "---\n--");
    assert_eq!(yaml_document(""), "---\n");
    assert_eq!(commit_message("---\nname: a\nsize: 1\n"), "name: a\nsize: 1");
    assert_eq!(commit_message("-----  x  "), "x");
    assert_eq!(commit_message("a-b"), "a-b");
    assert_eq!(commit_message("---"), "");
    assert_eq!(commit_message(""), "");
    assert_eq!(commit_message("--- -x"), "-x");
}

#[test]
fn decode_a_commit() {
    let mut data = Data::new();
    data.insert("name".to_string(), text("dir/b.txt"));
    let a = Anno::decode(&[[1u8; 32], [2u8; 32]], &[3u8; 32], data, None, predefined()).unwrap();
    assert_eq!(a.pid, vec![[1u8; 32], [2u8; 32]]);
    assert_eq!(a.fid, [3u8; 32]);
    assert!(is_zero(&a.anno_hash));
    assert_eq!(a.rpath, "");
    assert_eq!(a.mdir, ".");

    let mut data = Data::new();
    data.insert("name".to_string(), text("dir/b.txt"));
    let a = Anno::decode(&[], &[3u8; 32], data, Some("name: dir/b.txt\n"), predefined()).unwrap();
    assert_eq!(a.anno_hash, calc_id_buf(b"name: dir/b.txt\n"));
    assert_eq!(a.rpath, "dir/b.txt");
    let a = Anno::decode(&[], &[3u8; 32], Data::new(), Some(""), predefined()).unwrap();
    assert_eq!(a.rpath, "");
}

fn site(present: bool, sidecars: Option<Sidecars>, p: Probe) -> Site {
    Site { present, sidecars, probe: p }
}

#[test]
fn new_annotation_of_a_file_without_sidecars() {
    let (a, created) =
        Anno::new(".nephrite", "a.txt", false, site(true, None, probe(5, 0, 0)), predefined())
            .unwrap();
    assert!(created);
    assert!(a.pid.is_empty());
    assert!(is_zero(&a.fid));
    assert_eq!(a.get_name(), Some("a.txt".to_string()));
    assert_eq!(show(a.data_get("size")), show(Some(&Value::Integer(3))));
    assert_eq!(show(a.data_get("type")), show(Some(&text("text/plain"))));
    assert_eq!(show(a.data_get("mtime")), show(Some(&Value::Integer(5000))));
    assert_eq!(a.rpath, "a.txt");
    assert_eq!(a.mdir, ".nephrite");
}

#[test]
fn new_annotation_fails_for_want_of_files() {
    let r = Anno::new("m", "a", false, site(false, None, probe(1, 1, 1)), predefined());
    assert!(matches!(r, Err(Error::IO(IoKind::NotFound, ref m)) if m == "file not exist"));
    let r = Anno::new("m", "a", true, site(true, None, probe(1, 1, 1)), predefined());
    assert!(matches!(r, Err(Error::IO(IoKind::NotFound, ref m)) if m == "manifest not exist"));
}

#[test]
fn new_annotation_from_sidecars() {
    let y = "y".repeat(52);
    let meta = format!("# pid\n{}\n\n# ref_oid\n{}\n\n# anno_hash\n{}\n", "9".repeat(52), y, y);
    let mut data = Data::new();
    data.insert("name".to_string(), text("a.txt"));
    let found = Sidecars { meta: meta.clone(), data };
    let (a, created) =
        Anno::new("m", "a.txt", true, site(true, Some(found), probe(5, 4, 4)), predefined())
            .unwrap();
    assert!(!created);
    assert_eq!(a.pid.len(), 1);
    // load only: not brought up to date
    assert!(a.data_get("mtime").is_none());

    let mut data = Data::new();
    data.insert("name".to_string(), text("a.txt"));
    let found = Sidecars { meta: meta.clone(), data };
    let (a, _) =
        Anno::new("m", "a.txt", false, site(true, Some(found), probe(5, 4, 4)), predefined())
            .unwrap();
    assert_eq!(show(a.data_get("mtime")), show(Some(&Value::Integer(5000))));

    let found = Sidecars { meta: "nonsense".to_string(), data: Data::new() };
    let r = Anno::new("m", "a.txt", true, site(true, Some(found), probe(5, 4, 4)), predefined());
    assert!(matches!(r, Err(Error::Format(_))));

    let found = Sidecars { meta, data: Data::new() };
    let mut p = probe(5, 4, 4);
    p.yaml = None;
    let r = Anno::new("m", "a.txt", false, site(true, Some(found), p), predefined());
    assert!(matches!(r, Err(Error::IO(IoKind::Unreadable, _))));
}

#[test]
fn the_two_halves_of_a_commit() {
    let mut a = committed("x");
    assert_eq!(a.commit(&probe(10, 10, 10), "x").unwrap(), None);
    assert_eq!(a.data.len(), 0);
    assert_eq!(a.commit(&probe(10, 10, 10), "y").unwrap(), Some(St::MMeta));
    assert_eq!(a.data.len(), 0);
    assert_eq!(a.commit(&probe(11, 10, 10), "x").unwrap(), Some(St::MFile));
    assert_eq!(show(a.data_get("mtime")), show(Some(&Value::Integer(11000))));
    let meta = a.commit_done([8u8; 32], "z").unwrap();
    assert_eq!(a.pid, vec![[8u8; 32]]);
    assert_eq!(a.anno_hash, calc_id_buf(b"z"));
    assert_eq!(a.fid, [2u8; 32]);
    assert_eq!(meta, a.meta_text());
    assert_eq!(
        meta,
        format!(
            "# pid\n{}\n\n# ref_oid\n{}\n\n# anno_hash\n{}\n",
            to_zbase32(&[8u8; 32]),
            to_zbase32(&[2u8; 32]),
            to_zbase32(&calc_id_buf(b"z"))
        )
    );
    assert_eq!(a.status(&probe(10, 10, 10), "z").unwrap(), St::Ready);
}

#[test]
fn saving_stores_the_hash_of_the_metadata() {
    let mut a = committed("name: a.txt\n");
    a.proc_op(&ops(&["+urgent"]), false);
    let edited = "name: a.txt\ntag: urgent\n";
    // edited and not saved
    assert_eq!(a.status(&probe(10, 10, 10), edited).unwrap(), St::MMeta);
    let meta = a.save(edited).unwrap();
    assert_eq!(a.anno_hash, calc_id_buf(edited.as_bytes()));
    assert_eq!(a.pid, vec![[1u8; 32]]);
    assert_eq!(a.fid, [2u8; 32]);
    assert_eq!(
        meta,
        format!(
            "# pid\n{}\n\n# ref_oid\n{}\n\n# anno_hash\n{}\n",
            to_zbase32(&[1u8; 32]),
            to_zbase32(&[2u8; 32]),
            to_zbase32(&calc_id_buf(edited.as_bytes()))
        )
    );
    // saved: ready, and what was written reads back
    assert_eq!(a.status(&probe(10, 10, 10), edited).unwrap(), St::Ready);
    let mut b = blank();
    b.parse_meta(&meta).unwrap();
    assert_eq!(b.anno_hash, a.anno_hash);
    assert!(!Anno::too_long(edited));
}

#[test]
fn a_new_annotation_gets_its_hash_when_it_is_saved() {
    let (mut a, created) =
        Anno::new(".nephrite", "a.txt", false, site(true, None, probe(5, 0, 0)), predefined())
            .unwrap();
    assert!(created);
    assert!(is_zero(&a.anno_hash));
    let yaml = "---\nmtime: 5000\nname: a.txt\nsize: 3\ntype: text/plain\n";
    let meta = a.save(yaml).unwrap();
    assert_eq!(a.anno_hash, calc_id_buf(yaml.as_bytes()));
    assert_eq!(
        meta,
        format!(
            "# pid\n\n# ref_oid\n{}\n\n# anno_hash\n{}\n",
            "y".repeat(52),
            to_zbase32(&calc_id_buf(yaml.as_bytes()))
        )
    );
    // never committed: it still counts as a changed file
    assert_eq!(a.status(&probe(5, 5, 5), yaml).unwrap(), St::MFile);
}

#[test]
fn errors_have_messages() {
    assert_eq!(nephrite4::error::err_simple("x fail").message(), "SimpleError: x fail");
    assert_eq!(nephrite4::error::err_format("bad").message(), "FormatError: bad");
    assert_eq!(Error::IO(IoKind::NotFound, "gone".to_string()).message(), "gone");
    assert_eq!(nephrite4::error::err_not_found("gone").message(), "gone");
    assert!(matches!(
        nephrite4::error::err_unreadable("dim"),
        Error::IO(IoKind::Unreadable, ref m) if m == "dim"
    ));
    let r: Result<u8, Error> = nephrite4::error::err("git update-ref fail");
    assert!(matches!(r, Err(Error::Simple(ref m)) if m == "git update-ref fail"));
    let e = Error::IO(IoKind::NotFound, "gone".to_string()).in_context("save of a.txt");
    assert!(matches!(e, Error::IO(IoKind::NotFound, ref m) if m == "save of a.txt: gone"));
    let e = nephrite4::error::err_format("bad").in_context("tree");
    assert_eq!(e.message(), "FormatError: tree: bad");
}

#[test]
fn sidecar_text_reads_back_for_many_ids() {
    let mut seed: u32 = 7;
    let mut next = || {
        let mut id = [0u8; 32];
        for b in id.iter_mut() {
            seed = seed.wrapping_mul(1664525).wrapping_add(1013904223);
            *b = (seed >> 24) as u8;
        }
        id
    };
    for n in 0..6 {
        let mut a = blank();
        for _ in 0..n {
            a.pid.push(next());
        }
        a.fid = next();
        a.anno_hash = next();
        let mut b = blank();
        b.parse_meta(&a.meta_text()).unwrap();
        assert_eq!(b.pid, a.pid);
        assert_eq!(b.fid, a.fid);
        assert_eq!(b.anno_hash, a.anno_hash);
    }
}
