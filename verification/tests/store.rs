use nephrite4::conf::Conf;
use nephrite4::error::{Error, IoKind};
use nephrite4::git::{Commit, Tree, TreeEntry, Type};
use nephrite4::proj::anno::{predefined, Anno, FileStat, Probe, Stamp};
use nephrite4::proj::manifest::Manifest;
use nephrite4::store::{
    changeset_tree, commit_ids, compare_ids, format_zone, insert_id, min_uniq_len, read_output_id,
    ref_local, ref_remote, type2mode, Command, CommitRun, Output, Reply, Request, Store, Walk,
    WalkRequest,
};
use nephrite4::strmap::Rank;
use nephrite4::util::calc_id_buf;
use nephrite4::value::{Data, Value};

fn id(b: u8) -> [u8; 32] {
    [b; 32]
}

fn id2(a: u8, b: u8) -> [u8; 32] {
    let mut x = [0u8; 32];
    x[0] = a;
    x[1] = b;
    x
}

fn store() -> Store {
    let conf = Conf { root: "/repo".to_string(), db_url: "db".to_string() };
    Store::new(&conf, 1_600_000_000, 3600)
}

fn ok(stdout: &str) -> Output {
    Output { success: true, stdout: stdout.as_bytes().to_vec() }
}

fn failed() -> Output {
    Output { success: false, stdout: Vec::new() }
}

fn strs(list: &[&str]) -> Vec<String> {
    list.iter().map(|s| s.to_string()).collect()
}

fn pairs(list: &[(&str, &str)]) -> Vec<(String, String)> {
    list.iter().map(|(a, b)| (a.to_string(), b.to_string())).collect()
}

#[test]
fn min_uniq_len_of_few_ids() {
    assert_eq!(min_uniq_len(&vec![]), 1);
    assert_eq!(min_uniq_len(&vec![id(1)]), 1);
    assert_eq!(min_uniq_len(&vec![id(1), id(2)]), 1);
}

#[test]
fn min_uniq_len_is_the_least_length_that_tells_apart() {
    assert_eq!(min_uniq_len(&vec![id2(1, 1), id2(1, 2)]), 2);
    assert_eq!(min_uniq_len(&vec![id2(1, 1), id2(2, 1), id2(3, 1)]), 1);
    assert_eq!(min_uniq_len(&vec![id2(1, 1), id2(2, 1), id2(1, 2)]), 2);
    let mut a = [7u8; 32];
    let mut b = [7u8; 32];
    a[31] = 1;
    b[31] = 2;
    assert_eq!(min_uniq_len(&vec![a, b]), 32);
    a[9] = 0;
    assert_eq!(min_uniq_len(&vec![b, a, id(7)]), 32);
    assert_eq!(min_uniq_len(&vec![b, a]), 10);
}

#[test]
fn min_uniq_len_of_ids_that_are_the_same() {
    assert_eq!(min_uniq_len(&vec![id(1), id(1)]), 32);
    assert_eq!(min_uniq_len(&vec![id(1), id(2), id(1)]), 32);
}

#[test]
fn min_uniq_len_law_on_many_lists() {
    let mut seed: u32 = 12345;
    for round in 0..50 {
        let n = 1 + round % 7;
        let mut list: Vec<[u8; 32]> = Vec::new();
        while list.len() < n {
            let mut x = [0u8; 32];
            for b in x.iter_mut() {
                seed = seed.wrapping_mul(1103515245).wrapping_add(12345);
                *b = ((seed >> 16) % 3) as u8;
            }
            if !list.contains(&x) {
                list.push(x);
            }
        }
        let len = min_uniq_len(&list);
        let unique = |l: usize| {
            for i in 0..list.len() {
                for j in 0..i {
                    if list[i][..l] == list[j][..l] {
                        return false;
                    }
                }
            }
            true
        };
        assert!(unique(len));
        if len > 1 {
            assert!(!unique(len - 1));
        }
    }
}

#[test]
fn names_of_refs_and_modes() {
    assert_eq!(ref_remote("work"), "refs/remotes/work/localhost");
    assert_eq!(ref_local("work"), "refs/heads/work");
    assert_eq!(ref_remote(""), "refs/remotes//localhost");
    assert_eq!(Store::LOCALHOST, "localhost");
    assert_eq!(type2mode(&Type::Commit), 0o160000);
    assert_eq!(type2mode(&Type::Blob(5)), 5);
}

#[test]
fn time_zones_as_git_writes_them() {
    assert_eq!(format_zone(0), "+0000");
    assert_eq!(format_zone(3600), "+0100");
    assert_eq!(format_zone(-3600), "-0100");
    assert_eq!(format_zone(19800), "+0530");
    assert_eq!(format_zone(-34200), "-0930");
    assert_eq!(format_zone(59), "+0000");
    assert_eq!(format_zone(-59), "-0000");
    assert_eq!(format_zone(45296), "+1234");
    assert_eq!(format_zone(360000), "+10000");
    assert_eq!(format_zone(i32::MIN), "-59652314");
}

#[test]
fn the_store_keeps_time() {
    let mut s = store();
    assert_eq!(s.root, "/repo");
    assert_eq!(s.date, 1_600_000_000);
    assert_eq!(s.zone, "+0100");
    s.update_time(5, -7200);
    assert_eq!(s.date, 5);
    assert_eq!(s.zone, "-0200");
    s.update_time(-1, 0);
    assert_eq!(s.date, u64::MAX);
}

fn assert_cmd(cmd: &Command, program: &str, env: &[(&str, &str)], args: &[&str]) {
    assert_eq!(cmd.program, program);
    assert_eq!(cmd.env, pairs(env));
    assert_eq!(cmd.args, strs(args));
}

#[test]
fn commands_of_the_object_database() {
    let s = store();
    let h1 = hex::encode(id(1));
    let git = [("GIT_DIR", "/repo")];
    let c = s.git_show_ref_cmd("refs/heads/x");
    assert_cmd(&c, "git", &git, &["show-ref", "--verify", "--hash", "refs/heads/x"]);
    assert!(c.input.is_none());
    assert_cmd(&s.git_show_ref_all_cmd(), "git", &git, &["show-ref"]);
    assert_cmd(&s.git_update_ref_cmd("r", &id(1)), "git", &git, &["update-ref", "r", &h1]);
    assert_cmd(&s.read_commit_cmd(&id(1)), "git", &git, &["cat-file", "commit", &h1]);
    assert_cmd(&s.read_tree_cmd(&id(1)), "git", &git, &["cat-file", "tree", &h1]);
    assert_cmd(&s.git_cat_file_cmd("blob", &id(1)), "git", &git, &["cat-file", "blob", &h1]);

    let mut tree = Tree::new();
    tree.insert(TreeEntry { name: "ab".to_string(), oid: id(1), mode: Type::Commit });
    let c = s.write_tree_cmd(&tree);
    assert_cmd(&c, "git", &git, &["hash-object", "-t", "tree", "--stdin", "-w"]);
    assert_eq!(c.input, Some(tree.encode()));
}

#[test]
fn commands_that_make_commits() {
    let s = store();
    let c = s.commit_tree_cmd(&[id(2), id(3)], &id(1), 77, "hello\nthere");
    let date = "77 +0100";
    assert_cmd(
        &c,
        "git",
        &[("GIT_DIR", "/repo"), ("GIT_AUTHOR_DATE", date), ("GIT_COMMITTER_DATE", date)],
        &[
            "commit-tree",
            "-p",
            &hex::encode(id(2)),
            "-p",
            &hex::encode(id(3)),
            "-m",
            "hello\nthere",
            &hex::encode(id(1)),
        ],
    );
    let c = s.commit_tree_cmd(&[], &id(1), 0, "");
    assert_eq!(c.args, strs(&["commit-tree", "-m", "", &hex::encode(id(1))]));
    assert_eq!(c.env[1].1, "0 +0100");

    let mut a = Anno::blank("m", "a", predefined());
    a.pid.push(id(4));
    a.fid = id(5);
    // the commit is dated with the store's time
    let c = s.commit_anno_cmd(&a, "---\nname: a\n");
    assert_eq!(c.env[1].1, "1600000000 +0100");
    assert_eq!(
        c.args,
        strs(&["commit-tree", "-p", &hex::encode(id(4)), "-m", "name: a", &hex::encode(id(5))])
    );
    // the time of the file that the metadata hold plays no part
    a.data.insert("mtime".to_string(), Value::Integer(1_234_567));
    let c = s.commit_anno_cmd(&a, "x");
    assert_eq!(c.env[1], ("GIT_AUTHOR_DATE".to_string(), "1600000000 +0100".to_string()));
    assert_eq!(c.env[2], ("GIT_COMMITTER_DATE".to_string(), "1600000000 +0100".to_string()));
}

#[test]
fn commands_of_the_content_store() {
    let s = store();
    assert_cmd(
        &s.import_cmd("dir/a.txt"),
        "bup256",
        &[("BUP_DIR", "/repo"), ("BUP_FORCE_TTY", "3"), ("LC_ALL", "C")],
        &["split", "-t", "dir/a.txt"],
    );
    assert_cmd(
        &s.spawn_bup_join(&id(9)),
        "bup256",
        &[("BUP_DIR", "/repo"), ("LC_ALL", "C")],
        &["join", &hex::encode(id(9))],
    );
}

#[test]
fn reading_ids_that_commands_wrote() {
    let h = hex::encode(id(0xab));
    assert_eq!(read_output_id(format!("{}\n", h).as_bytes()), Some(id(0xab)));
    assert_eq!(read_output_id(format!("  {}  \r\n", h.to_uppercase()).as_bytes()), Some(id(0xab)));
    assert_eq!(read_output_id(h[..62].as_bytes()), None);
    assert_eq!(read_output_id(b""), None);
    assert_eq!(read_output_id(format!("{} x", h).as_bytes()), None);
    assert_eq!(read_output_id(&[0xff, 0xfe]), None);

    assert_eq!(Store::git_show_ref(&ok(&h)).unwrap(), Some(id(0xab)));
    assert_eq!(Store::git_show_ref(&failed()).unwrap(), None);
    assert!(matches!(Store::git_show_ref(&ok("zz")), Err(Error::Format(_))));
    assert!(Store::git_update_ref(&ok("")).is_ok());
    assert!(
        matches!(Store::git_update_ref(&failed()), Err(Error::Simple(ref m)) if m == "git update-ref fail")
    );
    assert_eq!(Store::write_tree(&ok(&h)).unwrap(), id(0xab));
    assert_eq!(Store::commit_tree(&ok(&h)).unwrap(), id(0xab));
    assert_eq!(Store::import(&ok(&h)).unwrap(), id(0xab));
    assert!(matches!(Store::import(&failed()), Err(Error::Simple(_))));
    assert!(matches!(Store::import(&ok("short")), Err(Error::Format(_))));
    assert!(matches!(Store::commit_tree(&failed()), Err(Error::Simple(_))));
    assert!(matches!(Store::write_tree(&failed()), Err(Error::Simple(_))));
}

#[test]
fn reading_objects_that_commands_wrote() {
    let text = format!("tree {}\nparent {}\n\nname: a\n", hex::encode(id(1)), hex::encode(id(2)));
    let c = Store::read_commit(&ok(&text)).unwrap();
    assert_eq!(c.tree, id(1));
    assert_eq!(c.parent, vec![id(2)]);
    assert_eq!(c.comment, "name: a\n");
    assert!(matches!(Store::read_commit(&failed()), Err(Error::Simple(_))));
    let bad = Output { success: true, stdout: vec![0xff] };
    assert!(matches!(Store::read_commit(&bad), Err(Error::Format(_))));

    let mut tree = Tree::new();
    tree.insert(TreeEntry { name: "ab".to_string(), oid: id(1), mode: Type::Commit });
    let out = Output { success: true, stdout: tree.encode() };
    assert_eq!(Store::read_tree(&out).unwrap().get("ab"), Some((id(1), Type::Commit)));
    assert!(matches!(Store::read_tree(&failed()), Err(Error::Simple(_))));

    let mut data = Data::new();
    data.insert("name".to_string(), Value::Text("a".to_string()));
    let a = Store::read_commit_anno(&c, data, Some("name: a\n"), predefined()).unwrap();
    assert_eq!(a.pid, vec![id(2)]);
    assert_eq!(a.fid, id(1));
    assert_eq!(a.anno_hash, calc_id_buf(b"name: a\n"));
    assert_eq!(a.rpath, "a");
}

#[test]
fn reading_the_list_of_refs() {
    let text = format!(
        "{} refs/heads/a\n{} refs/remotes/a/localhost extra\r\n",
        hex::encode(id(1)),
        hex::encode(id(2))
    );
    let refs = Store::git_show_ref_all(&ok(&text)).unwrap();
    assert_eq!(refs.len(), 2);
    assert_eq!(refs.get("refs/heads/a"), Some(&id(1)));
    assert_eq!(refs.get("refs/remotes/a/localhost"), Some(&id(2)));
    assert_eq!(Store::git_show_ref_all(&failed()).unwrap().len(), 0);
    assert_eq!(Store::git_show_ref_all(&ok("")).unwrap().len(), 0);
    assert!(matches!(Store::git_show_ref_all(&ok("abc name\n")), Err(Error::Format(_))));
    let no_name = format!("{}\n", hex::encode(id(1)));
    assert!(matches!(Store::git_show_ref_all(&ok(&no_name)), Err(Error::Format(_))));
    let blank_line = format!("{} a\n\n", hex::encode(id(1)));
    assert!(matches!(Store::git_show_ref_all(&ok(&blank_line)), Err(Error::Format(_))));
}

#[test]
fn sets_of_ids() {
    assert_eq!(compare_ids(&id(1), &id(2)), Rank::Less);
    assert_eq!(compare_ids(&id(2), &id(1)), Rank::Greater);
    assert_eq!(compare_ids(&id2(1, 2), &id2(1, 2)), Rank::Equal);
    assert_eq!(compare_ids(&id2(1, 2), &id2(1, 3)), Rank::Less);
    let mut list: Vec<[u8; 32]> = Vec::new();
    for x in [id(5), id(1), id(9), id(5), id(3), id(1)] {
        insert_id(&mut list, x);
    }
    assert_eq!(list, vec![id(1), id(3), id(5), id(9)]);

    let mut tree = Tree::new();
    tree.insert(TreeEntry { name: "a".to_string(), oid: id(9), mode: Type::Commit });
    tree.insert(TreeEntry { name: "b".to_string(), oid: id(1), mode: Type::Blob(0o100644) });
    tree.insert(TreeEntry { name: "c".to_string(), oid: id(2), mode: Type::Commit });
    tree.insert(TreeEntry { name: "d".to_string(), oid: id(9), mode: Type::Commit });
    tree.insert(TreeEntry { name: "e".to_string(), oid: id(4), mode: Type::Tree });
    assert_eq!(commit_ids(&tree), vec![id(2), id(9)]);
}

#[test]
fn the_tree_of_a_changeset() {
    let (tree, len) = changeset_tree(&vec![id2(0xab, 1), id2(0xab, 2), id2(0x01, 0)]);
    assert_eq!(len, 2);
    assert_eq!(tree.len(), 3);
    assert_eq!(tree.entry(0).name, "0100");
    assert_eq!(tree.entry(1).name, "ab01");
    assert_eq!(tree.entry(2).name, "ab02");
    assert_eq!(tree.entry(2).oid, id2(0xab, 2));
    assert_eq!(tree.entry(2).mode, Type::Commit);
    let (tree, len) = changeset_tree(&vec![id(1), id(1)]);
    assert_eq!(len, 32);
    assert_eq!(tree.len(), 1);
}

// A driver that answers the requests of a commit from memory.
struct Fake {
    probes: Vec<(i64, i64, i64)>,
    log: Vec<String>,
    next_id: u8,
    tip: Option<[u8; 32]>,
}

fn render(data: &Data) -> String {
    let mut s = String::from("---\n");
    for i in 0..data.len() {
        s.push_str(&format!("{}: {:?}\n", data.key_at(i), data.value_at(i)));
    }
    s
}

impl Fake {
    fn probe(&self, i: usize) -> Probe {
        let (f, m, y) = self.probes[i];
        Probe {
            file: Some(FileStat { mtime: Stamp { secs: f, nanos: 0 }, size: 3 }),
            meta: Some(Stamp { secs: m, nanos: 0 }),
            yaml: Some(Stamp { secs: y, nanos: 0 }),
            mime: "text/plain".to_string(),
        }
    }

    fn fresh(&mut self) -> Output {
        self.next_id += 1;
        ok(&hex::encode(id(self.next_id)))
    }

    fn run(&mut self, s: &mut Store, m: &mut Manifest) -> Result<nephrite4::store::CommitResult, Error> {
        let mut run = CommitRun::new();
        let mut reply = Reply::Begin { now: 1000, offset: 0 };
        loop {
            let req = s.commit(&mut run, m, reply)?;
            reply = match req {
                Request::Probe(i) => {
                    self.log.push(format!("probe {}", i));
                    Reply::Probed {
                        probe: self.probe(i),
                        yaml: render(&m.anno_map.value_at(i).data),
                        path: format!("files/{}", m.anno_map.key_at(i)),
                    }
                }
                Request::Render(i) => {
                    self.log.push(format!("render {}", i));
                    Reply::Rendered(render(&m.anno_map.value_at(i).data))
                }
                Request::Run(cmd) => {
                    self.log.push(format!("{} {}", cmd.program, cmd.args.join(" ")));
                    if cmd.args[0] == "commit-tree" {
                        // every commit is dated with the time at which the run began
                        assert_eq!(cmd.env[1].1, "1000 +0000");
                        assert_eq!(cmd.env[2].1, "1000 +0000");
                    }
                    let out = match (cmd.program.as_str(), cmd.args[0].as_str()) {
                        ("git", "show-ref") => match self.tip {
                            Some(t) => ok(&hex::encode(t)),
                            None => failed(),
                        },
                        ("git", "update-ref") => {
                            self.tip = nephrite4::util::hex_to_id(&cmd.args[2]);
                            ok("")
                        }
                        _ => self.fresh(),
                    };
                    Reply::Ran(out)
                }
                Request::Save { at: i, meta, yaml } => {
                    self.log.push(format!("save {}", i));
                    // what is to be written is the annotation as it now stands
                    let anno = m.anno_map.value_at(i);
                    assert_eq!(meta, anno.meta_text());
                    assert_eq!(yaml, render(&anno.data));
                    assert_eq!(anno.anno_hash, calc_id_buf(yaml.as_bytes()));
                    // saving sets the three times to that of the file
                    let f = self.probes[i].0;
                    self.probes[i] = (f, f, f);
                    Reply::Saved
                }
                Request::Finish(res) => return Ok(res),
            };
        }
    }
}

fn two_files() -> Manifest {
    let mut a = Anno::blank("m", "a.txt", predefined());
    a.data.insert("name".to_string(), Value::Text("a.txt".to_string()));
    let mut b = Anno::blank("m", "b.txt", predefined());
    b.data.insert("name".to_string(), Value::Text("b.txt".to_string()));
    Manifest::new("m", vec![("b.txt".to_string(), Ok(b)), ("a.txt".to_string(), Ok(a))])
}

#[test]
fn commit_of_new_files_then_of_nothing() {
    let mut s = store();
    let mut m = two_files();
    let mut fake = Fake { probes: vec![(5, 0, 0), (6, 0, 0)], log: vec![], next_id: 0, tip: None };
    let res = fake.run(&mut s, &mut m).unwrap();
    // ids are handed out in order: import a, commit a, import b, commit b, tree, changeset
    assert_eq!(res.obj_list, vec![id(2), id(4)]);
    assert_eq!(res.oid, Some(id(6)));
    assert_eq!(fake.tip, Some(id(6)));
    assert_eq!(s.date, 1000);
    let a = m.anno_map.get("a.txt").unwrap();
    assert_eq!(a.fid, id(1));
    assert_eq!(a.pid, vec![id(2)]);
    assert_eq!(a.anno_hash, calc_id_buf(render(&a.data).as_bytes()));
    let b = m.anno_map.get("b.txt").unwrap();
    assert_eq!(b.fid, id(3));
    assert_eq!(b.pid, vec![id(4)]);
    let h = |b: u8| hex::encode(id(b));
    assert_eq!(
        fake.log,
        vec![
            "probe 0".to_string(),
            "bup256 split -t files/a.txt".to_string(),
            "render 0".to_string(),
            format!("git commit-tree -m {} {}", "mtime: Integer(5000)\nname: Text(\"a.txt\")\nsize: Integer(3)\ntype: Text(\"text/plain\")", h(1)),
            "save 0".to_string(),
            "probe 1".to_string(),
            "bup256 split -t files/b.txt".to_string(),
            "render 1".to_string(),
            format!("git commit-tree -m {} {}", "mtime: Integer(6000)\nname: Text(\"b.txt\")\nsize: Integer(3)\ntype: Text(\"text/plain\")", h(3)),
            "save 1".to_string(),
            "git hash-object -t tree --stdin -w".to_string(),
            "git show-ref --verify --hash refs/remotes/localhost/localhost".to_string(),
            format!("git commit-tree -m  {}", h(5)),
            format!("git update-ref refs/remotes/localhost/localhost {}", h(6)),
        ]
    );

    // a second commit with nothing changed imports nothing and writes nothing
    fake.log.clear();
    let res = fake.run(&mut s, &mut m).unwrap();
    assert!(res.obj_list.is_empty());
    assert_eq!(res.oid, None);
    assert_eq!(fake.log, vec!["probe 0", "probe 1"]);
    assert_eq!(fake.tip, Some(id(6)));
}

#[test]
fn commit_after_an_edit_records_without_importing() {
    let mut s = store();
    let mut m = two_files();
    let mut fake = Fake { probes: vec![(5, 0, 0), (6, 0, 0)], log: vec![], next_id: 0, tip: None };
    fake.run(&mut s, &mut m).unwrap();
    let mut a = Anno::blank("m", "a.txt", predefined());
    {
        let old = m.anno_map.get("a.txt").unwrap();
        a.pid = old.pid.clone();
        a.fid = old.fid;
        a.anno_hash = old.anno_hash;
        for i in 0..old.data.len() {
            let v = match old.data.value_at(i) {
                Value::Integer(n) => Value::Integer(*n),
                Value::Text(t) => Value::Text(t.clone()),
                _ => Value::Null,
            };
            a.data.insert(old.data.key_at(i).clone(), v);
        }
    }
    a.proc_op(&["+urgent".to_string()], false);
    m.add("a.txt", a);
    fake.log.clear();
    let res = fake.run(&mut s, &mut m).unwrap();
    assert_eq!(res.obj_list, vec![id(7)]);
    assert_eq!(res.oid, Some(id(9)));
    let a = m.anno_map.get("a.txt").unwrap();
    assert_eq!(a.fid, id(1));
    assert_eq!(a.pid, vec![id(7)]);
    assert_eq!(fake.log[0], "probe 0");
    assert_eq!(fake.log[1], "render 0");
    assert!(fake.log[2].starts_with(&format!("git commit-tree -p {} -m ", hex::encode(id(2)))));
    assert_eq!(fake.log[3], "save 0");
    assert_eq!(fake.log[4], "probe 1");
    assert_eq!(fake.log[5], "git hash-object -t tree --stdin -w");
    // the changeset's commit follows the tip
    assert_eq!(
        fake.log[7],
        format!("git commit-tree -p {} -m  {}", hex::encode(id(6)), hex::encode(id(8)))
    );
}

#[test]
fn commit_failures_name_the_stage_and_the_annotation() {
    let mut s = store();
    let mut m = two_files();
    let mut run = CommitRun::new();
    s.commit(&mut run, &mut m, Reply::Begin { now: 1, offset: 0 }).unwrap();
    let p = Probe { file: None, meta: None, yaml: None, mime: String::new() };
    let r = s.commit(&mut run, &mut m, Reply::Probed { probe: p, yaml: String::new(), path: "a".to_string() });
    assert!(matches!(
        r,
        Err(Error::IO(IoKind::Unreadable, ref m)) if m == "status of a.txt: sidecar cannot be read"
    ));

    let mut fake = Fake { probes: vec![(5, 0, 0), (6, 0, 0)], log: vec![], next_id: 0, tip: None };
    let mut m = two_files();
    let mut run = CommitRun::new();
    s.commit(&mut run, &mut m, Reply::Begin { now: 1, offset: 0 }).unwrap();
    let r = s.commit(
        &mut run,
        &mut m,
        Reply::Probed { probe: fake.probe(0), yaml: String::new(), path: "a".to_string() },
    );
    assert!(matches!(r, Ok(Request::Run(_))));
    let r = s.commit(&mut run, &mut m, Reply::Ran(fake.fresh()));
    assert!(matches!(r, Ok(Request::Render(0))));
    let r = s.commit(&mut run, &mut m, Reply::Rendered("x".to_string()));
    assert!(matches!(r, Ok(Request::Run(_))));
    let r = s.commit(&mut run, &mut m, Reply::Ran(ok("not an id")));
    assert!(
        matches!(r, Err(Error::Format(ref m)) if m == "commit of a.txt: command did not write an id")
    );
}

#[test]
fn commit_of_an_empty_manifest() {
    let mut s = store();
    let mut m = Manifest::new("m", vec![]);
    let mut run = CommitRun::new();
    let r = s.commit(&mut run, &mut m, Reply::Begin { now: 1, offset: 0 }).unwrap();
    match r {
        Request::Finish(res) => {
            assert!(res.obj_list.is_empty());
            assert_eq!(res.oid, None);
        }
        _ => panic!("not over"),
    }
}

#[test]
fn commit_fails_on_a_failed_command_and_on_a_wrong_reply() {
    let mut s = store();
    let mut m = two_files();
    let mut run = CommitRun::new();
    s.commit(&mut run, &mut m, Reply::Begin { now: 1, offset: 0 }).unwrap();
    let p = Probe {
        file: Some(FileStat { mtime: Stamp { secs: 1, nanos: 0 }, size: 1 }),
        meta: Some(Stamp { secs: 1, nanos: 0 }),
        yaml: Some(Stamp { secs: 1, nanos: 0 }),
        mime: String::new(),
    };
    let r = s.commit(&mut run, &mut m, Reply::Probed { probe: p, yaml: String::new(), path: "a".to_string() });
    assert!(matches!(r, Ok(Request::Run(_))));
    let r = s.commit(&mut run, &mut m, Reply::Ran(failed()));
    assert!(matches!(r, Err(Error::Simple(ref m)) if m == "import of a.txt: bup split fail"));
    // the run is over
    let r = s.commit(&mut run, &mut m, Reply::Saved);
    assert!(
        matches!(r, Err(Error::Simple(ref m)) if m == "done: reply does not answer the request")
    );

    let mut run = CommitRun::new();
    let r = s.commit(&mut run, &mut m, Reply::Saved);
    assert!(matches!(r, Err(Error::Simple(_))));
}

// A store with commits in memory, to walk.
fn commit_text(tree: u8, parents: &[u8]) -> String {
    let mut s = format!("tree {}\n", hex::encode(id(tree)));
    for p in parents {
        s.push_str(&format!("parent {}\n", hex::encode(id(*p))));
    }
    s.push_str("\n");
    s
}

fn tree_bytes(commits: &[u8]) -> Vec<u8> {
    let mut t = Tree::new();
    for c in commits {
        t.insert(TreeEntry { name: format!("{:02x}", c), oid: id(*c), mode: Type::Commit });
    }
    t.insert(TreeEntry { name: "readme".to_string(), oid: id(0xee), mode: Type::Blob(0o100644) });
    t.encode()
}

fn walk(tip: Option<u8>, boundary: Option<u8>) -> Result<Vec<([u8; 32], Vec<[u8; 32]>)>, Error> {
    // changeset commits 10 <- 11 <- 12, and 13 merging 12 and 10; trees 20+n
    let s = store();
    let mut w = Walk::new();
    let mut out: Option<Output> = None;
    loop {
        let cmd = match s.walk_cset("work", &mut w, out)? {
            WalkRequest::Finish(found) => return Ok(found),
            WalkRequest::Run(cmd) => cmd,
        };
        let last = cmd.args.last().unwrap().clone();
        let answer = match cmd.args[0].as_str() {
            "show-ref" => {
                let which = if last == "refs/remotes/work/localhost" { tip } else { boundary };
                assert!(last == "refs/remotes/work/localhost" || last == "refs/heads/work");
                match which {
                    Some(t) => ok(&hex::encode(id(t))),
                    None => failed(),
                }
            }
            "cat-file" => {
                let n = nephrite4::util::hex_to_id(&last).unwrap()[0];
                if cmd.args[1] == "commit" {
                    let parents: Vec<u8> = match n {
                        10 => vec![],
                        11 => vec![10],
                        12 => vec![11],
                        13 => vec![12, 10],
                        _ => return Err(Error::Simple("no such commit".to_string())),
                    };
                    ok(&commit_text(20 + n, &parents))
                } else {
                    Output { success: true, stdout: tree_bytes(&[n - 20 + 100, n - 20 + 90]) }
                }
            }
            _ => failed(),
        };
        out = Some(answer);
    }
}

#[test]
fn walk_of_a_whole_changeset() {
    let found = walk(Some(12), None).unwrap();
    assert_eq!(
        found,
        vec![
            (id(12), vec![id(102), id(112)]),
            (id(11), vec![id(101), id(111)]),
            (id(10), vec![id(100), id(110)]),
        ]
    );
}

#[test]
fn walk_stops_at_what_is_indexed() {
    let found = walk(Some(12), Some(11)).unwrap();
    assert_eq!(found.len(), 1);
    assert_eq!(found[0].0, id(12));
    assert_eq!(walk(Some(12), Some(12)).unwrap(), vec![]);
}

#[test]
fn walk_of_a_merge_visits_the_last_parent_first() {
    let found = walk(Some(13), Some(11)).unwrap();
    let order: Vec<u8> = found.iter().map(|(c, _)| c[0]).collect();
    assert_eq!(order, vec![13, 10, 12]);
}

#[test]
fn walk_without_a_tip_fails() {
    assert!(matches!(walk(None, None), Err(Error::Simple(_))));
}

#[test]
fn a_commit_without_parents_is_read() {
    let c = Commit::parse(&commit_text(1, &[])).unwrap();
    assert!(c.parent.is_empty());
}

#[test]
fn a_new_walk_is_empty() {
    let w = Walk::new();
    assert!(matches!(w.phase, nephrite4::store::WalkPhase::Idle));
    assert!(w.boundary.is_none());
    assert!(w.remain.is_empty());
    assert!(w.parents.is_empty());
    assert!(w.found.is_empty());
}
