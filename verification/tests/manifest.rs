use nephrite4::error::Error;
use nephrite4::proj::anno::{predefined, Anno};
use nephrite4::proj::manifest::{sidecar_rpath, Manifest};

fn anno(rpath: &str) -> Anno {
    Anno::blank("m", rpath, predefined())
}

#[test]
fn sidecar_names_give_file_paths() {
    assert_eq!(sidecar_rpath("a.txt.meta"), Some("a.txt".to_string()));
    assert_eq!(sidecar_rpath("dir/b.meta"), Some("dir/b".to_string()));
    assert_eq!(sidecar_rpath(".meta"), Some(String::new()));
    assert_eq!(sidecar_rpath("a.txt.yaml"), None);
    assert_eq!(sidecar_rpath("meta"), None);
    assert_eq!(sidecar_rpath("a.metaX"), None);
    assert_eq!(sidecar_rpath(""), None);
    assert_eq!(sidecar_rpath("\u{e9}.meta"), Some("\u{e9}".to_string()));
}

#[test]
fn discovery_passes_over_what_failed_to_load() {
    let found = vec![
        ("b".to_string(), Ok(anno("b"))),
        ("broken".to_string(), Err(nephrite4::error::err_not_found("gone"))),
        ("a".to_string(), Ok(anno("a"))),
        ("c".to_string(), Err(Error::Format("bad".to_string()))),
    ];
    let m = Manifest::new("m", found);
    assert_eq!(m.mdir, "m");
    assert_eq!(m.len(), 2);
    assert_eq!(m.anno_map.key_at(0), "a");
    assert_eq!(m.anno_map.key_at(1), "b");
    assert!(m.anno_map.get("broken").is_none());
}

#[test]
fn add_puts_in_and_overwrites() {
    let mut m = Manifest::new("m", vec![]);
    assert_eq!(m.len(), 0);
    assert_eq!(m.add("x", anno("x")), "x");
    assert_eq!(m.add("a", anno("a")), "a");
    assert_eq!(m.len(), 2);
    let mut other = anno("x");
    other.fid = [1u8; 32];
    assert_eq!(m.add("x", other), "x");
    assert_eq!(m.len(), 2);
    assert_eq!(m.anno_map.get("x").unwrap().fid, [1u8; 32]);
    assert_eq!(m.anno_map.key_at(0), "a");
}
