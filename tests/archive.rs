use pyarchive::cipher::CipherContext;
use pyarchive::container::{read_container, write_container, Entry};
use pyarchive::loader::{package_name, LoadError, Loader, Step};
use pyarchive::pack::{name_entries, pack, skipped_paths, stem_of, PackError, SourceFile};

fn ctx() -> CipherContext {
    CipherContext::fixed().expect("fixed key and iv decode to 16 bytes each")
}

fn file(path: &str, content: &str) -> SourceFile {
    SourceFile { path: path.to_string(), regular: true, content: content.as_bytes().to_vec() }
}

fn missing(path: &str) -> SourceFile {
    SourceFile { path: path.to_string(), regular: false, content: Vec::new() }
}

fn packed_bytes(files: &Vec<SourceFile>) -> Vec<u8> {
    match pack(&ctx(), files) {
        Ok(p) => p.archive,
        Err(_) => panic!("packing failed"),
    }
}

/// Runs a loader to the end: the modules defined, as (name, path, qualified,
/// source), and the last step.
fn run_all(l: &mut Loader) -> (Vec<(String, String, String, String)>, Step) {
    let mut defs = Vec::new();
    loop {
        match l.next_step() {
            Step::Define(d) => defs.push((d.name, d.path, d.qualified, String::from_utf8(d.source).unwrap())),
            other => return (defs, other),
        }
    }
}

#[test]
fn scenario_pack_and_load_entry_point() {
    let files = vec![file("a", "x=1"), file("b", "y=2"), file("__main__", "print(x+y)")];
    let bytes = packed_bytes(&files);
    let mut l = match Loader::open(ctx(), "dist/app.zip", bytes) {
        Ok(l) => l,
        Err(_) => panic!("open failed"),
    };
    let (defs, last) = run_all(&mut l);
    assert_eq!(
        defs,
        vec![
            ("a".to_string(), "app/a".to_string(), "app.a".to_string(), "x=1".to_string()),
            ("b".to_string(), "app/b".to_string(), "app.b".to_string(), "y=2".to_string()),
        ]
    );
    match last {
        Step::Execute(src) => assert_eq!(src, b"print(x+y)".to_vec()),
        _ => panic!("expected the entry point"),
    }
    assert!(matches!(l.next_step(), Step::Finished));
}

#[test]
fn scenario_missing_path_is_skipped() {
    let files = vec![file("src/a.py", "x=1"), missing("nope/ghost.py"), file("src/b.py", "y=2")];
    let p = match pack(&ctx(), &files) {
        Ok(p) => p,
        Err(_) => panic!("packing failed"),
    };
    assert_eq!(p.skipped, vec!["nope/ghost.py".to_string()]);
    let entries = read_container(p.archive).expect("archive reads back");
    let names: Vec<String> = entries.iter().map(|e| e.name.clone()).collect();
    assert_eq!(names, vec!["a".to_string(), "b".to_string()]);
}

#[test]
fn round_trip_restores_contents_by_stem() {
    let files = vec![file("lib/util.py", "def f():\n    return 1\n"), file("lib/empty.py", ""), file("main.py", "import util")];
    let bytes = packed_bytes(&files);
    let mut l = match Loader::open(ctx(), "pkg.bin", bytes) {
        Ok(l) => l,
        Err(_) => panic!("open failed"),
    };
    let (defs, last) = run_all(&mut l);
    let got: Vec<(String, String)> = defs.into_iter().map(|d| (d.0, d.3)).collect();
    assert_eq!(
        got,
        vec![
            ("util".to_string(), "def f():\n    return 1\n".to_string()),
            ("empty".to_string(), String::new()),
            ("main".to_string(), "import util".to_string()),
        ]
    );
    assert!(matches!(last, Step::Finished));
}

#[test]
fn order_is_kept_whatever_the_names() {
    let files = vec![file("z", "1"), file("m", "2"), file("a", "3"), file("q", "4")];
    let entries = read_container(packed_bytes(&files)).expect("archive reads back");
    let names: Vec<String> = entries.iter().map(|e| e.name.clone()).collect();
    assert_eq!(names, vec!["z", "m", "a", "q"]);
}

#[test]
fn entries_are_encrypted() {
    let files = vec![file("a", "x=1")];
    let entries = read_container(packed_bytes(&files)).expect("archive reads back");
    assert_eq!(entries.len(), 1);
    assert_eq!(entries[0].data.len(), 16);
    assert_ne!(entries[0].data, b"x=1".to_vec());
    assert_eq!(ctx().decrypt(&entries[0].data), Some(b"x=1".to_vec()));
}

#[test]
fn container_round_trip_keeps_entries() {
    let es = vec![
        Entry { name: "b".to_string(), data: vec![1, 2, 3] },
        Entry { name: "a".to_string(), data: vec![] },
    ];
    let bytes = write_container(&es).expect("container writes");
    let back = read_container(bytes).expect("container reads");
    assert_eq!(back.len(), 2);
    assert_eq!((back[0].name.as_str(), back[0].data.clone()), ("b", vec![1, 2, 3]));
    assert_eq!((back[1].name.as_str(), back[1].data.clone()), ("a", vec![]));
}

#[test]
fn last_sentinel_entry_is_the_entry_point() {
    let c = ctx();
    let es = vec![
        Entry { name: "__main__".to_string(), data: c.encrypt(b"first").unwrap() },
        Entry { name: "m".to_string(), data: c.encrypt(b"v=0").unwrap() },
        Entry { name: "__main__".to_string(), data: c.encrypt(b"second").unwrap() },
    ];
    let bytes = write_container(&es).unwrap();
    let mut l = match Loader::open(c, "p.zip", bytes) {
        Ok(l) => l,
        Err(_) => panic!("open failed"),
    };
    let (defs, last) = run_all(&mut l);
    assert_eq!(defs.len(), 1);
    assert_eq!(defs[0].0, "m");
    match last {
        Step::Execute(src) => assert_eq!(src, b"second".to_vec()),
        _ => panic!("expected the entry point"),
    }
}

#[test]
fn decode_failure_stops_the_load() {
    let c = ctx();
    let es = vec![
        Entry { name: "a".to_string(), data: c.encrypt(b"x=1").unwrap() },
        Entry { name: "bad".to_string(), data: vec![1, 2, 3, 4, 5] },
        Entry { name: "c".to_string(), data: c.encrypt(b"z=3").unwrap() },
        Entry { name: "__main__".to_string(), data: c.encrypt(b"print(x)").unwrap() },
    ];
    let bytes = write_container(&es).unwrap();
    let mut l = match Loader::open(c, "p.zip", bytes) {
        Ok(l) => l,
        Err(_) => panic!("open failed"),
    };
    let (defs, last) = run_all(&mut l);
    assert_eq!(defs.len(), 1);
    assert_eq!(defs[0].0, "a");
    match last {
        Step::Failed(LoadError::Decode(n)) => assert_eq!(n, "bad"),
        _ => panic!("expected a decode failure"),
    }
    assert!(matches!(l.next_step(), Step::Finished));
    assert!(matches!(l.next_step(), Step::Finished));
}

#[test]
fn packing_is_deterministic() {
    let files = vec![file("a.py", "x=1"), file("b.py", "y=2"), file("__main__.py", "print(x+y)")];
    assert_eq!(packed_bytes(&files), packed_bytes(&files));
}

#[test]
fn empty_archive_loads_nothing() {
    let bytes = packed_bytes(&vec![missing("gone")]);
    let mut l = match Loader::open(ctx(), "e.zip", bytes) {
        Ok(l) => l,
        Err(_) => panic!("open failed"),
    };
    let (defs, last) = run_all(&mut l);
    assert!(defs.is_empty());
    assert!(matches!(last, Step::Finished));
}

#[test]
fn duplicate_stems_are_refused() {
    let files = vec![file("x/a.py", "1"), file("y/a.txt", "2")];
    match pack(&ctx(), &files) {
        Err(PackError::DuplicateName(n)) => assert_eq!(n, "a"),
        _ => panic!("expected a duplicate name"),
    }
}

#[test]
fn path_without_file_name_is_refused() {
    let files = vec![file("a.py", "1"), file("..", "2")];
    match pack(&ctx(), &files) {
        Err(PackError::Unnamed(p)) => assert_eq!(p, ".."),
        _ => panic!("expected an unnamed path"),
    }
    assert!(matches!(name_entries(&files), Err(PackError::Unnamed(_))));
}

#[test]
fn names_are_stems_in_order() {
    let files = vec![file("dir/mod.py", ""), missing("other"), file("pkg/x.tar.gz", ""), file(".hidden", "")];
    let names = name_entries(&files).ok().unwrap();
    assert_eq!(names, vec!["mod", "x.tar", ".hidden"]);
    assert_eq!(skipped_paths(&files), vec!["other".to_string()]);
}

#[test]
fn stems_and_package_names() {
    assert_eq!(stem_of("dir/mod.py"), Some("mod".to_string()));
    assert_eq!(stem_of("/"), None);
    assert_eq!(package_name("build/app.zip"), Some("app".to_string()));
    assert_eq!(package_name(".."), None);
}

#[test]
fn open_refuses_bad_inputs() {
    assert!(matches!(Loader::open(ctx(), "x.zip", vec![1, 2, 3]), Err(LoadError::Container)));
    assert!(matches!(Loader::open(ctx(), "..", vec![]), Err(LoadError::Unnamed)));
    assert!(read_container(b"not a zip file".to_vec()).is_none());
}

#[test]
fn context_needs_sixteen_byte_key_and_iv() {
    assert!(CipherContext::new(vec![0; 16], vec![0; 16]).is_some());
    assert!(CipherContext::new(vec![0; 15], vec![0; 16]).is_none());
    assert!(CipherContext::new(vec![0; 16], vec![0; 32]).is_none());
}

#[test]
fn fixed_context_matches_literal_key() {
    let fixed = ctx();
    let key = vec![0x92, 0x3b, 0x5b, 0xc4, 0x23, 0xf0, 0xdd, 0x73, 0xc5, 0x4e, 0x16, 0xf7, 0x98, 0xa9, 0xb3, 0x7e];
    let iv = vec![0x74, 0x1d, 0x04, 0x8f, 0xee, 0xf3, 0x59, 0x95, 0x93, 0x4b, 0x92, 0x54, 0x0a, 0x57, 0x56, 0x32];
    let same = CipherContext::new(key, iv).unwrap();
    assert_eq!(fixed.encrypt(b"hello"), same.encrypt(b"hello"));
}

#[test]
fn encryption_pads_to_blocks() {
    let c = ctx();
    assert_eq!(c.encrypt(b"").unwrap(), Vec::<u8>::new());
    assert_eq!(c.encrypt(&[7u8; 16]).unwrap().len(), 32);
    assert_eq!(c.encrypt(&[7u8; 17]).unwrap().len(), 32);
    assert_eq!(c.decrypt(&c.encrypt(&[7u8; 17]).unwrap()), Some(vec![7u8; 17]));
}

#[test]
fn tampered_block_garbles_itself_and_the_next() {
    let c = ctx();
    let plain: Vec<u8> = (0u8..64).collect();
    let mut cipher = c.encrypt(&plain).unwrap();
    assert_eq!(cipher.len(), 80);
    cipher[3] ^= 0x01;
    match c.decrypt(&cipher) {
        Some(out) => {
            assert_eq!(out.len(), 64);
            assert_ne!(out[0..16], plain[0..16]);
            assert_ne!(out[16..32], plain[16..32]);
            assert_eq!(out[16..32].iter().zip(&plain[16..32]).filter(|(a, b)| a != b).count(), 1);
            assert_eq!(out[32..64], plain[32..64]);
        }
        None => panic!("padding is in the last block, which was not touched"),
    }
}

#[test]
fn tampered_final_block_may_fail_padding() {
    let c = ctx();
    let mut cipher = c.encrypt(b"abc").unwrap();
    let last = cipher.len() - 1;
    cipher[last] ^= 0xff;
    match c.decrypt(&cipher) {
        Some(out) => assert_ne!(out, b"abc".to_vec()),
        None => {}
    }
}

#[test]
fn overlong_names_do_not_fit() {
    let long = "n".repeat(16384);
    let es = vec![Entry { name: long.clone(), data: vec![] }];
    assert!(write_container(&es).is_none());
    let ok = vec![Entry { name: "n".repeat(16383), data: vec![1] }];
    let back = read_container(write_container(&ok).unwrap()).unwrap();
    assert_eq!(back[0].name.len(), 16383);
    let files = vec![file(&format!("{}.py", long), "x=1")];
    assert!(matches!(pack(&ctx(), &files), Err(PackError::Container)));
}

#[test]
fn fixed_context_always_decodes() {
    assert!(CipherContext::fixed().is_some());
}
