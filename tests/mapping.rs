use artifact_output::{MappedArtifactFile, MappedArtifactFiles, MappedContract};

struct Compiled {
    version: u32,
}

fn entry<'a>(file: &'a str, name: &'a str, contract: &'a Compiled, path: &str) -> MappedContract<'a, Compiled> {
    MappedContract { file, name, contract, artifact_path: path.to_string() }
}

#[test]
fn key_is_lowercase_path() {
    let key = MappedArtifactFile::new("out/Token.sol/Token.json");
    assert_eq!(key.as_str(), "out/token.sol/token.json");
}

#[test]
fn key_lowercases_beyond_ascii() {
    let key = MappedArtifactFile::new("OUT/ÄPFEL.JSON");
    assert_eq!(key.as_str(), "out/äpfel.json");
}

#[test]
fn key_of_empty_path_is_empty() {
    assert_eq!(MappedArtifactFile::new("").as_str(), "");
}

#[test]
fn keys_equal_iff_lowercase_equal() {
    let a = MappedArtifactFile::new("out/A.json");
    let b = MappedArtifactFile::new("OUT/a.JSON");
    let c = MappedArtifactFile::new("out/b.json");
    assert!(a == b);
    assert!(a.same_file(&b));
    assert!(a != c);
    assert!(!a.same_file(&c));
}

#[test]
fn keys_keep_other_characters() {
    let a = MappedArtifactFile::new("out/./a.json");
    let b = MappedArtifactFile::new("out/a.json");
    assert!(a != b);
    let c = MappedArtifactFile::new("out\\a.json");
    assert!(c != b);
}

#[test]
fn scenario_case_collision_one_key_in_order() {
    let ca = Compiled { version: 1 };
    let cb = Compiled { version: 2 };
    let mut files = MappedArtifactFiles::with_capacity(2);
    files.insert(entry("src/Token.sol", "Token", &ca, "out/Token.sol/Token.json"));
    files.insert(entry("src/token.sol", "Token", &cb, "out/token.sol/Token.json"));
    assert_eq!(files.len(), 1);
    let key = MappedArtifactFile::new("out/token.sol/token.json");
    assert_eq!(key.as_str(), "out/token.sol/token.json");
    let list = files.get(&key).unwrap();
    assert_eq!(list.len(), 2);
    assert_eq!(list[0].file, "src/Token.sol");
    assert_eq!(list[0].name, "Token");
    assert_eq!(list[0].contract.version, 1);
    assert_eq!(list[0].artifact_path, "out/Token.sol/Token.json");
    assert_eq!(list[1].file, "src/token.sol");
    assert_eq!(list[1].name, "Token");
    assert_eq!(list[1].contract.version, 2);
    assert_eq!(list[1].artifact_path, "out/token.sol/Token.json");
    let (k, l) = files.group_at(0);
    assert_eq!(k.as_str(), "out/token.sol/token.json");
    assert_eq!(l.len(), 2);
}

#[test]
fn scenario_distinct_paths_two_keys() {
    let ca = Compiled { version: 1 };
    let cb = Compiled { version: 2 };
    let mut files = MappedArtifactFiles::with_capacity(0);
    files.insert(entry("src/Foo.sol", "Foo", &ca, "out/Foo.sol/Foo.json"));
    files.insert(entry("src/Bar.sol", "Bar", &cb, "out/Bar.sol/Bar.json"));
    assert_eq!(files.len(), 2);
    let foo = files.get(&MappedArtifactFile::new("out/foo.sol/foo.json")).unwrap();
    assert_eq!(foo.len(), 1);
    assert_eq!(foo[0].name, "Foo");
    assert_eq!(foo[0].contract.version, 1);
    let bar = files.get(&MappedArtifactFile::new("out/bar.sol/bar.json")).unwrap();
    assert_eq!(bar.len(), 1);
    assert_eq!(bar[0].name, "Bar");
    assert_eq!(bar[0].contract.version, 2);
    assert_eq!(files.group_at(0).0.as_str(), "out/foo.sol/foo.json");
    assert_eq!(files.group_at(1).0.as_str(), "out/bar.sol/bar.json");
}

#[test]
fn identical_paths_collide() {
    let ca = Compiled { version: 1 };
    let cb = Compiled { version: 2 };
    let mut files = MappedArtifactFiles::with_capacity(2);
    files.insert(entry("a/X.sol", "X", &ca, "out/X.sol/X.json"));
    files.insert(entry("b/X.sol", "X", &cb, "out/X.sol/X.json"));
    assert_eq!(files.len(), 1);
    let list = files.get(&MappedArtifactFile::new("out/X.sol/X.json")).unwrap();
    assert_eq!(list.len(), 2);
    assert_eq!(list[0].file, "a/X.sol");
    assert_eq!(list[1].file, "b/X.sol");
}

#[test]
fn new_container_is_empty() {
    let files: MappedArtifactFiles<Compiled> = MappedArtifactFiles::with_capacity(16);
    assert_eq!(files.len(), 0);
    let key = MappedArtifactFile::new("out/a.json");
    assert!(files.get(&key).is_none());
    assert!(!files.contains_key(&key));
}

#[test]
fn capacity_does_not_change_grouping() {
    let cs = [Compiled { version: 1 }, Compiled { version: 2 }, Compiled { version: 3 }];
    let paths = ["out/A.json", "out/B.json", "out/C.json"];
    let mut sized = MappedArtifactFiles::with_capacity(3);
    let mut unsized_ = MappedArtifactFiles::with_capacity(0);
    for i in 0..3 {
        sized.insert(entry("src/x.sol", "X", &cs[i], paths[i]));
        unsized_.insert(entry("src/x.sol", "X", &cs[i], paths[i]));
    }
    assert_eq!(sized.len(), 3);
    assert_eq!(unsized_.len(), 3);
    for i in 0..3 {
        let (ks, ls) = sized.group_at(i);
        let (ku, lu) = unsized_.group_at(i);
        assert_eq!(ks.as_str(), ku.as_str());
        assert_eq!(ls.len(), 1);
        assert_eq!(lu.len(), 1);
        assert_eq!(ls[0].contract.version, lu[0].contract.version);
        assert_eq!(ls[0].artifact_path, paths[i]);
    }
}

#[test]
fn every_key_has_a_non_empty_list() {
    let cs = [Compiled { version: 1 }, Compiled { version: 2 }, Compiled { version: 3 }, Compiled { version: 4 }];
    let paths = ["out/A.json", "out/a.json", "out/B.json", "OUT/A.JSON"];
    let mut files = MappedArtifactFiles::with_capacity(4);
    for i in 0..4 {
        files.insert(entry("src/x.sol", "X", &cs[i], paths[i]));
    }
    assert_eq!(files.len(), 2);
    for i in 0..files.len() {
        assert!(files.group_at(i).1.len() >= 1);
    }
    let a = files.get(&MappedArtifactFile::new("out/a.json")).unwrap();
    let versions: Vec<u32> = a.iter().map(|e| e.contract.version).collect();
    assert_eq!(versions, vec![1, 2, 4]);
}

#[test]
fn remove_takes_out_one_destination() {
    let ca = Compiled { version: 1 };
    let cb = Compiled { version: 2 };
    let mut files = MappedArtifactFiles::with_capacity(2);
    files.insert(entry("src/A.sol", "A", &ca, "out/A.json"));
    files.insert(entry("src/B.sol", "B", &cb, "out/B.json"));
    let key = MappedArtifactFile::new("out/a.json");
    let removed = files.remove(&key).unwrap();
    assert_eq!(removed.len(), 1);
    assert_eq!(removed[0].name, "A");
    assert_eq!(files.len(), 1);
    assert!(!files.contains_key(&key));
    assert!(files.contains_key(&MappedArtifactFile::new("OUT/B.JSON")));
    assert!(files.remove(&key).is_none());
    assert_eq!(files.len(), 1);
}

#[test]
fn removed_entry_can_be_reinserted_under_new_path() {
    let ca = Compiled { version: 1 };
    let cb = Compiled { version: 2 };
    let mut files = MappedArtifactFiles::with_capacity(2);
    files.insert(entry("src/Token.sol", "Token", &ca, "out/Token.sol/Token.json"));
    files.insert(entry("lib/Token.sol", "Token", &cb, "out/token.sol/Token.json"));
    let key = MappedArtifactFile::new("out/token.sol/token.json");
    let mut list = files.remove(&key).unwrap();
    let mut second = list.pop().unwrap();
    let first = list.pop().unwrap();
    second.artifact_path = "out/lib/Token.sol/Token.json".to_string();
    files.insert(first);
    files.insert(second);
    assert_eq!(files.len(), 2);
    assert_eq!(files.get(&key).unwrap().len(), 1);
    let moved = files.get(&MappedArtifactFile::new("out/lib/token.sol/token.json")).unwrap();
    assert_eq!(moved[0].file, "lib/Token.sol");
}
