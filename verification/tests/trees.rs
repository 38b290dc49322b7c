use it::error::ItError;
use it::index::IndexEntry;
use it::object::{build_object, compute_hash, decompress_data, read_tree};
use it::write_tree::{build_tree, write_tree};
use sha1::{Digest, Sha1};

fn entry(fill: u8, path: &str) -> IndexEntry {
    IndexEntry { sha: [fill; 20], flags: 0, path: path.to_string() }
}

#[test]
fn nothing_to_commit() {
    match write_tree(&[]) {
        Err(ItError::NothingToCommit) => {}
        _ => panic!("expected NothingToCommit"),
    }
}

#[test]
fn single_file_tree() {
    let objs = build_tree(&[entry(7, "hello.txt")], "");
    assert_eq!(objs.len(), 1);
    let mut content = b"100644 hello.txt\x00".to_vec();
    content.extend_from_slice(&[7u8; 20]);
    let expected = build_object(&content, "tree");
    assert_eq!(objs[0].object, expected);
    assert_eq!(objs[0].id, compute_hash(&expected));
    assert_eq!(objs[0].id, hex::encode(Sha1::digest(&expected)));
}

#[test]
fn nested_tree_subtrees_first_and_sorted() {
    let entries = vec![entry(1, "src/main.rs"), entry(2, "README.md"), entry(3, "src/lib.rs")];
    let objs = build_tree(&entries, "");
    assert_eq!(objs.len(), 2);
    // the subtree src: lib.rs before main.rs
    let mut sub = b"100644 lib.rs\x00".to_vec();
    sub.extend_from_slice(&[3u8; 20]);
    sub.extend_from_slice(b"100644 main.rs\x00");
    sub.extend_from_slice(&[1u8; 20]);
    let sub_obj = build_object(&sub, "tree");
    assert_eq!(objs[0].object, sub_obj);
    // the top tree: README.md before src
    let mut top = b"100644 README.md\x00".to_vec();
    top.extend_from_slice(&[2u8; 20]);
    top.extend_from_slice(b"040000 src\x00");
    top.extend_from_slice(Sha1::digest(&sub_obj).as_slice());
    let top_obj = build_object(&top, "tree");
    assert_eq!(objs[1].object, top_obj);
    assert_eq!(objs[1].id, compute_hash(&top_obj));
}

#[test]
fn build_tree_below_a_prefix() {
    let entries = vec![entry(1, "a/b/c.txt"), entry(2, "a/d.txt"), entry(3, "e.txt")];
    let objs = build_tree(&entries, "a");
    assert_eq!(objs.len(), 2);
    let items = read_tree(&objs[1].object);
    assert_eq!(items.len(), 2);
    assert_eq!(items[0].name, "b");
    assert!(items[0].is_dir);
    assert_eq!(items[1].name, "d.txt");
    assert!(!items[1].is_dir);
}

#[test]
fn repeated_path_is_a_directory() {
    // two entries for the same name form a group of two: a (here empty) subtree
    let entries = vec![entry(1, "x"), entry(2, "x")];
    let objs = build_tree(&entries, "");
    assert_eq!(objs.len(), 2);
    assert_eq!(objs[0].object, b"tree 0\x00".to_vec());
    let items = read_tree(&objs[1].object);
    assert_eq!(items.len(), 1);
    assert!(items[0].is_dir);
    assert_eq!(items[0].name, "x");
}

#[test]
fn write_tree_stores_every_tree() {
    let entries = vec![entry(1, "src/main.rs"), entry(2, "README.md")];
    let w = match write_tree(&entries) {
        Ok(w) => w,
        Err(_) => panic!("write_tree failed"),
    };
    let objs = build_tree(&entries, "");
    assert_eq!(w.stored.len(), objs.len());
    assert_eq!(w.id, objs[objs.len() - 1].id);
    for (s, o) in w.stored.iter().zip(objs.iter()) {
        assert_eq!(s.id, o.id);
        assert_eq!(decompress_data(&s.compressed).unwrap(), o.object);
    }
    let top = decompress_data(&w.stored[w.stored.len() - 1].compressed).unwrap();
    let items = read_tree(&top);
    assert_eq!(items[0].name, "README.md");
    assert_eq!(items[1].name, "src");
    assert!(items[1].is_dir);
}

fn ids(objs: &[it::write_tree::TreeObject]) -> Vec<(String, Vec<u8>)> {
    objs.iter().map(|o| (o.id.clone(), o.object.clone())).collect()
}

#[test]
fn trees_ignore_entry_order() {
    let a = vec![entry(1, "src/main.rs"), entry(2, "README.md"), entry(3, "src/lib.rs"), entry(4, "doc/x")];
    let b = vec![entry(4, "doc/x"), entry(3, "src/lib.rs"), entry(1, "src/main.rs"), entry(2, "README.md")];
    assert_eq!(ids(&build_tree(&a, "")), ids(&build_tree(&b, "")));
    assert_eq!(ids(&build_tree(&a, "src")), ids(&build_tree(&b, "src")));
}

#[test]
fn trees_ignore_flags() {
    let a = vec![entry(1, "src/main.rs"), entry(2, "README.md")];
    let mut b = vec![entry(1, "src/main.rs"), entry(2, "README.md")];
    b[0].flags = 0x1234;
    b[1].flags = 0xffff;
    assert_eq!(ids(&build_tree(&a, "")), ids(&build_tree(&b, "")));
}

#[test]
fn trees_below_ignore_entries_outside() {
    let a = vec![entry(1, "src/main.rs"), entry(2, "README.md"), entry(3, "src/lib.rs")];
    let b = vec![entry(1, "src/main.rs"), entry(3, "src/lib.rs"), entry(9, "srcx/other")];
    assert_eq!(ids(&build_tree(&a, "src")), ids(&build_tree(&b, "src")));
}

fn restore_into(
    store: &std::collections::HashMap<String, Vec<u8>>,
    id: &str,
    dir: &str,
    out: &mut std::collections::HashMap<String, Vec<u8>>,
) {
    let tree = &store[id];
    for step in it::switch::restore_steps(tree) {
        let path = if dir.is_empty() { step.name.clone() } else { format!("{}/{}", dir, step.name) };
        if step.is_dir {
            restore_into(store, &step.id, &path, out);
        } else {
            out.insert(path, it::object::read_body(&store[&step.id]));
        }
    }
}

#[test]
fn restoring_the_written_tree_gives_the_files_back() {
    let files: Vec<(&str, &[u8])> =
        vec![("src/main.rs", b"fn main() {}\n"), ("README.md", b"hello"), ("src/util/x.txt", b"")];
    let mut store = std::collections::HashMap::new();
    let mut entries = Vec::new();
    for (path, content) in &files {
        let blob = build_object(content, "blob");
        let digest = Sha1::digest(&blob);
        let mut sha = [0u8; 20];
        sha.copy_from_slice(digest.as_slice());
        store.insert(compute_hash(&blob), blob);
        entries.push(IndexEntry { sha, flags: 0, path: path.to_string() });
    }
    let objs = build_tree(&entries, "");
    for o in &objs {
        store.insert(o.id.clone(), o.object.clone());
    }
    let mut out = std::collections::HashMap::new();
    restore_into(&store, &objs[objs.len() - 1].id, "", &mut out);
    assert_eq!(out.len(), files.len());
    for (path, content) in &files {
        assert_eq!(out[*path], content.to_vec());
    }
}
