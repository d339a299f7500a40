use rusty_git::commands::ls_tree;
use rusty_git::commands::tree::TreeMode;
use rusty_git::commands::tree::TreeObject;
use rusty_git::commands::tree::TreeObjects;
use rusty_git::commands::utils::compress_content;
use rusty_git::commands::utils::decode_blob_as_bytes;
use rusty_git::commands::utils::encode_object;
use rusty_git::commands::utils::materialize_object;
use rusty_git::commands::utils::try_materialize_object;
use rusty_git::commands::utils::Blob;
use rusty_git::commands::utils::BlobType;
use rusty_git::commands::utils::Checkout;
use rusty_git::commands::utils::GitError;
use rusty_git::commands::write_tree;
use rusty_git::commands::write_tree::is_ignored_path;
use rusty_git::commands::write_tree::sort_by_name;
use rusty_git::commands::write_tree::tree_content;
use rusty_git::commands::write_tree_objects;

const HELLO: &str = "3b18e512dba79e4c8300dd08aeb37f8e728b8dad";
const EMPTY: &str = "e69de29bb2d1d6434b8b29ae775ad8c2e48c5391";

fn item(mode: &str, name: &str, sha: &str) -> write_tree::TreeObject {
    write_tree::TreeObject { mode: mode.to_string(), name: name.to_string(), sha: sha.to_string() }
}

fn raw_entry(mode: &str, name: &str, sha_hex: &str) -> Vec<u8> {
    let mut v = format!("{} {}\0", mode, name).into_bytes();
    v.extend(hex::decode(sha_hex).unwrap());
    v
}

#[test]
fn tree_mode_from_text() {
    assert_eq!(TreeMode::from_bytes(b"40000"), TreeMode::Tree);
    assert_eq!(TreeMode::from_bytes(b"100644"), TreeMode::Blob);
    assert_eq!(TreeMode::from_bytes(b"040000"), TreeMode::Blob);
    assert_eq!(TreeMode::Tree.get_code(), "040000");
    assert_eq!(TreeMode::Blob.get_code(), "100644");
    assert_eq!(TreeMode::Tree.name(), "tree");
    assert_eq!(TreeMode::Blob.name(), "blob");
}

#[test]
fn tree_object_reads_one_entry() {
    let mut bytes = raw_entry("100644", "hello.txt", HELLO);
    bytes.extend(b"trailing");
    let entry = TreeObject::from_bytes(&bytes);
    assert_eq!(entry.mode, TreeMode::Blob);
    assert_eq!(entry.name, "hello.txt");
    assert_eq!(entry.sha, HELLO);
    assert_eq!(entry.total_in, 7 + 10 + 20);
    assert_eq!(entry.to_line(), format!("100644 blob {}\thello.txt", HELLO));
}

#[test]
fn tree_object_without_full_hash() {
    let entry = TreeObject::from_bytes(b"40000 dir\0abc");
    assert_eq!(entry.mode, TreeMode::Tree);
    assert_eq!(entry.name, "dir");
    assert_eq!(entry.sha, "");
    assert_eq!(entry.total_in, 10);
    let unterminated = TreeObject::from_bytes(b"100644 name");
    assert_eq!(unterminated.name, "name");
    assert_eq!(unterminated.total_in, 12);
}

#[test]
fn tree_object_name_is_read_lossily() {
    let entry = TreeObject::from_bytes(b"100644 a\xffb\0");
    assert_eq!(entry.name, "a\u{fffd}b");
}

#[test]
fn tree_objects_reads_all_entries() {
    let mut bytes = raw_entry("40000", "dir", EMPTY);
    bytes.extend(raw_entry("100644", "file", HELLO));
    let tree = TreeObjects::from_bytes(&bytes).unwrap();
    assert_eq!(tree.objects.len(), 2);
    assert_eq!(tree.objects[0].name, "dir");
    assert_eq!(tree.objects[1].sha, HELLO);
    assert_eq!(tree.names_text(), "dir\nfile\n");
    assert_eq!(
        tree.to_text(),
        format!("040000 tree {}\tdir\n100644 blob {}\tfile\n", EMPTY, HELLO)
    );
    assert_eq!(TreeObjects::from_bytes(b"").unwrap().objects.len(), 0);
}

#[test]
fn tree_objects_without_space_is_refused() {
    assert!(TreeObjects::from_bytes(b"nospace").is_none());
    let mut bytes = raw_entry("100644", "file", HELLO);
    bytes.extend(b"junk");
    assert!(TreeObjects::from_bytes(&bytes).is_none());
}

#[test]
fn empty_tree_has_the_hash_of_git() {
    let stored = write_tree_objects(&[]).unwrap();
    assert_eq!(stored.hash, "4b825dc642cb6eb9a060e54bf8d69288fbee4904");
}

#[test]
fn write_tree_sorts_entries_by_name() {
    let entries = vec![
        item("100644", "b.txt", HELLO),
        item("40000", "a", EMPTY),
        item("100644", "C", HELLO),
    ];
    let sorted = sort_by_name(&entries);
    let names: Vec<&str> = sorted.iter().map(|e| e.name.as_str()).collect();
    assert_eq!(names, vec!["C", "a", "b.txt"]);
    let mut expected = b"tree ".to_vec();
    let mut body = raw_entry("100644", "C", HELLO);
    body.extend(raw_entry("40000", "a", EMPTY));
    body.extend(raw_entry("100644", "b.txt", HELLO));
    expected.extend(format!("{}\0", body.len()).into_bytes());
    expected.extend(body);
    assert_eq!(tree_content(&entries), expected);
}

#[test]
fn sort_by_name_is_stable() {
    let entries = vec![item("1", "same", HELLO), item("2", "a", HELLO), item("3", "same", HELLO)];
    let sorted = sort_by_name(&entries);
    let modes: Vec<&str> = sorted.iter().map(|e| e.mode.as_str()).collect();
    assert_eq!(modes, vec!["2", "1", "3"]);
}

#[test]
fn ls_tree_lists_written_tree() {
    let entries = vec![item("100644", "notes.md", HELLO), item("40000", "src", EMPTY)];
    let stored = write_tree_objects(&entries).unwrap();
    assert_eq!(ls_tree(&true, &stored.compressed).unwrap(), "notes.md\nsrc\n");
    assert_eq!(
        ls_tree(&false, &stored.compressed).unwrap(),
        format!("100644 blob {}\tnotes.md\n040000 tree {}\tsrc\n", HELLO, EMPTY)
    );
}

#[test]
fn ls_tree_errors() {
    assert_eq!(ls_tree(&true, b"garbage"), Err(GitError::Decompress));
    let no_nul = compress_content(b"tree 5").unwrap();
    assert_eq!(ls_tree(&true, &no_nul), Err(GitError::MissingNul));
    let bad = compress_content(b"tree 3\0bad").unwrap();
    assert_eq!(ls_tree(&false, &bad), Err(GitError::MalformedTree));
    let empty = compress_content(b"tree 0\0").unwrap();
    assert_eq!(ls_tree(&false, &empty).unwrap(), "");
}

#[test]
fn materialize_commit_continues_with_its_tree() {
    let content = format!("tree {}\nparent x\n", HELLO);
    let blob = Blob::new_with_blob_type(BlobType::Commit, content.as_bytes());
    let steps = blob.materialize(".");
    assert_eq!(steps.len(), 1);
    match &steps[0] {
        Checkout::Object { hash, dir } => {
            assert_eq!(hash, HELLO);
            assert_eq!(dir, ".");
        },
        _ => panic!("expected an object step"),
    }
}

#[test]
fn materialize_tree_gives_files_and_directories() {
    let mut bytes = raw_entry("40000", "sub", EMPTY);
    bytes.extend(raw_entry("100644", "f.txt", HELLO));
    let blob = Blob::new_with_blob_type(BlobType::Tree, &bytes);
    let steps = blob.materialize("./repo");
    assert_eq!(steps.len(), 2);
    match &steps[0] {
        Checkout::Dir { path, hash } => {
            assert_eq!(path, "./repo/sub");
            assert_eq!(hash, EMPTY);
        },
        _ => panic!("expected a directory step"),
    }
    match &steps[1] {
        Checkout::File { path, hash } => {
            assert_eq!(path, "./repo/f.txt");
            assert_eq!(hash, HELLO);
        },
        _ => panic!("expected a file step"),
    }
}

#[test]
fn materialize_errors() {
    let short = Blob::new_with_blob_type(BlobType::Commit, b"tree abc");
    assert_eq!(short.checkout_problem(), Some(GitError::MalformedCommit));
    let mut bad_hash = b"tree ".to_vec();
    bad_hash.extend(vec![0xffu8; 40]);
    let bad = Blob::new_with_blob_type(BlobType::Commit, &bad_hash);
    assert_eq!(bad.checkout_problem(), Some(GitError::InvalidUtf8));
    let blob = Blob::new_with_blob_type(BlobType::Blob, b"text");
    assert_eq!(blob.checkout_problem(), Some(GitError::Unsupported));
    let tree = Blob::new_with_blob_type(BlobType::Tree, b"nospace");
    assert_eq!(tree.checkout_problem(), Some(GitError::MalformedTree));
}

#[test]
fn materialize_object_reads_stored_tree() {
    let entries = vec![item("100644", "a", HELLO)];
    let stored = write_tree_objects(&entries).unwrap();
    let steps = materialize_object(&stored.compressed, "out");
    assert_eq!(try_materialize_object(&stored.compressed, "out").unwrap().len(), 1);
    assert_eq!(steps.len(), 1);
    assert!(matches!(&steps[0], Checkout::File { path, .. } if path == "out/a"));
    let plain = compress_content(&encode_object(BlobType::Blob, b"x")).unwrap();
    assert!(matches!(try_materialize_object(&plain, "."), Err(GitError::Unsupported)));
    assert!(matches!(try_materialize_object(b"junk", "."), Err(GitError::Decompress)));
    let no_nul = compress_content(b"tree 5").unwrap();
    assert!(matches!(try_materialize_object(&no_nul, "."), Err(GitError::MissingNul)));
    let decoded = decode_blob_as_bytes(&stored.compressed).unwrap();
    assert!(decoded.starts_with(b"tree "));
}

#[test]
fn entry_modes_for_files_and_directories() {
    let dir = write_tree::TreeObject::for_entry(true, "src".to_string(), EMPTY.to_string());
    assert_eq!(dir.mode, "40000");
    assert_eq!(dir.name, "src");
    assert_eq!(dir.sha, EMPTY);
    let file = write_tree::TreeObject::for_entry(false, "a.rs".to_string(), HELLO.to_string());
    assert_eq!(file.mode, "100644");
    let copy = file.duplicate();
    assert_eq!(copy.name, "a.rs");
}

#[test]
fn checkout_of_a_commit_follows_its_tree() {
    let stored = rusty_git::commands::commit_tree::commit_object(HELLO, EMPTY, "message", 5, "+0100").unwrap();
    let steps = materialize_object(&stored.compressed, "work");
    assert_eq!(steps.len(), 1);
    assert!(matches!(&steps[0], Checkout::Object { hash, dir } if hash == HELLO && dir == "work"));
}

#[test]
fn tree_object_keeps_the_mode_text() {
    let entry = TreeObject::from_bytes(&raw_entry("100755", "run.sh", HELLO));
    assert_eq!(entry.mode_text, b"100755".to_vec());
    assert_eq!(entry.mode, TreeMode::Blob);
    let dir = TreeObject::from_bytes(&raw_entry("40000", "d", EMPTY));
    assert_eq!(dir.mode_text, b"40000".to_vec());
}

#[test]
fn materialize_classifies_by_the_first_mode_digit() {
    let mut bytes = raw_entry("41234", "odd_dir", EMPTY);
    bytes.extend(raw_entry("120000", "link", HELLO));
    let blob = Blob::new_with_blob_type(BlobType::Tree, &bytes);
    let steps = blob.materialize("w");
    assert_eq!(steps.len(), 2);
    assert!(matches!(&steps[0], Checkout::Dir { path, hash } if path == "w/odd_dir" && hash == EMPTY));
    assert!(matches!(&steps[1], Checkout::File { path, hash } if path == "w/link" && hash == HELLO));
}

#[test]
fn materialize_refuses_modes_it_cannot_check_out() {
    let mut bytes = raw_entry("100644", "ok", HELLO);
    bytes.extend(raw_entry("30000", "strange", HELLO));
    let blob = Blob::new_with_blob_type(BlobType::Tree, &bytes);
    assert_eq!(blob.checkout_problem(), Some(GitError::Unsupported));
    let empty_mode = Blob::new_with_blob_type(BlobType::Tree, &raw_entry("", "x", HELLO));
    assert_eq!(empty_mode.checkout_problem(), Some(GitError::Unsupported));
}

#[test]
fn upper_case_hashes_are_listed_in_lower_case() {
    let upper = HELLO.to_uppercase();
    let stored = write_tree_objects(&[item("100644", "f", &upper)]).unwrap();
    let lower = write_tree_objects(&[item("100644", "f", HELLO)]).unwrap();
    assert_eq!(stored.hash, lower.hash);
    assert_eq!(
        ls_tree(&false, &stored.compressed).unwrap(),
        format!("100644 blob {}\tf\n", HELLO)
    );
}

#[test]
fn name_only_listing_is_the_name_column() {
    let entries = vec![
        item("100644", "b", HELLO),
        item("40000", "a dir", EMPTY),
        item("100644", "z.txt", EMPTY),
    ];
    let stored = write_tree_objects(&entries).unwrap();
    let full = ls_tree(&false, &stored.compressed).unwrap();
    let names = ls_tree(&true, &stored.compressed).unwrap();
    let column: Vec<&str> = full.lines().map(|l| l.split_once('\t').unwrap().1).collect();
    let name_lines: Vec<&str> = names.lines().collect();
    assert_eq!(name_lines, column);
    assert_eq!(name_lines, vec!["a dir", "b", "z.txt"]);
}

#[test]
fn entry_parse_ignores_what_follows() {
    let entry = raw_entry("100644", "f", HELLO);
    let alone = TreeObject::from_bytes(&entry);
    let mut longer = entry.clone();
    longer.extend(raw_entry("40000", "next", EMPTY));
    let first = TreeObject::from_bytes(&longer);
    assert_eq!(alone.name, first.name);
    assert_eq!(alone.sha, first.sha);
    assert_eq!(alone.mode_text, first.mode_text);
    assert_eq!(alone.total_in, entry.len());
    assert_eq!(first.total_in, entry.len());
}

#[test]
fn entries_of_a_concatenation() {
    let a = raw_entry("100644", "one", HELLO);
    let b = raw_entry("40000", "two", EMPTY);
    let mut both = a.clone();
    both.extend(b.clone());
    let whole = TreeObjects::from_bytes(&both).unwrap();
    let first = TreeObjects::from_bytes(&a).unwrap();
    let second = TreeObjects::from_bytes(&b).unwrap();
    assert_eq!(whole.objects.len(), first.objects.len() + second.objects.len());
    assert_eq!(whole.objects[0].name, first.objects[0].name);
    assert_eq!(whole.objects[1].name, second.objects[0].name);
    assert_eq!(whole.objects[1].sha, second.objects[0].sha);
}

#[test]
fn write_tree_ignores_the_order_of_its_input() {
    let one = vec![item("100644", "b", HELLO), item("40000", "a", EMPTY), item("100644", "c", EMPTY)];
    let two = vec![item("100644", "c", EMPTY), item("100644", "b", HELLO), item("40000", "a", EMPTY)];
    let first = write_tree_objects(&one).unwrap();
    let second = write_tree_objects(&two).unwrap();
    assert_eq!(first.hash, second.hash);
    assert_eq!(tree_content(&one), tree_content(&two));
    assert_eq!(one[0].name, "b");
}

#[test]
fn the_repository_directory_is_skipped() {
    assert!(is_ignored_path("./.git"));
    assert!(is_ignored_path("./.git/objects"));
    assert!(!is_ignored_path("./.gitignore"));
    assert!(!is_ignored_path("./src/.git"));
    assert!(!is_ignored_path("./.gi"));
    assert!(!is_ignored_path("src"));
}

#[test]
fn checkout_problem_is_none_for_objects_that_check_out() {
    let mut bytes = raw_entry("40000", "d", EMPTY);
    bytes.extend(raw_entry("100644", "f", HELLO));
    let tree = Blob::new_with_blob_type(BlobType::Tree, &bytes);
    assert_eq!(tree.checkout_problem(), None);
    let commit = Blob::new_with_blob_type(BlobType::Commit, format!("tree {}\n", HELLO).as_bytes());
    assert_eq!(commit.checkout_problem(), None);
    let unknown = compress_content(b"x 1\0a").unwrap();
    assert!(matches!(try_materialize_object(&unknown, "."), Err(GitError::UnknownObjectType)));
}
