use rusty_git::commands::cat_file;
use rusty_git::commands::cat_file::try_cat_file;
use rusty_git::commands::commit_tree::commit_content;
use rusty_git::commands::commit_tree::commit_object;
use rusty_git::commands::commit_tree::i64_to_decimal;
use rusty_git::commands::hash_object;
use rusty_git::commands::hash_object::get_blob_content;
use rusty_git::commands::utils::compress_content;
use rusty_git::commands::utils::decode_blob_as_bytes;
use rusty_git::commands::utils::decode_bytes_to_string;
use rusty_git::commands::utils::encode_loose_object;
use rusty_git::commands::utils::encode_object;
use rusty_git::commands::utils::get_hash;
use rusty_git::commands::utils::hex_encode;
use rusty_git::commands::utils::parse_object;
use rusty_git::commands::utils::usize_to_decimal;
use rusty_git::commands::utils::Blob;
use rusty_git::commands::utils::BlobType;
use rusty_git::commands::utils::GitError;

fn compressed(bytes: &[u8]) -> Vec<u8> {
    compress_content(bytes).expect("compression works")
}

#[test]
fn hex_encode_gives_lower_case_digits() {
    assert_eq!(hex_encode(&[0xde, 0xad, 0xbe, 0xef, 0x00, 0x0f, 0xa0]), "deadbeef000fa0");
    assert_eq!(hex_encode(&[]), "");
}

#[test]
fn decimal_formatting() {
    assert_eq!(usize_to_decimal(0), b"0".to_vec());
    assert_eq!(usize_to_decimal(7), b"7".to_vec());
    assert_eq!(usize_to_decimal(1234567890), b"1234567890".to_vec());
    assert_eq!(i64_to_decimal(-1737837898), b"-1737837898".to_vec());
    assert_eq!(i64_to_decimal(i64::MIN), i64::MIN.to_string().into_bytes());
    assert_eq!(i64_to_decimal(i64::MAX), i64::MAX.to_string().into_bytes());
}

#[test]
fn blob_content_has_header() {
    assert_eq!(get_blob_content(b"hello"), b"blob 5\0hello".to_vec());
    assert_eq!(get_blob_content(b""), b"blob 0\0".to_vec());
    assert_eq!(encode_object(BlobType::Tree, b"xy"), b"tree 2\0xy".to_vec());
    assert_eq!(encode_object(BlobType::Commit, b"abc"), b"commit 3\0abc".to_vec());
}

#[test]
fn sha1_hashes_are_those_of_git() {
    assert_eq!(get_hash(&Vec::new()), "da39a3ee5e6b4b0d3255bfef95601890afd80709");
    let hello = hash_object(b"hello world\n").unwrap();
    assert_eq!(hello.hash, "3b18e512dba79e4c8300dd08aeb37f8e728b8dad");
    let empty = hash_object(b"").unwrap();
    assert_eq!(empty.hash, "e69de29bb2d1d6434b8b29ae775ad8c2e48c5391");
}

#[test]
fn compressed_object_decompresses_to_object_bytes() {
    let stored = hash_object(b"some text").unwrap();
    assert_ne!(stored.compressed, b"blob 9\0some text".to_vec());
    assert_eq!(decode_blob_as_bytes(&stored.compressed).unwrap(), b"blob 9\0some text".to_vec());
    assert_eq!(decode_bytes_to_string(&stored.compressed), "blob 9\0some text");
}

#[test]
fn cat_file_prints_what_hash_object_stored() {
    let stored = hash_object("héllo wörld\n".as_bytes()).unwrap();
    assert_eq!(cat_file(&stored.compressed), "héllo wörld\n");
    assert_eq!(try_cat_file(&stored.compressed).unwrap(), "héllo wörld\n");
    let empty = hash_object(b"").unwrap();
    assert_eq!(cat_file(&empty.compressed), "");
}

#[test]
fn cat_file_stops_at_the_next_nul() {
    let stored = hash_object(b"first\0second").unwrap();
    assert_eq!(cat_file(&stored.compressed), "first");
}

#[test]
fn cat_file_errors() {
    assert_eq!(try_cat_file(b"not zlib at all"), Err(GitError::Decompress));
    assert_eq!(try_cat_file(&compressed(b"blob 3 no nul")), Err(GitError::MissingNul));
    assert_eq!(try_cat_file(&compressed(b"blob 2\0\xff\xfe")), Err(GitError::InvalidUtf8));
    assert_eq!(try_cat_file(&compressed(b"\xff")), Err(GitError::InvalidUtf8));
    assert_eq!(decode_blob_as_bytes(b"\x00\x01"), Err(GitError::Decompress));
}

#[test]
fn parse_object_reads_back_encoded_object() {
    let bytes = encode_object(BlobType::Blob, b"payload\0with nul");
    let blob = parse_object(&bytes).unwrap();
    assert_eq!(blob, Blob::new_with_blob_type(BlobType::Blob, b"payload\0with nul"));
    assert_eq!(blob.blob_type(), BlobType::Blob);
    assert_eq!(blob.content(), b"payload\0with nul");
}

#[test]
fn parse_object_errors() {
    assert_eq!(parse_object(b""), Err(GitError::UnknownObjectType));
    assert_eq!(parse_object(b"xyz 1\0a"), Err(GitError::UnknownObjectType));
    assert_eq!(parse_object(b"tree 12"), Err(GitError::MissingNul));
}

#[test]
fn blob_new_from_type_codes() {
    let content = b"abc".to_vec();
    assert_eq!(Blob::new(1, &content).blob_type(), BlobType::Commit);
    assert_eq!(Blob::new(2, &content).blob_type(), BlobType::Tree);
    assert_eq!(Blob::new(3, &content).blob_type(), BlobType::Blob);
    assert_eq!(Blob::new(3, &content).content(), b"abc");
    assert_eq!(BlobType::from_letter(b'c'), BlobType::Commit);
    assert_eq!(BlobType::from_letter(b't'), BlobType::Tree);
    assert_eq!(BlobType::from_letter(b'b'), BlobType::Blob);
    assert_eq!(BlobType::Commit.name_bytes(), b"commit".to_vec());
}

#[test]
fn blob_to_loose_object_matches_hash_object() {
    let blob = Blob::new_with_blob_type(BlobType::Blob, b"hello world\n");
    let stored = blob.to_loose_object().unwrap();
    assert_eq!(stored.hash, "3b18e512dba79e4c8300dd08aeb37f8e728b8dad");
    let again = encode_loose_object(&b"blob 12\0hello world\n".to_vec()).unwrap();
    assert_eq!(again.hash, stored.hash);
    assert_eq!(again.compressed, stored.compressed);
}

#[test]
fn commit_content_is_exact() {
    let content = commit_content(
        "1d637e1670f4270c7657f123100e8828bde1c68f",
        "873d0dbcf70fa7f484bdc7057d0f34c027dff965",
        "codecrafters submit [skip ci]",
        1737837898,
        "-0500",
    );
    let expected = "tree 1d637e1670f4270c7657f123100e8828bde1c68f\n\
parent 873d0dbcf70fa7f484bdc7057d0f34c027dff965\n\
author Author <name@example.com> 1737837898 -0500\n\
committer Committer <name@example.com> 1737837898 -0500\n\
\n\
codecrafters submit [skip ci]\n";
    assert_eq!(String::from_utf8(content).unwrap(), expected);
}

#[test]
fn commit_object_is_stored_under_its_hash() {
    let stored = commit_object("t", "p", "m", 0, "+0000").unwrap();
    let bytes = decode_blob_as_bytes(&stored.compressed).unwrap();
    let content = "tree t\nparent p\nauthor Author <name@example.com> 0 +0000\ncommitter Committer <name@example.com> 0 +0000\n\nm\n";
    let expected = format!("commit {}\0{}", content.len(), content);
    assert_eq!(content.len(), 107);
    assert_eq!(bytes, expected.as_bytes().to_vec());
    assert_eq!(stored.hash, get_hash(&bytes));
}

#[test]
fn commit_tree_makes_a_commit_object() {
    let stored = rusty_git::commands::commit_tree("abc", "def", "msg").unwrap();
    let bytes = decode_blob_as_bytes(&stored.compressed).unwrap();
    let text = String::from_utf8(bytes.clone()).unwrap();
    assert!(text.starts_with("commit "));
    assert!(text.contains("\0tree abc\nparent def\nauthor Author <name@example.com> "));
    assert!(text.ends_with("\n\nmsg\n"));
    assert_eq!(stored.hash, get_hash(&bytes));
}

#[test]
fn commit_object_is_deterministic() {
    let first = commit_object("t", "p", "m", 1700000000, "+0200").unwrap();
    let second = commit_object("t", "p", "m", 1700000000, "+0200").unwrap();
    assert_eq!(first.hash, second.hash);
    assert_eq!(first.compressed, second.compressed);
}

#[test]
fn commits_at_different_seconds_differ() {
    let early = commit_content("t", "p", "m", 9, "+0000");
    let late = commit_content("t", "p", "m", 10, "+0000");
    let negative = commit_content("t", "p", "m", -9, "+0000");
    assert_ne!(early, late);
    assert_ne!(early, negative);
    let a = commit_object("t", "p", "m", 9, "+0000").unwrap();
    let b = commit_object("t", "p", "m", 10, "+0000").unwrap();
    assert_ne!(a.hash, b.hash);
}

#[test]
fn commit_tree_writes_a_utc_offset() {
    let stored = rusty_git::commands::commit_tree("abc", "def", "msg").unwrap();
    let bytes = decode_blob_as_bytes(&stored.compressed).unwrap();
    let text = String::from_utf8(bytes).unwrap();
    let author = text.lines().find(|l| l.starts_with("author ")).unwrap();
    let zone = author.rsplit(' ').next().unwrap();
    assert_eq!(zone.len(), 5);
    assert!(zone.starts_with('+') || zone.starts_with('-'));
    assert!(zone[1..].bytes().all(|b| b.is_ascii_digit()));
    let stamp = author.rsplit(' ').nth(1).unwrap();
    assert!(stamp.parse::<i64>().is_ok());
}

#[test]
fn hashes_are_forty_lower_case_hex_digits() {
    let hash = get_hash(&b"anything at all".to_vec());
    assert_eq!(hash.len(), 40);
    assert!(hash.bytes().all(|b| b.is_ascii_digit() || (b'a'..=b'f').contains(&b)));
    assert!(compress_content(b"").is_ok());
}
