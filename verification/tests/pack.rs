use rusty_git::commands::clone;
use rusty_git::commands::clone::discover_head_ref;
use rusty_git::commands::clone::make_blob_from_data;
use rusty_git::commands::clone::make_data_from_pack;
use rusty_git::commands::clone::pack_start;
use rusty_git::commands::clone::upload_pack_request;
use rusty_git::commands::clone::CloneAction;
use rusty_git::commands::clone::CloneEvent;
use rusty_git::commands::clone::CloneStage;
use rusty_git::commands::clone::ObjectType;
use rusty_git::commands::clone::PackItem;
use rusty_git::commands::utils::compress_content;
use rusty_git::commands::utils::BlobType;
use rusty_git::commands::utils::GitError;

const HEAD: &str = "47b37f1a82bfe85f6d8df52b6258b75e4343b7fd";

fn entry(type_code: u8, content: &[u8]) -> Vec<u8> {
    let mut size = content.len();
    let mut first = (type_code << 4) | (size & 0x0f) as u8;
    size >>= 4;
    let mut out = Vec::new();
    if size > 0 {
        first |= 0x80;
    }
    out.push(first);
    while size > 0 {
        let mut b = (size & 0x7f) as u8;
        size >>= 7;
        if size > 0 {
            b |= 0x80;
        }
        out.push(b);
    }
    if type_code == 7 {
        out.extend([0xabu8; 20]);
    }
    out.extend(compress_content(content).unwrap());
    out
}

fn pack(entries: &[Vec<u8>]) -> Vec<u8> {
    let mut out = b"0008NAK\n".to_vec();
    out.extend(b"PACK");
    out.extend(2u32.to_be_bytes());
    out.extend((entries.len() as u32).to_be_bytes());
    for e in entries {
        out.extend(e);
    }
    out.extend([0u8; 20]);
    out
}

fn refs_body() -> String {
    format!(
        "001e# service=git-upload-pack\n00000155{} HEAD\0multi_ack side-band-64k\n003f{} refs/heads/master\n0000",
        HEAD, HEAD
    )
}

#[test]
fn object_type_from_first_byte() {
    assert_eq!(ObjectType::from_header_byte(0x10), Some(ObjectType::Commit));
    assert_eq!(ObjectType::from_header_byte(0xa5), Some(ObjectType::Tree));
    assert_eq!(ObjectType::from_header_byte(0x3f), Some(ObjectType::Blob));
    assert_eq!(ObjectType::from_header_byte(0x40), Some(ObjectType::Tag));
    assert_eq!(ObjectType::from_header_byte(0xe0), Some(ObjectType::OfsDelta));
    assert_eq!(ObjectType::from_header_byte(0x70), Some(ObjectType::RefDelta));
    assert_eq!(ObjectType::from_header_byte(0x05), None);
    assert_eq!(ObjectType::from_header_byte(0x50), None);
}

#[test]
fn one_entry_is_read_with_its_length() {
    let content = vec![b'x'; 300];
    let mut data = entry(3, &content);
    let len = data.len();
    data.extend(b"rest");
    match make_blob_from_data(&data).unwrap() {
        PackItem::Object(blob, used) => {
            assert_eq!(used, len);
            assert_eq!(blob.blob_type(), BlobType::Blob);
            assert_eq!(blob.content(), content.as_slice());
        },
        PackItem::Delta => panic!("expected an object"),
    }
}

#[test]
fn entry_errors() {
    assert!(matches!(make_blob_from_data(&[]), Err(GitError::MalformedPack)));
    assert!(matches!(make_blob_from_data(&[0x05, 0x00]), Err(GitError::MalformedPack)));
    assert!(matches!(make_blob_from_data(&[0xb5, 0x80]), Err(GitError::MalformedPack)));
    assert!(matches!(make_blob_from_data(&[0x35, 1, 2, 3]), Err(GitError::Decompress)));
    assert!(matches!(make_blob_from_data(&entry(4, b"tag")), Err(GitError::Unsupported)));
    assert!(matches!(make_blob_from_data(&[0x75, 1, 2]), Err(GitError::MalformedPack)));
}

#[test]
fn pack_objects_in_order() {
    let data = pack(&[entry(1, b"tree abc\n"), entry(2, b""), entry(3, b"hello")]);
    let contents = make_data_from_pack(&data).unwrap();
    assert_eq!(contents.skipped_deltas, 0);
    assert_eq!(contents.objects.len(), 3);
    assert_eq!(contents.objects[0].blob_type(), BlobType::Commit);
    assert_eq!(contents.objects[0].content(), b"tree abc\n");
    assert_eq!(contents.objects[1].blob_type(), BlobType::Tree);
    assert_eq!(contents.objects[2].content(), b"hello");
}

#[test]
fn pack_stops_at_a_delta() {
    let data = pack(&[entry(3, b"one"), entry(7, b"delta"), entry(3, b"never read")]);
    let contents = make_data_from_pack(&data).unwrap();
    assert_eq!(contents.objects.len(), 1);
    assert_eq!(contents.skipped_deltas, 2);
}

#[test]
fn pack_length_prefix_may_have_a_plus() {
    let mut data = pack(&[entry(3, b"a")]);
    data[0] = b'+';
    assert_eq!(make_data_from_pack(&data).unwrap().objects.len(), 1);
    data[0] = b'-';
    assert_eq!(pack_start(&data), None);
}

#[test]
fn pack_header_errors() {
    assert_eq!(pack_start(b"00"), None);
    assert_eq!(pack_start(b"zz08NAK\nPACK"), None);
    let mut data = pack(&[entry(3, b"a")]);
    assert_eq!(pack_start(&data), Some(8));
    data[8] = b'X';
    assert_eq!(pack_start(&data), None);
    let mut v3 = pack(&[entry(3, b"a")]);
    v3[15] = 3;
    assert_eq!(pack_start(&v3), None);
    let truncated = pack(&[]);
    assert_eq!(pack_start(&truncated[..20]), Some(8));
    assert_eq!(make_data_from_pack(&truncated[..20]).unwrap().objects.len(), 0);
    assert_eq!(pack_start(&truncated[..19]), None);
    let mut missing = pack(&[entry(3, b"a")]);
    missing.truncate(23);
    assert!(matches!(make_data_from_pack(&missing), Err(GitError::Decompress)));
}

#[test]
fn head_ref_is_found_in_refs() {
    assert_eq!(discover_head_ref(&refs_body()).unwrap(), HEAD);
    assert_eq!(discover_head_ref("no such line\n").unwrap(), "");
    assert_eq!(discover_head_ref("short HEAD\n"), Err(GitError::MalformedRefs));
}

#[test]
fn request_asks_for_head() {
    let body = upload_pack_request(HEAD);
    assert_eq!(
        body,
        format!("004cwant {} side-bank-64k no-progress\n00000009done\n", HEAD).into_bytes()
    );
}

#[test]
fn clone_walks_through_its_steps() {
    let (mut session, first) = clone("https://example.com/repo", "target");
    assert!(matches!(first, CloneAction::CreateDirectory { ref dir } if dir == "target"));
    match session.step(CloneEvent::DirectoryReady) {
        CloneAction::FetchRefs { url } => {
            assert_eq!(url, "https://example.com/repo/info/refs?service=git-upload-pack")
        },
        _ => panic!("expected a refs request"),
    }
    match session.step(CloneEvent::RefsFetched(refs_body())) {
        CloneAction::FetchPack { url, body } => {
            assert_eq!(url, "https://example.com/repo/git-upload-pack");
            assert_eq!(body, upload_pack_request(HEAD));
        },
        _ => panic!("expected a pack request"),
    }
    assert_eq!(session.head, HEAD);
    let data = pack(&[entry(3, b"hello world\n"), entry(7, b"delta")]);
    match session.step(CloneEvent::PackFetched(data)) {
        CloneAction::WriteObjects { objects, skipped_deltas } => {
            assert_eq!(objects.len(), 1);
            assert_eq!(objects[0].hash, "3b18e512dba79e4c8300dd08aeb37f8e728b8dad");
            assert_eq!(skipped_deltas, 1);
        },
        _ => panic!("expected objects to write"),
    }
    assert!(matches!(session.step(CloneEvent::CheckedOut), CloneAction::Fail(GitError::UnexpectedEvent)));
    match session.step(CloneEvent::ObjectsWritten) {
        CloneAction::Checkout { head } => assert_eq!(head, HEAD),
        _ => panic!("expected a checkout"),
    }
    assert!(matches!(session.step(CloneEvent::CheckedOut), CloneAction::Done));
    assert_eq!(session.stage, CloneStage::Finished);
}

#[test]
fn clone_fails_on_bad_input() {
    let (mut session, _) = clone("u", "d");
    let _ = session.step(CloneEvent::DirectoryReady);
    assert!(matches!(
        session.step(CloneEvent::RefsFetched("x HEAD".to_string())),
        CloneAction::Fail(GitError::MalformedRefs)
    ));
    assert_eq!(session.stage, CloneStage::Finished);
    let (mut other, _) = clone("u", "d");
    let _ = other.step(CloneEvent::DirectoryReady);
    let _ = other.step(CloneEvent::RefsFetched(refs_body()));
    assert!(matches!(
        other.step(CloneEvent::PackFetched(b"0008NAK\nJUNK".to_vec())),
        CloneAction::Fail(GitError::MalformedPack)
    ));
}
