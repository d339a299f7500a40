use vstd::prelude::*;
use vstd::string::StringSliceAdditionalSpecFns;
use vstd::utf8::encode_utf8;
use super::bindings::is_utc_offset_text;
use super::bindings::local_time_now;
use super::utils::encode_loose_object;
use super::utils::encode_object;
use super::utils::loose_object_of;
use super::utils::spec_decimal;
use super::utils::spec_object_bytes;
use super::utils::BlobType;
use super::utils::GitError;
use super::utils::LooseObject;

verus! {

/// The decimal text of a signed number, with `-` before a negative one.
pub open spec fn spec_i64_decimal(n: i64) -> Seq<u8> {
    if n < 0 {
        seq![45u8] + spec_decimal((-(n as int)) as nat)
    } else {
        spec_decimal(n as nat)
    }
}

/// Formats `n` in decimal, as `n.to_string()` does.
pub fn i64_to_decimal(n: i64) -> (r: Vec<u8>)
    ensures
        r@ == spec_i64_decimal(n),
{
    if n < 0 {
        let magnitude: u64 = if n == i64::MIN {
            9223372036854775808u64
        } else {
            (-n) as u64
        };
        let mut v: Vec<u8> = Vec::new();
        v.push(45u8);
        let mut digits = u64_to_decimal(magnitude);
        v.append(&mut digits);
        v
    } else {
        u64_to_decimal(n as u64)
    }
}

fn u64_to_decimal(n: u64) -> (r: Vec<u8>)
    ensures
        r@ == spec_decimal(n as nat),
    decreases n,
{
    if n < 10 {
        let mut v: Vec<u8> = Vec::new();
        v.push(48u8 + n as u8);
        v
    } else {
        let mut v = u64_to_decimal(n / 10);
        v.push(48u8 + (n % 10) as u8);
        v
    }
}

/// The content of a commit object: the tree, one parent, author and committer with the
/// given time and UTC offset, an empty line, and the message with a final newline.
pub open spec fn spec_commit_content(
    tree_sha: Seq<u8>,
    parent_sha: Seq<u8>,
    message: Seq<u8>,
    date_secs: i64,
    timezone: Seq<u8>,
) -> Seq<u8> {
    "tree ".spec_bytes() + tree_sha + "\nparent ".spec_bytes() + parent_sha
        + "\nauthor Author <name@example.com> ".spec_bytes() + spec_i64_decimal(date_secs)
        + " ".spec_bytes() + timezone + "\ncommitter Committer <name@example.com> ".spec_bytes()
        + spec_i64_decimal(date_secs) + " ".spec_bytes() + timezone + "\n\n".spec_bytes()
        + message + "\n".spec_bytes()
}

/// The content of a commit object made at `date_secs` in the zone `timezone`.
pub fn commit_content(
    tree_sha: &str,
    parent_sha: &str,
    message: &str,
    date_secs: i64,
    timezone: &str,
) -> (r: Vec<u8>)
    ensures
        r@ == spec_commit_content(
            tree_sha.spec_bytes(),
            parent_sha.spec_bytes(),
            message.spec_bytes(),
            date_secs,
            timezone.spec_bytes(),
        ),
{
    let mut content: Vec<u8> = Vec::new();
    let secs = i64_to_decimal(date_secs);
    content.extend_from_slice("tree ".as_bytes());
    content.extend_from_slice(tree_sha.as_bytes());
    content.extend_from_slice("\nparent ".as_bytes());
    content.extend_from_slice(parent_sha.as_bytes());
    content.extend_from_slice("\nauthor Author <name@example.com> ".as_bytes());
    content.extend_from_slice(secs.as_slice());
    content.extend_from_slice(" ".as_bytes());
    content.extend_from_slice(timezone.as_bytes());
    content.extend_from_slice("\ncommitter Committer <name@example.com> ".as_bytes());
    content.extend_from_slice(secs.as_slice());
    content.extend_from_slice(" ".as_bytes());
    content.extend_from_slice(timezone.as_bytes());
    content.extend_from_slice("\n\n".as_bytes());
    content.extend_from_slice(message.as_bytes());
    content.extend_from_slice("\n".as_bytes());
    content
}

/// The bytes of a commit object holding `file_content`: `commit <size>\0<content>`.
pub fn get_blob_content(file_content: &[u8]) -> (r: Vec<u8>)
    ensures
        r@ == spec_object_bytes(BlobType::Commit, file_content@),
{
    encode_object(BlobType::Commit, file_content)
}

/// The commit object for the given tree, parent and message made at `date_secs` in the
/// zone `timezone`, hashed and compressed.
pub fn commit_object(
    tree_sha: &str,
    parent_sha: &str,
    message: &str,
    date_secs: i64,
    timezone: &str,
) -> (r: Result<LooseObject, GitError>)
    ensures
        loose_object_of(
            spec_object_bytes(
                BlobType::Commit,
                spec_commit_content(
                    tree_sha.spec_bytes(),
                    parent_sha.spec_bytes(),
                    message.spec_bytes(),
                    date_secs,
                    timezone.spec_bytes(),
                ),
            ),
            r,
        ),
{
    let content = commit_content(tree_sha, parent_sha, message, date_secs, timezone);
    let blob_content = get_blob_content(content.as_slice());
    encode_loose_object(&blob_content)
}

/// `commit-tree`: the commit object for the given tree, parent and message, made now.
/// The time and the zone are read from the clock; whatever they are, the zone is
/// written `+hhmm` or `-hhmm` and the object is the one that `commit_object` makes of
/// them.
pub fn commit_tree(tree_sha: &str, parent_sha: &str, message: &str) -> (r: Result<
    LooseObject,
    GitError,
>)
    ensures
        exists|date_secs: i64, timezone: Seq<char>|
            is_utc_offset_text(timezone) && loose_object_of(
                spec_object_bytes(
                    BlobType::Commit,
                    #[trigger] spec_commit_content(
                        tree_sha.spec_bytes(),
                        parent_sha.spec_bytes(),
                        message.spec_bytes(),
                        date_secs,
                        encode_utf8(timezone),
                    ),
                ),
                r,
            ),
{
    let (date_secs, timezone) = local_time_now();
    let r = commit_object(tree_sha, parent_sha, message, date_secs, timezone.as_str());
    proof {
        let tz = encode_utf8(timezone@);
        assert(is_utc_offset_text(timezone@));
        assert(loose_object_of(
            spec_object_bytes(
                BlobType::Commit,
                spec_commit_content(
                    tree_sha.spec_bytes(),
                    parent_sha.spec_bytes(),
                    message.spec_bytes(),
                    date_secs,
                    tz,
                ),
            ),
            r,
        ));
    }
    r
}

} // verus!
