use vstd::prelude::*;
use super::utils::encode_loose_object;
use super::utils::encode_object;
use super::utils::loose_object_of;
use super::utils::spec_object_bytes;
use super::utils::BlobType;
use super::utils::GitError;
use super::utils::LooseObject;

verus! {

/// The bytes of a blob object holding `file_content`: `blob <size>\0<content>`.
pub fn get_blob_content(file_content: &[u8]) -> (r: Vec<u8>)
    ensures
        r@ == spec_object_bytes(BlobType::Blob, file_content@),
{
    encode_object(BlobType::Blob, file_content)
}

/// `hash-object -w`: the blob object of a file's content, hashed and compressed, ready
/// to be written to the store.
pub fn hash_object(file_content: &[u8]) -> (r: Result<LooseObject, GitError>)
    ensures
        loose_object_of(spec_object_bytes(BlobType::Blob, file_content@), r),
{
    let blob_content = get_blob_content(file_content);
    encode_loose_object(&blob_content)
}

} // verus!
