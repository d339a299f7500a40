use vstd::prelude::*;
use vstd::slice::slice_subrange;
use super::tree::spec_parse_entries;
use super::tree::spec_render_entries;
use super::tree::spec_render_names;
use super::tree::TreeObjects;
use super::utils::decode_blob_as_bytes;
use super::utils::find_byte;
use super::utils::find_byte_from;
use super::utils::lemma_find_byte;
use super::utils::spec_decode_bytes;
use super::utils::GitError;

verus! {

/// What `ls-tree` prints for the tree whose compressed bytes are `compressed`: the
/// header up to the first NUL is skipped and the rest read as entries; with
/// `name_only` each entry's name is printed, otherwise its full line.
pub open spec fn spec_ls_tree(name_only: bool, compressed: Seq<u8>) -> Result<Seq<char>, GitError> {
    match spec_decode_bytes(compressed) {
        Err(e) => Err(e),
        Ok(d) => if find_byte(d, 0, 0) == d.len() {
            Err(GitError::MissingNul)
        } else {
            match spec_parse_entries(d.skip(find_byte(d, 0, 0) + 1)) {
                None => Err(GitError::MalformedTree),
                Some(es) => Ok(
                    if name_only {
                        spec_render_names(es)
                    } else {
                        spec_render_entries(es)
                    },
                ),
            }
        },
    }
}

/// `ls-tree`: the listing of the tree whose compressed bytes are `compressed`.
pub fn ls_tree(name_only: &bool, compressed: &[u8]) -> (r: Result<String, GitError>)
    ensures
        match r {
            Ok(s) => spec_ls_tree(*name_only, compressed@) == Ok::<Seq<char>, GitError>(s@),
            Err(e) => spec_ls_tree(*name_only, compressed@) == Err::<Seq<char>, GitError>(e),
        },
{
    let decoded = decode_blob_as_bytes(compressed)?;
    let header_end = find_byte_from(decoded.as_slice(), 0, 0);
    proof {
        lemma_find_byte(decoded@, 0, 0);
    }
    if header_end == decoded.len() {
        return Err(GitError::MissingNul);
    }
    let entries = slice_subrange(decoded.as_slice(), header_end + 1, decoded.len());
    assert(entries@ == decoded@.skip(header_end + 1));
    match TreeObjects::from_bytes(entries) {
        None => Err(GitError::MalformedTree),
        Some(tree_objects) => if *name_only {
            Ok(tree_objects.names_text())
        } else {
            Ok(tree_objects.to_text())
        },
    }
}

} // verus!
