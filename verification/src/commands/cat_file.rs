use vstd::prelude::*;
use vstd::slice::slice_subrange;
use vstd::slice::slice_to_vec;
use vstd::utf8::decode_utf8;
use vstd::utf8::decode_utf8_encode_utf8;
use vstd::utf8::is_char_boundary;
use vstd::utf8::is_char_boundary_iff_not_is_continuation_byte;
use vstd::utf8::is_char_boundary_start_end_of_seq;
use vstd::utf8::valid_utf8;
use vstd::utf8::valid_utf8_split;
use super::bindings::string_from_utf8;
use super::utils::decode_blob_as_bytes;
use super::utils::decode_bytes_to_string;
use super::utils::find_byte;
use super::utils::find_byte_from;
use super::utils::lemma_find_byte;
use super::utils::spec_decode_bytes;
use super::utils::GitError;

verus! {

/// The text of a stored object as `cat-file -p` prints it: the object is read as UTF-8
/// text and split at NUL characters; the part after the first NUL, up to the next NUL
/// or the end, is the answer.
pub open spec fn spec_cat_file(compressed: Seq<u8>) -> Result<Seq<char>, GitError> {
    match spec_decode_bytes(compressed) {
        Err(e) => Err(e),
        Ok(d) => if !valid_utf8(d) {
            Err(GitError::InvalidUtf8)
        } else if find_byte(d, 0, 0) == d.len() {
            Err(GitError::MissingNul)
        } else {
            Ok(decode_utf8(d.subrange(find_byte(d, 0, 0) + 1, find_byte(d, find_byte(d, 0, 0) + 1, 0))))
        },
    }
}

/// In valid UTF-8, the bytes between a NUL and the next NUL (or the end) are valid
/// UTF-8 too: a NUL is a whole character.
pub proof fn lemma_valid_between_nuls(d: Seq<u8>, i: int, j: int)
    requires
        valid_utf8(d),
        0 <= i < j <= d.len(),
        d[i] == 0,
        j < d.len() ==> d[j] == 0,
    ensures
        valid_utf8(d.subrange(i + 1, j)),
{
    is_char_boundary_start_end_of_seq(d);
    if i + 1 < d.len() {
        is_char_boundary_iff_not_is_continuation_byte(d, i);
        valid_utf8_split(d, i);
        let t = d.subrange(i, d.len() as int);
        // the first character of `t` is the NUL alone
        assert(t.subrange(1, t.len() as int) =~= d.subrange(i + 1, d.len() as int));
        assert(valid_utf8(d.subrange(i + 1, d.len() as int)));
    } else {
        assert(d.subrange(i + 1, d.len() as int) =~= Seq::<u8>::empty());
    }
    let u = d.subrange(i + 1, d.len() as int);
    let k = j - (i + 1);
    is_char_boundary_start_end_of_seq(u);
    if k < u.len() {
        is_char_boundary_iff_not_is_continuation_byte(u, k);
    }
    assert(is_char_boundary(u, k));
    valid_utf8_split(u, k);
    assert(u.subrange(0, k) =~= d.subrange(i + 1, j));
}

/// `cat-file -p`: the text of the stored object whose compressed bytes are
/// `compressed`, from the first NUL to the next one or to the end. The object must
/// decompress to UTF-8 text that holds a NUL.
pub fn cat_file(compressed: &[u8]) -> (r: String)
    requires
        spec_cat_file(compressed@) is Ok,
    ensures
        spec_cat_file(compressed@) == Ok::<Seq<char>, GitError>(r@),
{
    let text = decode_bytes_to_string(compressed);
    let decoded = text.as_str().as_bytes();
    proof {
        let d = spec_decode_bytes(compressed@)->Ok_0;
        decode_utf8_encode_utf8(d);
        assert(decoded@ == d);
    }
    let start = find_byte_from(decoded, 0, 0);
    proof {
        lemma_find_byte(decoded@, 0, 0);
    }
    assert(start < decoded.len());
    let end = find_byte_from(decoded, start + 1, 0);
    proof {
        lemma_find_byte(decoded@, start + 1, 0);
        lemma_valid_between_nuls(decoded@, start as int, end as int);
    }
    let part = slice_to_vec(slice_subrange(decoded, start + 1, end));
    string_from_utf8(part).unwrap()
}

/// `cat-file -p` on any bytes: the text that `cat_file` gives, or why the object has
/// none: `Decompress`, `InvalidUtf8`, or `MissingNul` where the text holds no NUL.
pub fn try_cat_file(compressed: &[u8]) -> (r: Result<String, GitError>)
    ensures
        match r {
            Ok(s) => spec_cat_file(compressed@) == Ok::<Seq<char>, GitError>(s@),
            Err(e) => spec_cat_file(compressed@) == Err::<Seq<char>, GitError>(e),
        },
{
    let decoded = decode_blob_as_bytes(compressed)?;
    if string_from_utf8(slice_to_vec(decoded.as_slice())).is_none() {
        return Err(GitError::InvalidUtf8);
    }
    let start = find_byte_from(decoded.as_slice(), 0, 0);
    proof {
        lemma_find_byte(decoded@, 0, 0);
    }
    if start == decoded.len() {
        return Err(GitError::MissingNul);
    }
    Ok(cat_file(compressed))
}

} // verus!
