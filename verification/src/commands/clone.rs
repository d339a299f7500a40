use vstd::prelude::*;
use vstd::slice::slice_subrange;
use vstd::slice::slice_to_vec;
use vstd::string::StringSliceAdditionalSpecFns;
use vstd::utf8::decode_utf8;
use vstd::utf8::valid_utf8;
use super::bindings::hex_digit_value;
use super::bindings::is_hex_digit;
use super::bindings::string_from_utf8;
use super::bindings::zlib_decode;
use super::bindings::zlib_inflate;
use vstd::utf8::encode_utf8;
use super::utils::loose_object_of;
use super::utils::spec_object_bytes;
use super::utils::Blob;
use super::utils::BlobType;
use super::utils::GitError;
use super::utils::LooseObject;

verus! {

// ---------------------------------------------------------------------------
// Objects of a packfile

/// The type codes of packfile entries.
#[derive(Debug, Clone, Copy, PartialEq, Eq, Structural)]
pub enum ObjectType {
    Commit,
    Tree,
    Blob,
    Tag,
    OfsDelta,
    RefDelta,
}

/// The type that bits 4 to 6 of an entry's first byte name, if any.
pub open spec fn spec_object_type(b: u8) -> Option<ObjectType> {
    let code = (b / 16) % 8;
    if code == 1 {
        Some(ObjectType::Commit)
    } else if code == 2 {
        Some(ObjectType::Tree)
    } else if code == 3 {
        Some(ObjectType::Blob)
    } else if code == 4 {
        Some(ObjectType::Tag)
    } else if code == 6 {
        Some(ObjectType::OfsDelta)
    } else if code == 7 {
        Some(ObjectType::RefDelta)
    } else {
        None
    }
}

impl ObjectType {
    /// The type named by the first byte of a packfile entry.
    pub fn from_header_byte(b: u8) -> (r: Option<ObjectType>)
        ensures
            r == spec_object_type(b),
    {
        let code = (b / 16) % 8;
        if code == 1 {
            Some(ObjectType::Commit)
        } else if code == 2 {
            Some(ObjectType::Tree)
        } else if code == 3 {
            Some(ObjectType::Blob)
        } else if code == 4 {
            Some(ObjectType::Tag)
        } else if code == 6 {
            Some(ObjectType::OfsDelta)
        } else if code == 7 {
            Some(ObjectType::RefDelta)
        } else {
            None
        }
    }
}

/// The first index at or after `start` whose byte has no continuation bit, or the end.
pub open spec fn find_size_end(s: Seq<u8>, start: int) -> int
    decreases s.len() - start,
{
    if start >= s.len() {
        s.len() as int
    } else if s[start] < 128 {
        start
    } else {
        find_size_end(s, start + 1)
    }
}

proof fn lemma_find_size_end(s: Seq<u8>, start: int)
    requires
        0 <= start <= s.len(),
    ensures
        start <= find_size_end(s, start) <= s.len(),
    decreases s.len() - start,
{
    if start < s.len() && s[start] >= 128 {
        lemma_find_size_end(s, start + 1);
    }
}

/// What reading one packfile entry gives.
pub enum PackStep {
    /// A stored object and the number of bytes that the entry took.
    Object(BlobType, Seq<u8>, nat),
    /// A delta entry, which is not applied.
    Delta,
    /// The entry cannot be read.
    Fail(GitError),
}

/// One entry at the start of `d`: the type from the first byte, the size bytes
/// skipped up to the first byte without its top bit, 20 more bytes skipped for a
/// reference delta, then one zlib stream.
pub open spec fn spec_make_blob_from_data(d: Seq<u8>) -> PackStep {
    if d.len() == 0 {
        PackStep::Fail(GitError::MalformedPack)
    } else {
        match spec_object_type(d[0]) {
            None => PackStep::Fail(GitError::MalformedPack),
            Some(t) => {
                let h = find_size_end(d, 0);
                let off = h + 1 + if t == ObjectType::RefDelta {
                    20int
                } else {
                    0int
                };
                if h >= d.len() || off > d.len() {
                    PackStep::Fail(GitError::MalformedPack)
                } else {
                    match zlib_inflate(d.skip(off)) {
                        None => PackStep::Fail(GitError::Decompress),
                        Some((out, n)) => match t {
                            ObjectType::Commit => PackStep::Object(
                                BlobType::Commit,
                                out,
                                (off + n) as nat,
                            ),
                            ObjectType::Tree => PackStep::Object(
                                BlobType::Tree,
                                out,
                                (off + n) as nat,
                            ),
                            ObjectType::Blob => PackStep::Object(
                                BlobType::Blob,
                                out,
                                (off + n) as nat,
                            ),
                            ObjectType::Tag => PackStep::Fail(GitError::Unsupported),
                            _ => PackStep::Delta,
                        },
                    }
                }
            },
        }
    }
}

/// A packfile entry as read: an object and the bytes it took, or a delta.
pub enum PackItem {
    Object(Blob, usize),
    Delta,
}

/// Reads the packfile entry at the start of `data`.
pub fn make_blob_from_data(data: &[u8]) -> (r: Result<PackItem, GitError>)
    ensures
        match r {
            Ok(PackItem::Object(b, used)) => spec_make_blob_from_data(data@) == PackStep::Object(
                b@.0,
                b@.1,
                used as nat,
            ) && used <= data@.len(),
            Ok(PackItem::Delta) => spec_make_blob_from_data(data@) == PackStep::Delta,
            Err(e) => spec_make_blob_from_data(data@) == PackStep::Fail(e),
        },
{
    if data.len() == 0 {
        return Err(GitError::MalformedPack);
    }
    let obj_type = match ObjectType::from_header_byte(data[0]) {
        Some(t) => t,
        None => return Err(GitError::MalformedPack),
    };
    let mut offset: usize = 0;
    while offset < data.len() && data[offset] >= 128
        invariant
            offset <= data@.len(),
            find_size_end(data@, offset as int) == find_size_end(data@, 0),
        decreases data@.len() - offset,
    {
        offset += 1;
    }
    if offset >= data.len() {
        return Err(GitError::MalformedPack);
    }
    offset += 1;
    if obj_type == ObjectType::RefDelta {
        if data.len() - offset < 20 {
            return Err(GitError::MalformedPack);
        }
        offset += 20;
    }
    let rest = slice_subrange(data, offset, data.len());
    assert(rest@ == data@.skip(offset as int));
    let (buffer, total_read) = match zlib_decode(rest) {
        Some(p) => p,
        None => return Err(GitError::Decompress),
    };
    let used = offset + total_read as usize;
    match obj_type {
        ObjectType::Commit => Ok(
            PackItem::Object(Blob::new_with_blob_type(BlobType::Commit, buffer.as_slice()), used),
        ),
        ObjectType::Tree => Ok(
            PackItem::Object(Blob::new_with_blob_type(BlobType::Tree, buffer.as_slice()), used),
        ),
        ObjectType::Blob => Ok(
            PackItem::Object(Blob::new_with_blob_type(BlobType::Blob, buffer.as_slice()), used),
        ),
        ObjectType::Tag => Err(GitError::Unsupported),
        _ => Ok(PackItem::Delta),
    }
}

// ---------------------------------------------------------------------------
// The packfile

/// The value of hex digits, most significant first.
pub open spec fn spec_hex_number(d: Seq<u8>) -> nat
    decreases d.len(),
{
    if d.len() == 0 {
        0
    } else {
        spec_hex_number(d.drop_last()) * 16 + hex_digit_value(d.last()) as nat
    }
}

/// True when every byte of `d` is a hex digit.
pub open spec fn all_hex_digits(d: Seq<u8>) -> bool {
    forall|i: int| 0 <= i < d.len() ==> is_hex_digit(#[trigger] d[i])
}

/// What `usize::from_str_radix(s, 16)` gives: an optional `+`, then one or more hex
/// digits.
pub open spec fn spec_from_str_radix_16(s: Seq<u8>) -> Option<nat> {
    let digits = if s.len() > 0 && s[0] == 43 {
        s.skip(1)
    } else {
        s
    };
    if digits.len() == 0 || !all_hex_digits(digits) {
        None
    } else {
        Some(spec_hex_number(digits))
    }
}

/// The big-endian number in the four bytes at `at`.
pub open spec fn spec_be32(d: Seq<u8>, at: int) -> nat {
    (d[at] as nat) * 16777216 + (d[at + 1] as nat) * 65536 + (d[at + 2] as nat) * 256 + (d[at
        + 3] as nat)
}

/// The objects of `k` packfile entries from `start` on, and the number of entries read
/// as deltas. A delta entry does not move the position, so every later entry reads the
/// same delta again.
pub open spec fn spec_unpack(data: Seq<u8>, start: nat, k: nat) -> Result<
    (Seq<(BlobType, Seq<u8>)>, nat),
    GitError,
>
    decreases k,
{
    if k == 0 {
        Ok((seq![], 0))
    } else if start > data.len() {
        Err(GitError::MalformedPack)
    } else {
        match spec_make_blob_from_data(data.skip(start as int)) {
            PackStep::Fail(e) => Err(e),
            PackStep::Delta => match spec_unpack(data, start, (k - 1) as nat) {
                Ok((objects, deltas)) => Ok((objects, deltas + 1)),
                Err(e) => Err(e),
            },
            PackStep::Object(t, content, used) => match spec_unpack(
                data,
                start + used,
                (k - 1) as nat,
            ) {
                Ok((objects, deltas)) => Ok((seq![(t, content)] + objects, deltas)),
                Err(e) => Err(e),
            },
        }
    }
}

/// The bytes `PACK`.
pub open spec fn pack_signature() -> Seq<u8> {
    seq![80u8, 65, 67, 75]
}

/// Where the pack of an upload-pack response starts: the first packet line's length,
/// given in hex in its first four bytes, is skipped; there the pack must start with
/// `PACK`, version 2 and the number of entries, all big-endian. `None` where the
/// response breaks that form.
pub open spec fn spec_pack_start(data: Seq<u8>) -> Option<nat> {
    if data.len() < 4 {
        None
    } else {
        match spec_from_str_radix_16(data.take(4)) {
            None => None,
            Some(start) => if start + 12 > data.len() || data.subrange(start as int, start + 4int)
                != pack_signature() || spec_be32(data, start + 4int) != 2 {
                None
            } else {
                Some(start)
            },
        }
    }
}

/// The objects of a pack whose header starts at `start`.
pub open spec fn spec_pack_objects(data: Seq<u8>, start: nat) -> Result<
    (Seq<(BlobType, Seq<u8>)>, nat),
    GitError,
> {
    spec_unpack(data, start + 12, spec_be32(data, start + 8int))
}

/// The objects of an upload-pack response, or `MalformedPack` where its header breaks
/// the form that `spec_pack_start` describes.
pub open spec fn spec_make_data_from_pack(data: Seq<u8>) -> Result<
    (Seq<(BlobType, Seq<u8>)>, nat),
    GitError,
> {
    match spec_pack_start(data) {
        None => Err(GitError::MalformedPack),
        Some(start) => spec_pack_objects(data, start),
    }
}

/// The objects of a packfile, in the order of its entries, and how many entries were
/// skipped as deltas.
pub struct PackContents {
    pub objects: Vec<Blob>,
    pub skipped_deltas: usize,
}

impl View for PackContents {
    type V = (Seq<(BlobType, Seq<u8>)>, nat);

    open spec fn view(&self) -> (Seq<(BlobType, Seq<u8>)>, nat) {
        (self.objects@.map_values(|b: Blob| b@), self.skipped_deltas as nat)
    }
}

/// `p` before the objects of `r`.
pub open spec fn prepend_objects(
    p: Seq<(BlobType, Seq<u8>)>,
    r: Result<(Seq<(BlobType, Seq<u8>)>, nat), GitError>,
) -> Result<(Seq<(BlobType, Seq<u8>)>, nat), GitError> {
    match r {
        Ok((objects, deltas)) => Ok((p + objects, deltas)),
        Err(e) => Err(e),
    }
}

/// Once a delta entry is read at `start`, every remaining entry is that delta again.
pub proof fn lemma_unpack_after_delta(data: Seq<u8>, start: nat, k: nat)
    requires
        start <= data.len(),
        spec_make_blob_from_data(data.skip(start as int)) == PackStep::Delta,
    ensures
        spec_unpack(data, start, k) == Ok::<(Seq<(BlobType, Seq<u8>)>, nat), GitError>(
            (seq![], k),
        ),
    decreases k,
{
    if k > 0 {
        lemma_unpack_after_delta(data, start, (k - 1) as nat);
    }
}

fn hex_number(s: &[u8]) -> (r: Option<usize>)
    requires
        s@.len() <= 4,
    ensures
        r is None <==> s@.len() == 0 || !all_hex_digits(s@),
        r matches Some(v) ==> v as nat == spec_hex_number(s@),
{
    if s.len() == 0 {
        return None;
    }
    let mut value: usize = 0;
    let mut i: usize = 0;
    while i < s.len()
        invariant
            s@.len() <= 4,
            i <= s@.len(),
            value as nat == spec_hex_number(s@.take(i as int)),
            value < (if i == 0 {
                1nat
            } else if i == 1 {
                16nat
            } else if i == 2 {
                256nat
            } else if i == 3 {
                4096nat
            } else {
                65536nat
            }),
            forall|j: int| 0 <= j < i ==> is_hex_digit(#[trigger] s@[j]),
        decreases s@.len() - i,
    {
        let c = s[i];
        let digit: usize = if 48 <= c && c <= 57 {
            (c - 48) as usize
        } else if 97 <= c && c <= 102 {
            (c - 87) as usize
        } else if 65 <= c && c <= 70 {
            (c - 55) as usize
        } else {
            return None;
        };
        assert(s@.take(i + 1).drop_last() == s@.take(i as int));
        value = value * 16 + digit;
        i += 1;
    }
    assert(s@.take(i as int) == s@);
    Some(value)
}

/// The number given in hex by the first four bytes of a response, as
/// `usize::from_str_radix` reads it.
fn packet_length(prefix: &[u8]) -> (r: Option<usize>)
    requires
        prefix@.len() == 4,
    ensures
        match r {
            Some(v) => spec_from_str_radix_16(prefix@) == Some(v as nat),
            None => spec_from_str_radix_16(prefix@) is None,
        },
{
    if prefix[0] == 43 {
        let digits = slice_subrange(prefix, 1, 4);
        assert(digits@ == prefix@.skip(1));
        hex_number(digits)
    } else {
        hex_number(prefix)
    }
}

fn be32(d: &[u8], at: usize) -> (r: u32)
    requires
        at + 4 <= d@.len(),
    ensures
        r as nat == spec_be32(d@, at as int),
{
    (d[at] as u32) * 16777216u32 + (d[at + 1] as u32) * 65536u32 + (d[at + 2] as u32) * 256u32 + (
    d[at + 3] as u32)
}

/// Where the pack of the upload-pack response `data` starts, or `None` where the
/// response breaks the form of its header.
pub fn pack_start(data: &[u8]) -> (r: Option<usize>)
    ensures
        match r {
            Some(s) => spec_pack_start(data@) == Some(s as nat),
            None => spec_pack_start(data@) is None,
        },
{
    if data.len() < 4 {
        return None;
    }
    let prefix = slice_subrange(data, 0, 4);
    assert(prefix@ == data@.take(4));
    let start = match packet_length(prefix) {
        Some(v) => v,
        None => return None,
    };
    if start > data.len() || data.len() - start < 12 {
        return None;
    }
    if !(data[start] == 80 && data[start + 1] == 65 && data[start + 2] == 67 && data[start + 3]
        == 75) {
        return None;
    }
    assert(data@.subrange(start as int, start + 4) == pack_signature());
    if be32(data, start + 4) != 2 {
        return None;
    }
    Some(start)
}

/// Reads the objects of an upload-pack response whose header is well formed.
pub fn make_data_from_pack(data: &[u8]) -> (r: Result<PackContents, GitError>)
    requires
        spec_pack_start(data@) is Some,
    ensures
        match r {
            Ok(p) => spec_pack_objects(data@, spec_pack_start(data@)->0) == Ok::<
                (Seq<(BlobType, Seq<u8>)>, nat),
                GitError,
            >(p@),
            Err(e) => spec_pack_objects(data@, spec_pack_start(data@)->0) == Err::<
                (Seq<(BlobType, Seq<u8>)>, nat),
                GitError,
            >(e),
        },
{
    let start = pack_start(data).unwrap();
    let len = data.len();
    assert(start + 12 <= len);
    let num_objects = be32(data, start + 8) as usize;
    let mut position: usize = start + 12;
    let mut objects: Vec<Blob> = Vec::new();
    let mut i: usize = 0;
    proof {
        if let Ok((all, n)) = spec_unpack(data@, position as nat, num_objects as nat) {
            assert(Seq::<(BlobType, Seq<u8>)>::empty() + all =~= all);
        }
        assert(objects@.map_values(|b: Blob| b@) =~= Seq::<(BlobType, Seq<u8>)>::empty());
    }
    while i < num_objects
        invariant
            position <= data@.len(),
            i <= num_objects,
            spec_pack_start(data@) == Some(start as nat),
            spec_pack_objects(data@, start as nat) == prepend_objects(
                objects@.map_values(|b: Blob| b@),
                spec_unpack(data@, position as nat, (num_objects - i) as nat),
            ),
        decreases num_objects - i,
    {
        let rest = slice_subrange(data, position, data.len());
        assert(rest@ == data@.skip(position as int));
        let item = make_blob_from_data(rest);
        match item {
            Err(e) => {
                return Err(e);
            },
            Ok(PackItem::Delta) => {
                proof {
                    lemma_unpack_after_delta(data@, position as nat, (num_objects - i) as nat);
                    let done = objects@.map_values(|b: Blob| b@);
                    assert(done + Seq::<(BlobType, Seq<u8>)>::empty() =~= done);
                }
                return Ok(PackContents { objects, skipped_deltas: num_objects - i });
            },
            Ok(PackItem::Object(blob, used)) => {
                let ghost before = objects@.map_values(|b: Blob| b@);
                let ghost entry = blob@;
                objects.push(blob);
                assert(objects@.map_values(|b: Blob| b@) == before + seq![entry]);
                proof {
                    if let Ok((rest_objects, n)) = spec_unpack(
                        data@,
                        (position + used) as nat,
                        (num_objects - i - 1) as nat,
                    ) {
                        assert(before + (seq![entry] + rest_objects) =~= before + seq![entry]
                            + rest_objects);
                    }
                }
                position = position + used;
                i += 1;
            },
        }
    }
    proof {
        let done = objects@.map_values(|b: Blob| b@);
        assert(done + Seq::<(BlobType, Seq<u8>)>::empty() =~= done);
    }
    Ok(PackContents { objects, skipped_deltas: 0 })
}

// ---------------------------------------------------------------------------
// The refs advertisement and the request

/// The bytes `HEAD`.
pub open spec fn head_word() -> Seq<u8> {
    seq![72u8, 69, 65, 68]
}

/// The first index at or after `start` where `HEAD` begins, or the length of `s`.
pub open spec fn find_head(s: Seq<u8>, start: int) -> int
    decreases s.len() - start,
{
    if start + 4 > s.len() {
        s.len() as int
    } else if s.subrange(start, start + 4) == head_word() {
        start
    } else {
        find_head(s, start + 1)
    }
}

/// The start of the line that holds index `p`.
pub open spec fn line_start(s: Seq<u8>, p: int) -> int
    decreases p,
{
    if p <= 0 {
        0
    } else if s[p - 1] == 10 {
        p
    } else {
        line_start(s, p - 1)
    }
}

proof fn lemma_find_head(s: Seq<u8>, start: int)
    requires
        0 <= start,
    ensures
        find_head(s, start) == s.len() || (start <= find_head(s, start) && find_head(s, start)
            + 4 <= s.len()),
    decreases s.len() - start,
{
    if start + 4 <= s.len() && s.subrange(start, start + 4) != head_word() {
        lemma_find_head(s, start + 1);
    }
}

proof fn lemma_line_start(s: Seq<u8>, p: int)
    requires
        0 <= p,
    ensures
        0 <= line_start(s, p) <= p,
    decreases p,
{
    if p > 0 && s[p - 1] != 10 {
        lemma_line_start(s, p - 1);
    }
}

/// The hash of `HEAD` in a refs advertisement: on the first line that holds `HEAD`, the
/// 40 bytes that end one byte before it. No such line gives the empty text; a `HEAD`
/// fewer than 41 bytes into its line, or a cut inside a character, is an error.
pub open spec fn spec_discover_head_ref(body: Seq<u8>) -> Result<Seq<char>, GitError> {
    let p = find_head(body, 0);
    if p == body.len() {
        Ok(seq![])
    } else if p - line_start(body, p) < 41 || !valid_utf8(body.subrange(p - 41, p - 1)) {
        Err(GitError::MalformedRefs)
    } else {
        Ok(decode_utf8(body.subrange(p - 41, p - 1)))
    }
}

proof fn lemma_find_head_is_first(s: Seq<u8>, start: int)
    requires
        0 <= start,
    ensures
        start <= find_head(s, start) <= s.len() || find_head(s, start) == s.len(),
        forall|q: int|
            start <= q < find_head(s, start) && q + 4 <= s.len() ==> #[trigger] s.subrange(q, q + 4)
                != seq![72u8, 69, 65, 68],
        find_head(s, start) < s.len() ==> find_head(s, start) + 4 <= s.len() && s.subrange(
            find_head(s, start),
            find_head(s, start) + 4,
        ) == seq![72u8, 69, 65, 68],
    decreases s.len() - start,
{
    assert(head_word() =~= seq![72u8, 69, 65, 68]);
    if start + 4 <= s.len() && s.subrange(start, start + 4) != head_word() {
        lemma_find_head_is_first(s, start + 1);
    }
}

/// `find_head` finds the first `HEAD`: none begins before the index it gives, and one
/// begins there unless the text holds none.
pub proof fn law_find_head_is_first(s: Seq<u8>)
    ensures
        0 <= find_head(s, 0) <= s.len(),
        forall|q: int|
            0 <= q < find_head(s, 0) && q + 4 <= s.len() ==> #[trigger] s.subrange(q, q + 4)
                != seq![72u8, 69, 65, 68],
        find_head(s, 0) < s.len() ==> find_head(s, 0) + 4 <= s.len() && s.subrange(
            find_head(s, 0),
            find_head(s, 0) + 4,
        ) == seq![72u8, 69, 65, 68],
{
    lemma_find_head_is_first(s, 0);
    lemma_find_head(s, 0);
}

proof fn lemma_line_start_same_line(s: Seq<u8>, a: int, p: int)
    requires
        0 <= a <= p <= s.len(),
        forall|k: int| a <= k < p ==> s[k] != 10,
    ensures
        line_start(s, p) == line_start(s, a),
    decreases p - a,
{
    if p > a {
        lemma_line_start_same_line(s, a, p - 1);
    }
}

/// The hash of `HEAD` is the 40 bytes that end one byte before the first `HEAD` of the
/// advertisement, where they stand on its line (with the byte after them) and are
/// UTF-8: whatever follows, later mentions of `HEAD` included, does not matter.
pub proof fn law_head_ref_is_before_first_head(body: Seq<u8>, f: int)
    requires
        41 <= f,
        f + 4 <= body.len(),
        body.subrange(f, f + 4) == seq![72u8, 69, 65, 68],
        forall|q: int| 0 <= q < f ==> #[trigger] body.subrange(q, q + 4) != seq![72u8, 69, 65, 68],
        forall|k: int| f - 41 <= k < f ==> body[k] != 10,
        valid_utf8(body.subrange(f - 41, f - 1)),
    ensures
        spec_discover_head_ref(body) == Ok::<Seq<char>, GitError>(
            decode_utf8(body.subrange(f - 41, f - 1)),
        ),
{
    law_find_head_is_first(body);
    let g = find_head(body, 0);
    if g < f {
        assert(body.subrange(g, g + 4) != seq![72u8, 69, 65, 68]);
    }
    if g > f {
        assert(body.subrange(f, f + 4) != seq![72u8, 69, 65, 68]);
    }
    assert(g == f);
    lemma_line_start_same_line(body, f - 41, f);
    lemma_line_start(body, f - 41);
}

/// A first `HEAD` that stands fewer than 41 bytes after the start of its line (the start
/// of the text, or the byte after a newline) leaves no room for a hash: the
/// advertisement is malformed.
pub proof fn law_head_too_early_in_its_line(body: Seq<u8>, f: int, line: int)
    requires
        0 <= line <= f,
        f - line < 41,
        f + 4 <= body.len(),
        body.subrange(f, f + 4) == seq![72u8, 69, 65, 68],
        forall|q: int| 0 <= q < f ==> #[trigger] body.subrange(q, q + 4) != seq![72u8, 69, 65, 68],
        line == 0 || body[line - 1] == 10,
        forall|k: int| line <= k < f ==> body[k] != 10,
    ensures
        spec_discover_head_ref(body) == Err::<Seq<char>, GitError>(GitError::MalformedRefs),
{
    law_find_head_is_first(body);
    let g = find_head(body, 0);
    if g < f {
        assert(body.subrange(g, g + 4) != seq![72u8, 69, 65, 68]);
    }
    if g > f {
        assert(body.subrange(f, f + 4) != seq![72u8, 69, 65, 68]);
    }
    assert(g == f);
    lemma_line_start_same_line(body, line, f);
}

/// An advertisement without `HEAD` gives the empty hash.
pub proof fn law_no_head_gives_empty_ref(body: Seq<u8>)
    requires
        forall|q: int|
            0 <= q && q + 4 <= body.len() ==> #[trigger] body.subrange(q, q + 4) != seq![
                72u8,
                69,
                65,
                68,
            ],
    ensures
        spec_discover_head_ref(body) == Ok::<Seq<char>, GitError>(seq![]),
{
    law_find_head_is_first(body);
    let g = find_head(body, 0);
    if g < body.len() {
        assert(body.subrange(g, g + 4) != seq![72u8, 69, 65, 68]);
    }
}

fn is_head_at(bytes: &[u8], p: usize) -> (r: bool)
    requires
        p + 4 <= bytes@.len(),
    ensures
        r == (bytes@.subrange(p as int, p + 4) == head_word()),
{
    let r = bytes[p] == 72 && bytes[p + 1] == 69 && bytes[p + 2] == 65 && bytes[p + 3] == 68;
    assert(r ==> bytes@.subrange(p as int, p + 4) =~= head_word());
    assert(bytes@.subrange(p as int, p + 4) == head_word() ==> r) by {
        if bytes@.subrange(p as int, p + 4) == head_word() {
            assert(bytes@.subrange(p as int, p + 4)[0] == bytes@[p as int]);
            assert(bytes@.subrange(p as int, p + 4)[1] == bytes@[p + 1]);
            assert(bytes@.subrange(p as int, p + 4)[2] == bytes@[p + 2]);
            assert(bytes@.subrange(p as int, p + 4)[3] == bytes@[p + 3]);
        }
    }
    r
}

fn find_head_from(bytes: &[u8]) -> (r: usize)
    ensures
        r == find_head(bytes@, 0),
{
    let mut p: usize = 0;
    while p <= bytes.len() && bytes.len() - p >= 4 && !is_head_at(bytes, p)
        invariant
            p <= bytes@.len(),
            find_head(bytes@, p as int) == find_head(bytes@, 0),
        decreases bytes@.len() - p,
    {
        p += 1;
    }
    if bytes.len() - p < 4 {
        return bytes.len();
    }
    p
}

/// Finds the hash of `HEAD` in the text of a refs advertisement.
pub fn discover_head_ref(body: &str) -> (r: Result<String, GitError>)
    ensures
        match r {
            Ok(s) => spec_discover_head_ref(body.spec_bytes()) == Ok::<Seq<char>, GitError>(s@),
            Err(e) => spec_discover_head_ref(body.spec_bytes()) == Err::<Seq<char>, GitError>(e),
        },
{
    let bytes = body.as_bytes();
    let p = find_head_from(bytes);
    proof {
        lemma_find_head(bytes@, 0);
    }
    if p == bytes.len() {
        return Ok(String::new());
    }
    let mut start: usize = p;
    while start > 0 && bytes[start - 1] != 10
        invariant
            start <= p,
            p < bytes@.len(),
            line_start(bytes@, start as int) == line_start(bytes@, p as int),
        decreases start,
    {
        start -= 1;
    }
    if p - start < 41 {
        return Err(GitError::MalformedRefs);
    }
    let head = slice_to_vec(slice_subrange(bytes, p - 41, p - 1));
    match string_from_utf8(head) {
        Some(s) => Ok(s),
        None => Err(GitError::MalformedRefs),
    }
}

/// The body of the upload-pack request that asks for the commit `head_ref`.
pub fn upload_pack_request(head_ref: &str) -> (r: Vec<u8>)
    ensures
        r@ == "004cwant ".spec_bytes() + head_ref.spec_bytes()
            + " side-bank-64k no-progress\n00000009done\n".spec_bytes(),
{
    let mut body: Vec<u8> = Vec::new();
    body.extend_from_slice("004cwant ".as_bytes());
    body.extend_from_slice(head_ref.as_bytes());
    body.extend_from_slice(" side-bank-64k no-progress\n00000009done\n".as_bytes());
    body
}

// ---------------------------------------------------------------------------
// The steps of a clone

/// Where a clone stands: which outside event it waits for next.
#[derive(Debug, Clone, Copy, PartialEq, Eq, Structural)]
pub enum CloneStage {
    AwaitDirectory,
    AwaitRefs,
    AwaitPack,
    AwaitObjectsWritten,
    AwaitCheckout,
    Finished,
}

/// A clone of `repo_url` into `dir`, and the hash of the remote `HEAD` once known.
pub struct CloneSession {
    pub repo_url: String,
    pub dir: String,
    pub head: String,
    pub stage: CloneStage,
}

/// What the caller reports after carrying out an action.
pub enum CloneEvent {
    /// The directory was created, made the current one, and a store set up in it.
    DirectoryReady,
    /// The refs advertisement was fetched; its text.
    RefsFetched(String),
    /// The upload-pack response was fetched; its bytes.
    PackFetched(Vec<u8>),
    /// The objects handed out were written to the store.
    ObjectsWritten,
    /// The head commit was checked out into the directory.
    CheckedOut,
}

/// What the caller is to do next.
pub enum CloneAction {
    /// Create `dir`, enter it and set up an empty store there.
    CreateDirectory { dir: String },
    /// Fetch the refs advertisement at `url`.
    FetchRefs { url: String },
    /// Post `body` to `url` and report the response.
    FetchPack { url: String, body: Vec<u8> },
    /// Write these objects to the store; `skipped_deltas` entries were deltas and were
    /// left out, each to be reported.
    WriteObjects { objects: Vec<LooseObject>, skipped_deltas: usize },
    /// Check out the commit `head` into the current directory.
    Checkout { head: String },
    /// The clone is complete.
    Done,
    /// The clone stops with this error.
    Fail(GitError),
}

/// The URL of the refs advertisement of a repository (protocol version 1).
pub open spec fn refs_url(repo_url: Seq<char>) -> Seq<char> {
    repo_url + "/info/refs?service=git-upload-pack"@
}

/// The URL that a repository's packfile is requested from.
pub open spec fn pack_url(repo_url: Seq<char>) -> Seq<char> {
    repo_url + "/git-upload-pack"@
}

/// The bytes of the request for the commit `head`.
pub open spec fn spec_upload_pack_request(head: Seq<u8>) -> Seq<u8> {
    "004cwant ".spec_bytes() + head + " side-bank-64k no-progress\n00000009done\n".spec_bytes()
}

/// `out` holds the stored form of each object of `objects`, in order.
pub open spec fn stored_objects(objects: Seq<(BlobType, Seq<u8>)>, out: Seq<LooseObject>) -> bool {
    &&& out.len() == objects.len()
    &&& forall|i: int|
        0 <= i < objects.len() ==> loose_object_of(
            spec_object_bytes(objects[i].0, objects[i].1),
            Ok::<LooseObject, GitError>(#[trigger] out[i]),
        )
}

/// `t` has the repository, directory and head of `s`.
pub open spec fn same_clone(s: CloneSession, t: CloneSession) -> bool {
    &&& t.repo_url@ == s.repo_url@
    &&& t.dir@ == s.dir@
    &&& t.head@ == s.head@
}

/// One step of a clone: from `s`, told of `event`, it moves to `t` and asks for `a`.
/// The order is: create the directory, fetch the refs, fetch the pack of `HEAD`, write
/// its objects, check out `HEAD`. An event that the stage does not wait for changes
/// nothing and is answered with `UnexpectedEvent`.
pub open spec fn clone_step(s: CloneSession, event: CloneEvent, t: CloneSession, a: CloneAction) -> bool {
    match (s.stage, event) {
        (CloneStage::AwaitDirectory, CloneEvent::DirectoryReady) => {
            &&& same_clone(s, t)
            &&& t.stage == CloneStage::AwaitRefs
            &&& a matches CloneAction::FetchRefs { url } && url@ == refs_url(s.repo_url@)
        },
        (CloneStage::AwaitRefs, CloneEvent::RefsFetched(body)) => match spec_discover_head_ref(
            encode_utf8(body@),
        ) {
            Ok(head) => {
                &&& t.repo_url@ == s.repo_url@
                &&& t.dir@ == s.dir@
                &&& t.head@ == head
                &&& t.stage == CloneStage::AwaitPack
                &&& a matches CloneAction::FetchPack { url, body } && url@ == pack_url(s.repo_url@)
                    && body@ == spec_upload_pack_request(encode_utf8(head))
            },
            Err(e) => {
                &&& same_clone(s, t)
                &&& t.stage == CloneStage::Finished
                &&& a == CloneAction::Fail(e)
            },
        },
        (CloneStage::AwaitPack, CloneEvent::PackFetched(data)) => match spec_make_data_from_pack(
            data@,
        ) {
            Ok((objects, deltas)) => {
                &&& same_clone(s, t)
                &&& t.stage == CloneStage::AwaitObjectsWritten
                &&& a matches CloneAction::WriteObjects { objects: out, skipped_deltas }
                    && stored_objects(objects, out@) && skipped_deltas == deltas
            },
            Err(e) => {
                &&& same_clone(s, t)
                &&& t.stage == CloneStage::Finished
                &&& a == CloneAction::Fail(e)
            },
        },
        (CloneStage::AwaitObjectsWritten, CloneEvent::ObjectsWritten) => {
            &&& same_clone(s, t)
            &&& t.stage == CloneStage::AwaitCheckout
            &&& a matches CloneAction::Checkout { head } && head@ == s.head@
        },
        (CloneStage::AwaitCheckout, CloneEvent::CheckedOut) => {
            &&& same_clone(s, t)
            &&& t.stage == CloneStage::Finished
            &&& a == CloneAction::Done
        },
        _ => {
            &&& same_clone(s, t)
            &&& t.stage == s.stage
            &&& a == CloneAction::Fail(GitError::UnexpectedEvent)
        },
    }
}

fn with_suffix(base: &str, suffix: &str) -> (r: String)
    ensures
        r@ == base@ + suffix@,
{
    let mut s = base.to_owned();
    s.append(suffix);
    s
}

/// Starts a clone of `repo_url` into `dir`: the first action creates the directory.
pub fn clone(repo_url: &str, dir: &str) -> (r: (CloneSession, CloneAction))
    ensures
        r.0.repo_url@ == repo_url@,
        r.0.dir@ == dir@,
        r.0.head@ == Seq::<char>::empty(),
        r.0.stage == CloneStage::AwaitDirectory,
        r.1 matches CloneAction::CreateDirectory { dir: d } && d@ == dir@,
{
    (
        CloneSession {
            repo_url: repo_url.to_owned(),
            dir: dir.to_owned(),
            head: String::new(),
            stage: CloneStage::AwaitDirectory,
        },
        CloneAction::CreateDirectory { dir: dir.to_owned() },
    )
}

fn store_objects(objects: &Vec<Blob>) -> (r: Vec<LooseObject>)
    ensures
        stored_objects(objects@.map_values(|b: Blob| b@), r@),
{
    let ghost items = objects@.map_values(|b: Blob| b@);
    let mut out: Vec<LooseObject> = Vec::new();
    let mut i: usize = 0;
    while i < objects.len()
        invariant
            i <= objects@.len(),
            items == objects@.map_values(|b: Blob| b@),
            out@.len() == i,
            forall|j: int|
                0 <= j < i ==> loose_object_of(
                    spec_object_bytes(items[j].0, items[j].1),
                    Ok::<LooseObject, GitError>(#[trigger] out@[j]),
                ),
        decreases objects@.len() - i,
    {
        assert(items[i as int] == objects@[i as int]@);
        let o = objects[i].to_loose_object().unwrap();
        out.push(o);
        i += 1;
    }
    out
}

impl CloneSession {
    /// The next step of the clone after `event`.
    pub fn step(&mut self, event: CloneEvent) -> (a: CloneAction)
        ensures
            clone_step(*old(self), event, *final(self), a),
    {
        match (self.stage, event) {
            (CloneStage::AwaitDirectory, CloneEvent::DirectoryReady) => {
                self.stage = CloneStage::AwaitRefs;
                proof {
                    reveal_strlit("/info/refs?service=git-upload-pack");
                }
                CloneAction::FetchRefs {
                    url: with_suffix(self.repo_url.as_str(), "/info/refs?service=git-upload-pack"),
                }
            },
            (CloneStage::AwaitRefs, CloneEvent::RefsFetched(body)) => {
                match discover_head_ref(body.as_str()) {
                    Ok(head) => {
                        let request = upload_pack_request(head.as_str());
                        self.head = head;
                        self.stage = CloneStage::AwaitPack;
                        CloneAction::FetchPack {
                            url: with_suffix(self.repo_url.as_str(), "/git-upload-pack"),
                            body: request,
                        }
                    },
                    Err(e) => {
                        self.stage = CloneStage::Finished;
                        CloneAction::Fail(e)
                    },
                }
            },
            (CloneStage::AwaitPack, CloneEvent::PackFetched(data)) => {
                if pack_start(data.as_slice()).is_none() {
                    self.stage = CloneStage::Finished;
                    return CloneAction::Fail(GitError::MalformedPack);
                }
                match make_data_from_pack(data.as_slice()) {
                    Ok(contents) => {
                        let objects = store_objects(&contents.objects);
                        self.stage = CloneStage::AwaitObjectsWritten;
                        CloneAction::WriteObjects { objects, skipped_deltas: contents.skipped_deltas }
                    },
                    Err(e) => {
                        self.stage = CloneStage::Finished;
                        CloneAction::Fail(e)
                    },
                }
            },
            (CloneStage::AwaitObjectsWritten, CloneEvent::ObjectsWritten) => {
                self.stage = CloneStage::AwaitCheckout;
                CloneAction::Checkout { head: self.head.clone() }
            },
            (CloneStage::AwaitCheckout, CloneEvent::CheckedOut) => {
                self.stage = CloneStage::Finished;
                CloneAction::Done
            },
            _ => CloneAction::Fail(GitError::UnexpectedEvent),
        }
    }
}

} // verus!
