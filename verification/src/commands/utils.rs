use vstd::prelude::*;
use vstd::slice::slice_subrange;
use vstd::slice::slice_to_vec;
use vstd::utf8::decode_utf8;
use vstd::utf8::valid_utf8;
use super::bindings::sha1;
use super::bindings::sha1_digest;
use super::bindings::string_from_utf8;
use super::bindings::zlib_decode;
use super::bindings::zlib_deflate;
use super::bindings::zlib_encode;
use super::bindings::zlib_inflate;
use super::tree::spec_parse_entries;
use super::tree::TreeEntryView;
use super::tree::TreeObjects;
use super::laws::lemma_hex_encode_digits;

verus! {

/// Where a command stops on its input.
#[derive(Debug, Clone, Copy, PartialEq, Eq, Structural)]
pub enum GitError {
    /// The zlib data could not be decompressed.
    Decompress,
    /// Bytes that had to be UTF-8 text were not.
    InvalidUtf8,
    /// An object, or a header, has no NUL byte where one must follow.
    MissingNul,
    /// An object is empty or starts with a byte that names no object type.
    UnknownObjectType,
    /// A tree entry has no space after its mode.
    MalformedTree,
    /// A commit object is too short to hold the hash of its tree.
    MalformedCommit,
    /// The object cannot be checked out.
    Unsupported,
    /// The packfile response breaks its format.
    MalformedPack,
    /// The refs advertisement has `HEAD` too close to the start of its line.
    MalformedRefs,
    /// A clone was told of an event that its current stage does not wait for.
    UnexpectedEvent,
}

// ---------------------------------------------------------------------------
// Searching bytes

/// The first index at or after `start` that holds `b`, or the length of `s` where
/// there is none.
pub open spec fn find_byte(s: Seq<u8>, start: int, b: u8) -> int
    decreases s.len() - start,
{
    if start >= s.len() {
        s.len() as int
    } else if s[start] == b {
        start
    } else {
        find_byte(s, start + 1, b)
    }
}

/// What `find_byte` gives: the first match at or after `start`, or the end.
pub proof fn lemma_find_byte(s: Seq<u8>, start: int, b: u8)
    requires
        0 <= start <= s.len(),
    ensures
        start <= find_byte(s, start, b) <= s.len(),
        find_byte(s, start, b) < s.len() ==> s[find_byte(s, start, b)] == b,
        forall|k: int| start <= k < find_byte(s, start, b) ==> s[k] != b,
    decreases s.len() - start,
{
    if start < s.len() && s[start] != b {
        lemma_find_byte(s, start + 1, b);
    }
}

/// Any index at or after `start` that holds no `b` up to a match gives that match.
pub proof fn lemma_find_byte_at(s: Seq<u8>, start: int, b: u8, j: int)
    requires
        0 <= start <= j <= s.len(),
        j < s.len() ==> s[j] == b,
        forall|k: int| start <= k < j ==> s[k] != b,
    ensures
        find_byte(s, start, b) == j,
    decreases j - start,
{
    if start < j {
        lemma_find_byte_at(s, start + 1, b, j);
    }
}

/// The first index at or after `start` that holds `b`, or `s.len()`.
pub fn find_byte_from(s: &[u8], start: usize, b: u8) -> (r: usize)
    requires
        start <= s@.len(),
    ensures
        r == find_byte(s@, start as int, b),
{
    let mut i = start;
    while i < s.len() && s[i] != b
        invariant
            start <= i <= s@.len(),
            find_byte(s@, i as int, b) == find_byte(s@, start as int, b),
        decreases s@.len() - i,
    {
        i += 1;
    }
    i
}

// ---------------------------------------------------------------------------
// Hex and decimal text

/// The lower-case hex digit for `n`.
pub open spec fn hex_char(n: u8) -> char {
    if n < 10 {
        (48 + n) as char
    } else {
        (87 + n) as char
    }
}

/// The lower-case hex text of `bytes`, two digits per byte, high half first.
pub open spec fn spec_hex_encode(bytes: Seq<u8>) -> Seq<char>
    decreases bytes.len(),
{
    if bytes.len() == 0 {
        seq![]
    } else {
        spec_hex_encode(bytes.drop_last()) + seq![
            hex_char(bytes.last() / 16),
            hex_char(bytes.last() % 16),
        ]
    }
}

fn hex_digit(n: u8) -> (s: &'static str)
    requires
        n < 16,
    ensures
        s@ == seq![hex_char(n)],
{
    let digits = "0123456789abcdef";
    proof {
        reveal_strlit("0123456789abcdef");
    }
    assert(digits.is_ascii());
    digits.substring_ascii(n as usize, n as usize + 1)
}

/// Lower-case hex text of `bytes`.
pub fn hex_encode(bytes: &[u8]) -> (r: String)
    ensures
        r@ == spec_hex_encode(bytes@),
{
    let mut out = String::new();
    let mut i: usize = 0;
    while i < bytes.len()
        invariant
            i <= bytes@.len(),
            out@ == spec_hex_encode(bytes@.take(i as int)),
        decreases bytes@.len() - i,
    {
        let b = bytes[i];
        out.append(hex_digit(b / 16));
        out.append(hex_digit(b % 16));
        assert(bytes@.take(i + 1).drop_last() == bytes@.take(i as int));
        i += 1;
    }
    assert(bytes@.take(i as int) == bytes@);
    out
}

/// The decimal digits of `n`, most significant first, as ASCII bytes.
pub open spec fn spec_decimal(n: nat) -> Seq<u8>
    decreases n,
{
    if n < 10 {
        seq![(48 + n) as u8]
    } else {
        spec_decimal(n / 10).push((48 + n % 10) as u8)
    }
}

/// Decimal text holds only digits, so no NUL and no space.
pub proof fn lemma_decimal_digits(n: nat)
    ensures
        spec_decimal(n).len() >= 1,
        forall|i: int| 0 <= i < spec_decimal(n).len() ==> 48 <= #[trigger] spec_decimal(n)[i] <= 57,
    decreases n,
{
    if n >= 10 {
        lemma_decimal_digits(n / 10);
    }
}

/// Formats `n` in decimal, as `n.to_string()` does.
pub fn usize_to_decimal(n: usize) -> (r: Vec<u8>)
    ensures
        r@ == spec_decimal(n as nat),
    decreases n,
{
    if n < 10 {
        let mut v: Vec<u8> = Vec::new();
        v.push(48u8 + n as u8);
        v
    } else {
        let mut v = usize_to_decimal(n / 10);
        v.push(48u8 + (n % 10) as u8);
        v
    }
}

// ---------------------------------------------------------------------------
// Object types and loose objects

/// The kinds of object that the store holds.
#[derive(Debug, Clone, Copy, PartialEq, Eq, Structural)]
pub enum BlobType {
    Commit,
    Tree,
    Blob,
}

/// The name of a type, as it stands in an object's header.
pub open spec fn spec_type_name(t: BlobType) -> Seq<u8> {
    match t {
        BlobType::Commit => seq![99u8, 111, 109, 109, 105, 116],
        BlobType::Tree => seq![116u8, 114, 101, 101],
        BlobType::Blob => seq![98u8, 108, 111, 98],
    }
}

/// The numeric type codes of a packfile that name a storable type.
pub open spec fn is_type_code(value: u8) -> bool {
    1 <= value <= 3
}

pub open spec fn spec_type_from_code(value: u8) -> BlobType {
    if value == 1 {
        BlobType::Commit
    } else if value == 2 {
        BlobType::Tree
    } else {
        BlobType::Blob
    }
}

/// The first letters `c`, `t`, `b` of the type names.
pub open spec fn is_type_letter(value: u8) -> bool {
    value == 99 || value == 116 || value == 98
}

pub open spec fn spec_type_from_letter(value: u8) -> BlobType {
    if value == 99 {
        BlobType::Commit
    } else if value == 116 {
        BlobType::Tree
    } else {
        BlobType::Blob
    }
}

impl BlobType {
    /// The type of a packfile type code: 1 commit, 2 tree, 3 blob.
    pub fn from_code(value: u8) -> (r: BlobType)
        requires
            is_type_code(value),
        ensures
            r == spec_type_from_code(value),
    {
        if value == 1 {
            BlobType::Commit
        } else if value == 2 {
            BlobType::Tree
        } else {
            BlobType::Blob
        }
    }

    /// The type whose name starts with the letter `value`.
    pub fn from_letter(value: u8) -> (r: BlobType)
        requires
            is_type_letter(value),
        ensures
            r == spec_type_from_letter(value),
    {
        if value == 99 {
            BlobType::Commit
        } else if value == 116 {
            BlobType::Tree
        } else {
            BlobType::Blob
        }
    }

    /// The lower-case name of the type: `commit`, `tree` or `blob`.
    pub fn name_bytes(&self) -> (r: Vec<u8>)
        ensures
            r@ == spec_type_name(*self),
    {
        match self {
            BlobType::Commit => vec![99u8, 111, 109, 109, 105, 116],
            BlobType::Tree => vec![116u8, 114, 101, 101],
            BlobType::Blob => vec![98u8, 108, 111, 98],
        }
    }
}

/// An object of the store: its type and its content.
#[derive(Debug, PartialEq, Eq)]
pub struct Blob {
    blob_type: BlobType,
    blob: Vec<u8>,
}

impl View for Blob {
    type V = (BlobType, Seq<u8>);

    closed spec fn view(&self) -> (BlobType, Seq<u8>) {
        (self.blob_type, self.blob@)
    }
}

/// The bytes of an object as the store hashes and compresses them:
/// `<type> <size>\0<content>`.
pub open spec fn spec_object_bytes(t: BlobType, content: Seq<u8>) -> Seq<u8> {
    spec_type_name(t) + seq![32u8] + spec_decimal(content.len()) + seq![0u8] + content
}

/// `<type> <size>\0<content>` for the given type and content.
pub fn encode_object(t: BlobType, content: &[u8]) -> (r: Vec<u8>)
    ensures
        r@ == spec_object_bytes(t, content@),
{
    let mut v = t.name_bytes();
    v.push(32u8);
    let mut size = usize_to_decimal(content.len());
    v.append(&mut size);
    v.push(0u8);
    v.extend_from_slice(content);
    v
}

impl Blob {
    /// An object of the type with packfile code `blob_type` and a copy of `blob`.
    pub fn new(blob_type: u8, blob: &Vec<u8>) -> (r: Blob)
        requires
            is_type_code(blob_type),
        ensures
            r@ == (spec_type_from_code(blob_type), blob@),
    {
        Blob { blob_type: BlobType::from_code(blob_type), blob: slice_to_vec(blob.as_slice()) }
    }

    /// An object of type `blob_type` and a copy of `blob`.
    pub fn new_with_blob_type(blob_type: BlobType, blob: &[u8]) -> (r: Blob)
        ensures
            r@ == (blob_type, blob@),
    {
        Blob { blob_type, blob: slice_to_vec(blob) }
    }

    /// The object's type.
    pub fn blob_type(&self) -> (r: BlobType)
        ensures
            r == self@.0,
    {
        self.blob_type
    }

    /// The object's content.
    pub fn content(&self) -> (r: &[u8])
        ensures
            r@ == self@.1,
    {
        self.blob.as_slice()
    }

    /// The hash and the compressed bytes under which the store keeps this object.
    pub fn to_loose_object(&self) -> (r: Result<LooseObject, GitError>)
        ensures
            loose_object_of(spec_object_bytes(self@.0, self@.1), r),
    {
        let bytes = encode_object(self.blob_type, self.blob.as_slice());
        encode_loose_object(&bytes)
    }
}

/// An object ready to be written to the store: its hash, which names the file, and
/// the compressed bytes that the file holds.
pub struct LooseObject {
    pub hash: String,
    pub compressed: Vec<u8>,
}

/// `r` is what storing `object` gives, which never fails: its SHA-1 hash in hex and
/// its zlib compression, from which decompression gives `object` back.
pub open spec fn loose_object_of(object: Seq<u8>, r: Result<LooseObject, GitError>) -> bool {
    &&& r is Ok
    &&& r->Ok_0.hash@ == spec_hex_encode(sha1_digest(object))
    &&& r->Ok_0.compressed@ == zlib_deflate(object)
    &&& spec_decode_bytes(r->Ok_0.compressed@) == Ok::<Seq<u8>, GitError>(object)
}

/// True for the digits of lower-case hex text: `0-9` and `a-f`.
pub open spec fn is_lower_hex_char(c: char) -> bool {
    ('0' <= c <= '9') || ('a' <= c <= 'f')
}

/// The lower-case hex SHA-1 of `content`: 40 digits.
pub fn get_hash(content: &Vec<u8>) -> (r: String)
    ensures
        r@ == spec_hex_encode(sha1_digest(content@)),
        r@.len() == 40,
        forall|k: int| 0 <= k < r@.len() ==> is_lower_hex_char(#[trigger] r@[k]),
{
    let digest = sha1(content.as_slice());
    let r = hex_encode(digest.as_slice());
    proof {
        let d = digest@;
        lemma_hex_encode_digits(d);
        assert forall|k: int| 0 <= k < r@.len() implies is_lower_hex_char(#[trigger] r@[k]) by {
            let i = k / 2;
            assert(0 <= i < d.len());
            assert(spec_hex_encode(d)[2 * i] == hex_char(d[i] / 16));
            if k % 2 == 1 {
                assert(k == 2 * i + 1);
            } else {
                assert(k == 2 * i);
            }
        }
    }
    r
}

/// zlib compression of `content` at the default level, which always succeeds;
/// decompressing the result gives `content` back.
pub fn compress_content(content: &[u8]) -> (r: Result<Vec<u8>, std::io::Error>)
    ensures
        r is Ok,
        r matches Ok(c) ==> c@ == zlib_deflate(content@),
        r matches Ok(c) ==> spec_decode_bytes(c@) == Ok::<Seq<u8>, GitError>(content@),
{
    zlib_encode(content)
}

/// Hash and compress the bytes of an object.
pub fn encode_loose_object(object: &Vec<u8>) -> (r: Result<LooseObject, GitError>)
    ensures
        loose_object_of(object@, r),
{
    let hash = get_hash(object);
    let compressed = compress_content(object.as_slice()).unwrap();
    Ok(LooseObject { hash, compressed })
}

// ---------------------------------------------------------------------------
// Reading objects back

/// The decompressed bytes of a stored object.
pub open spec fn spec_decode_bytes(compressed: Seq<u8>) -> Result<Seq<u8>, GitError> {
    match zlib_inflate(compressed) {
        Some((data, _)) => Ok(data),
        None => Err(GitError::Decompress),
    }
}

/// Decompresses the bytes of a stored object.
pub fn decode_blob_as_bytes(compressed: &[u8]) -> (r: Result<Vec<u8>, GitError>)
    ensures
        match r {
            Ok(v) => spec_decode_bytes(compressed@) == Ok::<Seq<u8>, GitError>(v@),
            Err(e) => spec_decode_bytes(compressed@) == Err::<Seq<u8>, GitError>(e),
        },
{
    match zlib_decode(compressed) {
        Some((data, _)) => Ok(data),
        None => Err(GitError::Decompress),
    }
}

/// The decompressed text of a stored object.
pub open spec fn spec_decode_string(compressed: Seq<u8>) -> Result<Seq<char>, GitError> {
    match spec_decode_bytes(compressed) {
        Ok(data) => if valid_utf8(data) {
            Ok(decode_utf8(data))
        } else {
            Err(GitError::InvalidUtf8)
        },
        Err(e) => Err(e),
    }
}

/// Decompresses the bytes of a stored object and reads them as text; they must
/// decompress, to UTF-8.
pub fn decode_bytes_to_string(compressed_blob: &[u8]) -> (r: String)
    requires
        spec_decode_string(compressed_blob@) is Ok,
    ensures
        spec_decode_string(compressed_blob@) == Ok::<Seq<char>, GitError>(r@),
{
    let data = decode_blob_as_bytes(compressed_blob).unwrap();
    string_from_utf8(data).unwrap()
}

/// An object read from its decompressed bytes: the type from the first byte, the
/// content after the first NUL.
pub open spec fn spec_parse_object(bytes: Seq<u8>) -> Result<(BlobType, Seq<u8>), GitError> {
    if bytes.len() == 0 || !is_type_letter(bytes[0]) {
        Err(GitError::UnknownObjectType)
    } else if find_byte(bytes, 0, 0) == bytes.len() {
        Err(GitError::MissingNul)
    } else {
        Ok((spec_type_from_letter(bytes[0]), bytes.skip(find_byte(bytes, 0, 0) + 1)))
    }
}

/// Reads an object from its decompressed bytes.
pub fn parse_object(bytes: &[u8]) -> (r: Result<Blob, GitError>)
    ensures
        match r {
            Ok(b) => spec_parse_object(bytes@) == Ok::<(BlobType, Seq<u8>), GitError>(b@),
            Err(e) => spec_parse_object(bytes@) == Err::<(BlobType, Seq<u8>), GitError>(e),
        },
{
    if bytes.len() == 0 || !(bytes[0] == 99 || bytes[0] == 116 || bytes[0] == 98) {
        return Err(GitError::UnknownObjectType);
    }
    let blob_type = BlobType::from_letter(bytes[0]);
    let start = find_byte_from(bytes, 0, 0);
    proof {
        lemma_find_byte(bytes@, 0, 0);
    }
    if start == bytes.len() {
        return Err(GitError::MissingNul);
    }
    let content = slice_subrange(bytes, start + 1, bytes.len());
    assert(content@ == bytes@.skip(start + 1));
    Ok(Blob::new_with_blob_type(blob_type, content))
}

// ---------------------------------------------------------------------------
// Checking out

/// One step of checking out an object into the working directory.
pub enum Checkout {
    /// Check out the object `hash` into the directory `dir`.
    Object { hash: String, dir: String },
    /// Write the text of the blob `hash` to the file `path`.
    File { path: String, hash: String },
    /// Create the directory `path`, then check out the tree `hash` into it.
    Dir { path: String, hash: String },
}

/// The abstract content of a checkout step.
pub enum CheckoutView {
    Object(Seq<char>, Seq<char>),
    File(Seq<char>, Seq<char>),
    Dir(Seq<char>, Seq<char>),
}

impl View for Checkout {
    type V = CheckoutView;

    open spec fn view(&self) -> CheckoutView {
        match self {
            Checkout::Object { hash, dir } => CheckoutView::Object(hash@, dir@),
            Checkout::File { path, hash } => CheckoutView::File(path@, hash@),
            Checkout::Dir { path, hash } => CheckoutView::Dir(path@, hash@),
        }
    }
}

/// `<dir>/<name>`.
pub open spec fn child_path(dir: Seq<char>, name: Seq<char>) -> Seq<char> {
    dir + seq!['/'] + name
}

/// True when a mode text names something that can be checked out: it starts with `1`
/// (a file) or `4` (a directory).
pub open spec fn mode_is_checkable(mode_text: Seq<u8>) -> bool {
    mode_text.len() > 0 && (mode_text[0] == 49 || mode_text[0] == 52)
}

/// The step for one tree entry, by the first character of its mode text: `4` makes a
/// directory, anything else (that is, `1`) a file.
pub open spec fn entry_checkout(dir: Seq<char>, e: TreeEntryView) -> CheckoutView {
    if e.mode_text.len() > 0 && e.mode_text[0] == 52 {
        CheckoutView::Dir(child_path(dir, e.name), e.sha)
    } else {
        CheckoutView::File(child_path(dir, e.name), e.sha)
    }
}

/// True when every entry's mode can be checked out.
pub open spec fn all_checkable(es: Seq<TreeEntryView>) -> bool {
    forall|i: int| 0 <= i < es.len() ==> mode_is_checkable(#[trigger] es[i].mode_text)
}

/// The steps that check out an object of type `t` with `content` into `dir`: a commit
/// continues with the tree whose hash is at bytes 5 to 45 (after `tree `); a tree gives
/// one step per entry, in order, where every entry's mode starts with `1` or `4`; a
/// blob cannot be checked out on its own. A short commit, a hash that is not UTF-8, a
/// malformed tree, a mode starting with anything else and a blob give an error, and no
/// step at all.
pub open spec fn spec_materialize(t: BlobType, content: Seq<u8>, dir: Seq<char>) -> Result<
    Seq<CheckoutView>,
    GitError,
> {
    match t {
        BlobType::Commit => if content.len() < 45 {
            Err(GitError::MalformedCommit)
        } else if !valid_utf8(content.subrange(5, 45)) {
            Err(GitError::InvalidUtf8)
        } else {
            Ok(seq![CheckoutView::Object(decode_utf8(content.subrange(5, 45)), dir)])
        },
        BlobType::Tree => match spec_parse_entries(content) {
            None => Err(GitError::MalformedTree),
            Some(es) => if all_checkable(es) {
                Ok(es.map_values(|e: TreeEntryView| entry_checkout(dir, e)))
            } else {
                Err(GitError::Unsupported)
            },
        },
        BlobType::Blob => Err(GitError::Unsupported),
    }
}

/// `r` holds the steps of `steps`.
pub open spec fn checkout_result(
    steps: Result<Seq<CheckoutView>, GitError>,
    r: Result<Vec<Checkout>, GitError>,
) -> bool {
    match r {
        Ok(v) => steps == Ok::<Seq<CheckoutView>, GitError>(v@.map_values(|c: Checkout| c@)),
        Err(e) => steps == Err::<Seq<CheckoutView>, GitError>(e),
    }
}

fn path_in(dir: &str, name: &str) -> (r: String)
    ensures
        r@ == child_path(dir@, name@),
{
    let mut path = dir.to_owned();
    proof {
        reveal_strlit("/");
    }
    path.append("/");
    path.append(name);
    path
}

impl Blob {
    /// Why this object cannot be checked out, or `None` where it can: the error that
    /// `spec_materialize` gives, in whatever directory.
    pub fn checkout_problem(&self) -> (r: Option<GitError>)
        requires
            self@.1.len() < usize::MAX,
        ensures
            forall|dir: Seq<char>|
                match r {
                    None => #[trigger] spec_materialize(self@.0, self@.1, dir) is Ok,
                    Some(e) => spec_materialize(self@.0, self@.1, dir) == Err::<
                        Seq<CheckoutView>,
                        GitError,
                    >(e),
                },
    {
        match self.blob_type {
            BlobType::Commit => {
                if self.blob.len() < 45 {
                    return Some(GitError::MalformedCommit);
                }
                let hash_bytes = slice_to_vec(slice_subrange(self.blob.as_slice(), 5, 45));
                if string_from_utf8(hash_bytes).is_none() {
                    return Some(GitError::InvalidUtf8);
                }
                None
            },
            BlobType::Tree => {
                let tree_objects = match TreeObjects::from_bytes(self.blob.as_slice()) {
                    Some(t) => t,
                    None => return Some(GitError::MalformedTree),
                };
                let ghost es = tree_objects@;
                let mut i: usize = 0;
                while i < tree_objects.objects.len()
                    invariant
                        i <= es.len(),
                        es == tree_objects@,
                        self.blob_type == BlobType::Tree,
                        spec_parse_entries(self@.1) == Some(es),
                        es.len() == tree_objects.objects@.len(),
                        forall|j: int| 0 <= j < i ==> mode_is_checkable(#[trigger] es[j].mode_text),
                    decreases es.len() - i,
                {
                    let object = &tree_objects.objects[i];
                    assert(es[i as int] == object@);
                    if object.mode_text.len() == 0 || !(object.mode_text[0] == 49
                        || object.mode_text[0] == 52) {
                        assert(!mode_is_checkable(es[i as int].mode_text));
                        assert(!all_checkable(es));
                        return Some(GitError::Unsupported);
                    }
                    i += 1;
                }
                assert(all_checkable(es));
                None
            },
            BlobType::Blob => Some(GitError::Unsupported),
        }
    }

    /// The steps that check this object out into `current_dir`; the object must be one
    /// that can be checked out (`checkout_problem` tells).
    pub fn materialize(&self, current_dir: &str) -> (r: Vec<Checkout>)
        requires
            self@.1.len() < usize::MAX,
            spec_materialize(self@.0, self@.1, current_dir@) is Ok,
        ensures
            spec_materialize(self@.0, self@.1, current_dir@) == Ok::<Seq<CheckoutView>, GitError>(
                r@.map_values(|c: Checkout| c@),
            ),
    {
        match self.blob_type {
            BlobType::Commit => {
                let hash_bytes = slice_to_vec(slice_subrange(self.blob.as_slice(), 5, 45));
                let hash = string_from_utf8(hash_bytes).unwrap();
                let mut steps: Vec<Checkout> = Vec::new();
                steps.push(Checkout::Object { hash, dir: current_dir.to_owned() });
                assert(steps@.map_values(|c: Checkout| c@) =~= seq![
                    CheckoutView::Object(decode_utf8(self@.1.subrange(5, 45)), current_dir@),
                ]);
                steps
            },
            _ => {
                assert(self.blob_type == BlobType::Tree);
                let tree_objects = TreeObjects::from_bytes(self.blob.as_slice()).unwrap();
                let ghost es = tree_objects@;
                assert(all_checkable(es));
                let mut steps: Vec<Checkout> = Vec::new();
                let mut i: usize = 0;
                while i < tree_objects.objects.len()
                    invariant
                        i <= es.len(),
                        es == tree_objects@,
                        all_checkable(es),
                        es.len() == tree_objects.objects@.len(),
                        steps@.map_values(|c: Checkout| c@) == es.take(i as int).map_values(
                            |e: TreeEntryView| entry_checkout(current_dir@, e),
                        ),
                    decreases es.len() - i,
                {
                    let object = &tree_objects.objects[i];
                    assert(es[i as int] == object@);
                    assert(mode_is_checkable(es[i as int].mode_text));
                    let path = path_in(current_dir, object.name.as_str());
                    let hash = object.sha.clone();
                    let ghost before = steps@.map_values(|c: Checkout| c@);
                    if object.mode_text[0] == 52 {
                        steps.push(Checkout::Dir { path, hash });
                    } else {
                        steps.push(Checkout::File { path, hash });
                    }
                    assert(steps@.map_values(|c: Checkout| c@) =~= before.push(
                        entry_checkout(current_dir@, es[i as int]),
                    ));
                    assert(es.take(i + 1) =~= es.take(i as int).push(es[i as int]));
                    assert(es.take(i + 1).map_values(|e: TreeEntryView| entry_checkout(current_dir@, e))
                        =~= es.take(i as int).map_values(
                        |e: TreeEntryView| entry_checkout(current_dir@, e),
                    ).push(entry_checkout(current_dir@, es[i as int])));
                    i += 1;
                }
                assert(es.take(i as int) =~= es);
                steps
            },
        }
    }
}

/// The steps that check out the object whose compressed bytes are `compressed`.
pub open spec fn spec_materialize_object(compressed: Seq<u8>, dir: Seq<char>) -> Result<
    Seq<CheckoutView>,
    GitError,
> {
    match spec_decode_bytes(compressed) {
        Err(e) => Err(e),
        Ok(bytes) => match spec_parse_object(bytes) {
            Err(e) => Err(e),
            Ok((t, content)) => spec_materialize(t, content, dir),
        },
    }
}

/// The steps that check out the stored object whose compressed bytes are `compressed`
/// into `current_dir`; the object must decompress, parse and be one that can be checked
/// out.
pub fn materialize_object(compressed: &[u8], current_dir: &str) -> (r: Vec<Checkout>)
    requires
        spec_materialize_object(compressed@, current_dir@) is Ok,
    ensures
        spec_materialize_object(compressed@, current_dir@) == Ok::<Seq<CheckoutView>, GitError>(
            r@.map_values(|c: Checkout| c@),
        ),
{
    let bytes = decode_blob_as_bytes(compressed).unwrap();
    let blob = parse_object(bytes.as_slice()).unwrap();
    proof {
        lemma_find_byte(bytes@, 0, 0);
    }
    blob.materialize(current_dir)
}

/// The checkout steps of any compressed bytes, or why there are none: the bytes do not
/// decompress, the object does not parse, or `checkout_problem` names a reason.
pub fn try_materialize_object(compressed: &[u8], current_dir: &str) -> (r: Result<
    Vec<Checkout>,
    GitError,
>)
    ensures
        checkout_result(spec_materialize_object(compressed@, current_dir@), r),
{
    let bytes = decode_blob_as_bytes(compressed)?;
    let blob = parse_object(bytes.as_slice())?;
    proof {
        lemma_find_byte(bytes@, 0, 0);
    }
    if let Some(e) = blob.checkout_problem() {
        assert(spec_materialize(blob@.0, blob@.1, current_dir@) == Err::<Seq<CheckoutView>, GitError>(e));
        return Err(e);
    }
    assert(spec_materialize(blob@.0, blob@.1, current_dir@) is Ok);
    Ok(materialize_object(compressed, current_dir))
}

} // verus!
