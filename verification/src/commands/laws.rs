//! Properties that relate the commands to one another.
use vstd::prelude::*;
use vstd::string::StringSliceAdditionalSpecFns;
use vstd::utf8::decode_utf8;
use vstd::utf8::encode_utf8_decode_utf8;
use vstd::utf8::encode_utf8_valid_utf8;
use vstd::utf8::encode_utf8;
use vstd::utf8::is_ascii_chars;
use vstd::utf8::is_ascii_chars_encode_utf8;
use vstd::utf8::valid_utf8;
use vstd::utf8::valid_utf8_concat;
use super::bindings::hex_decodes_to;
use super::bindings::spec_hex_decode;
use super::cat_file::spec_cat_file;
use super::commit_tree::spec_commit_content;
use super::commit_tree::spec_i64_decimal;
use super::utils::loose_object_of;
use super::utils::LooseObject;
use super::utils::all_checkable;
use super::utils::entry_checkout;
use super::utils::mode_is_checkable;
use super::utils::spec_materialize_object;
use super::utils::CheckoutView;
use super::ls_tree::spec_ls_tree;
use super::tree::has_space;
use super::tree::lemma_entry_total;
use super::tree::spec_mode_of;
use super::utils::find_byte;
use super::tree::spec_parse_entries;
use super::tree::spec_parse_entry;
use super::tree::spec_entry_line;
use super::tree::spec_render_entries;
use super::tree::spec_render_names;
use super::tree::TreeEntryView;
use super::write_tree::spec_entries_bytes;
use super::write_tree::spec_entry_bytes;
use super::write_tree::spec_sort_by_name;
use super::write_tree::spec_tree_object;
use super::write_tree::TreeItemView;
use super::utils::hex_char;
use super::utils::lemma_decimal_digits;
use super::utils::lemma_find_byte;
use super::utils::lemma_find_byte_at;
use super::utils::spec_decimal;
use super::utils::spec_decode_bytes;
use super::utils::spec_hex_encode;
use super::utils::spec_object_bytes;
use super::utils::spec_parse_object;
use super::utils::spec_type_from_letter;
use super::utils::spec_type_name;
use super::utils::BlobType;
use super::utils::GitError;

verus! {

/// The hex text of `b` has two digits per byte: the high half, then the low half.
pub proof fn lemma_hex_encode_digits(b: Seq<u8>)
    ensures
        spec_hex_encode(b).len() == 2 * b.len(),
        forall|i: int|
            0 <= i < b.len() ==> #[trigger] spec_hex_encode(b)[2 * i] == hex_char(b[i] / 16)
                && spec_hex_encode(b)[2 * i + 1] == hex_char(b[i] % 16),
    decreases b.len(),
{
    if b.len() > 0 {
        lemma_hex_encode_digits(b.drop_last());
        let prev = spec_hex_encode(b.drop_last());
        assert forall|i: int| 0 <= i < b.len() implies #[trigger] spec_hex_encode(b)[2 * i]
            == hex_char(b[i] / 16) && spec_hex_encode(b)[2 * i + 1] == hex_char(b[i] % 16) by {
            if i < b.len() - 1 {
                assert(b.drop_last()[i] == b[i]);
                assert(spec_hex_encode(b)[2 * i] == prev[2 * i]);
                assert(spec_hex_encode(b)[2 * i + 1] == prev[2 * i + 1]);
            }
        }
    }
}

proof fn lemma_hex_char_byte(n: u8)
    requires
        n < 16,
    ensures
        '\0' <= hex_char(n) <= '\u{7f}',
        crate::commands::bindings::is_hex_digit(hex_char(n) as u8),
        crate::commands::bindings::hex_digit_value(hex_char(n) as u8) == n,
{
}

/// Hex text decodes back to the bytes it was made of: a hash written by one command as
/// text is read back as the same 20 bytes by `write-tree`.
pub proof fn law_hex_roundtrip(b: Seq<u8>)
    ensures
        hex_decodes_to(encode_utf8(spec_hex_encode(b)), b.len()),
        spec_hex_decode(encode_utf8(spec_hex_encode(b))) == b,
{
    lemma_hex_encode_digits(b);
    let chars = spec_hex_encode(b);
    assert forall|k: int| 0 <= k < chars.len() implies '\0' <= #[trigger] chars[k] <= '\u{7f}'
        && crate::commands::bindings::is_hex_digit(chars[k] as u8) by {
        let i = k / 2;
        assert(0 <= i < b.len());
        lemma_hex_char_byte(b[i] / 16);
        lemma_hex_char_byte(b[i] % 16);
        assert(spec_hex_encode(b)[2 * i] == hex_char(b[i] / 16));
        if k == 2 * i {
            assert(chars[k] == hex_char(b[i] / 16));
        } else {
            assert(k == 2 * i + 1);
            assert(chars[k] == hex_char(b[i] % 16));
        }
    }
    assert(is_ascii_chars(chars));
    is_ascii_chars_encode_utf8(chars);
    let bytes = encode_utf8(chars);
    assert forall|k: int| 0 <= k < bytes.len() implies crate::commands::bindings::is_hex_digit(
        #[trigger] bytes[k],
    ) by {
        assert(chars[k] as u8 == bytes[k]);
    }
    let decoded = spec_hex_decode(bytes);
    assert forall|i: int| 0 <= i < b.len() implies #[trigger] decoded[i] == b[i] by {
        lemma_hex_char_byte(b[i] / 16);
        lemma_hex_char_byte(b[i] % 16);
        assert(chars[2 * i] as u8 == bytes[2 * i]);
        assert(chars[2 * i + 1] as u8 == bytes[2 * i + 1]);
    }
    assert(decoded =~= b);
}

/// The header of an object holds no NUL: type name, space and decimal size.
proof fn lemma_header_has_no_nul(t: BlobType, n: nat)
    ensures
        forall|k: int|
            0 <= k < spec_type_name(t).len() + 1 + spec_decimal(n).len() ==> (spec_type_name(t)
                + seq![32u8] + spec_decimal(n))[k] != 0,
        forall|k: int|
            0 <= k < spec_type_name(t).len() + 1 + spec_decimal(n).len() ==> (spec_type_name(t)
                + seq![32u8] + spec_decimal(n))[k] < 128,
{
    lemma_decimal_digits(n);
    let h = spec_type_name(t) + seq![32u8] + spec_decimal(n);
    assert forall|k: int| 0 <= k < h.len() implies h[k] != 0 && h[k] < 128 by {
        if k >= spec_type_name(t).len() + 1 {
            assert(h[k] == spec_decimal(n)[k - spec_type_name(t).len() - 1]);
        }
    }
}

/// Reading an object back from its stored bytes gives its type and content: what
/// `hash-object` and the packfile writer store is what checking out reads.
pub proof fn law_object_roundtrip(t: BlobType, content: Seq<u8>)
    ensures
        spec_parse_object(spec_object_bytes(t, content)) == Ok::<(BlobType, Seq<u8>), GitError>(
            (t, content),
        ),
{
    let header = spec_type_name(t) + seq![32u8] + spec_decimal(content.len());
    let bytes = spec_object_bytes(t, content);
    lemma_header_has_no_nul(t, content.len());
    assert(bytes == header + seq![0u8] + content);
    assert(bytes[header.len() as int] == 0);
    assert forall|k: int| 0 <= k < header.len() implies bytes[k] != 0 by {
        assert(bytes[k] == header[k]);
    }
    lemma_find_byte_at(bytes, 0, 0, header.len() as int);
    assert(bytes[0] == spec_type_name(t)[0]);
    assert(spec_type_from_letter(bytes[0]) == t);
    assert(bytes.skip(header.len() + 1int) =~= content);
}

/// Bytes below 128 are valid UTF-8.
pub proof fn lemma_ascii_valid_utf8(s: Seq<u8>)
    requires
        forall|k: int| 0 <= k < s.len() ==> s[k] < 128,
    ensures
        valid_utf8(s),
    decreases s.len(),
{
    if s.len() > 0 {
        assert(s.subrange(1, s.len() as int) =~= s.drop_first());
        lemma_ascii_valid_utf8(s.drop_first());
    }
}

/// `cat-file -p` prints back the text that `hash-object` stored, where that text has no
/// NUL character.
pub proof fn law_cat_file_reads_stored_blob(content: Seq<u8>, compressed: Seq<u8>)
    requires
        spec_decode_bytes(compressed) == Ok::<Seq<u8>, GitError>(
            spec_object_bytes(BlobType::Blob, content),
        ),
        valid_utf8(content),
        forall|k: int| 0 <= k < content.len() ==> content[k] != 0,
    ensures
        spec_cat_file(compressed) == Ok::<Seq<char>, GitError>(decode_utf8(content)),
{
    let header = spec_type_name(BlobType::Blob) + seq![32u8] + spec_decimal(content.len());
    let d = spec_object_bytes(BlobType::Blob, content);
    lemma_header_has_no_nul(BlobType::Blob, content.len());
    assert(d == header + seq![0u8] + content);
    lemma_ascii_valid_utf8(header + seq![0u8]);
    valid_utf8_concat(header + seq![0u8], content);
    assert forall|k: int| 0 <= k < header.len() implies d[k] != 0 by {
        assert(d[k] == header[k]);
    }
    lemma_find_byte_at(d, 0, 0, header.len() as int);
    let p = header.len() as int;
    assert forall|k: int| p + 1 <= k < d.len() implies d[k] != 0 by {
        assert(d[k] == content[k - p - 1]);
    }
    lemma_find_byte_at(d, p + 1, 0, d.len() as int);
    assert(d.subrange(p + 1, d.len() as int) =~= content);
}

/// A hex digit, in either case.
pub open spec fn is_hex_char(c: char) -> bool {
    ('0' <= c <= '9') || ('a' <= c <= 'f') || ('A' <= c <= 'F')
}

/// The lower-case form of a hex digit.
pub open spec fn lower_hex_char(c: char) -> char {
    if 'A' <= c <= 'F' {
        ((c as u32) + 32) as char
    } else {
        c
    }
}

/// The lower-case form of hex text.
pub open spec fn lower_hex(s: Seq<char>) -> Seq<char> {
    s.map_values(|c: char| lower_hex_char(c))
}

/// An entry that a tree can hold and give back: an ASCII mode without a space, a name
/// whose bytes hold no NUL, and a hash of 40 hex digits (read back in lower case).
pub open spec fn well_formed_item(e: TreeItemView) -> bool {
    &&& is_ascii_chars(e.mode)
    &&& forall|k: int| 0 <= k < e.mode.len() ==> e.mode[k] != ' '
    &&& forall|k: int| 0 <= k < encode_utf8(e.name).len() ==> encode_utf8(e.name)[k] != 0
    &&& e.sha.len() == 40
    &&& forall|k: int| 0 <= k < e.sha.len() ==> is_hex_char(#[trigger] e.sha[k])
}

/// What reading a written entry gives back.
pub open spec fn read_back_item(e: TreeItemView) -> TreeEntryView {
    TreeEntryView {
        mode: spec_mode_of(encode_utf8(e.mode)),
        mode_text: encode_utf8(e.mode),
        name: e.name,
        sha: lower_hex(e.sha),
        total_in: spec_entry_bytes(e).len(),
    }
}

proof fn lemma_entries_bytes_concat(a: Seq<TreeItemView>, b: Seq<TreeItemView>)
    ensures
        spec_entries_bytes(a + b) == spec_entries_bytes(a) + spec_entries_bytes(b),
    decreases b.len(),
{
    if b.len() == 0 {
        assert(a + b =~= a);
    } else {
        lemma_entries_bytes_concat(a, b.drop_last());
        assert((a + b).drop_last() =~= a + b.drop_last());
        assert((a + b).last() == b.last());
    }
}

/// Hex text decodes to bytes whose hex text is that text in lower case.
pub proof fn lemma_hex_decode_encode(sha: Seq<char>)
    requires
        sha.len() % 2 == 0,
        forall|k: int| 0 <= k < sha.len() ==> is_hex_char(#[trigger] sha[k]),
    ensures
        spec_hex_encode(spec_hex_decode(encode_utf8(sha))) == lower_hex(sha),
{
    assert(is_ascii_chars(sha));
    is_ascii_chars_encode_utf8(sha);
    let x = encode_utf8(sha);
    let d = spec_hex_decode(x);
    lemma_hex_encode_digits(d);
    let back = spec_hex_encode(d);
    assert forall|k: int| 0 <= k < sha.len() implies back[k] == lower_hex(sha)[k] by {
        let i = k / 2;
        assert(sha[2 * i] as u8 == x[2 * i]);
        assert(sha[2 * i + 1] as u8 == x[2 * i + 1]);
        assert(d[i] / 16 == crate::commands::bindings::hex_digit_value(x[2 * i]));
        assert(d[i] % 16 == crate::commands::bindings::hex_digit_value(x[2 * i + 1]));
        assert(back[2 * i] == hex_char(d[i] / 16));
        if k == 2 * i {
        } else {
            assert(k == 2 * i + 1);
        }
    }
    assert(back =~= lower_hex(sha));
}

/// A written entry reads back as itself, whatever follows it.
proof fn lemma_read_entry(e: TreeItemView, rest: Seq<u8>)
    requires
        well_formed_item(e),
    ensures
        spec_parse_entry(spec_entry_bytes(e) + rest) == read_back_item(e),
        spec_entry_bytes(e).len() >= 2,
{
    let mode = encode_utf8(e.mode);
    let name = encode_utf8(e.name);
    let sha = spec_hex_decode(encode_utf8(e.sha));
    let v = spec_entry_bytes(e) + rest;
    is_ascii_chars_encode_utf8(e.mode);
    assert(is_ascii_chars(e.sha));
    is_ascii_chars_encode_utf8(e.sha);
    assert(sha.len() == 20);
    let m = mode.len() as int;
    let n = m + 1 + name.len();
    assert(v =~= mode + seq![32u8] + name + seq![0u8] + sha + rest);
    assert forall|k: int| 0 <= k < m implies v[k] != 32 by {
        assert(e.mode[k] as u8 == mode[k]);
        assert(v[k] == mode[k]);
    }
    lemma_find_byte_at(v, 0, 32, m);
    assert forall|k: int| m + 1 <= k < n implies v[k] != 0 by {
        assert(v[k] == name[k - m - 1]);
    }
    lemma_find_byte_at(v, m + 1, 0, n);
    assert(v.take(m) =~= mode);
    assert(v.subrange(m + 1, n) =~= name);
    assert(v.subrange(n + 1, n + 21) =~= sha);
    encode_utf8_valid_utf8(e.name);
    encode_utf8_decode_utf8(e.name);
    lemma_hex_decode_encode(e.sha);
}

/// Reading entries from a written entry and more gives that entry, then what the rest
/// gives.
proof fn lemma_read_entries_step(e: TreeItemView, rest: Seq<u8>)
    requires
        well_formed_item(e),
    ensures
        spec_parse_entries(spec_entry_bytes(e) + rest) == match spec_parse_entries(rest) {
            Some(r) => Some(seq![read_back_item(e)] + r),
            None => None::<Seq<TreeEntryView>>,
        },
{
    lemma_read_entry(e, rest);
    let v = spec_entry_bytes(e) + rest;
    let t = spec_entry_bytes(e).len();
    lemma_find_byte(v, 0, 32);
    assert(v.skip(t as int) =~= rest);
    if rest.len() == 0 {
        assert(seq![read_back_item(e)] + Seq::<TreeEntryView>::empty() =~= seq![read_back_item(e)]);
    }
}

/// The entries written into a tree read back as the same entries, in order.
pub proof fn law_tree_entries_roundtrip(es: Seq<TreeItemView>)
    requires
        forall|i: int| 0 <= i < es.len() ==> well_formed_item(#[trigger] es[i]),
    ensures
        spec_parse_entries(spec_entries_bytes(es)) == Some(
            es.map_values(|e: TreeItemView| read_back_item(e)),
        ),
    decreases es.len(),
{
    if es.len() == 0 {
        assert(es.map_values(|e: TreeItemView| read_back_item(e)) =~= Seq::<TreeEntryView>::empty());
    } else {
        let first = es[0];
        let rest = es.drop_first();
        assert(es =~= seq![first] + rest);
        lemma_entries_bytes_concat(seq![first], rest);
        assert(seq![first].drop_last() =~= Seq::<TreeItemView>::empty());
        assert(spec_entries_bytes(Seq::<TreeItemView>::empty()) == Seq::<u8>::empty());
        assert(seq![first].last() == first);
        assert(spec_entries_bytes(seq![first]) =~= spec_entry_bytes(first));
        law_tree_entries_roundtrip(rest);
        lemma_read_entries_step(first, spec_entries_bytes(rest));
        assert(seq![read_back_item(first)] + rest.map_values(|e: TreeItemView| read_back_item(e))
            =~= es.map_values(|e: TreeItemView| read_back_item(e)));
    }
}

/// `ls-tree` lists what `write-tree` wrote: the entries, sorted by name, with their
/// names (with `--name-only`) or full lines.
pub proof fn law_ls_tree_lists_written_tree(es: Seq<TreeItemView>, compressed: Seq<u8>)
    requires
        forall|i: int| 0 <= i < es.len() ==> well_formed_item(#[trigger] es[i]),
        spec_decode_bytes(compressed) == Ok::<Seq<u8>, GitError>(spec_tree_object(es)),
    ensures
        spec_ls_tree(true, compressed) == Ok::<Seq<char>, GitError>(
            spec_render_names(
                spec_sort_by_name(es).map_values(|e: TreeItemView| read_back_item(e)),
            ),
        ),
        spec_ls_tree(false, compressed) == Ok::<Seq<char>, GitError>(
            spec_render_entries(
                spec_sort_by_name(es).map_values(|e: TreeItemView| read_back_item(e)),
            ),
        ),
{
    let sorted = spec_sort_by_name(es);
    super::write_tree::law_sort_by_name_sorted(es);
    assert forall|i: int| 0 <= i < sorted.len() implies well_formed_item(#[trigger] sorted[i]) by {
        broadcast use vstd::seq_lib::to_multiset_contains;

        assert(sorted.contains(sorted[i]));
        assert(sorted.to_multiset().count(sorted[i]) > 0);
        assert(es.contains(sorted[i]));
    }
    law_tree_entries_roundtrip(sorted);
    let content = spec_entries_bytes(sorted);
    let header = spec_type_name(BlobType::Tree) + seq![32u8] + spec_decimal(content.len());
    let d = spec_object_bytes(BlobType::Tree, content);
    lemma_header_has_no_nul(BlobType::Tree, content.len());
    assert(d == header + seq![0u8] + content);
    assert forall|k: int| 0 <= k < header.len() implies d[k] != 0 by {
        assert(d[k] == header[k]);
    }
    lemma_find_byte_at(d, 0, 0, header.len() as int);
    assert(d.skip(header.len() + 1int) =~= content);
}

/// Checking out a commit made by `commit-tree` continues with the tree it names.
pub proof fn law_checkout_follows_committed_tree(
    tree_sha: Seq<char>,
    parent_sha: Seq<u8>,
    message: Seq<u8>,
    date_secs: i64,
    timezone: Seq<u8>,
    compressed: Seq<u8>,
    dir: Seq<char>,
)
    requires
        encode_utf8(tree_sha).len() == 40,
        spec_decode_bytes(compressed) == Ok::<Seq<u8>, GitError>(
            spec_object_bytes(
                BlobType::Commit,
                spec_commit_content(encode_utf8(tree_sha), parent_sha, message, date_secs, timezone),
            ),
        ),
    ensures
        spec_materialize_object(compressed, dir) == Ok::<Seq<CheckoutView>, GitError>(
            seq![CheckoutView::Object(tree_sha, dir)],
        ),
{
    let t = encode_utf8(tree_sha);
    let content = spec_commit_content(t, parent_sha, message, date_secs, timezone);
    law_object_roundtrip(BlobType::Commit, content);
    reveal_strlit("tree ");
    is_ascii_chars_encode_utf8("tree "@);
    let prefix = encode_utf8("tree "@);
    assert(prefix.len() == 5);
    assert(content.subrange(5, 45) =~= t);
    encode_utf8_valid_utf8(tree_sha);
    encode_utf8_decode_utf8(tree_sha);
}

/// Checking out a tree written by `write-tree` makes one step per entry, in the order of
/// their names: a directory for a subtree, a file otherwise.
pub proof fn law_checkout_of_written_tree(es: Seq<TreeItemView>, compressed: Seq<u8>, dir: Seq<char>)
    requires
        forall|i: int| 0 <= i < es.len() ==> well_formed_item(#[trigger] es[i]),
        forall|i: int| 0 <= i < es.len() ==> mode_is_checkable(encode_utf8(#[trigger] es[i].mode)),
        spec_decode_bytes(compressed) == Ok::<Seq<u8>, GitError>(spec_tree_object(es)),
    ensures
        spec_materialize_object(compressed, dir) == Ok::<Seq<CheckoutView>, GitError>(
            spec_sort_by_name(es).map_values(
                |e: TreeItemView| entry_checkout(dir, read_back_item(e)),
            ),
        ),
{
    let sorted = spec_sort_by_name(es);
    super::write_tree::law_sort_by_name_sorted(es);
    assert forall|i: int| 0 <= i < sorted.len() implies well_formed_item(#[trigger] sorted[i])
        && mode_is_checkable(encode_utf8(sorted[i].mode)) by {
        broadcast use vstd::seq_lib::to_multiset_contains;

        assert(sorted.contains(sorted[i]));
        assert(sorted.to_multiset().count(sorted[i]) > 0);
        assert(es.contains(sorted[i]));
        let k = choose|k: int| 0 <= k < es.len() && es[k] == sorted[i];
        assert(mode_is_checkable(encode_utf8(es[k].mode)));
    }
    law_tree_entries_roundtrip(sorted);
    law_object_roundtrip(BlobType::Tree, spec_entries_bytes(sorted));
    let read = sorted.map_values(|e: TreeItemView| read_back_item(e));
    assert(all_checkable(read));
    assert(read.map_values(|e: TreeEntryView| entry_checkout(dir, e)) =~= sorted.map_values(
        |e: TreeItemView| entry_checkout(dir, read_back_item(e)),
    ));
}

/// True when `v` starts with a complete entry: a mode ended by a space, a name ended by
/// a NUL, and all 20 bytes of the hash.
pub open spec fn entry_complete(v: Seq<u8>) -> bool {
    &&& has_space(v)
    &&& find_byte(v, find_byte(v, 0, 32) + 1, 0) + 21 <= v.len()
}

/// Bytes after a complete entry do not change how it reads; the entry takes exactly its
/// own bytes.
pub proof fn law_entry_ignores_what_follows(v: Seq<u8>, rest: Seq<u8>)
    requires
        entry_complete(v),
    ensures
        entry_complete(v + rest),
        spec_parse_entry(v + rest) == spec_parse_entry(v),
        spec_parse_entry(v).total_in == find_byte(v, find_byte(v, 0, 32) + 1, 0) + 21,
{
    let w = v + rest;
    let m = find_byte(v, 0, 32);
    lemma_find_byte(v, 0, 32);
    let n = find_byte(v, m + 1, 0);
    lemma_find_byte(v, m + 1, 0);
    assert forall|k: int| 0 <= k < m implies w[k] != 32 by {
        assert(w[k] == v[k]);
    }
    assert(w[m] == v[m]);
    lemma_find_byte_at(w, 0, 32, m);
    assert forall|k: int| m + 1 <= k < n implies w[k] != 0 by {
        assert(w[k] == v[k]);
    }
    assert(w[n] == v[n]);
    lemma_find_byte_at(w, m + 1, 0, n);
    assert(w.take(m) =~= v.take(m));
    assert(w.subrange(m + 1, n) =~= v.subrange(m + 1, n));
    assert(w.subrange(n + 1, n + 21) =~= v.subrange(n + 1, n + 21));
}

/// True when `a` is a run of complete entries with nothing after the last.
pub open spec fn complete_entries(a: Seq<u8>) -> bool
    decreases a.len(),
{
    if a.len() == 0 {
        true
    } else if !entry_complete(a) {
        false
    } else if spec_parse_entry(a).total_in >= a.len() {
        true
    } else {
        proof {
            lemma_entry_total(a);
        }
        complete_entries(a.skip(spec_parse_entry(a).total_in as int))
    }
}

/// Reading entries from complete entries followed by readable bytes gives those entries,
/// then the entries of the rest.
pub proof fn law_entries_concat(a: Seq<u8>, b: Seq<u8>)
    requires
        complete_entries(a),
        spec_parse_entries(b) is Some,
    ensures
        spec_parse_entries(a) is Some,
        spec_parse_entries(a + b) == Some(spec_parse_entries(a)->0 + spec_parse_entries(b)->0),
    decreases a.len(),
{
    if a.len() == 0 {
        assert(a + b =~= b);
        assert(Seq::<TreeEntryView>::empty() + spec_parse_entries(b)->0 =~= spec_parse_entries(
            b,
        )->0);
    } else {
        let e = spec_parse_entry(a);
        law_entry_ignores_what_follows(a, b);
        lemma_entry_total(a);
        let t = e.total_in as int;
        let a2 = a.skip(t);
        assert((a + b).skip(t) =~= a2 + b);
        law_entries_concat(a2, b);
        let ra = spec_parse_entries(a2)->0;
        let rb = spec_parse_entries(b)->0;
        if t >= a.len() {
            assert(a2 =~= Seq::<u8>::empty());
            assert(a2 + b =~= b);
            assert(ra =~= Seq::<TreeEntryView>::empty());
            if t >= (a + b).len() {
                assert(b.len() == 0);
                assert(rb =~= Seq::<TreeEntryView>::empty());
                assert(seq![e] + rb =~= seq![e]);
            }
        } else {
            assert(seq![e] + (ra + rb) =~= (seq![e] + ra) + rb);
        }
    }
}

/// The text after the first tab of a line (all of it where there is none).
pub open spec fn after_first_tab(l: Seq<char>) -> Seq<char>
    decreases l.len(),
{
    if l.len() == 0 {
        seq![]
    } else if l[0] == '\t' {
        l.drop_first()
    } else {
        after_first_tab(l.drop_first())
    }
}

/// The text after the first tab of each entry's listing line, one line each.
pub open spec fn name_column(es: Seq<TreeEntryView>) -> Seq<char>
    decreases es.len(),
{
    if es.len() == 0 {
        seq![]
    } else {
        name_column(es.drop_last()) + after_first_tab(spec_entry_line(es.last())) + seq!['\n']
    }
}

proof fn lemma_after_tab(p: Seq<char>, rest: Seq<char>)
    requires
        forall|k: int| 0 <= k < p.len() ==> p[k] != '\t',
    ensures
        after_first_tab(p + seq!['\t'] + rest) == rest,
    decreases p.len(),
{
    let l = p + seq!['\t'] + rest;
    if p.len() == 0 {
        assert(l.drop_first() =~= rest);
    } else {
        assert(l.drop_first() =~= p.drop_first() + seq!['\t'] + rest);
        lemma_after_tab(p.drop_first(), rest);
    }
}

/// True when `s` holds no tab.
pub open spec fn no_tab(s: Seq<char>) -> bool {
    forall|k: int| 0 <= k < s.len() ==> s[k] != '\t'
}

/// The hex text of bytes holds no tab.
proof fn lemma_hex_has_no_tab(b: Seq<u8>)
    ensures
        forall|k: int| 0 <= k < spec_hex_encode(b).len() ==> spec_hex_encode(b)[k] != '\t',
{
    lemma_hex_encode_digits(b);
    assert forall|k: int| 0 <= k < spec_hex_encode(b).len() implies spec_hex_encode(b)[k]
        != '\t' by {
        let i = k / 2;
        lemma_hex_char_byte(b[i] / 16);
        lemma_hex_char_byte(b[i] % 16);
        assert(spec_hex_encode(b)[2 * i] == hex_char(b[i] / 16));
    }
}

/// The hashes of entries read from a tree hold no tab.
proof fn lemma_parsed_sha_has_no_tab(v: Seq<u8>)
    requires
        spec_parse_entries(v) is Some,
    ensures
        forall|i: int|
            0 <= i < spec_parse_entries(v)->0.len() ==> no_tab(
                (#[trigger] spec_parse_entries(v)->0[i]).sha,
            ),
    decreases v.len(),
{
    if v.len() > 0 {
        let e = spec_parse_entry(v);
        let m = find_byte(v, 0, 32);
        let n = find_byte(v, m + 1, 0);
        lemma_hex_has_no_tab(v.subrange(n + 1, n + 21));
        if e.total_in < v.len() {
            lemma_entry_total(v);
            lemma_parsed_sha_has_no_tab(v.skip(e.total_in as int));
            let rest = spec_parse_entries(v.skip(e.total_in as int))->0;
            assert forall|i: int|
                0 <= i < spec_parse_entries(v)->0.len() implies no_tab(
                    (#[trigger] spec_parse_entries(v)->0[i]).sha,
                ) by {
                if i > 0 {
                    assert(spec_parse_entries(v)->0[i] == rest[i - 1]);
                }
            }
        }
    }
}

/// With `--name-only`, `ls-tree` prints, line for line, the name column of its full
/// listing: the text after the first tab of each line.
pub proof fn law_name_only_listing_is_name_column(v: Seq<u8>)
    requires
        spec_parse_entries(v) is Some,
    ensures
        spec_render_names(spec_parse_entries(v)->0) == name_column(spec_parse_entries(v)->0),
{
    lemma_parsed_sha_has_no_tab(v);
    lemma_names_are_name_column(spec_parse_entries(v)->0);
}

proof fn lemma_names_are_name_column(es: Seq<TreeEntryView>)
    requires
        forall|i: int| 0 <= i < es.len() ==> no_tab((#[trigger] es[i]).sha),
    ensures
        spec_render_names(es) == name_column(es),
    decreases es.len(),
{
    if es.len() > 0 {
        let e = es.last();
        assert(es[es.len() - 1] == e);
        lemma_names_are_name_column(es.drop_last());
        let p = super::tree::spec_mode_code(e.mode) + seq![' '] + super::tree::spec_mode_name(e.mode)
            + seq![' '] + e.sha;
        assert(no_tab(e.sha));
        assert forall|k: int| 0 <= k < p.len() implies p[k] != '\t' by {
            let c = super::tree::spec_mode_code(e.mode);
            let kn = super::tree::spec_mode_name(e.mode);
            if k >= c.len() + 1 + kn.len() + 1 {
                assert(p[k] == e.sha[k - (c.len() + 1 + kn.len() + 1)]);
            }
        }
        lemma_after_tab(p, e.name);
        assert(spec_entry_line(e) == p + seq!['\t'] + e.name);
    }
}


// ---------------------------------------------------------------------------
// Commits

proof fn lemma_decimal_injective(a: nat, b: nat)
    requires
        spec_decimal(a) == spec_decimal(b),
    ensures
        a == b,
    decreases a,
{
    if a >= 10 && b >= 10 {
        let da = spec_decimal(a);
        let db = spec_decimal(b);
        assert(da.drop_last() =~= spec_decimal(a / 10));
        assert(db.drop_last() =~= spec_decimal(b / 10));
        assert(da.last() == db.last());
        assert(a % 10 == b % 10);
        lemma_decimal_injective(a / 10, b / 10);
        assert(a == 10 * (a / 10) + a % 10);
        assert(b == 10 * (b / 10) + b % 10);
    } else if a < 10 && b < 10 {
        assert(spec_decimal(a) == seq![(48 + a) as u8]);
        assert(spec_decimal(b) == seq![(48 + b) as u8]);
        assert(spec_decimal(a)[0] == spec_decimal(b)[0]);
        assert((48 + a) as u8 == 48 + a);
        assert((48 + b) as u8 == 48 + b);
        assert(seq![(48 + a) as u8][0] == (48 + a) as u8);
        assert(seq![(48 + b) as u8][0] == (48 + b) as u8);
    } else if a >= 10 {
        lemma_decimal_digits(a / 10);
        assert(spec_decimal(a) == spec_decimal(a / 10).push((48 + a % 10) as u8));
        assert(spec_decimal(b) == seq![(48 + b) as u8]);
        assert(spec_decimal(a).len() != spec_decimal(b).len());
    } else {
        lemma_decimal_digits(b / 10);
        assert(spec_decimal(b) == spec_decimal(b / 10).push((48 + b % 10) as u8));
        assert(spec_decimal(a) == seq![(48 + a) as u8]);
        assert(spec_decimal(a).len() != spec_decimal(b).len());
    }
}

proof fn lemma_i64_decimal_injective(s1: i64, s2: i64)
    requires
        s1 != s2,
    ensures
        spec_i64_decimal(s1) != spec_i64_decimal(s2),
{
    let d1 = spec_i64_decimal(s1);
    let d2 = spec_i64_decimal(s2);
    if d1 == d2 {
        if s1 < 0 && s2 < 0 {
            assert(d1.skip(1) =~= spec_decimal((-(s1 as int)) as nat));
            assert(d2.skip(1) =~= spec_decimal((-(s2 as int)) as nat));
            lemma_decimal_injective((-(s1 as int)) as nat, (-(s2 as int)) as nat);
        } else if s1 < 0 {
            lemma_decimal_digits(s2 as nat);
            assert(d1[0] == 45u8);
            assert(48 <= d2[0]);
        } else if s2 < 0 {
            lemma_decimal_digits(s1 as nat);
            assert(d2[0] == 45u8);
            assert(48 <= d1[0]);
        } else {
            lemma_decimal_injective(s1 as nat, s2 as nat);
        }
    }
}

/// Committing is a function of what goes into the commit: with the same tree, parent,
/// message, time and zone, two commits either both fail to compress or give the same
/// id and the same stored bytes.
pub proof fn law_commit_is_deterministic(
    tree_sha: Seq<u8>,
    parent_sha: Seq<u8>,
    message: Seq<u8>,
    date_secs: i64,
    timezone: Seq<u8>,
    r1: Result<LooseObject, GitError>,
    r2: Result<LooseObject, GitError>,
)
    requires
        loose_object_of(
            spec_object_bytes(
                BlobType::Commit,
                spec_commit_content(tree_sha, parent_sha, message, date_secs, timezone),
            ),
            r1,
        ),
        loose_object_of(
            spec_object_bytes(
                BlobType::Commit,
                spec_commit_content(tree_sha, parent_sha, message, date_secs, timezone),
            ),
            r2,
        ),
    ensures
        r1 is Ok <==> r2 is Ok,
        r1 is Ok ==> r1->Ok_0.hash@ == r2->Ok_0.hash@ && r1->Ok_0.compressed@
            == r2->Ok_0.compressed@,
{
}

/// Commits made at different seconds differ: with the same tree, parent, message and
/// zone, two different times give two different commit contents, and so two different
/// objects.
pub proof fn law_commit_content_tells_seconds_apart(
    tree_sha: Seq<u8>,
    parent_sha: Seq<u8>,
    message: Seq<u8>,
    s1: i64,
    s2: i64,
    timezone: Seq<u8>,
)
    requires
        s1 != s2,
    ensures
        spec_commit_content(tree_sha, parent_sha, message, s1, timezone) != spec_commit_content(
            tree_sha,
            parent_sha,
            message,
            s2,
            timezone,
        ),
        spec_object_bytes(
            BlobType::Commit,
            spec_commit_content(tree_sha, parent_sha, message, s1, timezone),
        ) != spec_object_bytes(
            BlobType::Commit,
            spec_commit_content(tree_sha, parent_sha, message, s2, timezone),
        ),
{
    let pre = "tree ".spec_bytes() + tree_sha + "\nparent ".spec_bytes() + parent_sha
        + "\nauthor Author <name@example.com> ".spec_bytes();
    let d1 = spec_i64_decimal(s1);
    let d2 = spec_i64_decimal(s2);
    let c1 = spec_commit_content(tree_sha, parent_sha, message, s1, timezone);
    let c2 = spec_commit_content(tree_sha, parent_sha, message, s2, timezone);
    lemma_i64_decimal_injective(s1, s2);
    if d1.len() == d2.len() {
        assert(c1.subrange(pre.len() as int, pre.len() + d1.len() as int) =~= d1);
        assert(c2.subrange(pre.len() as int, pre.len() + d2.len() as int) =~= d2);
    } else {
        assert(c1.len() != c2.len());
    }
    law_object_roundtrip(BlobType::Commit, c1);
    law_object_roundtrip(BlobType::Commit, c2);
}


// ---------------------------------------------------------------------------
// What each command answers, stated over the bytes themselves

/// `cat-file -p` prints the text strictly between the first NUL of the stored object
/// and the next NUL (or the end): where `f` is the first NUL and `e` the next one (or
/// the end), and the object is UTF-8, the answer is the text of the bytes between them.
pub proof fn law_cat_file_is_the_text_after_the_header(compressed: Seq<u8>, f: int, e: int)
    requires
        spec_decode_bytes(compressed) is Ok,
        valid_utf8(spec_decode_bytes(compressed)->Ok_0),
        0 <= f < e <= spec_decode_bytes(compressed)->Ok_0.len(),
        spec_decode_bytes(compressed)->Ok_0[f] == 0,
        forall|k: int| 0 <= k < f ==> spec_decode_bytes(compressed)->Ok_0[k] != 0,
        forall|k: int| f < k < e ==> spec_decode_bytes(compressed)->Ok_0[k] != 0,
        e < spec_decode_bytes(compressed)->Ok_0.len() ==> spec_decode_bytes(compressed)->Ok_0[e]
            == 0,
    ensures
        spec_cat_file(compressed) == Ok::<Seq<char>, GitError>(
            decode_utf8(spec_decode_bytes(compressed)->Ok_0.subrange(f + 1, e)),
        ),
{
    let d = spec_decode_bytes(compressed)->Ok_0;
    lemma_find_byte_at(d, 0, 0, f);
    lemma_find_byte_at(d, f + 1, 0, e);
}

/// `cat-file -p` fails exactly as the bytes say: with the decoder's error where they do
/// not decompress, with `InvalidUtf8` where the object is not UTF-8 text, and with
/// `MissingNul` where the text holds no NUL.
pub proof fn law_cat_file_errors(compressed: Seq<u8>)
    ensures
        spec_decode_bytes(compressed) is Err ==> spec_cat_file(compressed) == Err::<
            Seq<char>,
            GitError,
        >(spec_decode_bytes(compressed)->Err_0),
        spec_decode_bytes(compressed) is Ok && !valid_utf8(spec_decode_bytes(compressed)->Ok_0)
            ==> spec_cat_file(compressed) == Err::<Seq<char>, GitError>(GitError::InvalidUtf8),
        spec_decode_bytes(compressed) is Ok && valid_utf8(spec_decode_bytes(compressed)->Ok_0)
            && (forall|k: int|
            0 <= k < spec_decode_bytes(compressed)->Ok_0.len()
                ==> spec_decode_bytes(compressed)->Ok_0[k] != 0) ==> spec_cat_file(compressed)
            == Err::<Seq<char>, GitError>(GitError::MissingNul),
{
    if spec_decode_bytes(compressed) is Ok {
        let d = spec_decode_bytes(compressed)->Ok_0;
        if forall|k: int| 0 <= k < d.len() ==> d[k] != 0 {
            lemma_find_byte_at(d, 0, 0, d.len() as int);
        }
    }
}

/// `cat-file -p` of any stored object, of whatever type, prints its content, where the
/// content is UTF-8 text without NUL: the header is never part of the answer.
pub proof fn law_cat_file_reads_stored_object(t: BlobType, content: Seq<u8>, compressed: Seq<u8>)
    requires
        spec_decode_bytes(compressed) == Ok::<Seq<u8>, GitError>(spec_object_bytes(t, content)),
        valid_utf8(content),
        forall|k: int| 0 <= k < content.len() ==> content[k] != 0,
    ensures
        spec_cat_file(compressed) == Ok::<Seq<char>, GitError>(decode_utf8(content)),
{
    let header = spec_type_name(t) + seq![32u8] + spec_decimal(content.len());
    let d = spec_object_bytes(t, content);
    lemma_header_has_no_nul(t, content.len());
    assert(d == header + seq![0u8] + content);
    lemma_ascii_valid_utf8(header + seq![0u8]);
    valid_utf8_concat(header + seq![0u8], content);
    let p = header.len() as int;
    assert forall|k: int| 0 <= k < p implies d[k] != 0 by {
        assert(d[k] == header[k]);
    }
    assert forall|k: int| p < k < d.len() implies d[k] != 0 by {
        assert(d[k] == content[k - p - 1]);
    }
    law_cat_file_is_the_text_after_the_header(compressed, p, d.len() as int);
    assert(d.subrange(p + 1, d.len() as int) =~= content);
}

/// Each listed entry is one line in the format of `ls-tree`: mode, a space, type, a
/// space, hash, a tab, name and a newline, whatever the entry's name.
pub proof fn law_listing_of_one_entry(e: TreeEntryView)
    ensures
        spec_render_entries(seq![e]) == super::tree::spec_mode_code(e.mode) + seq![' ']
            + super::tree::spec_mode_name(e.mode) + seq![' '] + e.sha + seq!['\t'] + e.name
            + seq!['\n'],
{
    assert(seq![e].drop_last() =~= Seq::<TreeEntryView>::empty());
    assert(seq![e].last() == e);
    assert(spec_render_entries(seq![e].drop_last()) =~= Seq::<char>::empty());
    assert(spec_render_entries(seq![e]) =~= super::tree::spec_mode_code(e.mode) + seq![' ']
        + super::tree::spec_mode_name(e.mode) + seq![' '] + e.sha + seq!['\t'] + e.name
        + seq!['\n']);
}

/// The listing of entries `a` then `b` is the listing of `a` then that of `b`: no entry
/// is left out, added or moved.
pub proof fn law_listing_of_concatenation(a: Seq<TreeEntryView>, b: Seq<TreeEntryView>)
    ensures
        spec_render_entries(a + b) == spec_render_entries(a) + spec_render_entries(b),
        spec_render_names(a + b) == spec_render_names(a) + spec_render_names(b),
    decreases b.len(),
{
    if b.len() == 0 {
        assert(a + b =~= a);
    } else {
        law_listing_of_concatenation(a, b.drop_last());
        assert((a + b).drop_last() =~= a + b.drop_last());
        assert((a + b).last() == b.last());
    }
}

/// The name-only listing of one entry is its name and a newline.
pub proof fn law_name_listing_of_one_entry(e: TreeEntryView)
    ensures
        spec_render_names(seq![e]) == e.name + seq!['\n'],
{
    assert(seq![e].drop_last() =~= Seq::<TreeEntryView>::empty());
    assert(seq![e].last() == e);
    assert(spec_render_names(seq![e].drop_last()) =~= Seq::<char>::empty());
    assert(spec_render_names(seq![e]) =~= e.name + seq!['\n']);
}

/// A commit ends with its whole message and a newline.
pub proof fn law_commit_ends_with_its_message(
    tree_sha: Seq<u8>,
    parent_sha: Seq<u8>,
    message: Seq<u8>,
    date_secs: i64,
    timezone: Seq<u8>,
)
    ensures
        ({
            let c = spec_commit_content(tree_sha, parent_sha, message, date_secs, timezone);
            &&& c.len() >= message.len() + 1
            &&& c.subrange(c.len() - message.len() - 1, c.len() - 1) == message
            &&& c[c.len() - 1] == 10
        }),
{
    let c = spec_commit_content(tree_sha, parent_sha, message, date_secs, timezone);
    let x = commit_header(tree_sha, parent_sha, date_secs, timezone);
    let nl = "\n".spec_bytes();
    reveal_strlit("\n");
    is_ascii_chars_encode_utf8("\n"@);
    assert(nl.len() == 1 && nl[0] == 10);
    assert(c == x + message + nl);
    assert(c.subrange(x.len() as int, x.len() + message.len() as int) =~= message);
}

/// Everything that a commit holds before its message, as `spec_commit_content` lays it
/// out.
spec fn commit_header(tree_sha: Seq<u8>, parent_sha: Seq<u8>, date_secs: i64, timezone: Seq<u8>) -> Seq<u8> {
    "tree ".spec_bytes() + tree_sha + "\nparent ".spec_bytes() + parent_sha
        + "\nauthor Author <name@example.com> ".spec_bytes() + spec_i64_decimal(date_secs)
        + " ".spec_bytes() + timezone + "\ncommitter Committer <name@example.com> ".spec_bytes()
        + spec_i64_decimal(date_secs) + " ".spec_bytes() + timezone + "\n\n".spec_bytes()
}

/// What comes before the message in a commit does not depend on the message.
pub proof fn law_commit_header_ignores_message(
    tree_sha: Seq<u8>,
    parent_sha: Seq<u8>,
    m1: Seq<u8>,
    m2: Seq<u8>,
    date_secs: i64,
    timezone: Seq<u8>,
)
    ensures
        ({
            let c1 = spec_commit_content(tree_sha, parent_sha, m1, date_secs, timezone);
            let c2 = spec_commit_content(tree_sha, parent_sha, m2, date_secs, timezone);
            c1.take(c1.len() - m1.len() - 1) == c2.take(c2.len() - m2.len() - 1)
        }),
{
    let c1 = spec_commit_content(tree_sha, parent_sha, m1, date_secs, timezone);
    let c2 = spec_commit_content(tree_sha, parent_sha, m2, date_secs, timezone);
    let x = commit_header(tree_sha, parent_sha, date_secs, timezone);
    let nl = "\n".spec_bytes();
    reveal_strlit("\n");
    is_ascii_chars_encode_utf8("\n"@);
    assert(c1 == x + m1 + nl);
    assert(c2 == x + m2 + nl);
    assert(c1.take(c1.len() - m1.len() - 1) =~= x);
    assert(c2.take(c2.len() - m2.len() - 1) =~= x);
}

/// A commit starts with `tree `, the tree's hash and a newline.
pub proof fn law_commit_starts_with_its_tree(
    tree_sha: Seq<u8>,
    parent_sha: Seq<u8>,
    message: Seq<u8>,
    date_secs: i64,
    timezone: Seq<u8>,
)
    ensures
        ({
            let c = spec_commit_content(tree_sha, parent_sha, message, date_secs, timezone);
            c.take(tree_sha.len() + 6int) == seq![116u8, 114, 101, 101, 32] + tree_sha + seq![10u8]
        }),
{
    reveal_strlit("tree ");
    reveal_strlit("\nparent ");
    is_ascii_chars_encode_utf8("tree "@);
    is_ascii_chars_encode_utf8("\nparent "@);
    let a = "tree ".spec_bytes();
    let b = "\nparent ".spec_bytes();
    assert(a =~= seq![116u8, 114, 101, 101, 32]);
    assert(b.len() == 8 && b[0] == 10);
    let c = spec_commit_content(tree_sha, parent_sha, message, date_secs, timezone);
    assert(c.take(tree_sha.len() + 6int) =~= seq![116u8, 114, 101, 101, 32] + tree_sha + seq![10u8]);
}

} // verus!
