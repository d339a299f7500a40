use vstd::prelude::*;
use vstd::string::StringSliceAdditionalSpecFns;
use vstd::utf8::encode_utf8;
use super::bindings::hex_decode;
use super::bindings::hex_decodes_to;
use super::bindings::spec_hex_decode;
use super::utils::encode_loose_object;
use super::utils::encode_object;
use super::utils::loose_object_of;
use super::utils::spec_object_bytes;
use super::utils::BlobType;
use super::utils::GitError;
use super::utils::LooseObject;

verus! {

/// An entry to be written into a tree: its mode text, its name and the hex of its
/// hash.
#[derive(Debug, Clone)]
pub struct TreeObject {
    pub mode: String,
    pub name: String,
    pub sha: String,
}

/// The abstract content of an entry to be written.
pub struct TreeItemView {
    pub mode: Seq<char>,
    pub name: Seq<char>,
    pub sha: Seq<char>,
}

impl View for TreeObject {
    type V = TreeItemView;

    open spec fn view(&self) -> TreeItemView {
        TreeItemView { mode: self.mode@, name: self.name@, sha: self.sha@ }
    }
}

/// The mode text of a directory entry: `40000` for a subdirectory, `100644` for a
/// file.
pub open spec fn spec_entry_mode(is_dir: bool) -> Seq<char> {
    if is_dir {
        seq!['4', '0', '0', '0', '0']
    } else {
        seq!['1', '0', '0', '6', '4', '4']
    }
}

impl TreeObject {
    /// The entry for a directory's member named `name` whose object has the hash `sha`.
    pub fn for_entry(is_dir: bool, name: String, sha: String) -> (r: TreeObject)
        ensures
            r.mode@ == spec_entry_mode(is_dir),
            r.name@ == name@,
            r.sha@ == sha@,
    {
        let mode = if is_dir {
            proof {
                reveal_strlit("40000");
            }
            "40000".to_owned()
        } else {
            proof {
                reveal_strlit("100644");
            }
            "100644".to_owned()
        };
        TreeObject { mode, name, sha }
    }

    /// A copy of the entry.
    pub fn duplicate(&self) -> (r: TreeObject)
        ensures
            r@ == self@,
    {
        TreeObject { mode: self.mode.clone(), name: self.name.clone(), sha: self.sha.clone() }
    }
}

/// The bytes of `./.git` (`.`, `/`, `.`, `g`, `i`, `t`), the repository's own directory
/// as `write-tree` meets it.
pub open spec fn git_dir_path() -> Seq<u8> {
    seq![46u8, 47, 46, 103, 105, 116]
}

/// True for the paths that `write-tree` leaves out: `./.git` and everything under it,
/// compared by whole path components (so `./.gitignore` is kept).
pub open spec fn spec_is_ignored_path(path: Seq<u8>) -> bool {
    ||| path == git_dir_path()
    ||| path.len() > 6 && path.take(6) == git_dir_path() && path[6] == 47
}

/// Whether `write-tree` skips the entry at `path`.
pub fn is_ignored_path(path: &str) -> (r: bool)
    ensures
        r == spec_is_ignored_path(path.spec_bytes()),
{
    let b = path.as_bytes();
    if b.len() < 6 {
        return false;
    }
    let starts = b[0] == 46 && b[1] == 47 && b[2] == 46 && b[3] == 103 && b[4] == 105
        && b[5] == 116;
    proof {
        if starts {
            assert(b@.take(6) =~= git_dir_path());
        } else {
            assert(b@.take(6) != git_dir_path());
        }
    }
    if !starts {
        return false;
    }
    if b.len() == 6 {
        proof {
            assert(b@ =~= git_dir_path());
        }
        return true;
    }
    b[6] == 47
}

// ---------------------------------------------------------------------------
// Ordering by name

/// Byte-wise comparison from index `i` on: `a` is smaller where it has the smaller
/// byte at the first difference, or where it ends first.
pub open spec fn lex_lt_at(a: Seq<u8>, b: Seq<u8>, i: int) -> bool
    decreases a.len() - i,
{
    if i >= a.len() {
        i < b.len()
    } else if i >= b.len() {
        false
    } else if a[i] != b[i] {
        a[i] < b[i]
    } else {
        lex_lt_at(a, b, i + 1)
    }
}

/// The order of `str` (and `String`): byte-wise on the UTF-8 encoding.
pub open spec fn bytes_lt(a: Seq<u8>, b: Seq<u8>) -> bool {
    lex_lt_at(a, b, 0)
}

proof fn lemma_lex_lt_at_is_lexicographic(a: Seq<u8>, b: Seq<u8>, i: int)
    requires
        0 <= i <= a.len(),
        i <= b.len(),
        a.take(i) == b.take(i),
    ensures
        lex_lt_at(a, b, i) <==> ((a.len() < b.len() && b.take(a.len() as int) == a) || exists|
            k: int,
        |
            0 <= k < a.len() && k < b.len() && a.take(k) == b.take(k) && #[trigger] a[k] < b[k]),
    decreases a.len() - i,
{
    assert forall|k: int| 0 <= k < i implies a[k] == b[k] by {
        assert(a.take(i)[k] == a[k]);
        assert(b.take(i)[k] == b[k]);
    }
    if i >= a.len() {
        assert(a.take(i) =~= a);
        if i < b.len() {
            assert(b.take(a.len() as int) =~= a);
        }
    } else if i >= b.len() {
    } else if a[i] != b[i] {
        if a[i] < b[i] {
            assert(a.take(i) == b.take(i));
        } else {
            if a.len() < b.len() && b.take(a.len() as int) == a {
                assert(b.take(a.len() as int)[i] == b[i]);
            }
            assert forall|k: int|
                0 <= k < a.len() && k < b.len() && a.take(k) == b.take(k) implies !(
            #[trigger] a[k] < b[k]) by {
                if k > i {
                    assert(a.take(k)[i] == a[i]);
                    assert(b.take(k)[i] == b[i]);
                }
            }
        }
    } else {
        assert(a.take(i + 1) =~= b.take(i + 1));
        lemma_lex_lt_at_is_lexicographic(a, b, i + 1);
        if exists|k: int|
            0 <= k < a.len() && k < b.len() && a.take(k) == b.take(k) && #[trigger] a[k] < b[k] {
            let k = choose|k: int|
                0 <= k < a.len() && k < b.len() && a.take(k) == b.take(k) && #[trigger] a[k]
                    < b[k];
            assert(k != i);
        }
    }
}

/// Names are ordered as `str` orders them, byte by byte: `a` comes before `b` exactly
/// when `a` is a proper prefix of `b`, or when at the first byte where they differ `a`
/// has the smaller one.
pub proof fn law_names_in_byte_order(a: Seq<u8>, b: Seq<u8>)
    ensures
        bytes_lt(a, b) <==> ((a.len() < b.len() && b.take(a.len() as int) == a) || exists|
            k: int,
        |
            0 <= k < a.len() && k < b.len() && a.take(k) == b.take(k) && #[trigger] a[k] < b[k]),
{
    assert(a.take(0) =~= b.take(0));
    lemma_lex_lt_at_is_lexicographic(a, b, 0);
}

/// The order in which a tree lists its entries: by name.
pub open spec fn name_lt(a: TreeItemView, b: TreeItemView) -> bool {
    bytes_lt(encode_utf8(a.name), encode_utf8(b.name))
}

/// Tree entries are ordered by the UTF-8 bytes of their names, byte by byte: one comes
/// before another exactly when its name's bytes are a proper prefix of the other's, or
/// are smaller at the first byte where they differ.
pub proof fn law_entries_in_name_byte_order(a: TreeItemView, b: TreeItemView)
    ensures
        ({
            let x = encode_utf8(a.name);
            let y = encode_utf8(b.name);
            name_lt(a, b) <==> ((x.len() < y.len() && y.take(x.len() as int) == x) || exists|
                k: int,
            |
                0 <= k < x.len() && k < y.len() && x.take(k) == y.take(k) && #[trigger] x[k]
                    < y[k])
        }),
{
    law_names_in_byte_order(encode_utf8(a.name), encode_utf8(b.name));
}

/// Where a stable insertion puts `x` in `sorted`: before the first entry whose name is
/// greater than `x`'s, searching from `k`.
pub open spec fn insert_pos(sorted: Seq<TreeItemView>, x: TreeItemView, k: int) -> int
    decreases sorted.len() - k,
{
    if k >= sorted.len() {
        sorted.len() as int
    } else if name_lt(x, sorted[k]) {
        k
    } else {
        insert_pos(sorted, x, k + 1)
    }
}

proof fn lemma_insert_pos(sorted: Seq<TreeItemView>, x: TreeItemView, k: int)
    requires
        0 <= k <= sorted.len(),
    ensures
        k <= insert_pos(sorted, x, k) <= sorted.len(),
        insert_pos(sorted, x, k) < sorted.len() ==> name_lt(x, sorted[insert_pos(sorted, x, k)]),
        forall|j: int| k <= j < insert_pos(sorted, x, k) ==> !name_lt(x, #[trigger] sorted[j]),
    decreases sorted.len() - k,
{
    if k < sorted.len() && !name_lt(x, sorted[k]) {
        lemma_insert_pos(sorted, x, k + 1);
    }
}

/// The entries in the order of `sort_by` on their names, which is stable: each entry,
/// taken in turn, goes after every earlier entry whose name is not greater.
pub open spec fn spec_sort_by_name(s: Seq<TreeItemView>) -> Seq<TreeItemView>
    decreases s.len(),
{
    if s.len() == 0 {
        s
    } else {
        let sorted = spec_sort_by_name(s.drop_last());
        sorted.insert(insert_pos(sorted, s.last(), 0), s.last())
    }
}

proof fn lemma_sort_len(s: Seq<TreeItemView>)
    ensures
        spec_sort_by_name(s).len() == s.len(),
    decreases s.len(),
{
    if s.len() > 0 {
        lemma_sort_len(s.drop_last());
        lemma_insert_pos(spec_sort_by_name(s.drop_last()), s.last(), 0);
    }
}

/// Sorting keeps the entries: it gives a permutation of them.
pub proof fn lemma_sort_by_name_permutes(s: Seq<TreeItemView>)
    ensures
        spec_sort_by_name(s).to_multiset() == s.to_multiset(),
    decreases s.len(),
{
    broadcast use vstd::seq_lib::to_multiset_build, vstd::seq_lib::to_multiset_insert;

    if s.len() > 0 {
        let sorted = spec_sort_by_name(s.drop_last());
        lemma_sort_by_name_permutes(s.drop_last());
        lemma_sort_len(s.drop_last());
        lemma_insert_pos(sorted, s.last(), 0);
        assert(s == s.drop_last().push(s.last()));
    }
}

proof fn lemma_lt_bound(a: Seq<u8>, b: Seq<u8>, i: int)
    requires
        0 <= i,
        lex_lt_at(a, b, i),
    ensures
        i < b.len(),
    decreases a.len() - i,
{
    if i < a.len() && i < b.len() && a[i] == b[i] {
        lemma_lt_bound(a, b, i + 1);
    }
}

/// The order of names is a strict order: never both ways.
pub proof fn lemma_lt_asymmetric(a: Seq<u8>, b: Seq<u8>, i: int)
    requires
        0 <= i,
        lex_lt_at(a, b, i),
    ensures
        !lex_lt_at(b, a, i),
    decreases a.len() - i,
{
    if i < a.len() && i < b.len() && a[i] == b[i] {
        lemma_lt_asymmetric(a, b, i + 1);
    }
}

/// The order of names is transitive.
pub proof fn lemma_lt_transitive(a: Seq<u8>, b: Seq<u8>, c: Seq<u8>, i: int)
    requires
        0 <= i,
        lex_lt_at(a, b, i),
        lex_lt_at(b, c, i),
    ensures
        lex_lt_at(a, c, i),
    decreases a.len() - i,
{
    lemma_lt_bound(b, c, i);
    if i < a.len() && a[i] == b[i] && b[i] == c[i] {
        lemma_lt_transitive(a, b, c, i + 1);
    }
}

/// True when no entry comes before one with a smaller name.
pub open spec fn sorted_by_name(s: Seq<TreeItemView>) -> bool {
    forall|i: int, j: int| 0 <= i < j < s.len() ==> !name_lt(#[trigger] s[j], #[trigger] s[i])
}

/// Inserting at `insert_pos` keeps a sorted sequence sorted.
proof fn lemma_insert_keeps_sorted(sorted: Seq<TreeItemView>, x: TreeItemView)
    requires
        sorted_by_name(sorted),
    ensures
        sorted_by_name(sorted.insert(insert_pos(sorted, x, 0), x)),
{
    let p = insert_pos(sorted, x, 0);
    lemma_insert_pos(sorted, x, 0);
    let r = sorted.insert(p, x);
    assert forall|i: int, j: int| 0 <= i < j < r.len() implies !name_lt(
        #[trigger] r[j],
        #[trigger] r[i],
    ) by {
        let ex = encode_utf8(x.name);
        if j < p {
            assert(r[i] == sorted[i] && r[j] == sorted[j]);
        } else if j == p {
            assert(r[i] == sorted[i]);
        } else if i > p {
            assert(r[i] == sorted[i - 1] && r[j] == sorted[j - 1]);
        } else if i == p {
            // r[i] is x, and x < sorted[p] <= sorted[j - 1]
            assert(r[j] == sorted[j - 1]);
            let ep = encode_utf8(sorted[p].name);
            let ej = encode_utf8(sorted[j - 1].name);
            if lex_lt_at(ej, ex, 0) {
                lemma_lt_transitive(ej, ex, ep, 0);
                if j - 1 > p {
                    assert(!name_lt(sorted[j - 1], sorted[p]));
                } else {
                    lemma_lt_asymmetric(ex, ep, 0);
                }
            }
        } else {
            // i < p < j
            assert(r[i] == sorted[i] && r[j] == sorted[j - 1]);
        }
    }
}

/// `write-tree` lists a tree's entries in the order of their names, and keeps every
/// entry: the result is sorted and a permutation of the input.
pub proof fn law_sort_by_name_sorted(s: Seq<TreeItemView>)
    ensures
        sorted_by_name(spec_sort_by_name(s)),
        spec_sort_by_name(s).to_multiset() == s.to_multiset(),
    decreases s.len(),
{
    lemma_sort_by_name_permutes(s);
    if s.len() > 0 {
        law_sort_by_name_sorted(s.drop_last());
        lemma_insert_keeps_sorted(spec_sort_by_name(s.drop_last()), s.last());
    }
}

/// Two different byte strings are ordered one way or the other.
pub proof fn lemma_lt_total(a: Seq<u8>, b: Seq<u8>, i: int)
    requires
        0 <= i <= a.len(),
        i <= b.len(),
        forall|k: int| 0 <= k < i ==> a[k] == b[k],
        a != b,
    ensures
        lex_lt_at(a, b, i) || lex_lt_at(b, a, i),
    decreases a.len() - i,
{
    if i == a.len() && i == b.len() {
        assert(a =~= b);
    } else if i < a.len() && i < b.len() && a[i] == b[i] {
        lemma_lt_total(a, b, i + 1);
    }
}

/// True when no two entries share a name.
pub open spec fn distinct_names(s: Seq<TreeItemView>) -> bool {
    forall|i: int, j: int| 0 <= i < j < s.len() ==> (#[trigger] s[i]).name != (#[trigger] s[j]).name
}

proof fn lemma_in_multiset<A>(s: Seq<A>, t: Seq<A>, x: A)
    requires
        s.to_multiset() == t.to_multiset(),
        s.contains(x),
    ensures
        t.contains(x),
{
    broadcast use vstd::seq_lib::to_multiset_contains;

    assert(s.to_multiset().count(x) > 0);
    assert(t.to_multiset().count(x) > 0);
}

/// Two sequences sorted by name that hold the same entries, all named differently, are
/// the same sequence.
proof fn lemma_sorted_unique(s1: Seq<TreeItemView>, s2: Seq<TreeItemView>, orig: Seq<TreeItemView>)
    requires
        sorted_by_name(s1),
        sorted_by_name(s2),
        s1.to_multiset() == orig.to_multiset(),
        s2.to_multiset() == orig.to_multiset(),
        distinct_names(orig),
    ensures
        s1 == s2,
    decreases s1.len(),
{
    broadcast use vstd::seq_lib::to_multiset_len, vstd::seq_lib::to_multiset_remove;

    vstd::seq_lib::to_multiset_len(s1);
    vstd::seq_lib::to_multiset_len(s2);
    vstd::seq_lib::to_multiset_len(orig);
    assert(s1.len() == orig.len() && s2.len() == orig.len());
    if s1.len() == 0 {
        assert(s1 =~= s2);
    } else {
        let x = s1[0];
        let y = s2[0];
        assert(s1.contains(x) && s2.contains(y));
        lemma_in_multiset(s2, s1, y);
        lemma_in_multiset(s1, s2, x);
        lemma_in_multiset(s1, orig, x);
        lemma_in_multiset(s2, orig, y);
        let j = choose|j: int| 0 <= j < s1.len() && s1[j] == y;
        let k = choose|k: int| 0 <= k < s2.len() && s2[k] == x;
        let a = choose|a: int| 0 <= a < orig.len() && orig[a] == y;
        let b = choose|b: int| 0 <= b < orig.len() && orig[b] == x;
        if x != y {
            assert(j > 0 && k > 0);
            assert(!name_lt(s1[j], s1[0]));
            assert(!name_lt(s2[k], s2[0]));
            if x.name != y.name {
                vstd::utf8::encode_utf8_decode_utf8(x.name);
                vstd::utf8::encode_utf8_decode_utf8(y.name);
                lemma_lt_total(encode_utf8(x.name), encode_utf8(y.name), 0);
            }
            assert(a != b);
            if a < b {
                assert(orig[a].name != orig[b].name);
            } else {
                assert(orig[b].name != orig[a].name);
            }
        }
        assert(x == y);
        let o2 = orig.remove(b);
        assert(s1.remove(0).to_multiset() == o2.to_multiset());
        assert(s2.remove(0).to_multiset() == o2.to_multiset());
        assert forall|p: int, q: int| 0 <= p < q < o2.len() implies (#[trigger] o2[p]).name
            != (#[trigger] o2[q]).name by {
            let pp = if p < b { p } else { p + 1 };
            let qq = if q < b { q } else { q + 1 };
            assert(o2[p] == orig[pp] && o2[q] == orig[qq]);
        }
        let t1 = s1.remove(0);
        let t2 = s2.remove(0);
        assert forall|p: int, q: int| 0 <= p < q < t1.len() implies !name_lt(
            #[trigger] t1[q],
            #[trigger] t1[p],
        ) by {
            assert(t1[p] == s1[p + 1] && t1[q] == s1[q + 1]);
        }
        assert forall|p: int, q: int| 0 <= p < q < t2.len() implies !name_lt(
            #[trigger] t2[q],
            #[trigger] t2[p],
        ) by {
            assert(t2[p] == s2[p + 1] && t2[q] == s2[q + 1]);
        }
        lemma_sorted_unique(t1, t2, o2);
        assert(s1 =~= s2) by {
            assert forall|p: int| 0 <= p < s1.len() implies s1[p] == s2[p] by {
                if p > 0 {
                    assert(s1[p] == t1[p - 1] && s2[p] == t2[p - 1]);
                }
            }
        }
    }
}

/// The order in which entries are given does not matter, where their names differ:
/// permuted entries give the same sorted sequence and so the same tree object.
pub proof fn law_tree_object_ignores_order(s1: Seq<TreeItemView>, s2: Seq<TreeItemView>)
    requires
        s1.to_multiset() == s2.to_multiset(),
        distinct_names(s1),
    ensures
        spec_sort_by_name(s1) == spec_sort_by_name(s2),
        spec_tree_object(s1) == spec_tree_object(s2),
{
    law_sort_by_name_sorted(s1);
    law_sort_by_name_sorted(s2);
    lemma_sorted_unique(spec_sort_by_name(s1), spec_sort_by_name(s2), s1);
}

fn names_lt(a: &str, b: &str) -> (r: bool)
    ensures
        r == bytes_lt(a.spec_bytes(), b.spec_bytes()),
{
    let x = a.as_bytes();
    let y = b.as_bytes();
    let mut i: usize = 0;
    while i < x.len() && i < y.len() && x[i] == y[i]
        invariant
            i <= x@.len(),
            i <= y@.len(),
            lex_lt_at(x@, y@, i as int) == lex_lt_at(x@, y@, 0),
        decreases x@.len() - i,
    {
        i += 1;
    }
    if i >= x.len() {
        i < y.len()
    } else if i >= y.len() {
        false
    } else {
        x[i] < y[i]
    }
}

/// The entries sorted by name, as `sort_by(|a, b| a.name.cmp(&b.name))` leaves them.
pub fn sort_by_name(tree: &[TreeObject]) -> (r: Vec<TreeObject>)
    ensures
        r@.map_values(|t: TreeObject| t@) == spec_sort_by_name(
            tree@.map_values(|t: TreeObject| t@),
        ),
{
    let ghost items = tree@.map_values(|t: TreeObject| t@);
    let mut out: Vec<TreeObject> = Vec::new();
    let mut i: usize = 0;
    assert(items.take(0) =~= Seq::<TreeItemView>::empty());
    assert(out@.map_values(|t: TreeObject| t@) =~= Seq::<TreeItemView>::empty());
    while i < tree.len()
        invariant
            i <= tree@.len(),
            items == tree@.map_values(|t: TreeObject| t@),
            out@.map_values(|t: TreeObject| t@) == spec_sort_by_name(items.take(i as int)),
        decreases tree@.len() - i,
    {
        let x = tree[i].duplicate();
        let ghost sorted = out@.map_values(|t: TreeObject| t@);
        let mut k: usize = 0;
        while k < out.len() && !names_lt(x.name.as_str(), out[k].name.as_str())
            invariant
                k <= out@.len(),
                sorted == out@.map_values(|t: TreeObject| t@),
                insert_pos(sorted, x@, k as int) == insert_pos(sorted, x@, 0),
            decreases out@.len() - k,
        {
            assert(sorted[k as int] == out@[k as int]@);
            k += 1;
        }
        proof {
            if k < out@.len() {
                assert(sorted[k as int] == out@[k as int]@);
            }
            assert(items.take(i + 1).drop_last() =~= items.take(i as int));
            assert(items.take(i + 1).last() == tree@[i as int]@);
        }
        let ghost xv = x@;
        out.insert(k, x);
        assert(out@.map_values(|t: TreeObject| t@) =~= sorted.insert(k as int, xv));
        i += 1;
    }
    assert(items.take(i as int) =~= items);
    out
}

// ---------------------------------------------------------------------------
// The tree object

/// One entry as a tree holds it: `<mode> <name>\0` and the 20 bytes of the hash.
pub open spec fn spec_entry_bytes(e: TreeItemView) -> Seq<u8> {
    encode_utf8(e.mode) + seq![32u8] + encode_utf8(e.name) + seq![0u8] + spec_hex_decode(
        encode_utf8(e.sha),
    )
}

/// The entries one after the other.
pub open spec fn spec_entries_bytes(es: Seq<TreeItemView>) -> Seq<u8>
    decreases es.len(),
{
    if es.len() == 0 {
        seq![]
    } else {
        spec_entries_bytes(es.drop_last()) + spec_entry_bytes(es.last())
    }
}

/// True when the entry's hash is 40 hex digits.
pub open spec fn sha_is_hex(e: TreeItemView) -> bool {
    hex_decodes_to(encode_utf8(e.sha), 20)
}

/// The bytes of the tree object for `tree`: its entries sorted by name, under the
/// header `tree <size>\0`.
pub open spec fn spec_tree_object(tree: Seq<TreeItemView>) -> Seq<u8> {
    spec_object_bytes(BlobType::Tree, spec_entries_bytes(spec_sort_by_name(tree)))
}

/// The bytes of the tree object for `tree`.
pub fn tree_content(tree: &[TreeObject]) -> (r: Vec<u8>)
    requires
        forall|i: int| 0 <= i < tree@.len() ==> sha_is_hex(#[trigger] tree@[i]@),
    ensures
        r@ == spec_tree_object(tree@.map_values(|t: TreeObject| t@)),
{
    let sorted = sort_by_name(tree);
    let ghost items = tree@.map_values(|t: TreeObject| t@);
    let ghost sv = sorted@.map_values(|t: TreeObject| t@);
    proof {
        lemma_sort_by_name_permutes(items);
        assert forall|j: int| 0 <= j < sv.len() implies sha_is_hex(#[trigger] sv[j]) by {
            broadcast use vstd::seq_lib::to_multiset_contains;

            assert(sv.contains(sv[j]));
            assert(sv.to_multiset().count(sv[j]) > 0);
            assert(items.contains(sv[j]));
            let i = choose|i: int| 0 <= i < items.len() && items[i] == sv[j];
            assert(items[i] == tree@[i]@);
        }
    }
    let mut files: Vec<u8> = Vec::new();
    let mut i: usize = 0;
    while i < sorted.len()
        invariant
            i <= sorted@.len(),
            sv == sorted@.map_values(|t: TreeObject| t@),
            forall|j: int| 0 <= j < sv.len() ==> sha_is_hex(#[trigger] sv[j]),
            files@ == spec_entries_bytes(sv.take(i as int)),
        decreases sorted@.len() - i,
    {
        let item = &sorted[i];
        assert(sv[i as int] == item@);
        files.extend_from_slice(item.mode.as_str().as_bytes());
        files.push(32u8);
        files.extend_from_slice(item.name.as_str().as_bytes());
        files.push(0u8);
        let sha_bytes = match hex_decode(item.sha.as_str().as_bytes(), 20) {
            Some(v) => v,
            None => {
                assert(false);
                Vec::new()
            },
        };
        files.extend_from_slice(sha_bytes.as_slice());
        assert(sv.take(i + 1).drop_last() =~= sv.take(i as int));
        i += 1;
    }
    assert(sv.take(i as int) =~= sv);
    encode_object(BlobType::Tree, files.as_slice())
}

/// The tree object for `tree`, hashed and compressed, ready to be written to the
/// store.
pub fn write_tree_objects(tree: &[TreeObject]) -> (r: Result<LooseObject, GitError>)
    requires
        forall|i: int| 0 <= i < tree@.len() ==> sha_is_hex(#[trigger] tree@[i]@),
    ensures
        loose_object_of(spec_tree_object(tree@.map_values(|t: TreeObject| t@)), r),
{
    let blob = tree_content(tree);
    encode_loose_object(&blob)
}

} // verus!
