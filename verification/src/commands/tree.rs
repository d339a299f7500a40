use vstd::prelude::*;
use vstd::slice::slice_subrange;
use vstd::slice::slice_to_vec;
use vstd::utf8::decode_utf8;
use vstd::utf8::valid_utf8;
use super::bindings::string_from_utf8_lossy;
use super::bindings::utf8_lossy;
use super::utils::find_byte;
use super::utils::find_byte_from;
use super::utils::hex_encode;
use super::utils::lemma_find_byte;
use super::utils::spec_hex_encode;

verus! {

/// The mode of a tree entry: a subtree, or anything else (kept as a file).
#[derive(Debug, Clone, Copy, PartialEq, Eq, Structural)]
pub enum TreeMode {
    Tree,
    Blob,
}

/// The mode that the text of an entry's mode stands for: `40000` is a subtree.
pub open spec fn spec_mode_of(mode: Seq<u8>) -> TreeMode {
    if mode == seq![52u8, 48, 48, 48, 48] {
        TreeMode::Tree
    } else {
        TreeMode::Blob
    }
}

/// The six-digit mode that listings show.
pub open spec fn spec_mode_code(mode: TreeMode) -> Seq<char> {
    match mode {
        TreeMode::Tree => seq!['0', '4', '0', '0', '0', '0'],
        TreeMode::Blob => seq!['1', '0', '0', '6', '4', '4'],
    }
}

/// The kind of object that listings show for a mode.
pub open spec fn spec_mode_name(mode: TreeMode) -> Seq<char> {
    match mode {
        TreeMode::Tree => seq!['t', 'r', 'e', 'e'],
        TreeMode::Blob => seq!['b', 'l', 'o', 'b'],
    }
}

impl TreeMode {
    /// The mode that the text `value` stands for.
    pub fn from_bytes(value: &[u8]) -> (r: TreeMode)
        ensures
            r == spec_mode_of(value@),
    {
        if value.len() == 5 && value[0] == 52 && value[1] == 48 && value[2] == 48 && value[3]
            == 48 && value[4] == 48 {
            assert(value@ == seq![52u8, 48, 48, 48, 48]);
            TreeMode::Tree
        } else {
            TreeMode::Blob
        }
    }

    /// `040000` for a subtree, `100644` otherwise.
    pub fn get_code(&self) -> (r: &'static str)
        ensures
            r@ == spec_mode_code(*self),
    {
        match self {
            TreeMode::Tree => {
                proof {
                    reveal_strlit("040000");
                }
                "040000"
            },
            TreeMode::Blob => {
                proof {
                    reveal_strlit("100644");
                }
                "100644"
            },
        }
    }

    /// `tree` for a subtree, `blob` otherwise.
    pub fn name(&self) -> (r: &'static str)
        ensures
            r@ == spec_mode_name(*self),
    {
        match self {
            TreeMode::Tree => {
                proof {
                    reveal_strlit("tree");
                }
                "tree"
            },
            TreeMode::Blob => {
                proof {
                    reveal_strlit("blob");
                }
                "blob"
            },
        }
    }
}

/// One entry of a tree: its mode, the text of its mode as the tree holds it, its name,
/// the hex of its 20-byte hash, and how many bytes of the tree it took.
#[derive(Debug)]
pub struct TreeObject {
    pub mode: TreeMode,
    pub mode_text: Vec<u8>,
    pub name: String,
    pub sha: String,
    pub total_in: usize,
}

/// The abstract content of a tree entry.
pub struct TreeEntryView {
    pub mode: TreeMode,
    pub mode_text: Seq<u8>,
    pub name: Seq<char>,
    pub sha: Seq<char>,
    pub total_in: nat,
}

impl View for TreeObject {
    type V = TreeEntryView;

    open spec fn view(&self) -> TreeEntryView {
        TreeEntryView {
            mode: self.mode,
            mode_text: self.mode_text@,
            name: self.name@,
            sha: self.sha@,
            total_in: self.total_in as nat,
        }
    }
}

/// The text of `bytes` as `String::from_utf8_lossy` reads it: valid UTF-8 decoded as
/// it is.
pub open spec fn spec_lossy_decode(bytes: Seq<u8>) -> Seq<char> {
    if valid_utf8(bytes) {
        decode_utf8(bytes)
    } else {
        utf8_lossy(bytes)
    }
}

/// True when the bytes hold the space that ends an entry's mode.
pub open spec fn has_space(v: Seq<u8>) -> bool {
    find_byte(v, 0, 32) < v.len()
}

/// The entry at the start of `v`: the mode runs to the first space, the name from there
/// to the next NUL (or the end), and the 20 bytes after that NUL are the hash, where
/// there are 20 of them; otherwise the hash is empty.
pub open spec fn spec_parse_entry(v: Seq<u8>) -> TreeEntryView {
    let m = find_byte(v, 0, 32);
    let n = find_byte(v, m + 1, 0);
    let after = n + 1;
    TreeEntryView {
        mode: spec_mode_of(v.take(m)),
        mode_text: v.take(m),
        name: spec_lossy_decode(v.subrange(m + 1, n)),
        sha: if after + 20 <= v.len() {
            spec_hex_encode(v.subrange(after, after + 20))
        } else {
            seq![]
        },
        total_in: (if after + 20 <= v.len() {
            after + 20
        } else {
            after
        }) as nat,
    }
}

/// An entry takes at least its mode's space and its name's NUL, and at most one byte
/// past the end.
pub proof fn lemma_entry_total(v: Seq<u8>)
    requires
        has_space(v),
    ensures
        2 <= spec_parse_entry(v).total_in <= v.len() + 1,
{
    lemma_find_byte(v, 0, 32);
    lemma_find_byte(v, find_byte(v, 0, 32) + 1, 0);
}

/// The entries of a tree's content, read one after the other until the bytes run
/// out; `None` where an entry has no space after its mode.
pub open spec fn spec_parse_entries(v: Seq<u8>) -> Option<Seq<TreeEntryView>>
    decreases v.len(),
{
    if v.len() == 0 {
        Some(seq![])
    } else if !has_space(v) {
        None
    } else {
        let e = spec_parse_entry(v);
        if e.total_in >= v.len() {
            Some(seq![e])
        } else {
            proof {
                lemma_entry_total(v);
            }
            match spec_parse_entries(v.skip(e.total_in as int)) {
                Some(rest) => Some(seq![e] + rest),
                None => None,
            }
        }
    }
}

impl TreeObject {
    /// Reads the entry at the start of `value`.
    pub fn from_bytes(value: &[u8]) -> (r: TreeObject)
        requires
            has_space(value@),
            value@.len() < usize::MAX,
        ensures
            r@ == spec_parse_entry(value@),
    {
        let mode_end = find_byte_from(value, 0, 32);
        proof {
            lemma_find_byte(value@, 0, 32);
        }
        let name_end = find_byte_from(value, mode_end + 1, 0);
        proof {
            lemma_find_byte(value@, mode_end + 1, 0);
        }
        let mode_bytes = slice_subrange(value, 0, mode_end);
        let name_bytes = slice_subrange(value, mode_end + 1, name_end);
        let offset = name_end + 1;
        let mode = TreeMode::from_bytes(mode_bytes);
        let mode_text = slice_to_vec(mode_bytes);
        let name = string_from_utf8_lossy(name_bytes);
        if offset <= value.len() && 20 <= value.len() - offset {
            let sha = hex_encode(slice_subrange(value, offset, offset + 20));
            TreeObject { mode, mode_text, name, sha, total_in: offset + 20 }
        } else {
            TreeObject { mode, mode_text, name, sha: String::new(), total_in: offset }
        }
    }

    /// The listing line of the entry: `<code> <kind> <sha>\t<name>`.
    pub fn to_line(&self) -> (r: String)
        ensures
            r@ == spec_entry_line(self@),
    {
        let mut out = String::new();
        out.append(self.mode.get_code());
        proof {
            reveal_strlit(" ");
            reveal_strlit("\t");
        }
        out.append(" ");
        out.append(self.mode.name());
        out.append(" ");
        out.append(self.sha.as_str());
        out.append("\t");
        out.append(self.name.as_str());
        out
    }
}

/// `<code> <kind> <sha>\t<name>` for an entry.
pub open spec fn spec_entry_line(e: TreeEntryView) -> Seq<char> {
    spec_mode_code(e.mode) + seq![' '] + spec_mode_name(e.mode) + seq![' '] + e.sha + seq!['\t']
        + e.name
}

/// Each entry's line, each followed by a newline.
pub open spec fn spec_render_entries(es: Seq<TreeEntryView>) -> Seq<char>
    decreases es.len(),
{
    if es.len() == 0 {
        seq![]
    } else {
        spec_render_entries(es.drop_last()) + spec_entry_line(es.last()) + seq!['\n']
    }
}

/// Each entry's name, each followed by a newline.
pub open spec fn spec_render_names(es: Seq<TreeEntryView>) -> Seq<char>
    decreases es.len(),
{
    if es.len() == 0 {
        seq![]
    } else {
        spec_render_names(es.drop_last()) + es.last().name + seq!['\n']
    }
}

/// The entries of a tree, in the order in which the tree holds them.
pub struct TreeObjects {
    pub objects: Vec<TreeObject>,
}

impl View for TreeObjects {
    type V = Seq<TreeEntryView>;

    open spec fn view(&self) -> Seq<TreeEntryView> {
        self.objects@.map_values(|o: TreeObject| o@)
    }
}

/// `Some(p + rest)` where `o` is `Some(rest)`.
pub open spec fn prepend_entries(
    p: Seq<TreeEntryView>,
    o: Option<Seq<TreeEntryView>>,
) -> Option<Seq<TreeEntryView>> {
    match o {
        Some(rest) => Some(p + rest),
        None => None,
    }
}

impl TreeObjects {
    /// Reads all entries of a tree's content; `None` where an entry has no space
    /// after its mode.
    pub fn from_bytes(value: &[u8]) -> (r: Option<TreeObjects>)
        requires
            value@.len() < usize::MAX,
        ensures
            match r {
                Some(t) => spec_parse_entries(value@) == Some(t@),
                None => spec_parse_entries(value@) is None,
            },
    {
        let mut objects: Vec<TreeObject> = Vec::new();
        let mut offset: usize = 0;
        assert(value@.skip(0) == value@);
        assert(objects@.map_values(|o: TreeObject| o@) =~= Seq::<TreeEntryView>::empty());
        proof {
            if let Some(all) = spec_parse_entries(value@) {
                assert(Seq::<TreeEntryView>::empty() + all =~= all);
            }
        }
        while offset < value.len()
            invariant
                value@.len() < usize::MAX,
                offset <= value@.len() + 1,
                offset <= value@.len() ==> spec_parse_entries(value@) == prepend_entries(
                    objects@.map_values(|o: TreeObject| o@),
                    spec_parse_entries(value@.skip(offset as int)),
                ),
                offset > value@.len() ==> spec_parse_entries(value@) == Some(
                    objects@.map_values(|o: TreeObject| o@),
                ),
            decreases value@.len() + 1 - offset,
        {
            let rest = slice_subrange(value, offset, value.len());
            assert(rest@ == value@.skip(offset as int));
            let space = find_byte_from(rest, 0, 32);
            if space >= rest.len() {
                return None;
            }
            let object = TreeObject::from_bytes(rest);
            proof {
                lemma_entry_total(rest@);
            }
            let ghost before = objects@.map_values(|o: TreeObject| o@);
            let ghost e = object@;
            let total = object.total_in;
            objects.push(object);
            assert(objects@.map_values(|o: TreeObject| o@) == before + seq![e]);
            offset = offset + total;
            proof {
                if offset <= value@.len() {
                    assert(rest@.skip(total as int) == value@.skip(offset as int));
                    if let Some(after) = spec_parse_entries(value@.skip(offset as int)) {
                        assert(before + (seq![e] + after) =~= before + seq![e] + after);
                    }
                }
            }
        }
        proof {
            if offset == value@.len() {
                let done = objects@.map_values(|o: TreeObject| o@);
                assert(value@.skip(offset as int) =~= Seq::<u8>::empty());
                assert(done + Seq::<TreeEntryView>::empty() =~= done);
            }
        }
        Some(TreeObjects { objects })
    }

    /// The listing of all entries, one line each.
    pub fn to_text(&self) -> (r: String)
        ensures
            r@ == spec_render_entries(self@),
    {
        let mut out = String::new();
        let mut i: usize = 0;
        while i < self.objects.len()
            invariant
                i <= self@.len(),
                self@.len() == self.objects@.len(),
                out@ == spec_render_entries(self@.take(i as int)),
            decreases self.objects@.len() - i,
        {
            assert(self@[i as int] == self.objects@[i as int]@);
            let line = self.objects[i].to_line();
            out.append(line.as_str());
            proof {
                reveal_strlit("\n");
            }
            out.append("\n");
            assert(self@.take(i + 1).drop_last() == self@.take(i as int));
            i += 1;
        }
        assert(self@.take(i as int) == self@);
        out
    }

    /// The names of all entries, one line each.
    pub fn names_text(&self) -> (r: String)
        ensures
            r@ == spec_render_names(self@),
    {
        let mut out = String::new();
        let mut i: usize = 0;
        while i < self.objects.len()
            invariant
                i <= self@.len(),
                self@.len() == self.objects@.len(),
                out@ == spec_render_names(self@.take(i as int)),
            decreases self.objects@.len() - i,
        {
            assert(self@[i as int] == self.objects@[i as int]@);
            out.append(self.objects[i].name.as_str());
            proof {
                reveal_strlit("\n");
            }
            out.append("\n");
            assert(self@.take(i + 1).drop_last() == self@.take(i as int));
            i += 1;
        }
        assert(self@.take(i as int) == self@);
        out
    }
}

} // verus!
