//! Reading and writing the header, node table and string table of a U8
//! archive.

use vstd::prelude::*;
use vstd::string::StringSliceAdditionalSpecFns;
use vstd::utf8::{decode_utf8, encode_utf8, valid_utf8};

use crate::region::lower_of;
use crate::u8_fnt::{lookup, count_nodes, entries_map, entries_sorted, lemma_tree_wf, lemma_wf_entries, tree_wf, flat_node, flatten_node, node_count, slot_view, Slot, U8FileNode, U8FolderNode, U8Node};
use crate::util::StreamError;
use crate::util::{overwrite, padding_to, ByteCursor};

verus! {

/// The identifier at the start of every U8 archive, `"U\xaa8-"`.
pub const U8_MAGIC: u32 = 0x55aa382d;

/// Where the node table starts.
pub const ROOT_NODE_OFFSET: u32 = 0x20;

/// The largest name offset that a node can hold.
pub const MAX_NAME_OFFSET: u32 = 0xff_ffff;

/// The four bytes of `v`, most significant first.
pub open spec fn be32(v: int) -> Seq<u8> {
    seq![
        ((v / 0x100_0000) % 0x100) as u8,
        ((v / 0x1_0000) % 0x100) as u8,
        ((v / 0x100) % 0x100) as u8,
        (v % 0x100) as u8,
    ]
}

/// The number the four bytes at `at` of `d` give, most significant first.
pub open spec fn be32_at(d: Seq<u8>, at: int) -> int {
    d[at] * 0x100_0000 + d[at + 1] * 0x1_0000 + d[at + 2] * 0x100 + d[at + 3]
}

/// The four bytes of `v`, most significant first.
pub fn be32_bytes(v: u32) -> (r: Vec<u8>)
    ensures
        r@ == be32(v as int),
{
    let r = vec![
        ((v / 0x100_0000) % 0x100) as u8,
        ((v / 0x1_0000) % 0x100) as u8,
        ((v / 0x100) % 0x100) as u8,
        (v % 0x100) as u8,
    ];
    assert(r@ =~= be32(v as int));
    r
}

/// The nodes of a whole tree in the order of the table.
pub open spec fn flat_tree(root: U8Node) -> Seq<Slot> {
    flat_node(root, Seq::empty(), 0, 0)
}

/// The string table of a list of nodes: each name, encoded, then a zero.
pub open spec fn string_table(slots: Seq<Slot>) -> Seq<u8>
    decreases slots.len(),
{
    if slots.len() == 0 {
        Seq::empty()
    } else {
        string_table(slots.drop_last()) + encode_utf8(slots.last().1) + seq![0u8]
    }
}

/// The twelve bytes of a node whose name is at `name_offset`, where the
/// data section starts at `data_offset`.
pub open spec fn slot_bytes(s: Slot, name_offset: int, data_offset: int) -> Seq<u8> {
    be32((if s.0 { 0x100_0000int } else { 0int }) + name_offset) + be32(
        if s.0 {
            s.2
        } else {
            data_offset + s.2
        },
    ) + be32(s.3)
}

/// The node table of a list of nodes.
pub open spec fn node_table(slots: Seq<Slot>, data_offset: int) -> Seq<u8>
    decreases slots.len(),
{
    if slots.len() == 0 {
        Seq::empty()
    } else {
        node_table(slots.drop_last(), data_offset) + slot_bytes(
            slots.last(),
            string_table(slots.drop_last()).len() as int,
            data_offset,
        )
    }
}

/// The length of the node and string tables of a list of nodes.
pub open spec fn tables_length(slots: Seq<Slot>) -> int {
    (12 * slots.len() + string_table(slots).len()) as int
}

/// Where the data section starts, after the header and the tables.
pub open spec fn data_start(slots: Seq<Slot>) -> int {
    0x20 + tables_length(slots) + padding_to(0x20 + tables_length(slots), 0x20)
}

/// Whether a list of nodes can be written: each value fits in 32 bits,
/// each name offset in 24, and each file's offset from the archive start
/// in 32.
pub open spec fn slots_encodable(slots: Seq<Slot>) -> bool {
    &&& data_start(slots) <= u32::MAX
    &&& forall|k: int|
        0 <= k < slots.len() ==> string_table(#[trigger] slots.subrange(0, k)).len()
            <= MAX_NAME_OFFSET
    &&& forall|k: int|
        0 <= k < slots.len() ==> 0 <= (#[trigger] slots[k]).3 <= u32::MAX && 0 <= slots[k].2 && (
        if slots[k].0 {
            slots[k].2
        } else {
            data_start(slots) + slots[k].2
        }) <= u32::MAX
}

/// Whether a tree can be written.
#[verifier::opaque]
pub open spec fn fnt_encodable(root: U8Node) -> bool {
    node_count(root) <= u32::MAX && slots_encodable(flat_tree(root))
}

/// The header: magic, where the node table starts, the length of the
/// tables, where the data starts, and sixteen zero bytes.
pub open spec fn header_bytes(tables_len: int, data_offset: int) -> Seq<u8> {
    be32(U8_MAGIC as int) + be32(0x20) + be32(tables_len) + be32(data_offset) + Seq::new(
        16,
        |i: int| 0u8,
    )
}

/// The bytes that encode a list of nodes: header, node table, string
/// table, and zeros up to the data section.
pub open spec fn slots_bytes(slots: Seq<Slot>) -> Seq<u8> {
    header_bytes(tables_length(slots), data_start(slots)) + node_table(slots, data_start(slots))
        + string_table(slots) + Seq::new(
        padding_to(0x20 + tables_length(slots), 0x20) as nat,
        |i: int| 0u8,
    )
}

/// The bytes that encode a tree.
#[verifier::opaque]
pub open spec fn fnt_bytes(root: U8Node) -> Seq<u8> {
    slots_bytes(flat_tree(root))
}

/// Why a tree could not be written.
#[derive(Clone, Copy, PartialEq, Eq, Structural, Debug)]
pub enum WriteU8Error {
    /// A value of the tree does not fit the fields of the format.
    TooLarge,
}

/// Why the tables of a U8 archive could not be read.
#[non_exhaustive]
#[derive(Clone, Copy, PartialEq, Eq, Structural, Debug)]
pub enum ParseU8Error {
    /// The archive does not start with the U8 magic; the value found.
    BadMagic(u32),
    /// A node has a type other than file or folder.
    UnexpectedNodeType(u8),
    /// A name is not valid UTF-8; the index of its node.
    InvalidName(u32),
    /// A file's data lies before the data section; the index of its node.
    FileBeforeData(u32),
    /// The data ended before what was to be read.
    IoError(StreamError),
}

/// The number the four bytes at `at` of `data` give, most significant first.
pub fn read_be32(data: &Vec<u8>, at: u64) -> (r: Result<u32, ParseU8Error>)
    ensures
        r is Ok <==> at + 4 <= data@.len(),
        r matches Ok(v) ==> v == be32_at(data@, at as int),
        r matches Err(e) ==> e is IoError,
{
    if at > data.len() as u64 || 4 > data.len() as u64 - at {
        let available: u64 = if at > data.len() as u64 {
            0
        } else {
            data.len() as u64 - at
        };
        return Err(ParseU8Error::IoError(StreamError::UnexpectedEof { wanted: 4, available }));
    }
    let i = at as usize;
    let v: u32 = data[i] as u32 * 0x100_0000 + data[i + 1] as u32 * 0x1_0000 + data[i + 2] as u32
        * 0x100 + data[i + 3] as u32;
    Ok(v)
}

/// Relies on `str::from_utf8`, which accepts exactly the valid UTF-8
/// byte strings; the `String` made from its result holds the characters
/// that the bytes encode.
#[verifier::external_body]
fn string_from_utf8(b: &[u8]) -> (r: Option<String>)
    ensures
        r is Some <==> valid_utf8(b@),
        r matches Some(s) ==> s@ == decode_utf8(b@),
{
    std::str::from_utf8(b).ok().map(|s| s.to_owned())
}

/// The bytes of `data` from `at` up to the first zero byte after it.
pub open spec fn null_terminated(data: Seq<u8>, at: int, end: int) -> bool {
    &&& 0 <= at <= end < data.len()
    &&& data[end] == 0
    &&& forall|k: int| at <= k < end ==> data[k] != 0
}

/// The error that stands for data that ended too soon.
pub open spec fn io_error() -> ParseU8Error {
    ParseU8Error::IoError(StreamError::UnexpectedEof { wanted: 0, available: 0 })
}

/// Two errors are of the same kind with the same values, an I/O error
/// being an I/O error whatever it holds.
pub open spec fn same_failure(a: ParseU8Error, b: ParseU8Error) -> bool {
    (a is IoError && b is IoError) || a == b
}

/// The name that starts at `at` of `data`: the UTF-8 text of the bytes up
/// to the next zero byte; `InvalidName` of node `idx` where they are not
/// UTF-8, an I/O error where no zero byte follows.
pub open spec fn name_at(data: Seq<u8>, at: int, idx: int) -> Result<Seq<char>, ParseU8Error> {
    if exists|end: int| null_terminated(data, at, end) {
        let end = choose|end: int| null_terminated(data, at, end);
        if valid_utf8(data.subrange(at, end)) {
            Ok(decode_utf8(data.subrange(at, end)))
        } else {
            Err(ParseU8Error::InvalidName(idx as u32))
        }
    } else {
        Err(io_error())
    }
}

/// What is left of `data` past node `idx` of a table at `root`.
pub open spec fn room(data: Seq<u8>, root: int, idx: int) -> nat {
    if data.len() - root - 12 * idx > 0 {
        (data.len() - root - 12 * idx) as nat
    } else {
        0
    }
}

/// The first word of node `idx`: its type, in the top byte, and its name's offset.
pub open spec fn slot_word(data: Seq<u8>, root: int, idx: int, k: int) -> int {
    be32_at(data, root + 12 * idx + 4 * k)
}

/// Walk the node at `idx` of the table (at `root`, names at `strings`,
/// data section at `off`) and all under it, as `read` does: the index past
/// its last descendant, or the first error met.
pub open spec fn scan_node(data: Seq<u8>, root: int, strings: int, off: int, idx: int) -> Result<int, ParseU8Error>
    decreases room(data, root, idx), 0int,
{
    if root + 12 * idx + 12 > data.len() || root < 0 || idx < 0 {
        Err(io_error())
    } else {
        let first = slot_word(data, root, idx, 0);
        let a = slot_word(data, root, idx, 1);
        let b = slot_word(data, root, idx, 2);
        match name_at(data, strings + first % 0x100_0000, idx) {
            Err(e) => Err(e),
            Ok(_) => if first / 0x100_0000 == 0 {
                if a < off {
                    Err(ParseU8Error::FileBeforeData(idx as u32))
                } else {
                    Ok(idx + 1)
                }
            } else if first / 0x100_0000 == 1 {
                scan_children(data, root, strings, off, idx + 1, b)
            } else {
                Err(ParseU8Error::UnexpectedNodeType((first / 0x100_0000) as u8))
            },
        }
    }
}

/// Walk the nodes from `i` on, one subtree after another, until index
/// `end` is reached.
pub open spec fn scan_children(data: Seq<u8>, root: int, strings: int, off: int, i: int, end: int) -> Result<int, ParseU8Error>
    decreases room(data, root, i), 1int,
{
    if i >= end {
        Ok(i)
    } else if root + 12 * i >= data.len() || root < 0 || i < 1 {
        Err(io_error())
    } else {
        match scan_node(data, root, strings, off, i) {
            Err(e) => Err(e),
            Ok(j) => if j <= i {
                Err(io_error())
            } else {
                scan_children(data, root, strings, off, j, end)
            },
        }
    }
}

/// The indices of the nodes directly under a folder, whose children
/// start at `i` and end before `end`, as far as they can be walked.
pub open spec fn child_indices(data: Seq<u8>, root: int, strings: int, off: int, i: int, end: int) -> Seq<int>
    decreases room(data, root, i),
{
    if i >= end || root + 12 * i >= data.len() || root < 0 || i < 1 {
        Seq::empty()
    } else {
        match scan_node(data, root, strings, off, i) {
            Ok(j) => if j > i {
                seq![i] + child_indices(data, root, strings, off, j, end)
            } else {
                Seq::empty()
            },
            Err(_) => Seq::empty(),
        }
    }
}

/// The lower-case name of node `c`.
pub open spec fn key_at(data: Seq<u8>, strings: int, root: int, c: int) -> Seq<char> {
    lower_of(name_at(data, strings + slot_word(data, root, c, 0) % 0x100_0000, c)->Ok_0)
}

/// `node` is what the table says of node `idx` and all under it: a file
/// with the offset and size of its node, or a folder whose entries are in
/// order and hold, under each lower-case name, the last child with that
/// name, described in turn.
#[verifier::opaque]
pub open spec fn tree_at(data: Seq<u8>, root: int, strings: int, off: int, idx: int, node: U8Node) -> bool
    decreases room(data, root, idx),
{
    let first = slot_word(data, root, idx, 0);
    &&& 0 <= root
    &&& 0 <= idx
    &&& root + 12 * idx + 12 <= data.len()
    &&& name_at(data, strings + first % 0x100_0000, idx) is Ok
    &&& match node {
        U8Node::File(f) => first / 0x100_0000 == 0 && f.offset + off == slot_word(data, root, idx, 1)
            && f.size == slot_word(data, root, idx, 2),
        U8Node::Folder(g) => {
            let cs = child_indices(data, root, strings, off, idx + 1, slot_word(data, root, idx, 2));
            let m = entries_map(g.entries());
            &&& first / 0x100_0000 == 1
            &&& entries_sorted(g.entries())
            &&& forall|k: Seq<char>| #[trigger] m.contains_key(k) <==> exists|q: int| 0 <= q < cs.len() && key_at(data, strings, root, cs[q]) == k
            &&& forall|k: Seq<char>| #[trigger] m.contains_key(k) ==> exists|q: int|
                {
                    &&& 0 <= q < cs.len()
                    &&& idx < cs[q]
                    &&& key_at(data, strings, root, cs[q]) == k
                    &&& name_at(data, strings + slot_word(data, root, cs[q], 0) % 0x100_0000, cs[q]) == Ok::<Seq<char>, ParseU8Error>(m[k].0)
                    &&& (forall|q2: int| q < q2 < cs.len() ==> key_at(data, strings, root, #[trigger] cs[q2]) != k)
                    &&& tree_at(data, root, strings, off, cs[q], m[k].1)
                }
        },
    }
}

/// What reading the tables of `data` gives: where the data section starts,
/// or the first error met, in the order `read` meets them.
#[verifier::opaque]
pub open spec fn parse_fnt(data: Seq<u8>) -> Result<int, ParseU8Error> {
    if data.len() < 4 {
        Err(io_error())
    } else if be32_at(data, 0) != U8_MAGIC {
        Err(ParseU8Error::BadMagic(be32_at(data, 0) as u32))
    } else if data.len() < 16 {
        Err(io_error())
    } else if be32_at(data, 4) + 12 > data.len() {
        Err(io_error())
    } else {
        let root = be32_at(data, 4);
        let strings = root + 12 * be32_at(data, root + 8);
        match scan_node(data, root, strings, be32_at(data, 12), 0) {
            Err(e) => Err(e),
            Ok(_) => Ok(be32_at(data, 12)),
        }
    }
}

/// The name that starts at `at`: the bytes up to the next zero byte.
fn read_name(data: &Vec<u8>, at: u64, index: u32) -> (r: Result<String, ParseU8Error>)
    ensures
        r matches Ok(s) ==> name_at(data@, at as int, index as int) == Ok::<Seq<char>, ParseU8Error>(s@),
        r matches Err(e) ==> name_at(data@, at as int, index as int) is Err && same_failure(
            e,
            name_at(data@, at as int, index as int)->Err_0,
        ),
{
    if at >= data.len() as u64 {
        assert(!exists|e: int| null_terminated(data@, at as int, e));
        return Err(ParseU8Error::IoError(StreamError::UnexpectedEof { wanted: 1, available: 0 }));
    }
    let start = at as usize;
    let mut end = start;
    while end < data.len() && data[end] != 0
        invariant
            start <= end <= data@.len(),
            forall|k: int| start <= k < end ==> data@[k] != 0,
        decreases data@.len() - end,
    {
        end = end + 1;
    }
    if end >= data.len() {
        assert(!exists|e: int| null_terminated(data@, at as int, e));
        return Err(ParseU8Error::IoError(StreamError::UnexpectedEof { wanted: 1, available: 0 }));
    }
    assert(null_terminated(data@, at as int, end as int));
    assert(forall|e: int| null_terminated(data@, at as int, e) ==> e == end);
    let bytes = crate::util::slice_of(data, start, end - start);
    match string_from_utf8(bytes.as_slice()) {
        Some(s) => Ok(s),
        None => Err(ParseU8Error::InvalidName(index)),
    }
}

/// Where the tables of an archive are: the start of the node table, of
/// the string table and of the data section.
struct Layout {
    root_offset: u64,
    strings_offset: u64,
    data_offset: u32,
}

/// The node of the table at `at` of `data` says what `node` is: a file
/// with its offset (from the data section at `data_offset`) and size, or
/// a folder.
pub open spec fn slot_describes(data: Seq<u8>, at: int, data_offset: int, node: U8Node) -> bool {
    &&& at + 12 <= data.len()
    &&& match node {
        U8Node::File(f) => be32_at(data, at) / 0x100_0000 == 0 && f.offset + data_offset == be32_at(data, at + 4)
            && f.size == be32_at(data, at + 8),
        U8Node::Folder(_) => be32_at(data, at) / 0x100_0000 == 1,
    }
}

/// Read the node at `idx` and, for a folder, the nodes under it; return
/// its name, the node, and the index after its last descendant.
fn visit_node(data: &Vec<u8>, layout: &Layout, idx: u32) -> (r: Result<(String, U8Node, u32), ParseU8Error>)
    requires
        layout.root_offset + 12 * idx < data@.len(),
        idx < u32::MAX,
        layout.root_offset <= u32::MAX,
        layout.strings_offset <= 0x10_0000_0000,
    ensures
        ({
            let rt = layout.root_offset as int;
            let st = layout.strings_offset as int;
            let off = layout.data_offset as int;
            let s = scan_node(data@, rt, st, off, idx as int);
            &&& r is Ok <==> s is Ok
            &&& r matches Ok(t) ==> {
                &&& s == Ok::<int, ParseU8Error>(t.2 as int)
                &&& t.2 > idx
                &&& name_at(data@, st + slot_word(data@, rt, idx as int, 0) % 0x100_0000, idx as int) == Ok::<Seq<char>, ParseU8Error>(t.0@)
                &&& tree_at(data@, rt, st, off, idx as int, t.1)
                &&& tree_wf(t.1)
            }
            &&& r matches Err(e) ==> same_failure(e, s->Err_0)
        }),
    decreases data@.len() - 12 * idx,
{
    proof {
        reveal(tree_at);
    }
    let ghost d = data@;
    let ghost rt = layout.root_offset as int;
    let ghost st = layout.strings_offset as int;
    let ghost off = layout.data_offset as int;
    let node_offs: u64 = layout.root_offset + 12 * idx as u64;
    let first = match read_be32(data, node_offs) {
        Ok(v) => v,
        Err(e) => {
            return Err(e);
        },
    };
    let a = match read_be32(data, node_offs + 4) {
        Ok(v) => v,
        Err(e) => {
            return Err(e);
        },
    };
    let b = match read_be32(data, node_offs + 8) {
        Ok(v) => v,
        Err(e) => {
            return Err(e);
        },
    };
    assert(first == slot_word(d, rt, idx as int, 0));
    assert(a == slot_word(d, rt, idx as int, 1));
    assert(b == slot_word(d, rt, idx as int, 2));
    let node_type: u32 = first / 0x100_0000;
    let name_offs: u32 = first % 0x100_0000;
    let name = match read_name(data, layout.strings_offset + name_offs as u64, idx) {
        Ok(n) => n,
        Err(e) => {
            return Err(e);
        },
    };
    if node_type == U8Node::FILE_TYPE as u32 {
        if a < layout.data_offset {
            return Err(ParseU8Error::FileBeforeData(idx));
        }
        proof {
            lemma_tree_wf(U8Node::File(U8FileNode { offset: (a - layout.data_offset) as u32, size: b }));
        }
        Ok((name, U8Node::File(U8FileNode { offset: a - layout.data_offset, size: b }), idx + 1))
    } else if node_type == U8Node::FOLDER_TYPE as u32 {
        let mut folder = U8FolderNode::new();
        let mut next: u32 = idx + 1;
        let ghost mut done: Seq<int> = Seq::empty();
        assert(child_indices(d, rt, st, off, idx + 1, b as int) =~= done + child_indices(d, rt, st, off, next as int, b as int));
        assert(entries_map(folder.entries()) =~= Map::<Seq<char>, (Seq<char>, U8Node)>::empty()) by {
            assert forall|k: Seq<char>| !entries_map(folder.entries()).contains_key(k) by {}
        }
        while next < b
            invariant
                next > idx,
                d == data@,
                rt == layout.root_offset as int,
                st == layout.strings_offset as int,
                off == layout.data_offset as int,
                layout.root_offset + 12 * idx < data@.len(),
                layout.root_offset <= u32::MAX,
                layout.strings_offset <= 0x10_0000_0000,
                scan_node(d, rt, st, off, idx as int) == scan_children(d, rt, st, off, next as int, b as int),
                child_indices(d, rt, st, off, idx + 1, b as int) == done + child_indices(d, rt, st, off, next as int, b as int),
                forall|q: int| 0 <= q < done.len() ==> idx < #[trigger] done[q],
                entries_sorted(folder.entries()),
                forall|k: Seq<char>| #[trigger] entries_map(folder.entries()).contains_key(k) ==> tree_wf(entries_map(folder.entries())[k].1),
                forall|k: Seq<char>| #[trigger] entries_map(folder.entries()).contains_key(k) <==> exists|q: int| 0 <= q < done.len() && key_at(d, st, rt, done[q]) == k,
                forall|k: Seq<char>| #[trigger] entries_map(folder.entries()).contains_key(k) ==> exists|q: int|
                    {
                        &&& 0 <= q < done.len()
                        &&& idx < done[q]
                        &&& key_at(d, st, rt, done[q]) == k
                        &&& name_at(d, st + slot_word(d, rt, done[q], 0) % 0x100_0000, done[q]) == Ok::<Seq<char>, ParseU8Error>(entries_map(folder.entries())[k].0)
                        &&& (forall|q2: int| q < q2 < done.len() ==> key_at(d, st, rt, #[trigger] done[q2]) != k)
                        &&& tree_at(d, rt, st, off, done[q], entries_map(folder.entries())[k].1)
                    },
            decreases u32::MAX - next,
        {
            if layout.root_offset + 12 * next as u64 >= data.len() as u64 {
                return Err(ParseU8Error::IoError(StreamError::UnexpectedEof { wanted: 12, available: 0 }));
            }
            let (child_name, child, after) = match visit_node(data, layout, next) {
                Ok(t) => t,
                Err(e) => {
                    return Err(e);
                },
            };
            let ghost m0 = entries_map(folder.entries());
            let ghost done0 = done;
            let ghost k_new = lower_of(child_name@);
            assert(key_at(d, st, rt, next as int) == k_new);
            assert(child_indices(d, rt, st, off, next as int, b as int) =~= seq![next as int] + child_indices(d, rt, st, off, after as int, b as int));
            folder.insert(child_name, child);
            proof {
                let m1w = entries_map(folder.entries());
                assert forall|k: Seq<char>| #[trigger] m1w.contains_key(k) implies tree_wf(m1w[k].1) by {
                    if k != k_new {
                        assert(m0.contains_key(k));
                    }
                }
                done = done.push(next as int);
                assert(done0 + (seq![next as int] + child_indices(d, rt, st, off, after as int, b as int)) =~= done + child_indices(d, rt, st, off, after as int, b as int));
                let m1 = entries_map(folder.entries());
                assert(done[done.len() - 1] == next as int);
                assert forall|q: int| 0 <= q < done.len() implies idx < #[trigger] done[q] by {
                    if q < done0.len() {
                        assert(done[q] == done0[q]);
                    }
                }
                assert forall|k: Seq<char>| #[trigger] m1.contains_key(k) <==> exists|q: int| 0 <= q < done.len() && key_at(d, st, rt, done[q]) == k by {
                    if k == k_new {
                        assert(key_at(d, st, rt, done[done.len() - 1]) == k);
                    } else {
                        if m0.contains_key(k) {
                            let q = choose|q: int| 0 <= q < done0.len() && key_at(d, st, rt, done0[q]) == k;
                            assert(done[q] == done0[q]);
                        }
                        if exists|q: int| 0 <= q < done.len() && key_at(d, st, rt, done[q]) == k {
                            let q = choose|q: int| 0 <= q < done.len() && key_at(d, st, rt, done[q]) == k;
                            assert(q < done0.len());
                            assert(done0[q] == done[q]);
                        }
                    }
                }
                assert forall|k: Seq<char>| #[trigger] m1.contains_key(k) implies exists|q: int|
                    {
                        &&& 0 <= q < done.len()
                        &&& idx < done[q]
                        &&& key_at(d, st, rt, done[q]) == k
                        &&& name_at(d, st + slot_word(d, rt, done[q], 0) % 0x100_0000, done[q]) == Ok::<Seq<char>, ParseU8Error>(m1[k].0)
                        &&& (forall|q2: int| q < q2 < done.len() ==> key_at(d, st, rt, #[trigger] done[q2]) != k)
                        &&& tree_at(d, rt, st, off, done[q], m1[k].1)
                    } by {
                    if k == k_new {
                        let q = done.len() - 1;
                        assert(m1[k] == (child_name@, child));
                        assert(forall|q2: int| q < q2 < done.len() ==> key_at(d, st, rt, #[trigger] done[q2]) != k);
                    } else {
                        assert(m0.contains_key(k));
                        assert(m1[k] == m0[k]);
                        let q = choose|q: int|
                            {
                                &&& 0 <= q < done0.len()
                                &&& idx < done0[q]
                                &&& key_at(d, st, rt, done0[q]) == k
                                &&& name_at(d, st + slot_word(d, rt, done0[q], 0) % 0x100_0000, done0[q]) == Ok::<Seq<char>, ParseU8Error>(m0[k].0)
                                &&& (forall|q2: int| q < q2 < done0.len() ==> key_at(d, st, rt, #[trigger] done0[q2]) != k)
                                &&& tree_at(d, rt, st, off, done0[q], m0[k].1)
                            };
                        assert(done[q] == done0[q]);
                        assert forall|q2: int| q < q2 < done.len() implies key_at(d, st, rt, #[trigger] done[q2]) != k by {
                            if q2 < done0.len() {
                                assert(done[q2] == done0[q2]);
                            }
                        }
                    }
                }
            }
            next = after;
        }
        assert(child_indices(d, rt, st, off, next as int, b as int) =~= Seq::<int>::empty());
        assert(done + Seq::<int>::empty() =~= done);
        proof {
            lemma_wf_entries(folder);
            lemma_tree_wf(U8Node::Folder(folder));
            let e = folder.entries();
            assert forall|i: int| 0 <= i < e.len() implies #[trigger] tree_wf(e[i].1) by {
                let k = lower_of(e[i].0@);
                assert(lookup(e, k) == Some(e[i]));
                crate::u8_fnt::lemma_first_match_exists(e, k);
                assert(entries_map(e).contains_key(k));
            }
        }
        Ok((name, U8Node::Folder(folder), next))
    } else {
        Err(ParseU8Error::UnexpectedNodeType(node_type as u8))
    }
}

/// Read the tables of the U8 archive `data`: the tree of its nodes and
/// where its data section starts, to which file offsets are relative.
pub fn read(data: &Vec<u8>) -> (r: Result<(U8Node, u32), ParseU8Error>)
    ensures
        r is Ok <==> parse_fnt(data@) is Ok,
        r matches Err(e) ==> same_failure(e, parse_fnt(data@)->Err_0),
        r matches Ok(t) ==> parse_fnt(data@) == Ok::<int, ParseU8Error>(t.1 as int) && tree_at(
            data@,
            be32_at(data@, 4),
            be32_at(data@, 4) + 12 * be32_at(data@, be32_at(data@, 4) + 8),
            t.1 as int,
            0,
            t.0,
        ) && tree_wf(t.0),
{
    proof {
        reveal(parse_fnt);
    }
    let magic = match read_be32(data, 0) {
        Ok(v) => v,
        Err(e) => {
            return Err(e);
        },
    };
    if magic != U8_MAGIC {
        return Err(ParseU8Error::BadMagic(magic));
    }
    let root_offset = match read_be32(data, 4) {
        Ok(v) => v,
        Err(e) => {
            return Err(e);
        },
    };
    let data_offset = match read_be32(data, 12) {
        Ok(v) => v,
        Err(e) => {
            return Err(e);
        },
    };
    let root_size = match read_be32(data, root_offset as u64 + 8) {
        Ok(v) => v,
        Err(e) => {
            return Err(e);
        },
    };
    let layout = Layout {
        root_offset: root_offset as u64,
        strings_offset: root_offset as u64 + 12 * root_size as u64,
        data_offset,
    };
    let root = match visit_node(data, &layout, 0) {
        Ok(t) => t.1,
        Err(e) => {
            return Err(e);
        },
    };
    Ok((root, data_offset))
}

/// Append the bytes `b` to `v`.
pub(crate) fn append_bytes(v: &mut Vec<u8>, b: &[u8])
    ensures
        final(v)@ == old(v)@ + b@,
{
    let ghost v0 = v@;
    let mut i: usize = 0;
    while i < b.len()
        invariant
            i <= b@.len(),
            v@ == v0 + b@.subrange(0, i as int),
        decreases b@.len() - i,
    {
        v.push(b[i]);
        i = i + 1;
        assert(v@ =~= v0 + b@.subrange(0, i as int));
    }
    assert(b@.subrange(0, i as int) =~= b@);
}

/// The bytes that encode the nodes `slots`, or an error where a value
/// does not fit its field.
pub fn encode_slots(slots: &Vec<(bool, &str, u32, u32)>) -> (r: Result<Vec<u8>, WriteU8Error>)
    ensures
        ({
            let v = slots@.map_values(|s: (bool, &str, u32, u32)| slot_view(s));
            &&& r is Ok <==> slots_encodable(v)
            &&& r matches Ok(b) ==> b@ == slots_bytes(v)
        }),
{
    let ghost v = slots@.map_values(|s: (bool, &str, u32, u32)| slot_view(s));
    let mut strtab: Vec<u8> = Vec::new();
    let mut i: usize = 0;
    assert(v.subrange(0, 0) =~= Seq::<Slot>::empty());
    while i < slots.len()
        invariant
            i <= slots@.len(),
            v == slots@.map_values(|s: (bool, &str, u32, u32)| slot_view(s)),
            strtab@ == string_table(v.subrange(0, i as int)),
            forall|k: int|
                0 <= k < i ==> string_table(#[trigger] v.subrange(0, k)).len() <= MAX_NAME_OFFSET,
        decreases slots@.len() - i,
    {
        if strtab.len() > MAX_NAME_OFFSET as usize {
            assert(string_table(v.subrange(0, i as int)).len() > MAX_NAME_OFFSET);
            return Err(WriteU8Error::TooLarge);
        }
        let name_bytes = slots[i].1.as_bytes();
        append_bytes(&mut strtab, name_bytes);
        strtab.push(0);
        proof {
            assert(v.subrange(0, i + 1).drop_last() =~= v.subrange(0, i as int));
            assert(v.subrange(0, i + 1).last() == v[i as int]);
        }
        i = i + 1;
    }
    assert(v.subrange(0, i as int) =~= v);
    let n = slots.len() as u64;
    if n > u32::MAX as u64 || strtab.len() as u64 > u32::MAX as u64 {
        return Err(WriteU8Error::TooLarge);
    }
    let tables_len: u64 = 12 * n + strtab.len() as u64;
    let end: u64 = 0x20 + tables_len;
    let pad: u64 = if end % 0x20 == 0 {
        0
    } else {
        0x20 - end % 0x20
    };
    let data_off: u64 = end + pad;
    if data_off > u32::MAX as u64 {
        return Err(WriteU8Error::TooLarge);
    }
    let ghost ds = data_off as int;
    assert(ds == data_start(v));
    let mut table: Vec<u8> = Vec::new();
    let mut name_off: u64 = 0;
    i = 0;
    while i < slots.len()
        invariant
            i <= slots@.len(),
            v == slots@.map_values(|s: (bool, &str, u32, u32)| slot_view(s)),
            ds == data_start(v),
            data_off == ds,
            ds <= u32::MAX,
            table@ == node_table(v.subrange(0, i as int), ds),
            name_off == string_table(v.subrange(0, i as int)).len(),
            forall|k: int|
                0 <= k < v.len() ==> string_table(#[trigger] v.subrange(0, k)).len() <= MAX_NAME_OFFSET,
            forall|k: int|
                0 <= k < i ==> 0 <= (#[trigger] v[k]).3 <= u32::MAX && 0 <= v[k].2 && (if v[k].0 {
                    v[k].2
                } else {
                    ds + v[k].2
                }) <= u32::MAX,
        decreases slots@.len() - i,
    {
        let s = slots[i];
        assert(v[i as int] == slot_view(s));
        if !s.0 && s.2 as u64 + data_off > u32::MAX as u64 {
            return Err(WriteU8Error::TooLarge);
        }
        assert(string_table(v.subrange(0, i as int)).len() <= MAX_NAME_OFFSET);
        let first: u32 = if s.0 {
            0x100_0000 + name_off as u32
        } else {
            name_off as u32
        };
        let a: u32 = if s.0 {
            s.2
        } else {
            data_off as u32 + s.2
        };
        let b0 = be32_bytes(first);
        let b1 = be32_bytes(a);
        let b2 = be32_bytes(s.3);
        append_bytes(&mut table, b0.as_slice());
        append_bytes(&mut table, b1.as_slice());
        append_bytes(&mut table, b2.as_slice());
        let name_len = s.1.as_bytes().len();
        proof {
            assert(v.subrange(0, i + 1).drop_last() =~= v.subrange(0, i as int));
            assert(v.subrange(0, i + 1).last() == v[i as int]);
            assert(table@ =~= node_table(v.subrange(0, i + 1), ds));
            assert(string_table(v.subrange(0, i + 1)).len() == name_off + name_len + 1);
            if i + 1 < v.len() {
                assert(string_table(v.subrange(0, i + 1)).len() <= MAX_NAME_OFFSET);
            }
        }
        name_off = name_off + name_len as u64 + 1;
        i = i + 1;
    }
    assert(v.subrange(0, i as int) =~= v);
    let mut out: Vec<u8> = Vec::new();
    append_bytes(&mut out, be32_bytes(U8_MAGIC).as_slice());
    append_bytes(&mut out, be32_bytes(ROOT_NODE_OFFSET).as_slice());
    append_bytes(&mut out, be32_bytes(tables_len as u32).as_slice());
    append_bytes(&mut out, be32_bytes(data_off as u32).as_slice());
    let mut z: u64 = 0;
    while z < 16
        invariant
            z <= 16,
            out@ == be32(U8_MAGIC as int) + be32(0x20) + be32(tables_len as int) + be32(ds)
                + Seq::new(z as nat, |j: int| 0u8),
        decreases 16 - z,
    {
        out.push(0);
        z = z + 1;
        assert(out@ =~= be32(U8_MAGIC as int) + be32(0x20) + be32(tables_len as int) + be32(ds)
            + Seq::new(z as nat, |j: int| 0u8));
    }
    append_bytes(&mut out, table.as_slice());
    append_bytes(&mut out, strtab.as_slice());
    let ghost before_pad = out@;
    z = 0;
    while z < pad
        invariant
            z <= pad,
            out@ == before_pad + Seq::new(z as nat, |j: int| 0u8),
        decreases pad - z,
    {
        out.push(0);
        z = z + 1;
        assert(out@ =~= before_pad + Seq::new(z as nat, |j: int| 0u8));
    }
    assert(out@ =~= slots_bytes(v));
    Ok(out)
}

/// Write the header, node table and string table of `root` at the
/// position of `file`, followed by zeros up to the data section, and
/// leave `file` at the start of the data section. Fails, writing nothing,
/// where a value of the tree does not fit its field.
pub fn write(file: &mut ByteCursor, root: &U8Node) -> (r: Result<(), WriteU8Error>)
    ensures
        r is Ok <==> fnt_encodable(*root),
        r is Ok ==> final(file).bytes() == overwrite(
            old(file).bytes(),
            old(file).position() as int,
            fnt_bytes(*root),
        ) && final(file).position() == old(file).position() + fnt_bytes(*root).len(),
        r is Err ==> *final(file) == *old(file),
{
    proof {
        reveal(fnt_bytes);
        reveal(fnt_encodable);
    }
    let count = count_nodes(root);
    if count > u32::MAX as u64 {
        return Err(WriteU8Error::TooLarge);
    }
    let mut slots: Vec<(bool, &str, u32, u32)> = Vec::new();
    proof {
        reveal_strlit("");
    }
    let root_name = "";
    assert(root_name@ =~= Seq::<char>::empty());
    assert(slots@.map_values(|s: (bool, &str, u32, u32)| slot_view(s)) =~= Seq::<Slot>::empty());
    flatten_node(root, root_name, 0, 0, &mut slots);
    assert(Seq::<Slot>::empty() + flat_tree(*root) =~= flat_tree(*root));
    let bytes = encode_slots(&slots)?;
    file.write_all(bytes.as_slice());
    Ok(())
}

} // verus!
