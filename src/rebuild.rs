//! Rebuilding the data section of an archive: each file's bytes are
//! copied once, in the order of the table, and files that shared their
//! data go on sharing it.

use vstd::prelude::*;

use crate::convert::ConvertOpeningTitleBetweenRegionsError;
use crate::u8_fnt::{
    entries_relabeled, files_of_entries, files_of_node, lemma_entries_relabeled_len,
    lemma_entries_relabeled_step, lemma_entry_decreases, lemma_files_of_entries_empty,
    lemma_files_of_entries_step, lemma_files_of_file, lemma_files_of_folder, lemma_files_split, files_from,
    relabeled, U8FileNode, U8Node,
};
use crate::codec::{fnt_bytes, fnt_encodable};
use crate::util::{lemma_overwrite_parts, overwrite, padding_to, read_from_into, write_zeros_to_align_to, ByteCursor};

verus! {

/// The state of a rebuild: the output bytes, the output position, and the
/// old offsets whose data was copied, each with its new offset.
pub type RebuildState = (Seq<u8>, int, Seq<(u32, u32)>);

/// The new offset given to the old offset `k`, if its data was copied.
pub open spec fn remap_find(r: Seq<(u32, u32)>, k: u32) -> Option<u32>
    decreases r.len(),
{
    if r.len() == 0 {
        None
    } else if r[0].0 == k {
        Some(r[0].1)
    } else {
        remap_find(r.drop_first(), k)
    }
}

/// Place the data of file `f`: where its old offset was seen, the new
/// offset given then; otherwise pad the output to a multiple of 0x20, copy
/// the file's bytes from `input` (whose data section starts at `base`)
/// there, and give that place, counted from `initial`, as the new offset.
/// `None` where the input ends before the bytes or the offset does not fit.
pub open spec fn place(st: RebuildState, f: U8FileNode, input: Seq<u8>, base: int, initial: int) -> Option<(RebuildState, u32)> {
    match remap_find(st.2, f.offset) {
        Some(n) => Some((st, n)),
        None => {
            let pad = padding_to(st.1, 0x20);
            let aligned = st.1 + pad;
            let start = base + f.offset;
            if aligned > u64::MAX || aligned - initial > u32::MAX || start + f.size > input.len() {
                None
            } else {
                let out1 = overwrite(st.0, st.1, Seq::new(pad as nat, |i: int| 0u8));
                let out2 = overwrite(out1, aligned, input.subrange(start, start + f.size));
                Some(((out2, aligned + f.size, st.2.push((f.offset, (aligned - initial) as u32))), (aligned - initial) as u32))
            }
        },
    }
}

/// Place the data of `files` one after another: the state reached and the
/// new offsets, in order.
pub open spec fn rebuild_fold(files: Seq<U8FileNode>, st: RebuildState, input: Seq<u8>, base: int, initial: int) -> Option<(RebuildState, Seq<u32>)>
    decreases files.len(),
{
    if files.len() == 0 {
        Some((st, Seq::empty()))
    } else {
        match rebuild_fold(files.drop_last(), st, input, base, initial) {
            None => None,
            Some((s1, offs)) => match place(s1, files.last(), input, base, initial) {
                None => None,
                Some((s2, n)) => Some((s2, offs.push(n))),
            },
        }
    }
}

/// The state that a successful rebuild reaches.
pub open spec fn end_state(res: Option<(RebuildState, Seq<u32>)>) -> RebuildState {
    let p = res->0;
    p.0
}

/// The new offsets that a successful rebuild gives.
pub open spec fn new_offsets(res: Option<(RebuildState, Seq<u32>)>) -> Seq<u32> {
    let p = res->0;
    p.1
}

/// Placing two lists one after the other is placing the two together.
pub proof fn lemma_rebuild_fold_concat(a: Seq<U8FileNode>, b: Seq<U8FileNode>, st: RebuildState, input: Seq<u8>, base: int, initial: int)
    ensures
        rebuild_fold(a + b, st, input, base, initial) == match rebuild_fold(a, st, input, base, initial) {
            None => None,
            Some((s1, o1)) => match rebuild_fold(b, s1, input, base, initial) {
                None => None,
                Some((s2, o2)) => Some((s2, o1 + o2)),
            },
        },
    decreases b.len(),
{
    if b.len() == 0 {
        assert(a + b =~= a);
        if let Some((s1, o1)) = rebuild_fold(a, st, input, base, initial) {
            assert(o1 + Seq::<u32>::empty() =~= o1);
        }
    } else {
        assert((a + b).drop_last() =~= a + b.drop_last());
        assert((a + b).last() == b.last());
        lemma_rebuild_fold_concat(a, b.drop_last(), st, input, base, initial);
        if let Some((s1, o1)) = rebuild_fold(a, st, input, base, initial) {
            if let Some((s2, o2)) = rebuild_fold(b.drop_last(), s1, input, base, initial) {
                if let Some((s3, n)) = place(s2, b.last(), input, base, initial) {
                    assert(o1 + o2.push(n) =~= (o1 + o2).push(n));
                }
            }
        }
    }
}

/// The new offset given to the old offset `k`, if its data was copied.
fn find_remap(remap: &Vec<(u32, u32)>, k: u32) -> (r: Option<u32>)
    ensures
        r == remap_find(remap@, k),
{
    let mut i: usize = 0;
    assert(remap@.subrange(0, remap@.len() as int) =~= remap@);
    while i < remap.len()
        invariant
            i <= remap@.len(),
            remap_find(remap@, k) == remap_find(remap@.subrange(i as int, remap@.len() as int), k),
        decreases remap@.len() - i,
    {
        assert(remap@.subrange(i as int, remap@.len() as int).drop_first() =~= remap@.subrange(i + 1, remap@.len() as int));
        if remap[i].0 == k {
            return Some(remap[i].1);
        }
        i = i + 1;
    }
    None
}

/// Place the data of file `f`, as `place` says, and return its new offset.
fn place_file(
    f: U8FileNode,
    data_table_offs: u32,
    input: &Vec<u8>,
    out: &mut ByteCursor,
    initial: u64,
    remap: &mut Vec<(u32, u32)>,
) -> (r: Result<u32, ConvertOpeningTitleBetweenRegionsError>)
    requires
        initial <= old(out).position(),
    ensures
        ({
            let res = place((old(out).bytes(), old(out).position() as int, old(remap)@), f, input@, data_table_offs as int, initial as int);
            &&& r is Ok <==> res is Some
            &&& r matches Ok(n) ==> res == Some(((final(out).bytes(), final(out).position() as int, final(remap)@), n))
                && final(out).position() >= old(out).position()
            &&& r is Err ==> r->Err_0 is IoError || r->Err_0 is OutputTooLarge
        }),
{
    if let Some(n) = find_remap(remap, f.offset) {
        return Ok(n);
    }
    let pos = out.stream_position();
    let rem = pos % 0x20;
    let pad: u64 = if rem == 0 {
        0
    } else {
        0x20 - rem
    };
    if pad > u64::MAX - pos {
        return Err(ConvertOpeningTitleBetweenRegionsError::OutputTooLarge);
    }
    if pos + pad - initial > u32::MAX as u64 {
        return Err(ConvertOpeningTitleBetweenRegionsError::OutputTooLarge);
    }
    let start: u64 = data_table_offs as u64 + f.offset as u64;
    if start > input.len() as u64 || f.size as u64 > input.len() as u64 - start {
        return Err(ConvertOpeningTitleBetweenRegionsError::IoError(crate::util::StreamError::UnexpectedEof {
            wanted: f.size as u64,
            available: if start > input.len() as u64 { 0 } else { input.len() as u64 - start },
        }));
    }
    match write_zeros_to_align_to(out, 0x20, 0) {
        Ok(()) => {},
        Err(e) => {
            return Err(ConvertOpeningTitleBetweenRegionsError::IoError(e));
        },
    }
    let new_pos = (out.stream_position() - initial) as u32;
    let mut reader = ByteCursor::new(crate::util::slice_of(input, start as usize, f.size as usize));
    match read_from_into(&mut reader, out, f.size as usize) {
        Ok(()) => {},
        Err(e) => {
            return Err(ConvertOpeningTitleBetweenRegionsError::IoError(e));
        },
    }
    remap.push((f.offset, new_pos));
    proof {
        assert(reader.bytes().subrange(0, f.size as int) =~= input@.subrange(start as int, start + f.size));
    }
    Ok(new_pos)
}

/// Place the data of the files of `node` in the order of the table, and
/// set their offsets to the new ones.
fn visit_node(
    node: &mut U8Node,
    data_table_offs: u32,
    input: &Vec<u8>,
    out: &mut ByteCursor,
    initial: u64,
    remap: &mut Vec<(u32, u32)>,
) -> (r: Result<(), ConvertOpeningTitleBetweenRegionsError>)
    requires
        initial <= old(out).position(),
    ensures
        ({
            let res = rebuild_fold(files_of_node(*old(node)), (old(out).bytes(), old(out).position() as int, old(remap)@), input@, data_table_offs as int, initial as int);
            &&& r is Ok <==> res is Some
            &&& r is Ok ==> (final(out).bytes(), final(out).position() as int, final(remap)@) == end_state(res) && relabeled(*old(node), *final(node), new_offsets(res))
            &&& r is Ok ==> final(out).position() >= old(out).position()
            &&& r is Err ==> r->Err_0 is IoError || r->Err_0 is OutputTooLarge
        }),
    decreases *old(node),
{
    let ghost input_v = input@;
    let ghost base = data_table_offs as int;
    let ghost ini = initial as int;
    let ghost n0 = *node;
    match node {
        U8Node::File(f) => {
            let ghost f0 = *f;
            proof {
                assert(n0 == U8Node::File(f0));
                reveal_with_fuel(rebuild_fold, 2);
                assert(seq![f0].last() == f0);
                lemma_files_of_file(f0);
                assert(seq![f0].drop_last() =~= Seq::<U8FileNode>::empty());
            }
            let n = match place_file(*f, data_table_offs, input, out, initial, remap) {
                Ok(n) => n,
                Err(e) => {
                    return Err(e);
                },
            };
            f.offset = n;
            proof {
                assert(Seq::<u32>::empty().push(n) =~= seq![n]);
            }
            Ok(())
        },
        U8Node::Folder(folder) => {
            let ghost f0 = *folder;
            let ghost e0 = f0.entries();
            let ghost st0 = (out.bytes(), out.position() as int, remap@);
            proof {
                lemma_files_of_folder(f0);
                assert(e0.subrange(0, 0) =~= Seq::<(String, U8Node)>::empty());
                assert(folder.entries().subrange(0, 0) =~= Seq::<(String, U8Node)>::empty());
                lemma_files_of_entries_empty(e0.subrange(0, 0), folder.entries().subrange(0, 0));
            }
            let ghost mut offs: Seq<u32> = Seq::empty();
            let mut i: usize = 0;
            while i < folder.len()
                invariant
                    i <= e0.len(),
                    folder.entries().len() == e0.len(),
                    forall|j: int| i <= j < e0.len() ==> #[trigger] folder.entries()[j] == e0[j],
                    e0 == f0.entries(),
                    initial <= out.position(),
                    out.position() >= old(out).position(),
                    st0 == (old(out).bytes(), old(out).position() as int, old(remap)@),
                    entries_relabeled(e0.subrange(0, i as int), folder.entries().subrange(0, i as int), offs),
                    rebuild_fold(files_of_entries(e0.subrange(0, i as int)), st0, input@, base, ini) == Some(((out.bytes(), out.position() as int, remap@), offs)),
                    input@ == input_v,
                    base == data_table_offs as int,
                    ini == initial as int,
                    *old(node) == U8Node::Folder(f0),
                decreases e0.len() - i,
            {
                let ghost cur = folder.entries();
                let ghost st_i = (out.bytes(), out.position() as int, remap@);
                proof {
                    lemma_entry_decreases(f0, i as int);
                    lemma_files_of_entries_step(e0, i as int);
                    lemma_entries_relabeled_len(e0.subrange(0, i as int), cur.subrange(0, i as int), offs);
                }
                let ghost child_files = files_of_node(e0[i as int].1);
                let ghost o_c = new_offsets(rebuild_fold(child_files, st_i, input@, base, ini));
                proof {
                    lemma_rebuild_fold_concat(files_of_entries(e0.subrange(0, i as int)), child_files, st0, input@, base, ini);
                }
                let child = folder.entry_node_mut(i);
                let res = visit_node(child, data_table_offs, input, out, initial, remap);
                match res {
                    Ok(()) => {},
                    Err(e) => {
                        proof {
                            lemma_files_of_folder(f0);
                            assert(rebuild_fold(child_files, st_i, input@, base, ini) is None);
                            assert(rebuild_fold(files_of_entries(e0.subrange(0, i + 1)), st0, input@, base, ini) is None);
                            lemma_files_split(e0, i + 1);
                            lemma_rebuild_fold_concat(files_of_entries(e0.subrange(0, i + 1)), files_from(e0, i + 1), st0, input@, base, ini);
                            assert(rebuild_fold(files_of_entries(e0), st0, input@, base, ini) is None);
                        }
                        return Err(e);
                    },
                }
                proof {
                    let e1 = folder.entries();
                    assert(e1.subrange(0, i as int) =~= cur.subrange(0, i as int));
                    assert(e0.subrange(0, i + 1).subrange(0, i as int) =~= e0.subrange(0, i as int));
                    lemma_entries_relabeled_step(e0, e1, i as int, offs, o_c);
                    offs = offs + o_c;
                }
                i = i + 1;
            }
            proof {
                lemma_files_of_folder(f0);
                assert(e0.subrange(0, i as int) =~= e0);
                assert(folder.entries().subrange(0, i as int) =~= folder.entries());
            }
            Ok(())
        },
    }
}

/// Build a new data section at the position of `out_file`: copy the data
/// of the files of `fnt` from `in_file`, whose data section starts at
/// `data_table_offs`, in the order of the table, each distinct old offset
/// once, and set each file's offset to its new place, counted from where
/// the section starts.
pub fn build_new_fat(
    fnt: &mut U8Node,
    data_table_offs: u32,
    in_file: &Vec<u8>,
    out_file: &mut ByteCursor,
) -> (r: Result<(), ConvertOpeningTitleBetweenRegionsError>)
    ensures
        ({
            let res = rebuild_fold(
                files_of_node(*old(fnt)),
                (old(out_file).bytes(), old(out_file).position() as int, Seq::empty()),
                in_file@,
                data_table_offs as int,
                old(out_file).position() as int,
            );
            &&& r is Ok <==> res is Some
            &&& r is Ok ==> final(out_file).bytes() == end_state(res).0 && final(out_file).position() == end_state(res).1
                && relabeled(*old(fnt), *final(fnt), new_offsets(res))
            &&& r is Err ==> r->Err_0 is IoError || r->Err_0 is OutputTooLarge
        }),
{
    let initial_fat_offset = out_file.stream_position();
    let mut offset_remapping: Vec<(u32, u32)> = Vec::new();
    visit_node(fnt, data_table_offs, in_file, out_file, initial_fat_offset, &mut offset_remapping)
}

/// Adding a pair to the table of copied offsets finds it only where the
/// old offset was not there yet.
proof fn lemma_remap_find_push(r: Seq<(u32, u32)>, x: (u32, u32), k: u32)
    ensures
        remap_find(r.push(x), k) == if remap_find(r, k) is Some {
            remap_find(r, k)
        } else if x.0 == k {
            Some(x.1)
        } else {
            None
        },
    decreases r.len(),
{
    if r.len() > 0 {
        assert(r.push(x).drop_first() =~= r.drop_first().push(x));
        assert(r.push(x)[0] == r[0]);
        lemma_remap_find_push(r.drop_first(), x, k);
    } else {
        assert(r.push(x).drop_first() =~= Seq::<(u32, u32)>::empty());
        assert(r.push(x)[0] == x);
        assert(remap_find(Seq::<(u32, u32)>::empty(), k) is None);
    }
}

/// Where an old offset is in the table, some pair of the table has it.
proof fn lemma_remap_find_in(r: Seq<(u32, u32)>, k: u32)
    ensures
        remap_find(r, k) is Some <==> exists|a: int| 0 <= a < r.len() && r[a].0 == k,
    decreases r.len(),
{
    if r.len() > 0 {
        lemma_remap_find_in(r.drop_first(), k);
        if exists|a: int| 0 <= a < r.len() && r[a].0 == k {
            let a = choose|a: int| 0 <= a < r.len() && r[a].0 == k;
            if a > 0 {
                assert(r.drop_first()[a - 1].0 == k);
            }
        }
        if exists|a: int| 0 <= a < r.drop_first().len() && r.drop_first()[a].0 == k {
            let a = choose|a: int| 0 <= a < r.drop_first().len() && r.drop_first()[a].0 == k;
            assert(r[a + 1].0 == k);
        }
    }
}

/// What a rebuild keeps true of its table of copied offsets: each file
/// placed finds its new offset there, what was there stays, and no old
/// offset is there twice.
pub proof fn lemma_rebuild_fold_table(
    files: Seq<U8FileNode>,
    st: RebuildState,
    input: Seq<u8>,
    base: int,
    initial: int,
)
    requires
        rebuild_fold(files, st, input, base, initial) is Some,
        forall|a: int, b: int| 0 <= a < b < st.2.len() ==> st.2[a].0 != st.2[b].0,
    ensures
        ({
            let res = rebuild_fold(files, st, input, base, initial);
            let t = end_state(res).2;
            &&& new_offsets(res).len() == files.len()
            &&& forall|k: int| 0 <= k < files.len() ==> remap_find(t, #[trigger] files[k].offset) == Some(new_offsets(res)[k])
            &&& forall|key: u32| #[trigger] remap_find(st.2, key) is Some ==> remap_find(t, key) == remap_find(st.2, key)
            &&& forall|a: int, b: int| 0 <= a < b < t.len() ==> t[a].0 != t[b].0
            &&& st.2.len() <= t.len()
        }),
    decreases files.len(),
{
    if files.len() > 0 {
        let init = files.drop_last();
        let f = files.last();
        lemma_rebuild_fold_table(init, st, input, base, initial);
        let r1 = rebuild_fold(init, st, input, base, initial);
        let s1 = end_state(r1);
        let o1 = new_offsets(r1);
        match remap_find(s1.2, f.offset) {
            Some(n) => {
                assert forall|k: int| 0 <= k < files.len() implies remap_find(end_state(rebuild_fold(files, st, input, base, initial)).2, #[trigger] files[k].offset) == Some(new_offsets(rebuild_fold(files, st, input, base, initial))[k]) by {
                    if k < init.len() {
                        assert(files[k] == init[k]);
                    }
                }
            },
            None => {
                let res = rebuild_fold(files, st, input, base, initial);
                let t = end_state(res).2;
                let x = t.last();
                assert(t == s1.2.push(x));
                assert forall|key: u32| #[trigger] remap_find(s1.2, key) is Some implies remap_find(t, key) == remap_find(s1.2, key) by {
                    lemma_remap_find_push(s1.2, x, key);
                }
                assert forall|k: int| 0 <= k < files.len() implies remap_find(t, #[trigger] files[k].offset) == Some(new_offsets(res)[k]) by {
                    lemma_remap_find_push(s1.2, x, files[k].offset);
                    if k < init.len() {
                        assert(files[k] == init[k]);
                    }
                }
                assert forall|key: u32| #[trigger] remap_find(st.2, key) is Some implies remap_find(t, key) == remap_find(st.2, key) by {
                    lemma_remap_find_push(s1.2, x, key);
                }
                lemma_remap_find_in(s1.2, f.offset);
                assert forall|a: int, b: int| 0 <= a < b < t.len() implies t[a].0 != t[b].0 by {
                    if b == t.len() - 1 {
                        assert(t[a] == s1.2[a]);
                    } else {
                        assert(t[a] == s1.2[a] && t[b] == s1.2[b]);
                    }
                }
            },
        }
    }
}

/// Files that shared their data before a rebuild share it after: two
/// files with the same old offset get the same new offset, and the table
/// of copied offsets, one entry for each copy made, holds no offset twice,
/// so each distinct old offset is copied exactly once.
pub proof fn lemma_rebuild_keeps_sharing(
    files: Seq<U8FileNode>,
    out: Seq<u8>,
    pos: int,
    input: Seq<u8>,
    base: int,
    i: int,
    j: int,
)
    requires
        rebuild_fold(files, (out, pos, Seq::empty()), input, base, pos) is Some,
        0 <= i < files.len(),
        0 <= j < files.len(),
        files[i].offset == files[j].offset,
    ensures
        ({
            let res = rebuild_fold(files, (out, pos, Seq::empty()), input, base, pos);
            let t = end_state(res).2;
            &&& new_offsets(res)[i] == new_offsets(res)[j]
            &&& forall|a: int, b: int| 0 <= a < b < t.len() ==> t[a].0 != t[b].0
        }),
{
    lemma_rebuild_fold_table(files, (out, pos, Seq::empty()), input, base, pos);
    let res = rebuild_fold(files, (out, pos, Seq::empty()), input, base, pos);
    assert(remap_find(end_state(res).2, files[i].offset) == Some(new_offsets(res)[i]));
    assert(remap_find(end_state(res).2, files[j].offset) == Some(new_offsets(res)[j]));
}

/// The bytes of file `f`, placed at new offset `n` (counted from
/// `initial`), stand in `out` below `limit` as they stood in `input`.
pub open spec fn placed_intact(out: Seq<u8>, initial: int, n: int, input: Seq<u8>, base: int, f: U8FileNode, limit: int) -> bool {
    &&& 0 <= initial + n
    &&& initial + n + f.size <= limit
    &&& limit <= out.len()
    &&& base + f.offset + f.size <= input.len()
    &&& out.subrange(initial + n, initial + n + f.size) == input.subrange(base + f.offset, base + f.offset + f.size)
}

/// What a rebuild keeps true of the output: each file placed, and each
/// old offset in the table (through a file that has it), stands intact
/// below the position, which stays within the output.
proof fn lemma_rebuild_fold_intact(files: Seq<U8FileNode>, st: RebuildState, input: Seq<u8>, base: int, initial: int)
    requires
        rebuild_fold(files, st, input, base, initial) is Some,
        st.2.len() == 0,
        0 <= initial <= st.1 <= st.0.len(),
        0 <= base,
        forall|a: int, b: int|
            0 <= a < files.len() && 0 <= b < files.len() && files[a].offset == files[b].offset ==> files[a].size == files[b].size,
    ensures
        ({
            let res = rebuild_fold(files, st, input, base, initial);
            let s = end_state(res);
            &&& initial <= s.1 <= s.0.len()
            &&& new_offsets(res).len() == files.len()
            &&& forall|k: int| 0 <= k < files.len() ==> #[trigger] placed_intact(s.0, initial, new_offsets(res)[k] as int, input, base, files[k], s.1)
            &&& forall|a: int| 0 <= a < s.2.len() ==> exists|j: int| 0 <= j < files.len() && files[j].offset == (#[trigger] s.2[a]).0 && placed_intact(s.0, initial, s.2[a].1 as int, input, base, files[j], s.1)
        }),
    decreases files.len(),
{
    if files.len() > 0 {
        let init = files.drop_last();
        let f = files.last();
        assert forall|a: int, b: int|
            0 <= a < init.len() && 0 <= b < init.len() && init[a].offset == init[b].offset implies init[a].size == init[b].size by {
            assert(init[a] == files[a] && init[b] == files[b]);
        }
        lemma_rebuild_fold_intact(init, st, input, base, initial);
        let r1 = rebuild_fold(init, st, input, base, initial);
        let s1 = end_state(r1);
        let o1 = new_offsets(r1);
        let res = rebuild_fold(files, st, input, base, initial);
        let s = end_state(res);
        match remap_find(s1.2, f.offset) {
            Some(n) => {
                lemma_remap_find_in(s1.2, f.offset);
                lemma_remap_find_first(s1.2, f.offset);
                let a = choose|a: int| 0 <= a < s1.2.len() && s1.2[a].0 == f.offset && s1.2[a].1 == n;
                let j = choose|j: int| 0 <= j < init.len() && init[j].offset == (#[trigger] s1.2[a]).0 && placed_intact(s1.0, initial, s1.2[a].1 as int, input, base, init[j], s1.1);
                assert(init[j] == files[j]);
                assert(files[j].size == files[files.len() - 1].size);
                assert forall|k: int| 0 <= k < files.len() implies #[trigger] placed_intact(s.0, initial, new_offsets(res)[k] as int, input, base, files[k], s.1) by {
                    if k < init.len() {
                        assert(files[k] == init[k]);
                        assert(placed_intact(s1.0, initial, o1[k] as int, input, base, init[k], s1.1));
                    }
                }
                assert forall|a2: int| 0 <= a2 < s.2.len() implies exists|j2: int| 0 <= j2 < files.len() && files[j2].offset == (#[trigger] s.2[a2]).0 && placed_intact(s.0, initial, s.2[a2].1 as int, input, base, files[j2], s.1) by {
                    let j2 = choose|j2: int| 0 <= j2 < init.len() && init[j2].offset == (#[trigger] s1.2[a2]).0 && placed_intact(s1.0, initial, s1.2[a2].1 as int, input, base, init[j2], s1.1);
                    assert(files[j2] == init[j2]);
                }
            },
            None => {
                let pad = padding_to(s1.1, 0x20);
                let aligned = s1.1 + pad;
                let start = base + f.offset;
                let zeros = Seq::new(pad as nat, |i: int| 0u8);
                let bytes = input.subrange(start, start + f.size);
                let out1 = overwrite(s1.0, s1.1, zeros);
                lemma_overwrite_parts(s1.0, s1.1, zeros);
                lemma_overwrite_parts(out1, aligned, bytes);
                let out2 = overwrite(out1, aligned, bytes);
                assert(s.0 == out2);
                assert(s.1 == aligned + f.size);
                let n = (aligned - initial) as u32;
                assert forall|k: int| 0 <= k < files.len() implies #[trigger] placed_intact(s.0, initial, new_offsets(res)[k] as int, input, base, files[k], s.1) by {
                    if k < init.len() {
                        assert(files[k] == init[k]);
                        let x = initial + o1[k];
                        let y = x + files[k].size;
                        assert(placed_intact(s1.0, initial, o1[k] as int, input, base, init[k], s1.1));
                        assert(out1.subrange(x, y) == s1.0.subrange(x, y));
                        assert(out2.subrange(x, y) == out1.subrange(x, y));
                    } else {
                        assert(new_offsets(res)[k] == n);
                    }
                }
                assert forall|a2: int| 0 <= a2 < s.2.len() implies exists|j2: int| 0 <= j2 < files.len() && files[j2].offset == (#[trigger] s.2[a2]).0 && placed_intact(s.0, initial, s.2[a2].1 as int, input, base, files[j2], s.1) by {
                    if a2 < s1.2.len() {
                        assert(s.2[a2] == s1.2[a2]);
                        let j2 = choose|j2: int| 0 <= j2 < init.len() && init[j2].offset == (#[trigger] s1.2[a2]).0 && placed_intact(s1.0, initial, s1.2[a2].1 as int, input, base, init[j2], s1.1);
                        assert(files[j2] == init[j2]);
                        let x = initial + s1.2[a2].1;
                        let y = x + init[j2].size;
                        assert(out1.subrange(x, y) == s1.0.subrange(x, y));
                        assert(out2.subrange(x, y) == out1.subrange(x, y));
                        assert(placed_intact(s.0, initial, s.2[a2].1 as int, input, base, files[j2], s.1));
                    } else {
                        let j2 = files.len() - 1;
                        assert(files[j2] == f);
                        assert(placed_intact(s.0, initial, s.2[a2].1 as int, input, base, files[j2], s.1));
                    }
                }
            },
        }
    } else {
        assert(end_state(rebuild_fold(files, st, input, base, initial)) == st);
    }
}

/// The pair the table gives for an old offset is in the table.
proof fn lemma_remap_find_first(r: Seq<(u32, u32)>, k: u32)
    ensures
        remap_find(r, k) matches Some(n) ==> exists|a: int| 0 <= a < r.len() && r[a].0 == k && r[a].1 == n,
    decreases r.len(),
{
    if r.len() > 0 && r[0].0 != k {
        lemma_remap_find_first(r.drop_first(), k);
        if let Some(n) = remap_find(r, k) {
            let a = choose|a: int| 0 <= a < r.drop_first().len() && r.drop_first()[a].0 == k && r.drop_first()[a].1 == n;
            assert(r[a + 1] == r.drop_first()[a]);
        }
    }
}

/// A rebuild leaves the data of every file intact at its new place, where
/// files that share an old offset also share a size: the bytes at the new
/// offset, counted from where the section starts, are the bytes that were
/// at the old one.
pub proof fn lemma_rebuild_preserves_data(files: Seq<U8FileNode>, out: Seq<u8>, pos: int, input: Seq<u8>, base: int, k: int)
    requires
        rebuild_fold(files, (out, pos, Seq::empty()), input, base, pos) is Some,
        0 <= pos <= out.len(),
        0 <= base,
        0 <= k < files.len(),
        forall|a: int, b: int|
            0 <= a < files.len() && 0 <= b < files.len() && files[a].offset == files[b].offset ==> files[a].size == files[b].size,
    ensures
        ({
            let res = rebuild_fold(files, (out, pos, Seq::empty()), input, base, pos);
            let n = new_offsets(res)[k] as int;
            end_state(res).0.subrange(pos + n, pos + n + files[k].size) == input.subrange(
                base + files[k].offset,
                base + files[k].offset + files[k].size,
            )
        }),
{
    lemma_rebuild_fold_intact(files, (out, pos, Seq::empty()), input, base, pos);
    let res = rebuild_fold(files, (out, pos, Seq::empty()), input, base, pos);
    assert(placed_intact(end_state(res).0, pos, new_offsets(res)[k] as int, input, base, files[k], end_state(res).1));
}

#[verifier::rlimit(100)]
/// The archive of the tree `fnt`, whose file data lies in `in_file` from
/// `data_table_offs` on: the tables, then the rebuilt data section.
pub fn rebuild_archive(
    fnt: &mut U8Node,
    data_table_offs: u32,
    in_file: &Vec<u8>,
) -> (r: Result<Vec<u8>, ConvertOpeningTitleBetweenRegionsError>)
    ensures
        rebuild_outcome(*old(fnt), data_table_offs as int, in_file@, r, *final(fnt)),
{
    proof {
        reveal(rebuild_outcome);
    }
    let ghost t0 = *fnt;
    let mut scratch = ByteCursor::new(Vec::new());
    if crate::codec::write(&mut scratch, fnt).is_err() {
        return Err(ConvertOpeningTitleBetweenRegionsError::OutputTooLarge);
    }
    assert(scratch.bytes() =~= fnt_bytes(t0));
    let fnt_length = scratch.len();
    let mut out_file = ByteCursor::new(Vec::new());
    out_file.write_zeros(fnt_length as u64);
    assert(out_file.bytes() =~= Seq::new(fnt_length as nat, |i: int| 0u8));
    build_new_fat(fnt, data_table_offs, in_file, &mut out_file)?;
    proof {
        out_file.lemma_position_in_data();
    }
    out_file.seek(0);
    if crate::codec::write(&mut out_file, fnt).is_err() {
        return Err(ConvertOpeningTitleBetweenRegionsError::OutputTooLarge);
    }
    Ok(out_file.into_inner())
}

/// In the archive rebuilt from a tree, files that shared an old offset
/// share a new one.
pub proof fn lemma_archive_keeps_sharing(t: U8Node, base: int, input: Seq<u8>, i: int, j: int)
    requires
        archive_fold(t, base, input) is Some,
        0 <= i < files_of_node(t).len(),
        0 <= j < files_of_node(t).len(),
        files_of_node(t)[i].offset == files_of_node(t)[j].offset,
    ensures
        new_offsets(archive_fold(t, base, input))[i] == new_offsets(archive_fold(t, base, input))[j],
{
    let l = fnt_bytes(t).len() as int;
    lemma_rebuild_keeps_sharing(files_of_node(t), Seq::new(l as nat, |k: int| 0u8), l, input, base, i, j);
}

/// What rebuilding the archive of `old` gives: the result `r`, and the
/// tree `new` with its files' offsets moved to their new places.
#[verifier::opaque]
pub open spec fn rebuild_outcome(
    old: U8Node,
    base: int,
    input: Seq<u8>,
    r: Result<Vec<u8>, ConvertOpeningTitleBetweenRegionsError>,
    new: U8Node,
) -> bool {
    let res = archive_fold(old, base, input);
    &&& r is Ok <==> fnt_encodable(old) && res is Some && fnt_encodable(new)
    &&& !fnt_encodable(old) ==> new == old
    &&& fnt_encodable(old) && res is Some ==> relabeled(old, new, new_offsets(res))
    &&& r matches Ok(out) ==> out@ == overwrite(end_state(res).0, 0, fnt_bytes(new))
    &&& r is Err ==> r->Err_0 is IoError || r->Err_0 is OutputTooLarge
}

/// Rebuild the data section of the archive of `t` after space for its
/// tables: the data of `t`'s files in `input` (whose data section starts
/// at `base`), placed one after another.
pub open spec fn archive_fold(t: U8Node, base: int, input: Seq<u8>) -> Option<(RebuildState, Seq<u32>)> {
    let l = fnt_bytes(t).len() as int;
    rebuild_fold(files_of_node(t), (Seq::new(l as nat, |i: int| 0u8), l, Seq::empty()), input, base, l)
}

} // verus!
