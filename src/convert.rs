//! Converting openingTitle.arc between regions: taking out the regional
//! files, checking them against each other, choosing one of each, adding
//! them under the names of the requested regions, and rebuilding the
//! archive.

use vstd::prelude::*;

use crate::codec::{be32_at, parse_fnt, read, same_failure, tree_at, ParseU8Error};
use crate::rebuild::{rebuild_archive, rebuild_outcome};
use crate::filenames::{all_roles, anim_roles, filename, filename_of, role_description, Role};
use crate::region::{all_ascii, lower_of, lowercase, split_on, Region, RegionBitFlags};
use crate::u8_fnt::{
    child_of, descend, entries_map, first_match, lemma_first_match_exists, lemma_lookup_at,
    lemma_lookup_same_elsewhere, path_parts, replaced_at, U8FileNode, U8FolderNode, U8Node,
};
use crate::util::{calc_hash_from_file_slice, hash_of, push_str, StreamError};

verus! {

/// How a merge proceeds when it meets two conflicting things.
#[derive(Copy, Clone, PartialEq, Eq, Structural, Hash, Debug)]
pub enum ConflictStrategy {
    /// Treat the conflict as an error.
    Fail,
    /// Keep one of the conflicting things and go on.
    Overwrite,
}

impl Default for ConflictStrategy {
    fn default() -> (r: Self)
        ensures
            r == ConflictStrategy::Fail,
    {
        ConflictStrategy::Fail
    }
}

/// How a conversion handles each kind of conflict.
#[derive(Copy, Clone, PartialEq, Eq, Structural, Hash, Debug)]
pub struct ConvertOpeningTitleBetweenRegionsConflictStrategies {
    /// Copies of a file that differ in content: with `Overwrite`, the copy
    /// of the region listed first wins.
    pub file_contents: ConflictStrategy,
    /// A name to add that already exists: with `Overwrite`, it is replaced.
    pub filenames: ConflictStrategy,
}

impl Default for ConvertOpeningTitleBetweenRegionsConflictStrategies {
    fn default() -> (r: Self)
        ensures
            r.file_contents == ConflictStrategy::Fail,
            r.filenames == ConflictStrategy::Fail,
    {
        ConvertOpeningTitleBetweenRegionsConflictStrategies {
            file_contents: ConflictStrategy::Fail,
            filenames: ConflictStrategy::Fail,
        }
    }
}

/// Why an openingTitle.arc could not be converted.
#[non_exhaustive]
#[derive(Clone, PartialEq, Eq, Debug)]
pub enum ConvertOpeningTitleBetweenRegionsError {
    /// The archive's tables could not be read.
    InvalidU8File(ParseU8Error),
    /// A folder that must exist is missing or is not a folder.
    InvalidOpeningTitleStructure(String),
    /// No requested region has a file of this role.
    MissingFiles(String),
    /// Two copies of a file that are to be merged differ in content.
    FileDataConflict(String, String),
    /// A name to be added already exists.
    FilenameAlreadyExists(String),
    /// The data ended before a file's contents.
    IoError(StreamError),
    /// The converted tree does not fit the fields of the format.
    OutputTooLarge,
}

/// A file node with the name it was found under.
#[derive(Clone, Debug, PartialEq, Eq)]
pub struct NamedU8FileNode {
    pub node: U8FileNode,
    pub filename: String,
}

/// The regional files found for one region, each where present.
#[derive(Debug, PartialEq, Eq)]
pub struct OptionalNamedRegionalFiles {
    pub in_press_brlan: Option<NamedU8FileNode>,
    pub in_title_brlan: Option<NamedU8FileNode>,
    pub loop_press_brlan: Option<NamedU8FileNode>,
    pub out_press_brlan: Option<NamedU8FileNode>,
    pub brlyt: Option<NamedU8FileNode>,
}

impl OptionalNamedRegionalFiles {
    /// The file of `role`.
    pub open spec fn at(&self, role: Role) -> Option<NamedU8FileNode> {
        match role {
            Role::InPressBrlan => self.in_press_brlan,
            Role::InTitleBrlan => self.in_title_brlan,
            Role::LoopPressBrlan => self.loop_press_brlan,
            Role::OutPressBrlan => self.out_press_brlan,
            Role::Brlyt => self.brlyt,
        }
    }

    /// The file of `role`.
    pub fn get(&self, role: Role) -> (r: &Option<NamedU8FileNode>)
        ensures
            *r == self.at(role),
    {
        match role {
            Role::InPressBrlan => &self.in_press_brlan,
            Role::InTitleBrlan => &self.in_title_brlan,
            Role::LoopPressBrlan => &self.loop_press_brlan,
            Role::OutPressBrlan => &self.out_press_brlan,
            Role::Brlyt => &self.brlyt,
        }
    }
}

/// One chosen file node for each regional file.
#[derive(Clone, Copy, PartialEq, Eq, Structural, Debug)]
pub struct RegionalFiles {
    pub in_press_brlan: U8FileNode,
    pub in_title_brlan: U8FileNode,
    pub loop_press_brlan: U8FileNode,
    pub out_press_brlan: U8FileNode,
    pub brlyt: U8FileNode,
}

impl RegionalFiles {
    /// The file of `role`.
    pub open spec fn at(&self, role: Role) -> U8FileNode {
        match role {
            Role::InPressBrlan => self.in_press_brlan,
            Role::InTitleBrlan => self.in_title_brlan,
            Role::LoopPressBrlan => self.loop_press_brlan,
            Role::OutPressBrlan => self.out_press_brlan,
            Role::Brlyt => self.brlyt,
        }
    }

    /// The file of `role`.
    pub fn get(&self, role: Role) -> (r: U8FileNode)
        ensures
            r == self.at(role),
    {
        match role {
            Role::InPressBrlan => self.in_press_brlan,
            Role::InTitleBrlan => self.in_title_brlan,
            Role::LoopPressBrlan => self.loop_press_brlan,
            Role::OutPressBrlan => self.out_press_brlan,
            Role::Brlyt => self.brlyt,
        }
    }
}

/// The path of the folder that holds the animations.
pub open spec fn anim_path() -> Seq<char> {
    "/arc/anim"@
}

/// The path of the folder that holds the layout.
pub open spec fn blyt_path() -> Seq<char> {
    "/arc/blyt"@
}

/// The parts of the path of the anim folder: the empty part before the
/// first '/', "arc" and "anim".
pub open spec fn anim_parts() -> Seq<Seq<char>> {
    seq![Seq::<char>::empty(), seq!['a', 'r', 'c'], seq!['a', 'n', 'i', 'm']]
}

/// The parts of the path of the blyt folder.
pub open spec fn blyt_parts() -> Seq<Seq<char>> {
    seq![Seq::<char>::empty(), seq!['a', 'r', 'c'], seq!['b', 'l', 'y', 't']]
}

/// The two folder paths split into their parts.
pub proof fn lemma_folder_paths()
    ensures
        path_parts(anim_path()) == anim_parts(),
        path_parts(blyt_path()) == blyt_parts(),
{
    reveal_strlit("/arc/anim");
    reveal_strlit("/arc/blyt");
    let arc = seq!['a', 'r', 'c'];
    let anim = seq!['a', 'n', 'i', 'm'];
    let blyt = seq!['b', 'l', 'y', 't'];
    let e = Seq::<char>::empty();
    assert(anim_path() =~= e + seq!['/'] + (arc + seq!['/'] + anim));
    assert(blyt_path() =~= e + seq!['/'] + (arc + seq!['/'] + blyt));
    lemma_split_piece(e, arc + seq!['/'] + anim, '/');
    lemma_split_piece(e, arc + seq!['/'] + blyt, '/');
    lemma_split_piece(arc, anim, '/');
    lemma_split_piece(arc, blyt, '/');
    lemma_split_whole(anim, '/');
    lemma_split_whole(blyt, '/');
    assert(seq![e] + (seq![arc] + seq![anim]) =~= anim_parts());
    assert(seq![e] + (seq![arc] + seq![blyt]) =~= blyt_parts());
}

/// A text without the separator is one piece.
proof fn lemma_split_whole(s: Seq<char>, sep: char)
    requires
        forall|i: int| 0 <= i < s.len() ==> s[i] != sep,
    ensures
        split_on(s, sep) == seq![s],
    decreases s.len(),
{
    if s.len() > 0 {
        lemma_split_whole(s.drop_first(), sep);
        assert(seq![s[0]] + s.drop_first() =~= s);
        assert(split_on(s, sep) =~= seq![s]);
    } else {
        assert(s =~= Seq::<char>::empty());
    }
}

/// A piece without the separator, then the separator, then the rest,
/// splits into that piece and the pieces of the rest.
proof fn lemma_split_piece(a: Seq<char>, b: Seq<char>, sep: char)
    requires
        forall|i: int| 0 <= i < a.len() ==> a[i] != sep,
    ensures
        split_on(a + seq![sep] + b, sep) == seq![a] + split_on(b, sep),
    decreases a.len(),
{
    let s = a + seq![sep] + b;
    if a.len() == 0 {
        assert(s.drop_first() =~= b);
        assert(s[0] == sep);
        assert(a =~= Seq::<char>::empty());
    } else {
        let a1 = a.drop_first();
        lemma_split_piece(a1, b, sep);
        assert(s.drop_first() =~= a1 + seq![sep] + b);
        assert(s[0] == a[0]);
        assert(seq![a[0]] + a1 =~= a);
        assert(split_on(s, sep) =~= seq![a] + split_on(b, sep));
    }
}

/// Learn, by lower-casing them, that the names of the two folders differ
/// without regard to case.
fn folder_names_differ()
    ensures
        lower_of(anim_parts()[2]) != lower_of(blyt_parts()[2]),
{
    let a = lowercase("anim");
    let b = lowercase("blyt");
    proof {
        reveal_strlit("anim");
        reveal_strlit("blyt");
        assert("anim"@ =~= anim_parts()[2]);
        assert("blyt"@ =~= blyt_parts()[2]);
        assert(all_ascii("anim"@));
        assert(all_ascii("blyt"@));
        assert(a@[0] == 'a');
        assert(b@[0] == 'b');
    }
}

/// Replacing the anim folder leaves the blyt folder as it was.
pub proof fn lemma_anim_change_keeps_blyt(n: U8Node, x: U8Node, m: U8Node)
    requires
        replaced_at(n, anim_parts(), x, m),
        lower_of(anim_parts()[2]) != lower_of(blyt_parts()[2]),
    ensures
        descend(m, blyt_parts()) == descend(n, blyt_parts()),
{
    reveal_with_fuel(descend, 3);
    let pa = anim_parts();
    let pb = blyt_parts();
    assert(pa.drop_first() =~= seq![pa[1], pa[2]]);
    assert(pb.drop_first() =~= seq![pb[1], pb[2]]);
    assert(seq![pa[1], pa[2]].drop_first() =~= seq![pa[2]]);
    assert(seq![pb[1], pb[2]].drop_first() =~= seq![pb[2]]);
    assert(seq![pa[2]].drop_first() =~= Seq::<Seq<char>>::empty());
    assert(seq![pb[2]].drop_first() =~= Seq::<Seq<char>>::empty());
    let arc_and_anim = seq![pa[1], pa[2]];
    assert(replaced_at(n, arc_and_anim, x, m));
    let f = n->Folder_0;
    let g = m->Folder_0;
    let ka = lower_of(pa[1]);
    let i = choose|i: int|
        #![trigger first_match(f.entries(), ka, i)]
        {
            &&& first_match(f.entries(), ka, i)
            &&& g.entries().len() == f.entries().len()
            &&& forall|j: int|
                0 <= j < g.entries().len() && j != i ==> #[trigger] g.entries()[j] == f.entries()[j]
            &&& g.entries()[i].0 == f.entries()[i].0
            &&& replaced_at(f.entries()[i].1, arc_and_anim.drop_first(), x, g.entries()[i].1)
        };
    lemma_lookup_at(f.entries(), ka, i);
    assert(first_match(g.entries(), ka, i)) by {
        assert forall|j: int| 0 <= j < i implies lower_of(#[trigger] g.entries()[j].0@) != ka by {
            assert(g.entries()[j] == f.entries()[j]);
        }
    }
    lemma_lookup_at(g.entries(), ka, i);
    let c = f.entries()[i].1;
    let d = g.entries()[i].1;
    assert(child_of(n, pb[1]) == Some(c));
    assert(child_of(m, pb[1]) == Some(d));
    assert(replaced_at(c, seq![pa[2]], x, d));
    let f2 = c->Folder_0;
    let g2 = d->Folder_0;
    let kb = lower_of(pa[2]);
    let j = choose|j: int|
        #![trigger first_match(f2.entries(), kb, j)]
        {
            &&& first_match(f2.entries(), kb, j)
            &&& g2.entries().len() == f2.entries().len()
            &&& forall|q: int|
                0 <= q < g2.entries().len() && q != j ==> #[trigger] g2.entries()[q] == f2.entries()[q]
            &&& g2.entries()[j].0 == f2.entries()[j].0
            &&& replaced_at(f2.entries()[j].1, seq![pa[2]].drop_first(), x, g2.entries()[j].1)
        };
    lemma_lookup_same_elsewhere(f2.entries(), g2.entries(), lower_of(pb[2]), j);
    assert(descend(n, pb) == descend(c, seq![pb[2]]));
    assert(descend(m, pb) == descend(d, seq![pb[2]]));
}

/// The folder at `path`, where that is a folder.
pub open spec fn folder_at(node: U8Node, path: Seq<char>) -> Option<U8FolderNode> {
    match descend(node, path_parts(path)) {
        Some(U8Node::Folder(f)) => Some(f),
        _ => None,
    }
}

/// The message of the error for a folder at `path` that is missing or is
/// not a folder.
pub open spec fn structure_message(node: U8Node, path: Seq<char>) -> Seq<char> {
    if descend(node, path_parts(path)) is None {
        path + " folder not found"@
    } else {
        path + " wasn't a folder"@
    }
}

/// The error for a folder at `path` that is missing or is not a folder.
pub open spec fn is_structure_error(
    e: ConvertOpeningTitleBetweenRegionsError,
    node: U8Node,
    path: Seq<char>,
) -> bool {
    e matches ConvertOpeningTitleBetweenRegionsError::InvalidOpeningTitleStructure(m) && m@
        == structure_message(node, path)
}

/// The error for a folder at `path` that is missing or is not a folder.
fn structure_error(node: &U8Node, path: &str) -> (e: ConvertOpeningTitleBetweenRegionsError)
    requires
        folder_at(*node, path@) is None,
    ensures
        is_structure_error(e, *node, path@),
{
    let mut m = String::new();
    push_str(&mut m, path);
    if node.get(path).is_none() {
        push_str(&mut m, " folder not found");
    } else {
        push_str(&mut m, " wasn't a folder");
    }
    ConvertOpeningTitleBetweenRegionsError::InvalidOpeningTitleStructure(m)
}

/// The folder at `path` of `fnt`.
pub fn get_folder<'a>(fnt: &'a U8Node, path: &str) -> (r: Result<
    &'a U8FolderNode,
    ConvertOpeningTitleBetweenRegionsError,
>)
    ensures
        r is Ok <==> folder_at(*fnt, path@) is Some,
        r matches Ok(f) ==> folder_at(*fnt, path@) == Some(*f),
        r is Err ==> is_structure_error(r->Err_0, *fnt, path@),
{
    match fnt.get(path) {
        Some(node) => match node.as_folder() {
            Some(f) => Ok(f),
            None => Err(structure_error(fnt, path)),
        },
        None => Err(structure_error(fnt, path)),
    }
}

/// The folder at `path` of `fnt`, to change; `fnt` is left alone where it
/// is missing.
pub fn get_mut_folder<'a>(fnt: &'a mut U8Node, path: &str) -> (r: Result<
    &'a mut U8FolderNode,
    ConvertOpeningTitleBetweenRegionsError,
>)
    ensures
        r is Ok <==> folder_at(*old(fnt), path@) is Some,
        r matches Ok(f) ==> folder_at(*old(fnt), path@) == Some(*f) && replaced_at(
            *old(fnt),
            path_parts(path@),
            U8Node::Folder(*final(f)),
            *final(fnt),
        ),
        r is Err ==> is_structure_error(r->Err_0, *old(fnt), path@) && *final(fnt) == *old(fnt),
{
    match get_folder(fnt, path) {
        Err(e) => {
            return Err(e);
        },
        Ok(_) => {},
    }
    let node = fnt.get_mut(path).unwrap();
    Ok(node.as_mut_folder().unwrap())
}

/// The /arc/anim folder.
pub fn get_anim_folder(fnt: &U8Node) -> (r: Result<&U8FolderNode, ConvertOpeningTitleBetweenRegionsError>)
    ensures
        r is Ok <==> folder_at(*fnt, anim_path()) is Some,
        r matches Ok(f) ==> folder_at(*fnt, anim_path()) == Some(*f),
        r is Err ==> is_structure_error(r->Err_0, *fnt, anim_path()),
{
    get_folder(fnt, "/arc/anim")
}

/// The /arc/blyt folder.
pub fn get_blyt_folder(fnt: &U8Node) -> (r: Result<&U8FolderNode, ConvertOpeningTitleBetweenRegionsError>)
    ensures
        r is Ok <==> folder_at(*fnt, blyt_path()) is Some,
        r matches Ok(f) ==> folder_at(*fnt, blyt_path()) == Some(*f),
        r is Err ==> is_structure_error(r->Err_0, *fnt, blyt_path()),
{
    get_folder(fnt, "/arc/blyt")
}

/// The /arc/anim folder, to change.
pub fn get_mut_anim_folder(fnt: &mut U8Node) -> (r: Result<
    &mut U8FolderNode,
    ConvertOpeningTitleBetweenRegionsError,
>)
    ensures
        r is Ok <==> folder_at(*old(fnt), anim_path()) is Some,
        r matches Ok(f) ==> folder_at(*old(fnt), anim_path()) == Some(*f) && replaced_at(
            *old(fnt),
            path_parts(anim_path()),
            U8Node::Folder(*final(f)),
            *final(fnt),
        ),
        r is Err ==> is_structure_error(r->Err_0, *old(fnt), anim_path()) && *final(fnt)
            == *old(fnt),
{
    get_mut_folder(fnt, "/arc/anim")
}

/// The /arc/blyt folder, to change.
pub fn get_mut_blyt_folder(fnt: &mut U8Node) -> (r: Result<
    &mut U8FolderNode,
    ConvertOpeningTitleBetweenRegionsError,
>)
    ensures
        r is Ok <==> folder_at(*old(fnt), blyt_path()) is Some,
        r matches Ok(f) ==> folder_at(*old(fnt), blyt_path()) == Some(*f) && replaced_at(
            *old(fnt),
            path_parts(blyt_path()),
            U8Node::Folder(*final(f)),
            *final(fnt),
        ),
        r is Err ==> is_structure_error(r->Err_0, *old(fnt), blyt_path()) && *final(fnt)
            == *old(fnt),
{
    get_mut_folder(fnt, "/arc/blyt")
}

/// A folder's entries as a map from lower-case names.
pub type FolderMap = Map<Seq<char>, (Seq<char>, U8Node)>;

/// The regional files of the anim folder, region by region, in the order
/// of the roles.
pub open spec fn anim_pairs(rs: Seq<Region>) -> Seq<(Region, Role)> {
    Seq::new(4 * rs.len(), |p: int| (rs[p / 4], anim_roles()[p % 4]))
}

/// The regional files of the blyt folder, region by region.
pub open spec fn blyt_pairs(rs: Seq<Region>) -> Seq<(Region, Role)> {
    Seq::new(rs.len(), |p: int| (rs[p], Role::Brlyt))
}

/// Take the files named by `pairs` out of a folder, one after another:
/// the folder left, and for each name the file found under it, if a file
/// was there. An entry under such a name that is a folder stays.
pub open spec fn take_fold(m: FolderMap, pairs: Seq<(Region, Role)>) -> (FolderMap, Seq<Option<U8FileNode>>)
    decreases pairs.len(),
{
    if pairs.len() == 0 {
        (m, Seq::empty())
    } else {
        let prev = take_fold(m, pairs.drop_last());
        let k = lower_of(filename(pairs.last().0, pairs.last().1));
        if prev.0.contains_key(k) && prev.0[k].1 is File {
            (prev.0.remove(k), prev.1.push(Some(prev.0[k].1->File_0)))
        } else {
            (prev.0, prev.1.push(None))
        }
    }
}

/// One result for each name taken.
pub proof fn lemma_take_fold_len(m: FolderMap, pairs: Seq<(Region, Role)>)
    ensures
        take_fold(m, pairs).1.len() == pairs.len(),
    decreases pairs.len(),
{
    if pairs.len() > 0 {
        lemma_take_fold_len(m, pairs.drop_last());
    }
}

/// `files` holds for `role` the file `got` that was found for region `g`,
/// under the region's name for it.
pub open spec fn records(files: OptionalNamedRegionalFiles, g: Region, role: Role, got: Option<U8FileNode>) -> bool {
    match got {
        None => files.at(role) is None,
        Some(f) => files.at(role) matches Some(n) && n.node == f && n.filename@ == filename(g, role),
    }
}

/// What taking the regional files of the regions `rs` out of `old` gives:
/// the files found, region by region, and the tree `new` with the two
/// folders changed and all else as it was.
pub open spec fn removal_result(
    old: U8Node,
    rs: Seq<Region>,
    list: Seq<(Region, OptionalNamedRegionalFiles)>,
    new: U8Node,
) -> bool {
    let a = folder_at(old, anim_path())->0;
    let b = folder_at(old, blyt_path())->0;
    let ta = take_fold(entries_map(a.entries()), anim_pairs(rs));
    let tb = take_fold(entries_map(b.entries()), blyt_pairs(rs));
    &&& list.len() == rs.len()
    &&& forall|i: int| 0 <= i < rs.len() ==> (#[trigger] list[i]).0 == rs[i]
    &&& forall|i: int, j: int|
        0 <= i < rs.len() && 0 <= j < 4 ==> #[trigger] records(
            list[i].1,
            rs[i],
            anim_roles()[j],
            ta.1[4 * i + j],
        )
    &&& forall|i: int| 0 <= i < rs.len() ==> #[trigger] records(list[i].1, rs[i], Role::Brlyt, tb.1[i])
    &&& exists|mid: U8Node, a2: U8FolderNode, b2: U8FolderNode|
        #![trigger replaced_at(old, anim_parts(), U8Node::Folder(a2), mid), replaced_at(mid, blyt_parts(), U8Node::Folder(b2), new)]
        {
            &&& entries_map(a2.entries()) == ta.0
            &&& replaced_at(old, anim_parts(), U8Node::Folder(a2), mid)
            &&& entries_map(b2.entries()) == tb.0
            &&& replaced_at(mid, blyt_parts(), U8Node::Folder(b2), new)
        }
}

/// The anim-folder files of the regions `rs`, in order.
fn anim_pair_list(rs: &Vec<Region>) -> (r: Vec<(Region, Role)>)
    requires
        rs@.len() <= 6,
    ensures
        r@ == anim_pairs(rs@),
{
    let roles = Role::anim();
    let mut r: Vec<(Region, Role)> = Vec::new();
    let mut p: usize = 0;
    while p < 4 * rs.len()
        invariant
            rs@.len() <= 6,
            p <= 4 * rs@.len(),
            roles@ == anim_roles(),
            r@ == anim_pairs(rs@).subrange(0, p as int),
        decreases 4 * rs@.len() - p,
    {
        r.push((rs[p / 4], roles[p % 4]));
        p = p + 1;
        assert(r@ =~= anim_pairs(rs@).subrange(0, p as int));
    }
    assert(anim_pairs(rs@).subrange(0, p as int) =~= anim_pairs(rs@));
    r
}

/// The blyt-folder files of the regions `rs`, in order.
fn blyt_pair_list(rs: &Vec<Region>) -> (r: Vec<(Region, Role)>)
    ensures
        r@ == blyt_pairs(rs@),
{
    let mut r: Vec<(Region, Role)> = Vec::new();
    let mut p: usize = 0;
    while p < rs.len()
        invariant
            p <= rs@.len(),
            r@ == blyt_pairs(rs@).subrange(0, p as int),
        decreases rs@.len() - p,
    {
        r.push((rs[p], Role::Brlyt));
        p = p + 1;
        assert(r@ =~= blyt_pairs(rs@).subrange(0, p as int));
    }
    assert(blyt_pairs(rs@).subrange(0, p as int) =~= blyt_pairs(rs@));
    r
}

/// Take the files named by `pairs` out of `folder`, one after another,
/// and return what was found under each name.
fn take_from_folder(folder: &mut U8FolderNode, pairs: &Vec<(Region, Role)>) -> (got: Vec<Option<U8FileNode>>)
    ensures
        (entries_map(final(folder).entries()), got@) == take_fold(
            entries_map(old(folder).entries()),
            pairs@,
        ),
{
    let ghost m0 = entries_map(folder.entries());
    let mut got: Vec<Option<U8FileNode>> = Vec::new();
    let mut p: usize = 0;
    while p < pairs.len()
        invariant
            p <= pairs@.len(),
            m0 == entries_map(old(folder).entries()),
            (entries_map(folder.entries()), got@) == take_fold(m0, pairs@.subrange(0, p as int)),
        decreases pairs@.len() - p,
    {
        let (g, role) = pairs[p];
        let name = filename_of(g, role);
        let ghost before = folder.entries();
        let is_file = match folder.get(name) {
            Some(U8Node::File(_)) => true,
            _ => false,
        };
        let found = if is_file {
            match folder.remove(name) {
                Some(U8Node::File(f)) => Some(f),
                _ => None,
            }
        } else {
            None
        };
        proof {
            lemma_first_match_exists(before, lower_of(name@));
            assert(pairs@.subrange(0, p + 1).drop_last() =~= pairs@.subrange(0, p as int));
        }
        got.push(found);
        p = p + 1;
    }
    assert(pairs@.subrange(0, p as int) =~= pairs@);
    got
}

/// The file found for `role` of region `g`, under the region's name for it.
fn named(got: Option<U8FileNode>, g: Region, role: Role) -> (r: Option<NamedU8FileNode>)
    ensures
        match got {
            None => r is None,
            Some(f) => r matches Some(n) && n.node == f && n.filename@ == filename(g, role),
        },
{
    match got {
        None => None,
        Some(f) => Some(NamedU8FileNode { node: f, filename: filename_of(g, role).to_owned() }),
    }
}

/// Take the regional files of the regions in `regions` out of the anim
/// and blyt folders of `fnt`, and return, region by region in the default
/// order, the files that were found. Fails, changing nothing, where either
/// folder is missing.
pub fn remove_regional_files(fnt: &mut U8Node, regions: RegionBitFlags) -> (r: Result<
    Vec<(Region, OptionalNamedRegionalFiles)>,
    ConvertOpeningTitleBetweenRegionsError,
>)
    ensures
        r is Ok <==> folder_at(*old(fnt), anim_path()) is Some && folder_at(*old(fnt), blyt_path()) is Some,
        r is Err ==> *final(fnt) == *old(fnt),
        r is Err && folder_at(*old(fnt), anim_path()) is None ==> is_structure_error(r->Err_0, *old(fnt), anim_path()),
        r is Err && folder_at(*old(fnt), anim_path()) is Some ==> is_structure_error(r->Err_0, *old(fnt), blyt_path()),
        r matches Ok(list) ==> removal_result(*old(fnt), regions.members(), list@, *final(fnt)),
{
    match get_folder(fnt, "/arc/anim") {
        Err(e) => {
            return Err(e);
        },
        Ok(_) => {},
    }
    match get_folder(fnt, "/arc/blyt") {
        Err(e) => {
            return Err(e);
        },
        Ok(_) => {},
    }
    folder_names_differ();
    proof {
        lemma_folder_paths();
    }
    let rs = regions.to_vec();
    proof {
        crate::region::default_order().lemma_filter_len(|g: Region| regions.has(g));
    }
    let ghost old_fnt = *fnt;
    let ghost a0 = folder_at(old_fnt, anim_path())->0;
    let ghost b0 = folder_at(old_fnt, blyt_path())->0;
    let anim_pairs_v = anim_pair_list(&rs);
    let blyt_pairs_v = blyt_pair_list(&rs);
    let got_a = match get_mut_anim_folder(fnt) {
        Ok(folder) => take_from_folder(folder, &anim_pairs_v),
        Err(e) => {
            return Err(e);
        },
    };
    let ghost mid = *fnt;
    proof {
        let a2 = choose|a2: U8FolderNode| replaced_at(old_fnt, anim_parts(), U8Node::Folder(a2), mid) && entries_map(a2.entries()) == take_fold(entries_map(a0.entries()), anim_pairs(rs@)).0;
        lemma_anim_change_keeps_blyt(old_fnt, U8Node::Folder(a2), mid);
    }
    let got_b = match get_mut_blyt_folder(fnt) {
        Ok(folder) => take_from_folder(folder, &blyt_pairs_v),
        Err(e) => {
            return Err(e);
        },
    };
    proof {
        lemma_take_fold_len(entries_map(a0.entries()), anim_pairs(rs@));
        lemma_take_fold_len(entries_map(b0.entries()), blyt_pairs(rs@));
    }
    let mut list: Vec<(Region, OptionalNamedRegionalFiles)> = Vec::new();
    let mut i: usize = 0;
    while i < rs.len()
        invariant
            i <= rs@.len(),
            rs@.len() <= 6,
            got_a@.len() == 4 * rs@.len(),
            got_b@.len() == rs@.len(),
            list@.len() == i,
            forall|k: int| 0 <= k < i ==> (#[trigger] list@[k]).0 == rs@[k],
            forall|k: int, j: int|
                0 <= k < i && 0 <= j < 4 ==> #[trigger] records(list@[k].1, rs@[k], anim_roles()[j], got_a@[4 * k + j]),
            forall|k: int| 0 <= k < i ==> #[trigger] records(list@[k].1, rs@[k], Role::Brlyt, got_b@[k]),
        decreases rs@.len() - i,
    {
        let g = rs[i];
        let files = OptionalNamedRegionalFiles {
            in_press_brlan: named(got_a[4 * i], g, Role::InPressBrlan),
            in_title_brlan: named(got_a[4 * i + 1], g, Role::InTitleBrlan),
            loop_press_brlan: named(got_a[4 * i + 2], g, Role::LoopPressBrlan),
            out_press_brlan: named(got_a[4 * i + 3], g, Role::OutPressBrlan),
            brlyt: named(got_b[i], g, Role::Brlyt),
        };
        list.push((g, files));
        i = i + 1;
    }
    Ok(list)
}

/// The hash of a file's data, which starts at `base + f.offset` of
/// `data`, where `data` holds all of it.
pub open spec fn file_hash(data: Seq<u8>, base: int, f: U8FileNode) -> Option<u64> {
    if base + f.offset + f.size <= data.len() {
        Some(hash_of(data.subrange(base + f.offset, base + f.offset + f.size)))
    } else {
        None
    }
}

/// A copy of a named file node.
fn copy_named(n: &NamedU8FileNode) -> (r: NamedU8FileNode)
    ensures
        r == *n,
{
    NamedU8FileNode { node: n.node, filename: n.filename.clone() }
}

/// The hash of a file's data in `data`, whose data section starts at `base`.
fn hash_file(data: &Vec<u8>, base: u32, f: U8FileNode) -> (r: Result<u64, ConvertOpeningTitleBetweenRegionsError>)
    ensures
        r is Ok <==> file_hash(data@, base as int, f) is Some,
        r matches Ok(h) ==> file_hash(data@, base as int, f) == Some(h),
        r is Err ==> r->Err_0 is IoError,
{
    match calc_hash_from_file_slice(data, base as u64 + f.offset as u64, f.size as usize) {
        Ok(h) => Ok(h),
        Err(e) => Err(ConvertOpeningTitleBetweenRegionsError::IoError(e)),
    }
}

/// Compare `found_file` with the first copy seen of the same file.
///
/// With no copy seen yet, `found_file` becomes the first one, and nothing
/// is hashed. With one seen whose offset and size are those of
/// `found_file`, the two hold the same bytes and nothing is hashed either.
/// Otherwise the first copy is hashed, unless `previous_found_file_hash`
/// already holds its hash (it is 0 until then), and so is `found_file`;
/// different hashes are a conflict that names both files.
pub fn check_file_pair_for_conflicts(
    previous_found_file: &mut Option<NamedU8FileNode>,
    previous_found_file_hash: &mut u64,
    found_file: &NamedU8FileNode,
    data_table_offs: u32,
    reader: &Vec<u8>,
) -> (r: Result<(), ConvertOpeningTitleBetweenRegionsError>)
    ensures
        match *old(previous_found_file) {
            None => r is Ok && *final(previous_found_file) == Some(*found_file)
                && *final(previous_found_file_hash) == *old(previous_found_file_hash),
            Some(p) => {
                let h_old = if *old(previous_found_file_hash) == 0 {
                    file_hash(reader@, data_table_offs as int, p.node)
                } else {
                    Some(*old(previous_found_file_hash))
                };
                let h_new = file_hash(reader@, data_table_offs as int, found_file.node);
                &&& *final(previous_found_file) == *old(previous_found_file)
                &&& p.node == found_file.node ==> r is Ok && *final(previous_found_file_hash)
                    == *old(previous_found_file_hash)
                &&& p.node != found_file.node ==> {
                    &&& (h_old is None || h_new is None) ==> r is Err && r->Err_0 is IoError
                    &&& (h_old is Some && h_new is Some) ==> {
                        &&& *final(previous_found_file_hash) == h_old->0
                        &&& (r is Ok <==> h_old == h_new)
                        &&& r is Err ==> r->Err_0 == ConvertOpeningTitleBetweenRegionsError::FileDataConflict(
                            p.filename,
                            found_file.filename,
                        )
                    }
                }
            },
        },
{
    match previous_found_file {
        Some(previous) => {
            if found_file.node == previous.node {
                return Ok(());
            }
            if *previous_found_file_hash == 0 {
                let h = hash_file(reader, data_table_offs, previous.node)?;
                *previous_found_file_hash = h;
            }
            let new_hash = hash_file(reader, data_table_offs, found_file.node)?;
            if *previous_found_file_hash != new_hash {
                return Err(
                    ConvertOpeningTitleBetweenRegionsError::FileDataConflict(
                        previous.filename.clone(),
                        found_file.filename.clone(),
                    ),
                );
            }
            Ok(())
        },
        None => {
            *previous_found_file = Some(copy_named(found_file));
            Ok(())
        },
    }
}

/// The copies of the file of `role` that `all` holds, in its order.
pub open spec fn candidates(all: Seq<(Region, OptionalNamedRegionalFiles)>, role: Role) -> Seq<NamedU8FileNode>
    decreases all.len(),
{
    if all.len() == 0 {
        Seq::empty()
    } else {
        let init = candidates(all.drop_last(), role);
        match all.last().1.at(role) {
            Some(n) => init.push(n),
            None => init,
        }
    }
}

/// Every copy whose offset and size differ from those of the first copy
/// has data, as the first has, and the two hashes agree.
pub open spec fn role_consistent(cands: Seq<NamedU8FileNode>, data: Seq<u8>, base: int) -> bool {
    forall|k: int|
        0 < k < cands.len() && (#[trigger] cands[k]).node != cands[0].node ==> file_hash(
            data,
            base,
            cands[0].node,
        ) is Some && file_hash(data, base, cands[k].node) == file_hash(data, base, cands[0].node)
}

/// The copies of every regional file agree.
pub open spec fn all_consistent(all: Seq<(Region, OptionalNamedRegionalFiles)>, data: Seq<u8>, base: int) -> bool {
    forall|role: Role| #[trigger] role_consistent(candidates(all, role), data, base)
}

/// The copies found in a prefix of `all` come first among all copies.
proof fn lemma_candidates_prefix(all: Seq<(Region, OptionalNamedRegionalFiles)>, role: Role, n: int)
    requires
        0 <= n <= all.len(),
    ensures
        candidates(all.subrange(0, n), role).len() <= candidates(all, role).len(),
        candidates(all.subrange(0, n), role) == candidates(all, role).subrange(
            0,
            candidates(all.subrange(0, n), role).len() as int,
        ),
    decreases all.len() - n,
{
    if n < all.len() {
        lemma_candidates_prefix(all, role, n + 1);
        assert(all.subrange(0, n + 1).drop_last() =~= all.subrange(0, n));
        let a = candidates(all.subrange(0, n), role);
        let b = candidates(all.subrange(0, n + 1), role);
        let f = candidates(all, role);
        assert(a =~= f.subrange(0, a.len() as int));
    } else {
        assert(all.subrange(0, n) =~= all);
        assert(candidates(all, role) =~= candidates(all, role).subrange(0, candidates(all, role).len() as int));
    }
}

/// The state kept for one role while its copies are compared.
pub open spec fn role_state_ok(
    prev: Option<NamedU8FileNode>,
    hash: u64,
    cands: Seq<NamedU8FileNode>,
    data: Seq<u8>,
    base: int,
) -> bool {
    &&& prev is None <==> cands.len() == 0
    &&& prev is None ==> hash == 0
    &&& prev matches Some(p) ==> p == cands[0] && (hash != 0 ==> file_hash(data, base, p.node) == Some(hash))
    &&& role_consistent(cands, data, base)
}

/// The conflict `e` names, first, the first copy of a file of some role
/// and, second, a later copy of it at another offset or size whose data
/// hashes differently.
pub open spec fn names_conflict(
    all: Seq<(Region, OptionalNamedRegionalFiles)>,
    data: Seq<u8>,
    base: int,
    e: ConvertOpeningTitleBetweenRegionsError,
) -> bool {
    exists|role: Role, k: int|
        #![trigger candidates(all, role)[k]]
        {
            let c = candidates(all, role);
            &&& 0 < k < c.len()
            &&& c[k].node != c[0].node
            &&& file_hash(data, base, c[0].node) is Some
            &&& file_hash(data, base, c[k].node) is Some
            &&& file_hash(data, base, c[k].node) != file_hash(data, base, c[0].node)
            &&& e == ConvertOpeningTitleBetweenRegionsError::FileDataConflict(c[0].filename, c[k].filename)
        }
}

/// Compare, role by role, every copy of each regional file found with
/// the first copy of it, as `check_file_pair_for_conflicts` does. Succeeds
/// exactly when the copies of every file agree.
pub fn check_all_files_for_conflicts(
    all_regional_files: &Vec<(Region, OptionalNamedRegionalFiles)>,
    data_table_offs: u32,
    reader: &Vec<u8>,
) -> (r: Result<(), ConvertOpeningTitleBetweenRegionsError>)
    ensures
        r is Ok <==> all_consistent(all_regional_files@, reader@, data_table_offs as int),
        r is Err ==> r->Err_0 is IoError || r->Err_0 is FileDataConflict,
        r is Err && r->Err_0 is FileDataConflict ==> names_conflict(
            all_regional_files@,
            reader@,
            data_table_offs as int,
            r->Err_0,
        ),
{
    let ghost all = all_regional_files@;
    let ghost base = data_table_offs as int;
    let roles = Role::all();
    let mut ri: usize = 0;
    while ri < roles.len()
        invariant
            ri <= 5,
            roles@ == all_roles(),
            all == all_regional_files@,
            base == data_table_offs as int,
            forall|q: int| 0 <= q < ri ==> #[trigger] role_consistent(candidates(all, all_roles()[q]), reader@, base),
        decreases 5 - ri,
    {
        let role = roles[ri];
        let mut prev: Option<NamedU8FileNode> = None;
        let mut hash: u64 = 0;
        let mut i: usize = 0;
        assert(all.subrange(0, 0) =~= Seq::<(Region, OptionalNamedRegionalFiles)>::empty());
        while i < all_regional_files.len()
            invariant
                i <= all.len(),
                all == all_regional_files@,
                base == data_table_offs as int,
                role_state_ok(prev, hash, candidates(all.subrange(0, i as int), role), reader@, base),
            decreases all.len() - i,
        {
            let ghost cands = candidates(all.subrange(0, i as int), role);
            proof {
                assert(all.subrange(0, i + 1).drop_last() =~= all.subrange(0, i as int));
                assert(all.subrange(0, i + 1).last() == all[i as int]);
            }
            match all_regional_files[i].1.get(role) {
                Some(file) => {
                    let ghost cands2 = cands.push(*file);
                    let res = check_file_pair_for_conflicts(&mut prev, &mut hash, file, data_table_offs, reader);
                    match res {
                        Ok(()) => {
                            assert forall|k: int|
                                0 < k < cands2.len() && (#[trigger] cands2[k]).node != cands2[0].node implies file_hash(
                                    reader@,
                                    base,
                                    cands2[0].node,
                                ) is Some && file_hash(reader@, base, cands2[k].node) == file_hash(reader@, base, cands2[0].node) by {
                                if k < cands.len() {
                                    assert(cands2[k] == cands[k]);
                                }
                            }
                        },
                        Err(e) => {
                            proof {
                                let k = cands.len() as int;
                                assert(cands2[k] == *file);
                                assert(!role_consistent(cands2, reader@, base));
                                lemma_candidates_prefix(all, role, i + 1);
                                let full = candidates(all, role);
                                assert(full[k] == cands2[k]);
                                assert(full[0] == cands2[0]);
                                assert(!role_consistent(full, reader@, base));
                                if e is FileDataConflict {
                                    assert(full[k] == *file);
                                    assert(names_conflict(all, reader@, base, e));
                                }
                            }
                            return Err(e);
                        },
                    }
                },
                None => {},
            }
            i = i + 1;
        }
        assert(all.subrange(0, i as int) =~= all);
        ri = ri + 1;
    }
    proof {
        assert forall|role: Role| #[trigger] role_consistent(candidates(all, role), reader@, base) by {
            match role {
                Role::InPressBrlan => assert(all_roles()[0] == role),
                Role::InTitleBrlan => assert(all_roles()[1] == role),
                Role::LoopPressBrlan => assert(all_roles()[2] == role),
                Role::OutPressBrlan => assert(all_roles()[3] == role),
                Role::Brlyt => assert(all_roles()[4] == role),
            }
        }
    }
    Ok(())
}

/// The files found for region `g`: those of the first entry of `all` for it.
pub open spec fn files_of(all: Seq<(Region, OptionalNamedRegionalFiles)>, g: Region) -> Option<OptionalNamedRegionalFiles>
    decreases all.len(),
{
    if all.len() == 0 {
        None
    } else if all[0].0 == g {
        Some(all[0].1)
    } else {
        files_of(all.drop_first(), g)
    }
}

/// The file of `role` of the first region of `from` that has one.
pub open spec fn selected(all: Seq<(Region, OptionalNamedRegionalFiles)>, from: Seq<Region>, role: Role) -> Option<U8FileNode>
    decreases from.len(),
{
    if from.len() == 0 {
        None
    } else {
        match files_of(all, from[0]) {
            Some(files) => match files.at(role) {
                Some(n) => Some(n.node),
                None => selected(all, from.drop_first(), role),
            },
            None => selected(all, from.drop_first(), role),
        }
    }
}

/// The files found for region `g`.
fn find_files(all: &Vec<(Region, OptionalNamedRegionalFiles)>, g: Region) -> (r: Option<&OptionalNamedRegionalFiles>)
    ensures
        match r {
            Some(f) => files_of(all@, g) == Some(*f),
            None => files_of(all@, g) is None,
        },
{
    let mut i: usize = 0;
    assert(all@.subrange(0, all@.len() as int) =~= all@);
    while i < all.len()
        invariant
            i <= all@.len(),
            files_of(all@, g) == files_of(all@.subrange(i as int, all@.len() as int), g),
        decreases all@.len() - i,
    {
        assert(all@.subrange(i as int, all@.len() as int).drop_first() =~= all@.subrange(i + 1, all@.len() as int));
        if all[i].0 == g {
            return Some(&all[i].1);
        }
        i = i + 1;
    }
    None
}

/// The file of `role` of the first region of `from_regions` that has one.
fn select_role(all: &Vec<(Region, OptionalNamedRegionalFiles)>, from_regions: &[Region], role: Role) -> (r: Option<U8FileNode>)
    ensures
        r == selected(all@, from_regions@, role),
{
    let mut i: usize = 0;
    assert(from_regions@.subrange(0, from_regions@.len() as int) =~= from_regions@);
    while i < from_regions.len()
        invariant
            i <= from_regions@.len(),
            selected(all@, from_regions@, role) == selected(all@, from_regions@.subrange(i as int, from_regions@.len() as int), role),
        decreases from_regions@.len() - i,
    {
        assert(from_regions@.subrange(i as int, from_regions@.len() as int).drop_first() =~= from_regions@.subrange(i + 1, from_regions@.len() as int));
        match find_files(all, from_regions[i]) {
            Some(files) => match files.get(role) {
                Some(n) => {
                    return Some(n.node);
                },
                None => {},
            },
            None => {},
        }
        i = i + 1;
    }
    None
}

/// The error for a role that no requested region has.
fn missing(role: Role) -> (e: ConvertOpeningTitleBetweenRegionsError)
    ensures
        e matches ConvertOpeningTitleBetweenRegionsError::MissingFiles(s) && s@ == role_description(role),
{
    ConvertOpeningTitleBetweenRegionsError::MissingFiles(role.description().to_owned())
}

/// Choose one file of each role: that of the region that comes first in
/// `from_regions` among those that have one. Fails, naming the first role
/// in order that none has.
pub fn select_regional_files(
    all_regional_files: &Vec<(Region, OptionalNamedRegionalFiles)>,
    from_regions: &[Region],
) -> (r: Result<RegionalFiles, ConvertOpeningTitleBetweenRegionsError>)
    ensures
        r is Ok <==> forall|role: Role| #[trigger] selected(all_regional_files@, from_regions@, role) is Some,
        r matches Ok(files) ==> forall|role: Role|
            Some(#[trigger] files.at(role)) == selected(all_regional_files@, from_regions@, role),
        r is Err ==> exists|q: int|
            0 <= q < 5 && #[trigger] selected(all_regional_files@, from_regions@, all_roles()[q]) is None
                && (forall|q2: int| 0 <= q2 < q ==> #[trigger] selected(all_regional_files@, from_regions@, all_roles()[q2]) is Some)
                && (r->Err_0 matches ConvertOpeningTitleBetweenRegionsError::MissingFiles(s) && s@ == role_description(all_roles()[q])),
{
    let in_press = select_role(all_regional_files, from_regions, Role::InPressBrlan);
    let in_title = select_role(all_regional_files, from_regions, Role::InTitleBrlan);
    let loop_press = select_role(all_regional_files, from_regions, Role::LoopPressBrlan);
    let out_press = select_role(all_regional_files, from_regions, Role::OutPressBrlan);
    let brlyt = select_role(all_regional_files, from_regions, Role::Brlyt);
    let ghost all = all_regional_files@;
    let ghost from = from_regions@;
    if in_press.is_none() {
        assert(selected(all, from, all_roles()[0]) is None);
        return Err(missing(Role::InPressBrlan));
    }
    if in_title.is_none() {
        assert(selected(all, from, all_roles()[1]) is None);
        assert(selected(all, from, all_roles()[0]) is Some);
        return Err(missing(Role::InTitleBrlan));
    }
    if loop_press.is_none() {
        assert(selected(all, from, all_roles()[2]) is None);
        assert(selected(all, from, all_roles()[0]) is Some);
        assert(selected(all, from, all_roles()[1]) is Some);
        return Err(missing(Role::LoopPressBrlan));
    }
    if out_press.is_none() {
        assert(selected(all, from, all_roles()[3]) is None);
        assert(selected(all, from, all_roles()[0]) is Some);
        assert(selected(all, from, all_roles()[1]) is Some);
        assert(selected(all, from, all_roles()[2]) is Some);
        return Err(missing(Role::OutPressBrlan));
    }
    if brlyt.is_none() {
        assert(selected(all, from, all_roles()[4]) is None);
        assert(selected(all, from, all_roles()[0]) is Some);
        assert(selected(all, from, all_roles()[1]) is Some);
        assert(selected(all, from, all_roles()[2]) is Some);
        assert(selected(all, from, all_roles()[3]) is Some);
        return Err(missing(Role::Brlyt));
    }
    let files = RegionalFiles {
        in_press_brlan: in_press.unwrap(),
        in_title_brlan: in_title.unwrap(),
        loop_press_brlan: loop_press.unwrap(),
        out_press_brlan: out_press.unwrap(),
        brlyt: brlyt.unwrap(),
    };
    assert forall|role: Role| #[trigger] selected(all, from, role) is Some && Some(files.at(role)) == selected(all, from, role) by {
        match role {
            Role::InPressBrlan => {},
            Role::InTitleBrlan => {},
            Role::LoopPressBrlan => {},
            Role::OutPressBrlan => {},
            Role::Brlyt => {},
        }
    }
    Ok(files)
}

/// Add the files named by `pairs` to a folder, one after another, each
/// node being the chosen file of its role; with `Fail`, a name that is
/// there already stops it, and is the error, with the folder as it was
/// when the name was met.
pub open spec fn add_fold(
    m: FolderMap,
    pairs: Seq<(Region, Role)>,
    files: RegionalFiles,
    strategy: ConflictStrategy,
) -> Result<FolderMap, (Seq<char>, FolderMap)>
    decreases pairs.len(),
{
    if pairs.len() == 0 {
        Ok(m)
    } else {
        match add_fold(m, pairs.drop_last(), files, strategy) {
            Err(n) => Err(n),
            Ok(m1) => {
                let name = filename(pairs.last().0, pairs.last().1);
                let k = lower_of(name);
                if strategy == ConflictStrategy::Fail && m1.contains_key(k) {
                    Err((name, m1))
                } else {
                    Ok(m1.insert(k, (name, U8Node::File(files.at(pairs.last().1)))))
                }
            },
        }
    }
}

/// Add the files named by `pairs` to `folder`, as `add_fold` says.
fn add_to_folder(
    folder: &mut U8FolderNode,
    pairs: &Vec<(Region, Role)>,
    files: &RegionalFiles,
    strategy: ConflictStrategy,
) -> (r: Result<(), ConvertOpeningTitleBetweenRegionsError>)
    ensures
        match add_fold(entries_map(old(folder).entries()), pairs@, *files, strategy) {
            Ok(m) => r is Ok && entries_map(final(folder).entries()) == m,
            Err((n, m)) => r is Err && (r->Err_0 matches ConvertOpeningTitleBetweenRegionsError::FilenameAlreadyExists(s) && s@ == n)
                && entries_map(final(folder).entries()) == m,
        },
{
    let ghost m0 = entries_map(folder.entries());
    let mut p: usize = 0;
    while p < pairs.len()
        invariant
            p <= pairs@.len(),
            m0 == entries_map(old(folder).entries()),
            add_fold(m0, pairs@.subrange(0, p as int), *files, strategy) == Ok::<FolderMap, (Seq<char>, FolderMap)>(entries_map(folder.entries())),
        decreases pairs@.len() - p,
    {
        let (g, role) = pairs[p];
        let name = filename_of(g, role);
        proof {
            assert(pairs@.subrange(0, p + 1).drop_last() =~= pairs@.subrange(0, p as int));
            lemma_first_match_exists(folder.entries(), lower_of(name@));
        }
        if strategy == ConflictStrategy::Fail && folder.contains_key(name) {
            proof {
                lemma_add_fold_err_extends(m0, pairs@, *files, strategy, p as int + 1);
            }
            return Err(ConvertOpeningTitleBetweenRegionsError::FilenameAlreadyExists(name.to_owned()));
        }
        folder.insert(name.to_owned(), U8Node::File(files.get(role)));
        p = p + 1;
    }
    assert(pairs@.subrange(0, p as int) =~= pairs@);
    Ok(())
}

/// Once adding a prefix fails, adding all fails the same way.
proof fn lemma_add_fold_err_extends(
    m: FolderMap,
    pairs: Seq<(Region, Role)>,
    files: RegionalFiles,
    strategy: ConflictStrategy,
    n: int,
)
    requires
        0 <= n <= pairs.len(),
        add_fold(m, pairs.subrange(0, n), files, strategy) is Err,
    ensures
        add_fold(m, pairs, files, strategy) == add_fold(m, pairs.subrange(0, n), files, strategy),
    decreases pairs.len() - n,
{
    if n < pairs.len() {
        assert(pairs.subrange(0, n + 1).drop_last() =~= pairs.subrange(0, n));
        lemma_add_fold_err_extends(m, pairs, files, strategy, n + 1);
    } else {
        assert(pairs.subrange(0, n) =~= pairs);
    }
}

/// What adding the chosen files under the names of the regions `rs` to
/// `old` gives, where both folders exist: on an error, the names added
/// before it stay added.
pub open spec fn addition_result(
    old: U8Node,
    rs: Seq<Region>,
    files: RegionalFiles,
    strategy: ConflictStrategy,
    r: Result<(), ConvertOpeningTitleBetweenRegionsError>,
    new: U8Node,
) -> bool {
    let a = folder_at(old, anim_path())->0;
    let b = folder_at(old, blyt_path())->0;
    let fa = add_fold(entries_map(a.entries()), anim_pairs(rs), files, strategy);
    let fb = add_fold(entries_map(b.entries()), blyt_pairs(rs), files, strategy);
    match (fa, fb) {
        (Err((n, ma)), _) => r is Err && (r->Err_0 matches ConvertOpeningTitleBetweenRegionsError::FilenameAlreadyExists(s) && s@ == n)
            && exists|a2: U8FolderNode|
            #![trigger replaced_at(old, anim_parts(), U8Node::Folder(a2), new)]
            entries_map(a2.entries()) == ma && replaced_at(old, anim_parts(), U8Node::Folder(a2), new),
        (Ok(ma), Err((n, mb))) => r is Err && (r->Err_0 matches ConvertOpeningTitleBetweenRegionsError::FilenameAlreadyExists(s) && s@ == n)
            && exists|mid: U8Node, a2: U8FolderNode, b2: U8FolderNode|
            #![trigger replaced_at(old, anim_parts(), U8Node::Folder(a2), mid), replaced_at(mid, blyt_parts(), U8Node::Folder(b2), new)]
            {
                &&& entries_map(a2.entries()) == ma
                &&& replaced_at(old, anim_parts(), U8Node::Folder(a2), mid)
                &&& entries_map(b2.entries()) == mb
                &&& replaced_at(mid, blyt_parts(), U8Node::Folder(b2), new)
            },
        (Ok(ma), Ok(mb)) => r is Ok && exists|mid: U8Node, a2: U8FolderNode, b2: U8FolderNode|
            #![trigger replaced_at(old, anim_parts(), U8Node::Folder(a2), mid), replaced_at(mid, blyt_parts(), U8Node::Folder(b2), new)]
            {
                &&& entries_map(a2.entries()) == ma
                &&& replaced_at(old, anim_parts(), U8Node::Folder(a2), mid)
                &&& entries_map(b2.entries()) == mb
                &&& replaced_at(mid, blyt_parts(), U8Node::Folder(b2), new)
            },
    }
}

/// What adding the chosen files under the names of the regions `rs` to
/// `old` gives: a structure error, changing nothing, where a folder is
/// missing, and otherwise `addition_result`.
pub open spec fn addition_outcome(
    old: U8Node,
    rs: Seq<Region>,
    files: RegionalFiles,
    strategy: ConflictStrategy,
    r: Result<(), ConvertOpeningTitleBetweenRegionsError>,
    new: U8Node,
) -> bool {
    &&& folder_at(old, anim_path()) is None ==> r is Err && is_structure_error(r->Err_0, old, anim_path()) && new == old
    &&& folder_at(old, anim_path()) is Some && folder_at(old, blyt_path()) is None ==> r is Err && is_structure_error(r->Err_0, old, blyt_path()) && new == old
    &&& folder_at(old, anim_path()) is Some && folder_at(old, blyt_path()) is Some ==> addition_result(old, rs, files, strategy, r, new)
}

/// Add, for each region of `regions` in the default order, the chosen
/// files under that region's names: first the four of the anim folder for
/// every region, then the layout of each. With `Fail`, a name that exists
/// already is an error that names it.
pub fn add_new_filenames(
    fnt: &mut U8Node,
    regional_files: &RegionalFiles,
    regions: RegionBitFlags,
    filename_conflict_strategy: ConflictStrategy,
) -> (r: Result<(), ConvertOpeningTitleBetweenRegionsError>)
    ensures
        addition_outcome(*old(fnt), regions.members(), *regional_files, filename_conflict_strategy, r, *final(fnt)),
{
    match get_folder(fnt, "/arc/anim") {
        Err(e) => {
            return Err(e);
        },
        Ok(_) => {},
    }
    match get_folder(fnt, "/arc/blyt") {
        Err(e) => {
            return Err(e);
        },
        Ok(_) => {},
    }
    folder_names_differ();
    proof {
        lemma_folder_paths();
    }
    let rs = regions.to_vec();
    proof {
        crate::region::default_order().lemma_filter_len(|g: Region| regions.has(g));
    }
    let ghost old_fnt = *fnt;
    let ghost a0 = folder_at(old_fnt, anim_path())->0;
    let anim_pairs_v = anim_pair_list(&rs);
    let blyt_pairs_v = blyt_pair_list(&rs);
    match get_mut_anim_folder(fnt) {
        Ok(folder) => {
            let res = add_to_folder(folder, &anim_pairs_v, regional_files, filename_conflict_strategy);
            match res {
                Ok(()) => {},
                Err(e) => {
                    return Err(e);
                },
            }
        },
        Err(e) => {
            return Err(e);
        },
    }
    let ghost mid = *fnt;
    proof {
        let a2 = choose|a2: U8FolderNode| replaced_at(old_fnt, anim_parts(), U8Node::Folder(a2), mid) && entries_map(a2.entries()) == add_fold(entries_map(a0.entries()), anim_pairs(rs@), *regional_files, filename_conflict_strategy)->Ok_0;
        lemma_anim_change_keeps_blyt(old_fnt, U8Node::Folder(a2), mid);
    }
    match get_mut_blyt_folder(fnt) {
        Ok(folder) => add_to_folder(folder, &blyt_pairs_v, regional_files, filename_conflict_strategy),
        Err(e) => Err(e),
    }
}

/// Copies of a file that hold the same bytes never conflict, whatever
/// their offsets and sizes.
pub proof fn lemma_same_bytes_never_conflict(cands: Seq<NamedU8FileNode>, data: Seq<u8>, base: int)
    requires
        cands.len() > 0,
        base + cands[0].node.offset + cands[0].node.size <= data.len(),
        forall|k: int|
            0 <= k < cands.len() ==> base + (#[trigger] cands[k]).node.offset + cands[k].node.size <= data.len()
                && data.subrange(base + cands[k].node.offset, base + cands[k].node.offset + cands[k].node.size)
                == data.subrange(base + cands[0].node.offset, base + cands[0].node.offset + cands[0].node.size),
    ensures
        role_consistent(cands, data, base),
{
}

/// Two copies whose data hash differently, one of them first, make the
/// copies of their file inconsistent, so that the check fails.
pub proof fn lemma_different_hashes_conflict(cands: Seq<NamedU8FileNode>, data: Seq<u8>, base: int, k: int)
    requires
        0 < k < cands.len(),
        cands[k].node != cands[0].node,
        file_hash(data, base, cands[k].node) != file_hash(data, base, cands[0].node),
    ensures
        !role_consistent(cands, data, base),
{
    assert(cands[k] == cands[k]);
}

/// Of two source regions that both have a file of a role, the one listed
/// first gives it; where that one lacks it, the other does.
pub proof fn lemma_priority_order(
    all: Seq<(Region, OptionalNamedRegionalFiles)>,
    x: Region,
    y: Region,
    role: Role,
)
    ensures
        files_of(all, x) is Some && files_of(all, x)->0.at(role) is Some ==> selected(all, seq![x, y], role)
            == Some(files_of(all, x)->0.at(role)->0.node),
        (files_of(all, x) is None || files_of(all, x)->0.at(role) is None) && files_of(all, y) is Some
            && files_of(all, y)->0.at(role) is Some ==> selected(all, seq![x, y], role) == Some(
            files_of(all, y)->0.at(role)->0.node,
        ),
{
    assert(seq![x, y].drop_first() =~= seq![y]);
    assert(seq![y].drop_first() =~= Seq::<Region>::empty());
    reveal_with_fuel(selected, 3);
}

/// Where no source region has a file of a role, none is selected, and
/// selecting fails naming the first such role.
pub proof fn lemma_total_absence(all: Seq<(Region, OptionalNamedRegionalFiles)>, from: Seq<Region>, role: Role)
    requires
        forall|i: int|
            0 <= i < from.len() ==> #[trigger] files_of(all, from[i]) is None || files_of(all, from[i])->0.at(
                role,
            ) is None,
    ensures
        selected(all, from, role) is None,
    decreases from.len(),
{
    if from.len() > 0 {
        assert forall|i: int|
            0 <= i < from.drop_first().len() implies #[trigger] files_of(all, from.drop_first()[i]) is None
                || files_of(all, from.drop_first()[i])->0.at(role) is None by {
            assert(from.drop_first()[i] == from[i + 1]);
        }
        assert(files_of(all, from[0]) is None || files_of(all, from[0])->0.at(role) is None);
        lemma_total_absence(all, from.drop_first(), role);
    }
}

/// The file of each role that selecting from the regions `from` chooses.
pub open spec fn chosen(all: Seq<(Region, OptionalNamedRegionalFiles)>, from: Seq<Region>) -> RegionalFiles {
    RegionalFiles {
        in_press_brlan: selected(all, from, Role::InPressBrlan)->0,
        in_title_brlan: selected(all, from, Role::InTitleBrlan)->0,
        loop_press_brlan: selected(all, from, Role::LoopPressBrlan)->0,
        out_press_brlan: selected(all, from, Role::OutPressBrlan)->0,
        brlyt: selected(all, from, Role::Brlyt)->0,
    }
}

/// `e` is the error for the first role, in order, that no region of
/// `from` has.
pub open spec fn is_missing_error(
    all: Seq<(Region, OptionalNamedRegionalFiles)>,
    from: Seq<Region>,
    e: ConvertOpeningTitleBetweenRegionsError,
) -> bool {
    exists|q: int|
        0 <= q < 5 && #[trigger] selected(all, from, all_roles()[q]) is None && (forall|q2: int|
            0 <= q2 < q ==> #[trigger] selected(all, from, all_roles()[q2]) is Some) && (e matches ConvertOpeningTitleBetweenRegionsError::MissingFiles(s) && s@ == role_description(all_roles()[q]))
}

/// What merging the regional files of `old` gives: take out those of the
/// regions of `sources` (the regions `from` lists), compare copies unless
/// content conflicts are overwritten, choose one of each role by the order
/// of `from`, and add them under the names of the regions `to`. `data`
/// holds the file data, from `base` on.
#[verifier::opaque]
pub open spec fn merge_result(
    old: U8Node,
    data: Seq<u8>,
    base: int,
    from: Seq<Region>,
    sources: RegionBitFlags,
    to: Seq<Region>,
    cs: ConvertOpeningTitleBetweenRegionsConflictStrategies,
    r: Result<(), ConvertOpeningTitleBetweenRegionsError>,
    new: U8Node,
) -> bool {
    if folder_at(old, anim_path()) is None {
        r is Err && is_structure_error(r->Err_0, old, anim_path()) && new == old
    } else if folder_at(old, blyt_path()) is None {
        r is Err && is_structure_error(r->Err_0, old, blyt_path()) && new == old
    } else {
        exists|list: Seq<(Region, OptionalNamedRegionalFiles)>, mid: U8Node|
            #![trigger removal_result(old, sources.members(), list, mid)]
            {
                &&& removal_result(old, sources.members(), list, mid)
                &&& if cs.file_contents == ConflictStrategy::Fail && !all_consistent(list, data, base) {
                    &&& r is Err
                    &&& r->Err_0 is IoError || (r->Err_0 is FileDataConflict && names_conflict(list, data, base, r->Err_0))
                } else if exists|role: Role| #[trigger] selected(list, from, role) is None {
                    r is Err && is_missing_error(list, from, r->Err_0)
                } else {
                    addition_outcome(mid, to, chosen(list, from), cs.filenames, r, new)
                }
            }
    }
}

/// The regions to take files from: those listed, or all in the default order.
pub open spec fn source_order(from_regions: Option<Seq<Region>>) -> Seq<Region> {
    match from_regions {
        Some(s) => s,
        None => crate::region::default_order(),
    }
}

/// What converting the archive `input` gives, as
/// `convert_openingtitle_between_regions` says.
#[verifier::opaque]
pub open spec fn conversion_result(
    input: Seq<u8>,
    from: Seq<Region>,
    to: Seq<Region>,
    cs: ConvertOpeningTitleBetweenRegionsConflictStrategies,
    r: Result<Vec<u8>, ConvertOpeningTitleBetweenRegionsError>,
) -> bool {
    &&& parse_fnt(input) is Err ==> r is Err && (r->Err_0 matches ConvertOpeningTitleBetweenRegionsError::InvalidU8File(e)
        && same_failure(e, parse_fnt(input)->Err_0))
    &&& parse_fnt(input) is Ok ==> exists|t: U8Node, sources: RegionBitFlags, mr: Result<(), ConvertOpeningTitleBetweenRegionsError>, mid: U8Node, new: U8Node|
        #![trigger merge_result(t, input, parse_fnt(input)->Ok_0, from, sources, to, cs, mr, mid), rebuild_outcome(mid, parse_fnt(input)->Ok_0, input, r, new)]
        {
            &&& tree_at(input, be32_at(input, 4), be32_at(input, 4) + 12 * be32_at(input, be32_at(input, 4) + 8), parse_fnt(input)->Ok_0, 0, t)
            &&& forall|g: Region| #[trigger] sources.has(g) <==> from.contains(g)
            &&& merge_result(t, input, parse_fnt(input)->Ok_0, from, sources, to, cs, mr, mid)
            &&& mr is Err ==> r == Err::<Vec<u8>, ConvertOpeningTitleBetweenRegionsError>(mr->Err_0)
            &&& mr is Ok ==> rebuild_outcome(mid, parse_fnt(input)->Ok_0, input, r, new)
        }
}

/// Read openingTitle.arc from `in_file` and return a version of it whose
/// regional files are those of the regions `from_regions` (by default all,
/// in the default order), merged and checked as the strategies say, under
/// the names of the regions `to_regions`.
///
/// The steps: read the tables; take out the regional files of the source
/// regions; compare copies of each (unless content conflicts are to be
/// overwritten); choose one of each; add them under the target names;
/// write the tables once to learn their length; reserve that many bytes;
/// rebuild the data section after them; and write the tables for real.
pub fn convert_openingtitle_between_regions(
    in_file: &Vec<u8>,
    from_regions: Option<&[Region]>,
    to_regions: RegionBitFlags,
    conflict_strategies: &ConvertOpeningTitleBetweenRegionsConflictStrategies,
) -> (r: Result<Vec<u8>, ConvertOpeningTitleBetweenRegionsError>)
    ensures
        conversion_result(
            in_file@,
            source_order(
                match from_regions {
                    Some(s) => Some(s@),
                    None => None,
                },
            ),
            to_regions.members(),
            *conflict_strategies,
            r,
        ),
{
    proof {
        reveal(conversion_result);
    }
    let default_order = Region::default_order();
    let from: &[Region] = match from_regions {
        Some(regions) => regions,
        None => default_order.as_slice(),
    };
    let ghost from_seq = source_order(
        match from_regions {
            Some(s) => Some(s@),
            None => None,
        },
    );
    assert(from@ == from_seq);
    let (mut fnt, data_table_offs) = match read(in_file) {
        Ok(parsed) => parsed,
        Err(e) => {
            return Err(ConvertOpeningTitleBetweenRegionsError::InvalidU8File(e));
        },
    };
    let ghost t = fnt;
    let sources = RegionBitFlags::from_regions(from);
    let merged = merge_regional_files(&mut fnt, data_table_offs, in_file, from, sources, to_regions, conflict_strategies);
    let ghost mid = fnt;
    let ghost off = parse_fnt(in_file@)->Ok_0;
    assert(off == data_table_offs as int);
    assert(tree_at(in_file@, be32_at(in_file@, 4), be32_at(in_file@, 4) + 12 * be32_at(in_file@, be32_at(in_file@, 4) + 8), off, 0, t));
    assert(forall|g: Region| #[trigger] sources.has(g) <==> from_seq.contains(g));
    assert(merge_result(t, in_file@, off, from_seq, sources, to_regions.members(), *conflict_strategies, merged, mid));
    if let Err(e) = merged {
        let res: Result<Vec<u8>, ConvertOpeningTitleBetweenRegionsError> = Err(e);
        let ghost new_t = fnt;
        let ghost outcome = rebuild_outcome(mid, off, in_file@, res, new_t);
        assert(outcome || !outcome);
        assert({
            &&& tree_at(in_file@, be32_at(in_file@, 4), be32_at(in_file@, 4) + 12 * be32_at(in_file@, be32_at(in_file@, 4) + 8), off, 0, t)
            &&& forall|g: Region| #[trigger] sources.has(g) <==> from_seq.contains(g)
            &&& merge_result(t, in_file@, off, from_seq, sources, to_regions.members(), *conflict_strategies, merged, mid)
            &&& merged is Err ==> res == Err::<Vec<u8>, ConvertOpeningTitleBetweenRegionsError>(merged->Err_0)
            &&& merged is Ok ==> rebuild_outcome(mid, off, in_file@, res, new_t)
        });
        assert(conversion_result(in_file@, from_seq, to_regions.members(), *conflict_strategies, res));
        return res;
    }
    let r = rebuild_archive(&mut fnt, data_table_offs, in_file);
    let ghost new_t = fnt;
    assert({
        &&& tree_at(in_file@, be32_at(in_file@, 4), be32_at(in_file@, 4) + 12 * be32_at(in_file@, be32_at(in_file@, 4) + 8), off, 0, t)
        &&& forall|g: Region| #[trigger] sources.has(g) <==> from_seq.contains(g)
        &&& merge_result(t, in_file@, off, from_seq, sources, to_regions.members(), *conflict_strategies, merged, mid)
        &&& merged is Err ==> r == Err::<Vec<u8>, ConvertOpeningTitleBetweenRegionsError>(merged->Err_0)
        &&& merged is Ok ==> rebuild_outcome(mid, off, in_file@, r, new_t)
    });
    assert(conversion_result(in_file@, from_seq, to_regions.members(), *conflict_strategies, r));
    r
}

/// Take out, check, choose and add back the regional files of `fnt`.
fn merge_regional_files(
    fnt: &mut U8Node,
    data_table_offs: u32,
    in_file: &Vec<u8>,
    from: &[Region],
    sources: RegionBitFlags,
    to_regions: RegionBitFlags,
    conflict_strategies: &ConvertOpeningTitleBetweenRegionsConflictStrategies,
) -> (r: Result<(), ConvertOpeningTitleBetweenRegionsError>)
    ensures
        merge_result(
            *old(fnt),
            in_file@,
            data_table_offs as int,
            from@,
            sources,
            to_regions.members(),
            *conflict_strategies,
            r,
            *final(fnt),
        ),
{
    proof {
        reveal(merge_result);
    }
    let ghost old_fnt = *fnt;
    let all_regional_files = match remove_regional_files(fnt, sources) {
        Ok(all) => all,
        Err(e) => {
            return Err(e);
        },
    };
    let ghost list = all_regional_files@;
    let ghost mid = *fnt;
    assert(removal_result(old_fnt, sources.members(), list, mid));
    if conflict_strategies.file_contents == ConflictStrategy::Fail {
        match check_all_files_for_conflicts(&all_regional_files, data_table_offs, in_file) {
            Ok(()) => {},
            Err(e) => {
                return Err(e);
            },
        }
    }
    let regional_files = match select_regional_files(&all_regional_files, from) {
        Ok(files) => files,
        Err(e) => {
            return Err(e);
        },
    };
    assert(regional_files == chosen(list, from@)) by {
        assert(Some(regional_files.at(Role::InPressBrlan)) == selected(list, from@, Role::InPressBrlan));
        assert(Some(regional_files.at(Role::InTitleBrlan)) == selected(list, from@, Role::InTitleBrlan));
        assert(Some(regional_files.at(Role::LoopPressBrlan)) == selected(list, from@, Role::LoopPressBrlan));
        assert(Some(regional_files.at(Role::OutPressBrlan)) == selected(list, from@, Role::OutPressBrlan));
        assert(Some(regional_files.at(Role::Brlyt)) == selected(list, from@, Role::Brlyt));
    }
    add_new_filenames(fnt, &regional_files, to_regions, conflict_strategies.filenames)
}



} // verus!
