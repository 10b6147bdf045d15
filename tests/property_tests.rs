use smallworld::codec::read;
use smallworld::convert::{
    convert_openingtitle_between_regions, get_anim_folder, get_blyt_folder,
};
use smallworld::filenames::OpeningTitleRegionFilenames;
use smallworld::rebuild::rebuild_archive;
use smallworld::util::ByteCursor;
use smallworld::{
    ConflictStrategy, ConvertOpeningTitleBetweenRegionsConflictStrategies as Strategies,
    ConvertOpeningTitleBetweenRegionsError as ConvertError, ParseU8Error, Region, RegionBitFlags,
    U8FileNode, U8FolderNode, U8Node,
};

fn file(offset: u32, size: u32) -> U8Node {
    U8Node::File(U8FileNode { offset, size })
}

fn folder_of(entries: Vec<(String, U8Node)>) -> U8FolderNode {
    let mut f = U8FolderNode::new();
    for (name, n) in entries {
        f.insert(name, n);
    }
    f
}

fn arc(anim: Vec<(String, U8Node)>, blyt: Vec<(String, U8Node)>) -> U8Node {
    U8Node::Folder(folder_of(vec![(
        "arc".to_owned(),
        U8Node::Folder(folder_of(vec![
            ("anim".to_owned(), U8Node::Folder(folder_of(anim))),
            ("blyt".to_owned(), U8Node::Folder(folder_of(blyt))),
        ])),
    )]))
}

/// Anim and blyt entries for `region`, with file data at the given offsets, eight bytes each.
fn region_entries(region: Region, offsets: [u32; 5]) -> (Vec<(String, U8Node)>, Vec<(String, U8Node)>) {
    let n = OpeningTitleRegionFilenames::for_region(region);
    (
        vec![
            (n.in_press_brlan.to_owned(), file(offsets[0], 8)),
            (n.in_title_brlan.to_owned(), file(offsets[1], 8)),
            (n.loop_press_brlan.to_owned(), file(offsets[2], 8)),
            (n.out_press_brlan.to_owned(), file(offsets[3], 8)),
        ],
        vec![(n.brlyt.to_owned(), file(offsets[4], 8))],
    )
}

fn archive(root: &U8Node, payload: &[u8]) -> Vec<u8> {
    let mut cursor = ByteCursor::new(Vec::new());
    smallworld::codec::write(&mut cursor, root).unwrap();
    cursor.write_all(payload);
    cursor.into_inner()
}

/// 0xc0 bytes of payload, each 0x20-byte block filled with its index.
fn payload() -> Vec<u8> {
    (0..0xc0u32).map(|i| (i / 0x20) as u8 + 1).collect()
}

/// The bytes of a file of an archive, given its tree and data offset.
fn file_bytes(data: &[u8], data_offset: u32, node: &U8Node) -> Vec<u8> {
    match node {
        U8Node::File(f) => {
            let start = (data_offset + f.offset) as usize;
            data[start..start + f.size as usize].to_vec()
        }
        U8Node::Folder(_) => panic!("not a file"),
    }
}

fn w_archive() -> Vec<u8> {
    let (mut anim, blyt) = region_entries(Region::W, [0x00, 0x20, 0x40, 0x60, 0xa0]);
    anim.push(("unrelated".to_owned(), file(0x80, 8)));
    archive(&arc(anim, blyt), &payload())
}

#[test]
fn rebuilding_keeps_names_sizes_and_data() {
    let input = w_archive();
    let (mut root, data_offset) = read(&input).unwrap();
    let (before, _) = read(&input).unwrap();
    let out = rebuild_archive(&mut root, data_offset, &input).unwrap();
    let (rebuilt, new_offset) = read(&out).unwrap();
    let a_old = get_anim_folder(&before).unwrap();
    let a_new = get_anim_folder(&rebuilt).unwrap();
    assert_eq!(a_old.len(), a_new.len());
    for i in 0..a_old.len() {
        let (name, node) = a_old.entry(i);
        let moved = a_new.get(name).unwrap();
        match (node, moved) {
            (U8Node::File(x), U8Node::File(y)) => assert_eq!(x.size, y.size),
            _ => panic!("expected files"),
        }
        assert_eq!(file_bytes(&input, data_offset, node), file_bytes(&out, new_offset, moved));
    }
}

#[test]
fn converting_twice_changes_nothing() {
    let to = RegionBitFlags::from_regions(&[Region::J, Region::E]);
    let once = convert_openingtitle_between_regions(&w_archive(), None, to, &Strategies::default()).unwrap();
    let twice = convert_openingtitle_between_regions(&once, None, to, &Strategies::default()).unwrap();
    assert_eq!(once, twice);
}

#[test]
fn shared_data_is_copied_once() {
    let (anim, blyt) = region_entries(Region::P, [0x00, 0x00, 0x40, 0x40, 0x00]);
    let input = archive(&arc(anim, blyt), &payload());
    let (mut root, data_offset) = read(&input).unwrap();
    let out = rebuild_archive(&mut root, data_offset, &input).unwrap();
    let (rebuilt, new_offset) = read(&out).unwrap();
    // two distinct offsets: the data section holds one 0x20-aligned copy of each
    assert_eq!(out.len() as u32 - new_offset, 0x28);
    let a = get_anim_folder(&rebuilt).unwrap();
    let n = OpeningTitleRegionFilenames::for_region(Region::P);
    assert_eq!(a.get(n.in_press_brlan), a.get(n.in_title_brlan));
    assert_eq!(a.get(n.loop_press_brlan), a.get(n.out_press_brlan));
    assert_ne!(a.get(n.in_press_brlan), a.get(n.loop_press_brlan));
}

fn two_region_conflict() -> Vec<u8> {
    let (mut anim, mut blyt) = region_entries(Region::E, [0x00, 0x20, 0x40, 0x60, 0x80]);
    let (anim_k, blyt_k) = region_entries(Region::K, [0x00, 0x20, 0x40, 0xa0, 0x80]);
    anim.extend(anim_k);
    blyt.extend(blyt_k);
    archive(&arc(anim, blyt), &payload())
}

#[test]
fn conflicting_data_fails_by_default() {
    let r = convert_openingtitle_between_regions(
        &two_region_conflict(),
        Some(&[Region::K, Region::E]),
        RegionBitFlags::from_region(Region::J),
        &Strategies::default(),
    );
    let e = OpeningTitleRegionFilenames::for_region(Region::E);
    let k = OpeningTitleRegionFilenames::for_region(Region::K);
    assert_eq!(
        r,
        Err(ConvertError::FileDataConflict(e.out_press_brlan.to_owned(), k.out_press_brlan.to_owned()))
    );
}

#[test]
fn overwrite_takes_the_first_listed_region() {
    let input = two_region_conflict();
    let strategies = Strategies { file_contents: ConflictStrategy::Overwrite, filenames: ConflictStrategy::Fail };
    for (order, expected_block) in [([Region::K, Region::E], 6u8), ([Region::E, Region::K], 4u8)] {
        let out = convert_openingtitle_between_regions(&input, Some(&order), RegionBitFlags::from_region(Region::J), &strategies).unwrap();
        let (root, data_offset) = read(&out).unwrap();
        let j = OpeningTitleRegionFilenames::for_region(Region::J);
        let node = get_anim_folder(&root).unwrap().get(j.out_press_brlan).unwrap();
        assert_eq!(file_bytes(&out, data_offset, node), vec![expected_block; 8]);
    }
}

#[test]
fn converting_w_to_j_keeps_other_files_and_drops_w_names() {
    let input = w_archive();
    let out = convert_openingtitle_between_regions(&input, None, RegionBitFlags::from_region(Region::J), &Strategies::default()).unwrap();
    let (root, data_offset) = read(&out).unwrap();
    let anim = get_anim_folder(&root).unwrap();
    let blyt = get_blyt_folder(&root).unwrap();
    let w = OpeningTitleRegionFilenames::for_region(Region::W);
    let j = OpeningTitleRegionFilenames::for_region(Region::J);
    assert!(anim.get(w.in_press_brlan).is_none());
    assert!(blyt.get(w.brlyt).is_none());
    assert_eq!(anim.len(), 5);
    assert_eq!(file_bytes(&out, data_offset, anim.get("unrelated").unwrap()), vec![5u8; 8]);
    assert_eq!(file_bytes(&out, data_offset, anim.get(j.in_press_brlan).unwrap()), vec![1u8; 8]);
    assert_eq!(file_bytes(&out, data_offset, blyt.get(j.brlyt).unwrap()), vec![6u8; 8]);
}

#[test]
fn missing_anim_folder_is_a_structure_error() {
    let root = U8Node::Folder(folder_of(vec![("arc".to_owned(), U8Node::Folder(U8FolderNode::new()))]));
    let r = convert_openingtitle_between_regions(&archive(&root, &[]), None, RegionBitFlags::all(), &Strategies::default());
    assert_eq!(r, Err(ConvertError::InvalidOpeningTitleStructure("/arc/anim folder not found".to_owned())));
}

#[test]
fn anim_file_instead_of_folder_is_a_structure_error() {
    let root = U8Node::Folder(folder_of(vec![(
        "arc".to_owned(),
        U8Node::Folder(folder_of(vec![("anim".to_owned(), file(0, 0))])),
    )]));
    let r = convert_openingtitle_between_regions(&archive(&root, &[]), None, RegionBitFlags::all(), &Strategies::default());
    assert_eq!(r, Err(ConvertError::InvalidOpeningTitleStructure("/arc/anim wasn't a folder".to_owned())));
}

#[test]
fn existing_target_name_is_reported() {
    let (mut anim, blyt) = region_entries(Region::W, [0x00, 0x20, 0x40, 0x60, 0xa0]);
    let j = OpeningTitleRegionFilenames::for_region(Region::J);
    anim.push((j.in_title_brlan.to_owned(), file(0x80, 8)));
    let input = archive(&arc(anim, blyt), &payload());
    let r = convert_openingtitle_between_regions(&input, Some(&[Region::W]), RegionBitFlags::from_region(Region::J), &Strategies::default());
    assert_eq!(r, Err(ConvertError::FilenameAlreadyExists(j.in_title_brlan.to_owned())));
}

#[test]
fn unreadable_input_is_an_invalid_file() {
    let r = convert_openingtitle_between_regions(&b"not an archive at all".to_vec(), None, RegionBitFlags::all(), &Strategies::default());
    assert_eq!(r, Err(ConvertError::InvalidU8File(ParseU8Error::BadMagic(0x6e6f7420))));
    let r = convert_openingtitle_between_regions(&Vec::new(), None, RegionBitFlags::all(), &Strategies::default());
    assert!(matches!(r, Err(ConvertError::InvalidU8File(ParseU8Error::IoError(_)))));
}

#[test]
fn short_data_section_is_an_io_error() {
    let (anim, blyt) = region_entries(Region::W, [0x00, 0x20, 0x40, 0x60, 0xa0]);
    let input = archive(&arc(anim, blyt), &[1u8; 0x30]);
    let r = convert_openingtitle_between_regions(&input, None, RegionBitFlags::from_region(Region::J), &Strategies::default());
    assert!(matches!(r, Err(ConvertError::IoError(_))));
}

#[test]
fn name_that_is_not_utf8_is_rejected() {
    let root = U8Node::Folder(folder_of(vec![("a".to_owned(), file(0, 0))]));
    let mut bytes = archive(&root, &[]);
    // the string table starts after the two nodes: "\0a\0"
    let strings = 0x20 + 2 * 12;
    bytes[strings + 1] = 0xff;
    assert_eq!(read(&bytes), Err(ParseU8Error::InvalidName(1)));
}

#[test]
fn file_before_data_section_is_rejected() {
    let root = U8Node::Folder(folder_of(vec![("a".to_owned(), file(0, 0))]));
    let mut bytes = archive(&root, &[]);
    // value A of the file node (node 1) is its absolute offset
    let at = 0x20 + 12 + 4;
    bytes[at..at + 4].copy_from_slice(&[0, 0, 0, 1]);
    assert_eq!(read(&bytes), Err(ParseU8Error::FileBeforeData(1)));
}

#[test]
fn folder_under_a_role_name_is_kept() {
    let (mut anim, blyt) = region_entries(Region::W, [0x00, 0x20, 0x40, 0x60, 0xa0]);
    let p = OpeningTitleRegionFilenames::for_region(Region::P);
    anim.push((p.in_press_brlan.to_owned(), U8Node::Folder(U8FolderNode::new())));
    let mut root = arc(anim, blyt);
    let found = smallworld::convert::remove_regional_files(&mut root, RegionBitFlags::from_regions(&[Region::P, Region::W])).unwrap();
    assert!(found[0].1.in_press_brlan.is_none());
    let anim_folder = get_anim_folder(&root).unwrap();
    assert_eq!(anim_folder.len(), 1);
    assert_eq!(anim_folder.get(p.in_press_brlan), Some(&U8Node::Folder(U8FolderNode::new())));
}

#[test]
fn entry_mut_changes_one_child() {
    let mut root = U8Node::Folder(folder_of(vec![("a".to_owned(), file(1, 1)), ("b".to_owned(), file(2, 2))]));
    *root.entry_mut(1).unwrap() = file(9, 9);
    assert_eq!(root.child("B"), Some(&file(9, 9)));
    assert_eq!(root.child("a"), Some(&file(1, 1)));
    assert!(root.entry_mut(2).is_none());
    assert!(file(0, 0).entry_mut(0).is_none());
}
