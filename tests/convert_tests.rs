use smallworld::convert::{
    add_new_filenames, check_all_files_for_conflicts, check_file_pair_for_conflicts,
    convert_openingtitle_between_regions, get_anim_folder, get_blyt_folder, get_mut_anim_folder,
    remove_regional_files, select_regional_files, NamedU8FileNode, OptionalNamedRegionalFiles,
    RegionalFiles,
};
use smallworld::filenames::OpeningTitleRegionFilenames;
use smallworld::rebuild::build_new_fat;
use smallworld::util::ByteCursor;
use smallworld::{
    ConflictStrategy, ConvertOpeningTitleBetweenRegionsConflictStrategies,
    ConvertOpeningTitleBetweenRegionsError, Region, RegionBitFlags, U8FileNode, U8FolderNode,
    U8Node,
};

fn node(offset: u32, size: u32) -> U8FileNode {
    U8FileNode { offset, size }
}

fn folder_of(entries: Vec<(String, U8Node)>) -> U8FolderNode {
    let mut f = U8FolderNode::new();
    for (name, n) in entries {
        f.insert(name, n);
    }
    f
}

fn names(region: Region) -> OpeningTitleRegionFilenames {
    OpeningTitleRegionFilenames::for_region(region)
}

fn regional(a: (u32, u32), b: (u32, u32), c: (u32, u32), d: (u32, u32), e: (u32, u32)) -> RegionalFiles {
    RegionalFiles {
        in_press_brlan: node(a.0, a.1),
        in_title_brlan: node(b.0, b.1),
        loop_press_brlan: node(c.0, c.1),
        out_press_brlan: node(d.0, d.1),
        brlyt: node(e.0, e.1),
    }
}

fn simple_files() -> RegionalFiles {
    regional((0x1, 0x1), (0x2, 0x2), (0x3, 0x3), (0x4, 0x4), (0x5, 0x5))
}

fn other_files() -> RegionalFiles {
    regional((0x11, 0x1), (0x12, 0x2), (0x13, 0x3), (0x14, 0x4), (0x15, 0x5))
}

/// An openingTitle tree for the given regions, with the given file nodes.
fn make_openingtitle_fnt(regions: &[Region], files: &RegionalFiles) -> U8Node {
    let mut anim = U8FolderNode::new();
    let mut blyt = U8FolderNode::new();
    for &region in regions {
        let n = names(region);
        anim.insert(n.in_press_brlan.to_owned(), U8Node::File(files.in_press_brlan));
        anim.insert(n.in_title_brlan.to_owned(), U8Node::File(files.in_title_brlan));
        anim.insert(n.loop_press_brlan.to_owned(), U8Node::File(files.loop_press_brlan));
        anim.insert(n.out_press_brlan.to_owned(), U8Node::File(files.out_press_brlan));
        blyt.insert(n.brlyt.to_owned(), U8Node::File(files.brlyt));
    }
    U8Node::Folder(folder_of(vec![(
        "arc".to_owned(),
        U8Node::Folder(folder_of(vec![
            ("anim".to_owned(), U8Node::Folder(anim)),
            ("blyt".to_owned(), U8Node::Folder(blyt)),
        ])),
    )]))
}

fn named(n: U8FileNode, filename: &str) -> Option<NamedU8FileNode> {
    Some(NamedU8FileNode { node: n, filename: filename.to_owned() })
}

/// The found files of the given regions, in order, each with all five files.
fn make_found_files(regions: &[Region], files: &RegionalFiles) -> Vec<(Region, OptionalNamedRegionalFiles)> {
    regions
        .iter()
        .map(|&region| {
            let n = names(region);
            (
                region,
                OptionalNamedRegionalFiles {
                    in_press_brlan: named(files.in_press_brlan, n.in_press_brlan),
                    in_title_brlan: named(files.in_title_brlan, n.in_title_brlan),
                    loop_press_brlan: named(files.loop_press_brlan, n.loop_press_brlan),
                    out_press_brlan: named(files.out_press_brlan, n.out_press_brlan),
                    brlyt: named(files.brlyt, n.brlyt),
                },
            )
        })
        .collect()
}

fn empty_arc() -> U8Node {
    U8Node::Folder(folder_of(vec![(
        "arc".to_owned(),
        U8Node::Folder(folder_of(vec![
            ("anim".to_owned(), U8Node::Folder(U8FolderNode::new())),
            ("blyt".to_owned(), U8Node::Folder(U8FolderNode::new())),
        ])),
    )]))
}

fn insert_into_anim(root: &mut U8Node, name: &str, n: U8FileNode) {
    get_mut_anim_folder(root).unwrap().insert(name.to_owned(), U8Node::File(n));
}

#[test]
fn lib_test_empty() {
    let mut root = U8Node::Folder(U8FolderNode::new());
    let regional_files = remove_regional_files(&mut root, RegionBitFlags::from_region(Region::P));
    assert!(regional_files.is_err());
}

#[test]
fn lib_test_simple() {
    let files = simple_files();
    let mut root = make_openingtitle_fnt(&[Region::P, Region::E, Region::J], &files);
    insert_into_anim(&mut root, "some other random thing", node(0x10, 0x10));

    let removed = remove_regional_files(&mut root, RegionBitFlags::from_regions(&[Region::P, Region::E])).unwrap();

    let mut expected_out_root = make_openingtitle_fnt(&[Region::J], &files);
    insert_into_anim(&mut expected_out_root, "some other random thing", node(0x10, 0x10));
    assert_eq!(root, expected_out_root);
    assert_eq!(removed, make_found_files(&[Region::P, Region::E], &files));
}

#[test]
fn test_nodes_identical() {
    let old = NamedU8FileNode { node: node(8, 10), filename: "old".to_owned() };
    let new = NamedU8FileNode { node: node(8, 10), filename: "new".to_owned() };
    let data: Vec<u8> = (0..255).collect();
    let mut current_file = None;
    let mut current_hash = 0;
    check_file_pair_for_conflicts(&mut current_file, &mut current_hash, &old, 10, &data).unwrap();
    check_file_pair_for_conflicts(&mut current_file, &mut current_hash, &new, 10, &data).unwrap();
    // the nodes are identical, so nothing was hashed
    assert_eq!(current_hash, 0);
}

#[test]
fn test_data_identical() {
    let old = NamedU8FileNode { node: node(0, 8), filename: "old".to_owned() };
    let new = NamedU8FileNode { node: node(8, 8), filename: "new".to_owned() };
    let data = b"XXXAAAABBBBAAAABBBBCCCCDDDD".to_vec();
    let mut current_file = None;
    let mut current_hash = 0;
    check_file_pair_for_conflicts(&mut current_file, &mut current_hash, &old, 3, &data).unwrap();
    check_file_pair_for_conflicts(&mut current_file, &mut current_hash, &new, 3, &data).unwrap();
    // the offsets differ, so the data was hashed to compare it
    assert_ne!(current_hash, 0);
}

#[test]
fn test_data_different() {
    let old = NamedU8FileNode { node: node(0, 8), filename: "old".to_owned() };
    let new = NamedU8FileNode { node: node(8, 8), filename: "new".to_owned() };
    let data = b"XXXAAAABBBBCCCCDDDDAAAABBBB".to_vec();
    let mut current_file = None;
    let mut current_hash = 0;
    check_file_pair_for_conflicts(&mut current_file, &mut current_hash, &old, 3, &data).unwrap();
    assert!(check_file_pair_for_conflicts(&mut current_file, &mut current_hash, &new, 3, &data).is_err());
    assert_ne!(current_hash, 0);
}

#[test]
fn test_no_conflicts() {
    let mut files = make_found_files(&[Region::P], &simple_files());
    files.extend(make_found_files(&[Region::E], &other_files()));
    let data = b"0123456789abcdef0123456789abcdef".to_vec();
    check_all_files_for_conflicts(&files, 0, &data).unwrap();
}

#[test]
fn test_conflicts() {
    let mut files = make_found_files(&[Region::P], &simple_files());
    files.extend(make_found_files(&[Region::E], &other_files()));
    let data = b"0123456789abcdef0123_56789abcdef".to_vec();
    assert!(check_all_files_for_conflicts(&files, 0, &data).is_err());
}

fn files_k_then_e() -> Vec<(Region, OptionalNamedRegionalFiles)> {
    let mut files = make_found_files(&[Region::K], &simple_files());
    files.extend(make_found_files(&[Region::E], &other_files()));
    files
}

#[test]
fn lib_test_simple_select() {
    let mut files = files_k_then_e();
    files[0].1.in_title_brlan = None;
    // K is preferred over E; K lacks inTitle, which comes from E
    let selected = select_regional_files(&files, &[Region::K, Region::E]).unwrap();
    assert_eq!(
        selected,
        regional((0x1, 0x1), (0x12, 0x2), (0x3, 0x3), (0x4, 0x4), (0x5, 0x5))
    );
}

#[test]
fn test_missing_files() {
    let mut files = files_k_then_e();
    files[0].1.in_title_brlan = None;
    files[1].1.in_title_brlan = None;
    assert!(select_regional_files(&files, &[Region::K, Region::E]).is_err());
}

#[test]
fn lib_test_individual() {
    let mut root = empty_arc();
    let files = simple_files();
    add_new_filenames(&mut root, &files, RegionBitFlags::from_region(Region::K), ConflictStrategy::default()).unwrap();
    assert_eq!(root, make_openingtitle_fnt(&[Region::K], &files));
}

#[test]
fn lib_test_region_free() {
    let mut root = empty_arc();
    add_new_filenames(&mut root, &simple_files(), RegionBitFlags::all(), ConflictStrategy::default()).unwrap();
    assert_eq!(get_anim_folder(&root).unwrap().len(), 4 * Region::DEFAULT_ORDER.len());
    assert_eq!(get_blyt_folder(&root).unwrap().len(), Region::DEFAULT_ORDER.len());
}

fn arc_with_w_loop_press() -> U8Node {
    let mut root = empty_arc();
    insert_into_anim(&mut root, names(Region::W).loop_press_brlan, node(0, 0));
    root
}

#[test]
fn test_forbidden_conflicts() {
    let mut root = arc_with_w_loop_press();
    assert!(add_new_filenames(&mut root, &simple_files(), RegionBitFlags::from_region(Region::W), ConflictStrategy::Fail).is_err());
}

#[test]
fn test_allowed_conflicts() {
    let mut root = arc_with_w_loop_press();
    let files = simple_files();
    add_new_filenames(&mut root, &files, RegionBitFlags::from_region(Region::W), ConflictStrategy::Overwrite).unwrap();
    assert_eq!(root, make_openingtitle_fnt(&[Region::W], &files));
}

#[test]
fn lib_test_empty_fat() {
    let mut root = U8Node::Folder(U8FolderNode::new());
    let input: Vec<u8> = Vec::new();
    let mut out = ByteCursor::new(Vec::new());
    build_new_fat(&mut root, 0, &input, &mut out).unwrap();
    assert_eq!(out.stream_position(), 0);
}

fn six_files(offsets: [u32; 6]) -> U8Node {
    let names = ["a", "b", "c", "d", "e", "f"];
    U8Node::Folder(folder_of(
        names
            .iter()
            .zip(offsets.iter())
            .map(|(n, &o)| (n.to_string(), U8Node::File(node(o, 0x10))))
            .collect(),
    ))
}

#[test]
fn lib_test_simple_fat() {
    let mut root = six_files([0x40, 0x20, 0x10, 0x40, 0x30, 0x20]);
    let input: Vec<u8> = (0..255).collect();
    let mut out = ByteCursor::new(Vec::new());
    build_new_fat(&mut root, 0, &input, &mut out).unwrap();
    assert_eq!(root, six_files([0x00, 0x20, 0x40, 0x00, 0x60, 0x20]));
    let mut expected: Vec<u8> = Vec::new();
    for (i, start) in [0x40u8, 0x20, 0x10, 0x30].iter().enumerate() {
        if i > 0 {
            expected.extend(vec![0u8; 16]);
        }
        expected.extend(*start..*start + 16);
    }
    assert_eq!(out.into_inner(), expected);
}

fn archive_bytes(root: &U8Node, payload: &[&[u8]]) -> Vec<u8> {
    let mut cursor = ByteCursor::new(Vec::new());
    smallworld::codec::write(&mut cursor, root).unwrap();
    for chunk in payload {
        cursor.write_all(chunk);
    }
    cursor.into_inner()
}

fn padded(label: &[u8; 8]) -> Vec<u8> {
    let mut v = label.to_vec();
    v.extend(vec![0u8; 24]);
    v
}

#[test]
fn lib_test_individual_convert() {
    let w_files = regional((0x00, 0x8), (0x20, 0x8), (0x40, 0x8), (0x60, 0x8), (0xa0, 0x8));
    let mut in_root = make_openingtitle_fnt(&[Region::W], &w_files);
    insert_into_anim(&mut in_root, "something else", node(0x80, 0x8));
    let chunks: Vec<Vec<u8>> = [b"INPBRLAN", b"INTBRLAN", b"LPPBRLAN", b"OTPBRLAN", b"SMTHELSE", b"THEBRLYT"]
        .iter()
        .map(|l| padded(l))
        .collect();
    let chunk_refs: Vec<&[u8]> = chunks.iter().map(|c| c.as_slice()).collect();
    let input = archive_bytes(&in_root, &chunk_refs);

    let out = convert_openingtitle_between_regions(
        &input,
        None,
        RegionBitFlags::from_region(Region::J),
        &ConvertOpeningTitleBetweenRegionsConflictStrategies::default(),
    )
    .unwrap();
    let (out_root, out_data_offset) = smallworld::codec::read(&out).unwrap();

    let mut expected_out_root = make_openingtitle_fnt(&[Region::J], &w_files);
    insert_into_anim(&mut expected_out_root, "something else", node(0x80, 0x8));
    assert_eq!(out_root, expected_out_root);
    assert_eq!(out_data_offset, 0x160);
}

#[test]
fn lib_test_region_free_convert() {
    let anim = folder_of(vec![
        (names(Region::P).in_press_brlan.to_owned(), U8Node::File(node(0x00, 0x8))),
        (names(Region::E).in_title_brlan.to_owned(), U8Node::File(node(0x20, 0x8))),
        (names(Region::J).loop_press_brlan.to_owned(), U8Node::File(node(0x40, 0x8))),
        (names(Region::K).out_press_brlan.to_owned(), U8Node::File(node(0x60, 0x8))),
    ]);
    let blyt = folder_of(vec![(names(Region::W).brlyt.to_owned(), U8Node::File(node(0x80, 0x8)))]);
    let in_root = U8Node::Folder(folder_of(vec![(
        "arc".to_owned(),
        U8Node::Folder(folder_of(vec![
            ("anim".to_owned(), U8Node::Folder(anim)),
            ("blyt".to_owned(), U8Node::Folder(blyt)),
        ])),
    )]));
    let chunks: Vec<Vec<u8>> = [b"INPBRLAN", b"INTBRLAN", b"LPPBRLAN", b"OTPBRLAN", b"THEBRLYT"]
        .iter()
        .map(|l| padded(l))
        .collect();
    let chunk_refs: Vec<&[u8]> = chunks.iter().map(|c| c.as_slice()).collect();
    let input = archive_bytes(&in_root, &chunk_refs);

    let out = convert_openingtitle_between_regions(
        &input,
        None,
        RegionBitFlags::all(),
        &ConvertOpeningTitleBetweenRegionsConflictStrategies::default(),
    )
    .unwrap();
    let (out_root, out_data_offset) = smallworld::codec::read(&out).unwrap();
    let anim_folder = get_anim_folder(&out_root).unwrap();
    let blyt_folder = get_blyt_folder(&out_root).unwrap();
    for region in Region::DEFAULT_ORDER {
        let n = names(region);
        assert!(anim_folder.get(n.in_press_brlan).is_some());
        assert!(anim_folder.get(n.in_title_brlan).is_some());
        assert!(anim_folder.get(n.loop_press_brlan).is_some());
        assert!(anim_folder.get(n.out_press_brlan).is_some());
        assert!(blyt_folder.get(n.brlyt).is_some());
    }
    assert_eq!(out_data_offset, 0x580);
}

#[test]
fn missing_role_names_the_role() {
    let mut root = make_openingtitle_fnt(&[Region::W], &simple_files());
    get_mut_anim_folder(&mut root).unwrap().remove(names(Region::W).out_press_brlan);
    let input = archive_bytes(&root, &[&[0u8; 64]]);
    let r = convert_openingtitle_between_regions(
        &input,
        Some(&[Region::W]),
        RegionBitFlags::from_region(Region::J),
        &ConvertOpeningTitleBetweenRegionsConflictStrategies::default(),
    );
    assert_eq!(r, Err(ConvertOpeningTitleBetweenRegionsError::MissingFiles("outPress brlan".to_owned())));
}
