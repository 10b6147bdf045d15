use smallworld::region::{read_region_list_str, Region};
use smallworld::util::{calc_hash_from_file_slice, read_from_into, write_right_aligned_str, write_zeros_to_align_to, ByteCursor};

#[test]
fn test_write_zeros_to_align_to() {
    for relative_to in [0i64, 1, 2] {
        for base in [0i64, 0x20, 0x40] {
            for adj in [-2i64, -1, 0, 1, 2] {
                if relative_to + base + adj < 0 {
                    continue;
                }
                let written = (relative_to + base + adj) as u64;
                let relative_to = relative_to as u64;
                if written < relative_to {
                    continue;
                }
                let mut cursor = ByteCursor::new(Vec::new());
                if written > 0 {
                    cursor.write_all(&vec![0; written as usize]);
                }
                write_zeros_to_align_to(&mut cursor, 0x20, relative_to).unwrap();
                let final_pos = cursor.stream_position();
                assert!(final_pos >= written, "cursor somehow moved backwards");
                assert_eq!((final_pos - relative_to) % 0x20, 0, "alignment didn't work");
            }
        }
    }
}

#[test]
fn util_test_simple() {
    let mut vec_1 = ByteCursor::new(vec![0, 1, 2, 3, 4, 5, 6, 7]);
    let mut vec_2 = ByteCursor::new(vec![8, 9, 10, 11, 12, 13, 14, 15]);
    vec_2.seek(6);
    read_from_into(&mut vec_1, &mut vec_2, 5).unwrap();
    assert_eq!(vec_1.into_inner(), vec![0, 1, 2, 3, 4, 5, 6, 7]);
    assert_eq!(vec_2.into_inner(), vec![8, 9, 10, 11, 12, 13, 0, 1, 2, 3, 4]);
}

#[test]
fn test_oob() {
    let mut vec_1 = ByteCursor::new(vec![0, 1, 2, 3]);
    let mut vec_2 = ByteCursor::new(vec![8, 9, 10, 11]);
    assert!(read_from_into(&mut vec_1, &mut vec_2, 5).is_err());
}

#[test]
fn test_write_right_aligned_str() {
    let mut s = String::new();
    let mut amount_written = 0;
    write_right_aligned_str(&mut s, &mut amount_written, 10, "");
    assert_eq!(s, "          ");
    assert_eq!(amount_written, 10);

    let mut s = String::new();
    let mut amount_written = 5;
    write_right_aligned_str(&mut s, &mut amount_written, 10, "aa");
    assert_eq!(s, "   aa");
    assert_eq!(amount_written, 10);

    let mut s = String::new();
    let mut amount_written = 7;
    write_right_aligned_str(&mut s, &mut amount_written, 10, "aa");
    assert_eq!(s, " aa");
    assert_eq!(amount_written, 10);

    let mut s = String::new();
    let mut amount_written = 7;
    write_right_aligned_str(&mut s, &mut amount_written, 10, "aaa");
    assert_eq!(s, "aaa");
    assert_eq!(amount_written, 10);

    let mut s = String::new();
    let mut amount_written = 7;
    write_right_aligned_str(&mut s, &mut amount_written, 10, "aaaa");
    assert_eq!(s, "aaaa");
    assert_eq!(amount_written, 11);
}

#[test]
fn test_calc_hash_from_file_slice() {
    let data = b"AAAABBBBAAAABBBBCCCCDDDD".to_vec();
    assert_eq!(calc_hash_from_file_slice(&data, 0, 8).unwrap(), calc_hash_from_file_slice(&data, 8, 8).unwrap());
    assert_ne!(calc_hash_from_file_slice(&data, 0, 8).unwrap(), calc_hash_from_file_slice(&data, 16, 8).unwrap());
    assert!(calc_hash_from_file_slice(&data, 20, 8).is_err());
}

#[test]
fn test_read_region_list_str() {
    assert_eq!(&read_region_list_str("E").unwrap(), &[Region::E]);
    assert_eq!(&read_region_list_str("e,k,c").unwrap(), &[Region::E, Region::K, Region::C]);
    assert_eq!(&read_region_list_str("all").unwrap(), &Region::DEFAULT_ORDER);
    assert_eq!(&read_region_list_str("ALL").unwrap(), &Region::DEFAULT_ORDER);

    assert!(read_region_list_str("").is_err());
    assert!(read_region_list_str(",").is_err());
    assert!(read_region_list_str("test").is_err());
    assert!(read_region_list_str("e,e").is_err());
}

#[test]
fn region_names_parse_in_any_case() {
    assert_eq!("w".parse::<Region>().unwrap(), Region::W);
    assert_eq!(Region::W.code(), "W");
    assert!("x".parse::<Region>().is_err());
}
