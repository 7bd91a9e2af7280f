use rustfs2::codec::{copy_into, get_field, put_field};
use rustfs2::error::FsError;
use rustfs2::inode::{File, Inode, DIR_TYPE, FILE_TYPE};
use rustfs2::layout::Config;
use rustfs2::span::ceil_div;

fn sample(kind: usize, size: usize, single: Option<usize>, double: Option<usize>) -> Inode {
    Inode { inum: 7, dirtype: kind, single, double, size }
}

#[test]
fn field_is_stored_little_endian() {
    let mut buf = vec![0xffu8; 12];
    put_field(&mut buf, 2, 0x0102_0304_0506_0708);
    assert_eq!(buf, vec![0xff, 0xff, 8, 7, 6, 5, 4, 3, 2, 1, 0xff, 0xff]);
    assert_eq!(get_field(&buf, 2), 0x0102_0304_0506_0708);
}

#[test]
fn copy_into_replaces_only_its_range() {
    let mut dst = vec![0u8; 6];
    copy_into(&mut dst, 1, &[9, 8, 7, 6, 5], 2, 3);
    assert_eq!(dst, vec![0, 7, 6, 5, 0, 0]);
}

#[test]
fn record_layout_is_kind_size_direct_indirect() {
    let inode = sample(FILE_TYPE, 6000, Some(3), Some(4));
    let mut buf = vec![0xaau8; 48];
    inode.encode(&mut buf, 8);
    let mut expected = vec![0xaau8; 8];
    expected.extend_from_slice(&1u64.to_le_bytes());
    expected.extend_from_slice(&6000u64.to_le_bytes());
    expected.extend_from_slice(&3u64.to_le_bytes());
    expected.extend_from_slice(&4u64.to_le_bytes());
    expected.extend_from_slice(&[0xaau8; 8]);
    assert_eq!(buf, expected);
}

#[test]
fn decode_gives_back_what_encode_wrote() {
    let cases = [
        sample(FILE_TYPE, 0, None, None),
        sample(DIR_TYPE, 1, Some(1), None),
        sample(FILE_TYPE, 6000, Some(3), Some(4)),
        sample(FILE_TYPE, usize::MAX, Some(usize::MAX), Some(usize::MAX - 1)),
        sample(99, 4096, None, Some(12)),
    ];
    for inode in cases {
        let mut buf = vec![0x5au8; 96];
        inode.encode(&mut buf, 32);
        assert_eq!(Inode::decode(7, &buf, 32), Ok(inode));
    }
}

#[test]
fn unset_pointers_are_stored_as_zero() {
    let mut buf = vec![0xffu8; 32];
    sample(FILE_TYPE, 10, None, None).encode(&mut buf, 0);
    assert_eq!(&buf[16..32], &[0u8; 16]);
    let zeros = vec![0u8; 32];
    assert_eq!(Inode::decode(5, &zeros, 0), Ok(Inode::new(0, 5)));
}

#[test]
fn decode_of_a_short_buffer_is_corrupt() {
    let buf = vec![0u8; 40];
    assert_eq!(Inode::decode(0, &buf, 9), Err(FsError::CorruptRecord));
    assert_eq!(Inode::decode(0, &buf, usize::MAX), Err(FsError::CorruptRecord));
    assert!(Inode::decode(0, &buf, 8).is_ok());
}

#[test]
fn new_inode_is_empty() {
    let inode = Inode::new(FILE_TYPE, 42);
    assert_eq!(inode.inum, 42);
    assert_eq!(inode.dirtype, FILE_TYPE);
    assert_eq!(inode.size(), 0);
    assert_eq!(inode.direct_pointer(), None);
    assert_eq!(inode.indirect_pointer(), None);
}

#[test]
fn classify_tells_files_from_directories() {
    let file = Inode::new(FILE_TYPE, 1);
    let dir = Inode::new(DIR_TYPE, 2);
    assert_eq!(file.classify(), Ok(File::DataFile(file)));
    assert_eq!(dir.classify(), Ok(File::Directory(dir)));
    assert_eq!(Inode::new(0, 3).classify(), Err(FsError::CorruptRecord));
}

#[test]
fn parse_entry_reads_the_indexed_field() {
    let mut raw = vec![0u8; 64];
    put_field(&mut raw, 24, 77);
    assert_eq!(Inode::parse_entry(&raw, 3), 77);
    assert_eq!(Inode::parse_entry(&raw, 2), 0);
}

#[test]
fn ceil_div_rounds_up() {
    assert_eq!(ceil_div(0, 4096), 0);
    assert_eq!(ceil_div(1, 4096), 1);
    assert_eq!(ceil_div(4096, 4096), 1);
    assert_eq!(ceil_div(4097, 4096), 2);
    assert_eq!(ceil_div(6000, 4096), 2);
    assert_eq!(ceil_div(usize::MAX, 1), usize::MAX);
    assert_eq!(ceil_div(usize::MAX, usize::MAX), 1);
    assert_eq!(ceil_div(usize::MAX, 2), usize::MAX / 2 + 1);
}

#[test]
fn config_accepts_only_usable_geometry() {
    assert!(Config::new(4096, 64, 512, 0, 4096).is_some());
    assert!(Config::new(4096, 32, 512, 4096, 4096).is_some());
    assert_eq!(Config::new(4096, 16, 512, 0, 4096), None);
    assert_eq!(Config::new(4096, 48, 512, 0, 4096), None);
    assert_eq!(Config::new(4096, 64, 513, 0, 4096), None);
    assert_eq!(Config::new(4096, 64, 512, 100, 4096), None);
    assert_eq!(Config::new(4096, 64, 512, 0, 4000), None);
    assert_eq!(Config::new(4096, 64, 512, 8192, 4096), None);
    assert_eq!(Config::new(16, 64, 1, 0, 0), None);
}

#[test]
fn inode_records_tile_the_table() {
    let cfg = Config::new(4096, 64, 512, 4096, 3 * 4096).unwrap();
    assert_eq!(cfg.locate_inode(0), Some((1, 0)));
    assert_eq!(cfg.locate_inode(1), Some((1, 64)));
    assert_eq!(cfg.locate_inode(63), Some((1, 4032)));
    assert_eq!(cfg.locate_inode(64), Some((2, 0)));
    assert_eq!(cfg.locate_inode(127), Some((2, 4032)));
    assert_eq!(cfg.locate_inode(128), None);
    assert_eq!(cfg.locate_data(0), Some(3));
    assert_eq!(cfg.locate_data(5), Some(8));
    assert_eq!(cfg.locate_data(usize::MAX), None);
}
