use rustfs2::error::FsError;
use rustfs2::inode::{File, Inode, DIR_TYPE, FILE_TYPE};
use rustfs2::layout::Config;
use rustfs2::store::FileSystem;

const BLOCK: usize = 4096;

fn store(total_blocks: usize) -> FileSystem {
    let cfg = Config::new(BLOCK, 64, 512, 0, BLOCK).unwrap();
    FileSystem::format(cfg, total_blocks)
}

fn small_store(list_size: usize, total_blocks: usize) -> FileSystem {
    let cfg = Config::new(64, 32, list_size, 0, 64).unwrap();
    FileSystem::format(cfg, total_blocks)
}

fn file(fs: &mut FileSystem, inum: usize) -> Inode {
    let inode = Inode::new(FILE_TYPE, inum);
    assert_eq!(inode.write_inode(fs), Ok(()));
    inode
}

fn payload(n: usize) -> Vec<u8> {
    (0..n).map(|i| (i * 7 + 3) as u8).collect()
}

#[test]
fn formatted_store_is_zeroed() {
    let fs = store(4);
    assert_eq!(fs.block_count(), 4);
    assert_eq!(fs.next_free(), 1);
    assert_eq!(fs.read_block(3), Ok(vec![0u8; BLOCK]));
    assert_eq!(fs.read_block(4), Err(FsError::DeviceIoFailed));
    assert_eq!(fs.load_inode(9), Ok(Inode::new(0, 9)));
}

#[test]
fn write_six_thousand_bytes_spans_two_blocks() {
    let mut fs = store(16);
    let mut inode = file(&mut fs, 3);
    let data = payload(6000);
    assert_eq!(inode.write(&mut fs, 0, &data), Ok(6000));
    assert_eq!(inode.size(), 6000);
    let direct = inode.direct_pointer().unwrap();
    let table = inode.indirect_pointer().unwrap();
    assert_eq!((direct, table), (1, 2));
    let raw = fs.read_data(table).unwrap();
    let second = Inode::parse_entry(&raw, 0) as usize;
    assert_eq!(second, 3);
    assert_eq!(fs.next_free(), 4);
    assert_eq!(fs.read_data(direct).unwrap(), data[..BLOCK].to_vec());
    assert_eq!(fs.read_data(second).unwrap()[..6000 - BLOCK], data[BLOCK..]);
    assert_eq!(fs.load_inode(3), Ok(inode));

    let mut back = vec![0u8; 6000];
    assert_eq!(inode.read(&fs, 0, &mut back), Ok(6000));
    assert_eq!(back, data);

    let mut tail = vec![0u8; 10];
    assert_eq!(inode.read(&fs, 6000, &mut tail), Err(FsError::PageNotAllocated));
}

#[test]
fn writing_page_zero_twice_allocates_once() {
    let mut fs = store(8);
    let mut inode = file(&mut fs, 0);
    assert_eq!(inode.write(&mut fs, 0, &[1, 2, 3]), Ok(3));
    let first = inode.direct_pointer();
    let mark = fs.next_free();
    assert_eq!(first, Some(1));
    assert_eq!(mark, 2);
    assert_eq!(inode.write(&mut fs, 0, &[9, 9]), Ok(2));
    assert_eq!(inode.direct_pointer(), first);
    assert_eq!(fs.next_free(), mark);
    let mut back = vec![0u8; 3];
    assert_eq!(inode.read(&fs, 0, &mut back), Ok(3));
    assert_eq!(back, vec![9, 9, 3]);
}

#[test]
fn resolving_a_page_twice_gives_the_same_block() {
    let mut fs = store(8);
    let mut inode = file(&mut fs, 1);
    let a = inode.get_or_alloc_page(&mut fs, 0);
    let b = inode.get_or_alloc_page(&mut fs, 0);
    let c = inode.get_or_alloc_page(&mut fs, 2);
    let d = inode.get_or_alloc_page(&mut fs, 2);
    assert_eq!(a, Ok(1));
    assert_eq!(b, a);
    assert_eq!(c, Ok(3));
    assert_eq!(d, c);
    assert_eq!(fs.next_free(), 4);
}

#[test]
fn write_in_the_middle_touches_the_right_blocks() {
    let mut fs = store(16);
    let mut inode = file(&mut fs, 2);
    let data = payload(2 * BLOCK + 10);
    assert_eq!(inode.write(&mut fs, BLOCK - 5, &data), Ok(2 * BLOCK + 10));
    assert_eq!(inode.size(), 3 * BLOCK + 5);
    // pages 0, 1, 2 and 3: the direct block, the table and three entries
    assert_eq!(fs.next_free(), 6);
    let mut back = vec![0u8; 2 * BLOCK + 10];
    assert_eq!(inode.read(&fs, BLOCK - 5, &mut back), Ok(2 * BLOCK + 10));
    assert_eq!(back, data);
    let mut head = vec![1u8; 8];
    assert_eq!(inode.read(&fs, BLOCK - 7, &mut head), Ok(8));
    assert_eq!(head, vec![0, 0, data[0], data[1], data[2], data[3], data[4], data[5]]);
}

#[test]
fn size_never_shrinks() {
    let mut fs = store(16);
    let mut inode = file(&mut fs, 4);
    assert_eq!(inode.write(&mut fs, 0, &payload(5000)), Ok(5000));
    assert_eq!(inode.size(), 5000);
    assert_eq!(inode.write(&mut fs, 100, &[1, 2, 3]), Ok(3));
    assert_eq!(inode.size(), 5000);
    assert_eq!(inode.write(&mut fs, 4998, &[1, 2, 3]), Ok(3));
    assert_eq!(inode.size(), 5001);
    assert_eq!(inode.write(&mut fs, 9000, &[]), Ok(0));
    assert_eq!(inode.size(), 9000);
    assert_eq!(fs.load_inode(4).map(|i| i.size()), Ok(9000));
}

#[test]
fn write_refreshes_a_stale_inode() {
    let mut fs = store(16);
    let mut inode = file(&mut fs, 4);
    let mut stale = inode;
    assert_eq!(inode.write(&mut fs, 0, &payload(100)), Ok(100));
    assert_eq!(stale.write(&mut fs, 10, &[5]), Ok(1));
    assert_eq!(stale, inode);
}

#[test]
fn read_at_or_past_the_size_fails() {
    let mut fs = store(16);
    let mut inode = file(&mut fs, 5);
    let mut buf = vec![0u8; 4];
    assert_eq!(inode.read(&fs, 0, &mut buf), Err(FsError::PageNotAllocated));
    assert_eq!(inode.write(&mut fs, 0, &payload(100)), Ok(100));
    assert_eq!(inode.read(&fs, 100, &mut buf), Err(FsError::PageNotAllocated));
    assert_eq!(inode.read(&fs, 5000, &mut buf), Err(FsError::PageNotAllocated));
    let mut none: Vec<u8> = Vec::new();
    assert_eq!(inode.read(&fs, 100, &mut none), Err(FsError::PageNotAllocated));
    assert_eq!(inode.read(&fs, 99, &mut none), Ok(0));
    // a read that starts inside the file but reaches a page beyond it
    let mut long = vec![0u8; BLOCK];
    assert_eq!(inode.read(&fs, 50, &mut long), Err(FsError::PageNotAllocated));
    assert_eq!(inode.get_page(&fs, 0), Ok(1));
    assert_eq!(inode.get_page(&fs, 1), Err(FsError::PageNotAllocated));
}

#[test]
fn read_of_a_hole_fails() {
    let mut fs = store(16);
    let mut inode = file(&mut fs, 6);
    assert_eq!(inode.write(&mut fs, 2 * BLOCK, &[1]), Ok(1));
    let mut buf = vec![0u8; 1];
    assert_eq!(inode.read(&fs, 2 * BLOCK, &mut buf), Ok(1));
    assert_eq!(buf, vec![1]);
    assert_eq!(inode.read(&fs, 0, &mut buf), Err(FsError::PageNotAllocated));
    assert_eq!(inode.read(&fs, BLOCK, &mut buf), Err(FsError::PageNotAllocated));
}

#[test]
fn last_page_of_the_table_is_the_limit() {
    let mut fs = small_store(8, 16);
    let mut inode = file(&mut fs, 0);
    assert_eq!(inode.get_or_alloc_page(&mut fs, 9), Err(FsError::FileTooLarge));
    assert_eq!(fs.next_free(), 1);
    assert_eq!(inode.get_or_alloc_page(&mut fs, 8), Ok(2));
    assert_eq!(inode.indirect_pointer(), Some(1));
    assert_eq!(inode.write(&mut fs, 9 * 64 - 1, &[7]), Ok(1));
    assert_eq!(inode.write(&mut fs, 9 * 64 - 1, &[7, 8]), Err(FsError::FileTooLarge));
    assert_eq!(inode.write(&mut fs, 9 * 64, &[7]), Err(FsError::FileTooLarge));
    assert_eq!(fs.load_inode(0).map(|i| i.size()), Ok(9 * 64));
}

#[test]
fn allocation_fails_when_the_device_is_full() {
    let mut fs = small_store(8, 4);
    let mut inode = file(&mut fs, 0);
    // one table block and data blocks 0 to 2: blocks 1 and 2 can be handed out
    assert_eq!(inode.write(&mut fs, 0, &[1u8; 64]), Ok(64));
    assert_eq!(inode.write(&mut fs, 64, &[2u8; 8]), Err(FsError::AllocationFailed));
    assert_eq!(fs.alloc_block(), Err(FsError::AllocationFailed));
    // the table block was taken before the failure, and the record says so
    assert_eq!(fs.load_inode(0).map(|i| i.indirect_pointer()), Ok(Some(2)));
    assert_eq!(fs.load_inode(0).map(|i| i.size()), Ok(64));
}

#[test]
fn inode_outside_the_table_is_corrupt() {
    let mut fs = small_store(8, 4);
    let mut stray = Inode::new(FILE_TYPE, 2);
    assert_eq!(stray.write_inode(&mut fs), Err(FsError::CorruptRecord));
    assert_eq!(stray.read_inode(&fs), Err(FsError::CorruptRecord));
    assert_eq!(stray.write(&mut fs, 0, &[1]), Err(FsError::CorruptRecord));
    let mut buf = vec![0u8; 1];
    assert_eq!(stray.read(&fs, 0, &mut buf), Err(FsError::CorruptRecord));
    assert_eq!(Inode::read_file_from_inum(&fs, 2), Err(FsError::CorruptRecord));
}

#[test]
fn entry_that_names_no_block_is_a_device_failure() {
    let mut fs = small_store(8, 8);
    let mut inode = file(&mut fs, 0);
    assert_eq!(inode.write(&mut fs, 64, &[1]), Ok(1));
    let table = inode.indirect_pointer().unwrap();
    let mut raw = fs.read_data(table).unwrap();
    raw[8] = 200;
    assert_eq!(fs.write_data(table, raw), Ok(()));
    assert_eq!(inode.write(&mut fs, 128, &[1]), Err(FsError::DeviceIoFailed));
    assert_eq!(fs.write_block(8, vec![0u8; 64]), Err(FsError::DeviceIoFailed));
    assert_eq!(fs.read_data(7), Err(FsError::DeviceIoFailed));
}

#[test]
fn two_files_do_not_share_blocks() {
    let mut fs = store(16);
    let mut a = file(&mut fs, 0);
    let mut b = file(&mut fs, 1);
    let da = payload(5000);
    let db: Vec<u8> = payload(5000).iter().map(|x| !x).collect();
    assert_eq!(a.write(&mut fs, 0, &da), Ok(5000));
    assert_eq!(b.write(&mut fs, 0, &db), Ok(5000));
    let mut back = vec![0u8; 5000];
    assert_eq!(a.read(&fs, 0, &mut back), Ok(5000));
    assert_eq!(back, da);
    assert_eq!(b.read(&fs, 0, &mut back), Ok(5000));
    assert_eq!(back, db);
}

#[test]
fn read_file_from_inum_classifies_the_record() {
    let mut fs = store(4);
    let f = file(&mut fs, 1);
    let d = Inode::new(DIR_TYPE, 2);
    assert_eq!(d.write_inode(&mut fs), Ok(()));
    assert_eq!(Inode::read_file_from_inum(&fs, 1), Ok(File::DataFile(f)));
    assert_eq!(Inode::read_file_from_inum(&fs, 2), Ok(File::Directory(d)));
    assert_eq!(Inode::read_file_from_inum(&fs, 3), Err(FsError::CorruptRecord));
    let mut fresh = Inode::new(0, 2);
    assert_eq!(fresh.read_inode(&fs), Ok(()));
    assert_eq!(fresh, d);
}

#[test]
fn well_formed_store_is_told_from_a_broken_one() {
    let mut fs = store(4);
    assert!(fs.is_well_formed());
    fs.blocks[2].pop();
    assert!(!fs.is_well_formed());
    let mut fs = store(4);
    fs.next_free = 0;
    assert!(!fs.is_well_formed());
    let mut fs = store(4);
    fs.cfg.inode_size = 48;
    assert!(!fs.is_well_formed());
}

#[test]
fn rewriting_one_file_leaves_the_other() {
    let mut fs = store(32);
    let mut a = file(&mut fs, 0);
    let mut b = file(&mut fs, 1);
    let db = payload(3 * BLOCK);
    assert_eq!(b.write(&mut fs, 10, &db), Ok(3 * BLOCK));
    assert_eq!(a.write(&mut fs, 0, &payload(2 * BLOCK)), Ok(2 * BLOCK));
    assert_eq!(a.write(&mut fs, BLOCK + 1, &[0xee; 9000]), Ok(9000));
    let mut back = vec![0u8; 3 * BLOCK];
    assert_eq!(b.read(&fs, 10, &mut back), Ok(3 * BLOCK));
    assert_eq!(back, db);
    assert_eq!(fs.load_inode(1), Ok(b));
}

#[test]
fn device_takes_whole_blocks_only() {
    let mut fs = store(4);
    assert_eq!(fs.write_block(1, vec![7u8; BLOCK - 1]), Err(FsError::DeviceIoFailed));
    assert_eq!(fs.write_data(1, vec![7u8; BLOCK + 1]), Err(FsError::DeviceIoFailed));
    assert_eq!(fs.read_block(1), Ok(vec![0u8; BLOCK]));
    assert_eq!(fs.write_block(1, vec![7u8; BLOCK]), Ok(()));
    assert_eq!(fs.read_data(0), Ok(vec![7u8; BLOCK]));
}
