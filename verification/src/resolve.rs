//! From a file's logical page to the data block behind it.

use vstd::prelude::*;
use vstd::bytes::*;
use crate::codec::{field_at, get_field, overwrite, put_field};
use crate::error::FsError;
use crate::inode::{File, Inode};
use crate::layout::{lemma_record_place, FIELD_WIDTH};
use crate::store::{lemma_stored_after_with_inode, zeroed, FileSystem, Image};

verus! {

/// A block of `n` zero bytes: what a fresh indirection block holds.
pub open spec fn zero_block(n: int) -> Seq<u8> {
    Seq::new(n as nat, |k: int| 0u8)
}

/// The block number that a stored entry names, where this machine can
/// address it.
pub open spec fn entry_block(v: u64) -> Result<usize, FsError> {
    if v <= usize::MAX {
        Ok(v as usize)
    } else {
        Err(FsError::DeviceIoFailed)
    }
}

impl Image {
    /// Entry `index` of the indirection block in data block `table`. Zero
    /// stands for a page that has no block yet.
    pub open spec fn entry(self, table: usize, index: int) -> u64 {
        field_at(self.data(table), index * 8)
    }

    /// The data block behind page `num` of inode `inum`, for reading: the
    /// page must lie inside the file's recorded size and have a block.
    pub open spec fn page_of(self, inum: usize, num: usize) -> Result<usize, FsError> {
        match self.stored(inum) {
            None => Err(FsError::CorruptRecord),
            Some(inode) => {
                if num * self.cfg.block_size >= inode.size {
                    Err(FsError::PageNotAllocated)
                } else if num == 0 {
                    match inode.single {
                        Some(p) => Ok(p),
                        None => Err(FsError::PageNotAllocated),
                    }
                } else if num > self.cfg.list_size {
                    Err(FsError::FileTooLarge)
                } else {
                    match inode.double {
                        None => Err(FsError::PageNotAllocated),
                        Some(d) => {
                            if !self.has_data(d) {
                                Err(FsError::DeviceIoFailed)
                            } else if self.entry(d, num - 1) == 0 {
                                Err(FsError::PageNotAllocated)
                            } else {
                                entry_block(self.entry(d, num - 1))
                            }
                        },
                    }
                }
            },
        }
    }

    /// Page 0: the direct pointer, set to a fresh block where it is unset.
    pub open spec fn alloc_direct(self, inode: Inode) -> (Result<usize, FsError>, Image) {
        match inode.single {
            Some(p) => (Ok(p), self),
            None => {
                if !self.has_data(self.next_free) {
                    (Err(FsError::AllocationFailed), self)
                } else {
                    (
                        Ok(self.next_free),
                        self.bumped().with_inode(Inode { single: Some(self.next_free), ..inode }),
                    )
                }
            },
        }
    }

    /// The indirection block, set to a fresh zeroed block where it is unset.
    pub open spec fn alloc_table(self, inode: Inode) -> (Result<usize, FsError>, Image) {
        match inode.double {
            Some(d) => (Ok(d), self),
            None => {
                if !self.has_data(self.next_free) {
                    (Err(FsError::AllocationFailed), self)
                } else {
                    (
                        Ok(self.next_free),
                        self.bumped().with_data(
                            self.next_free,
                            zero_block(self.cfg.block_size as int),
                        ).with_inode(Inode { double: Some(self.next_free), ..inode }),
                    )
                }
            },
        }
    }

    /// Entry `index` of the indirection block `table`, set to a fresh block
    /// where it is zero.
    pub open spec fn alloc_entry(self, table: usize, index: int) -> (Result<usize, FsError>, Image) {
        if !self.has_data(table) {
            (Err(FsError::DeviceIoFailed), self)
        } else if self.entry(table, index) != 0 {
            (entry_block(self.entry(table, index)), self)
        } else if !self.has_data(self.next_free) {
            (Err(FsError::AllocationFailed), self)
        } else {
            (
                Ok(self.next_free),
                self.bumped().with_data(
                    table,
                    overwrite(
                        self.data(table),
                        index * 8,
                        spec_u64_to_le_bytes(self.next_free as u64),
                    ),
                ),
            )
        }
    }

    /// The data block behind page `num` of inode `inum`, for writing, and
    /// the store after whatever had to be allocated for it was allocated
    /// and recorded.
    pub open spec fn alloc_page(self, inum: usize, num: usize) -> (Result<usize, FsError>, Image) {
        if num > self.cfg.list_size {
            (Err(FsError::FileTooLarge), self)
        } else {
            match self.stored(inum) {
                None => (Err(FsError::CorruptRecord), self),
                Some(inode) => {
                    if num == 0 {
                        self.alloc_direct(inode)
                    } else {
                        match self.alloc_table(inode).0 {
                            Ok(d) => self.alloc_table(inode).1.alloc_entry(d, num - 1),
                            Err(e) => (Err(e), self.alloc_table(inode).1),
                        }
                    }
                },
            }
        }
    }
}

/// Overwriting a data block leaves the inode table as it was.
pub proof fn lemma_with_data_keeps_records(img: Image, phys: usize, content: Seq<u8>, inum: usize)
    requires
        img.wf(),
        img.has_data(phys),
        content.len() == img.cfg.block_size,
    ensures
        img.with_data(phys, content).wf(),
        img.with_data(phys, content).stored(inum) == img.stored(inum),
        img.with_data(phys, content).has_record(inum) == img.has_record(inum),
        img.with_data(phys, content).blocks.len() == img.blocks.len(),
{
    lemma_record_place(img.cfg, inum as int);
}

/// Filling an entry of an indirection block leaves the inode table as it
/// was, and the store well formed.
pub proof fn lemma_alloc_entry_keeps_records(img: Image, table: usize, index: int, inum: usize)
    requires
        img.wf(),
        0 <= index < img.cfg.list_size,
    ensures
        img.alloc_entry(table, index).1.wf(),
        img.alloc_entry(table, index).1.cfg == img.cfg,
        img.alloc_entry(table, index).1.blocks.len() == img.blocks.len(),
        img.alloc_entry(table, index).1.next_free >= img.next_free,
        img.alloc_entry(table, index).1.stored(inum) == img.stored(inum),
{
    lemma_record_place(img.cfg, inum as int);
    if img.has_data(table) && img.entry(table, index) == 0 && img.has_data(img.next_free) {
        lemma_auto_spec_u64_to_from_le_bytes();
        let content = overwrite(
            img.data(table),
            index * 8,
            spec_u64_to_le_bytes(img.next_free as u64),
        );
        assert(index * 8 + 8 <= img.cfg.block_size) by (nonlinear_arith)
            requires
                0 <= index < img.cfg.list_size,
                img.cfg.list_size * 8 <= img.cfg.block_size,
        ;
        assert(content.len() == img.cfg.block_size);
        assert(img.bumped().wf());
        lemma_with_data_keeps_records(img.bumped(), table, content, inum);
    }
}

/// Resolving a page for writing keeps the store well formed and its
/// device as large as it was; it never takes a block back; and of the
/// inode's record it changes the pointers only, leaving every other
/// inode's record alone.
pub proof fn lemma_alloc_page_keeps(img: Image, inum: usize, num: usize, other: usize)
    requires
        img.wf(),
    ensures
        img.alloc_page(inum, num).1.wf(),
        img.alloc_page(inum, num).1.cfg == img.cfg,
        img.alloc_page(inum, num).1.blocks.len() == img.blocks.len(),
        img.alloc_page(inum, num).1.next_free >= img.next_free,
        other != inum ==> img.alloc_page(inum, num).1.stored(other) == img.stored(other),
        img.stored(inum) is Some ==> {
            &&& img.alloc_page(inum, num).1.stored(inum) is Some
            &&& img.alloc_page(inum, num).1.stored(inum)->Some_0.size == img.stored(
                inum,
            )->Some_0.size
            &&& img.alloc_page(inum, num).1.stored(inum)->Some_0.dirtype == img.stored(
                inum,
            )->Some_0.dirtype
            &&& img.stored(inum)->Some_0.single is Some ==> img.alloc_page(inum, num).1.stored(
                inum,
            )->Some_0.single == img.stored(inum)->Some_0.single
            &&& img.stored(inum)->Some_0.double is Some ==> img.alloc_page(inum, num).1.stored(
                inum,
            )->Some_0.double == img.stored(inum)->Some_0.double
        },
        img.alloc_page(inum, num).0 is Ok ==> img.stored(inum) is Some && num
            <= img.cfg.list_size,
        img.alloc_page(inum, num).0 is Ok && num == 0 ==> img.alloc_page(inum, num).1.stored(
            inum,
        )->Some_0.single == Some(img.alloc_page(inum, num).0->Ok_0),
{
    lemma_record_place(img.cfg, inum as int);
    if num <= img.cfg.list_size && img.stored(inum) is Some {
        let inode = img.stored(inum)->Some_0;
        if num == 0 {
            if inode.single is None && img.has_data(img.next_free) {
                let next = Inode { single: Some(img.next_free), ..inode };
                lemma_stored_after_with_inode(img.bumped(), next, other);
            }
        } else {
            let mid = img.alloc_table(inode).1;
            if inode.double is None && img.has_data(img.next_free) {
                let next = Inode { double: Some(img.next_free), ..inode };
                let zeroed = img.bumped().with_data(
                    img.next_free,
                    zero_block(img.cfg.block_size as int),
                );
                lemma_with_data_keeps_records(
                    img.bumped(),
                    img.next_free,
                    zero_block(img.cfg.block_size as int),
                    inum,
                );
                lemma_with_data_keeps_records(
                    img.bumped(),
                    img.next_free,
                    zero_block(img.cfg.block_size as int),
                    other,
                );
                lemma_stored_after_with_inode(zeroed, next, other);
            }
            assert(mid.wf());
            if img.alloc_table(inode).0 is Ok {
                let d = img.alloc_table(inode).0->Ok_0;
                lemma_alloc_entry_keeps_records(mid, d, num - 1, inum);
                lemma_alloc_entry_keeps_records(mid, d, num - 1, other);
            }
        }
    }
}

/// The direct pointer is allocated once: resolving page 0 again gives the
/// block that the first time gave, and changes nothing on the device nor
/// in the allocator.
pub proof fn lemma_direct_allocated_once(img: Image, inum: usize)
    requires
        img.wf(),
        img.alloc_page(inum, 0).0 is Ok,
    ensures
        img.alloc_page(inum, 0).1.alloc_page(inum, 0) == img.alloc_page(inum, 0),
{
    lemma_alloc_page_keeps(img, inum, 0, inum);
}

/// Any page beyond the last entry of the indirection block is refused as
/// too large, with nothing changed; no page up to it is. Up to it, a page
/// of an inode that can be read is resolved whenever the allocator can
/// still hand out what is missing and what the record points to is there:
/// page 0 with its pointer set or one block free; a later page with no
/// indirection block yet and two blocks free, or with an indirection
/// block on the device whose entry is a block number, set or one block
/// free.
pub proof fn lemma_capacity_boundary(img: Image, inum: usize, num: usize)
    requires
        img.wf(),
    ensures
        num > img.cfg.list_size ==> img.alloc_page(inum, num) == (
            Err::<usize, FsError>(FsError::FileTooLarge),
            img,
        ),
        num <= img.cfg.list_size ==> img.alloc_page(inum, num).0 != Err::<usize, FsError>(
            FsError::FileTooLarge,
        ),
        num <= img.cfg.list_size && img.stored(inum) is Some && num == 0 && (img.stored(
            inum,
        )->Some_0.single is Some || img.has_data(img.next_free)) ==> img.alloc_page(inum, num).0
            is Ok,
        1 <= num <= img.cfg.list_size && img.stored(inum) is Some && img.stored(
            inum,
        )->Some_0.double is None && img.has_data(img.next_free) && img.has_data(
            (img.next_free + 1) as usize,
        ) && img.next_free < usize::MAX ==> img.alloc_page(inum, num).0 == Ok::<usize, FsError>(
            (img.next_free + 1) as usize,
        ),
        1 <= num <= img.cfg.list_size && img.stored(inum) is Some && img.stored(
            inum,
        )->Some_0.double is Some && img.has_data(img.stored(inum)->Some_0.double->Some_0)
            && img.entry(img.stored(inum)->Some_0.double->Some_0, num - 1) <= usize::MAX && (
        img.entry(img.stored(inum)->Some_0.double->Some_0, num - 1) != 0 || img.has_data(
            img.next_free,
        )) ==> img.alloc_page(inum, num).0 is Ok,
{
    if 1 <= num <= img.cfg.list_size && img.stored(inum) is Some && img.stored(
        inum,
    )->Some_0.double is None && img.has_data(img.next_free) && img.has_data(
        (img.next_free + 1) as usize,
    ) && img.next_free < usize::MAX {
        let inode = img.stored(inum)->Some_0;
        let table = img.next_free;
        let blank = zero_block(img.cfg.block_size as int);
        let zeroed = img.bumped().with_data(table, blank);
        let next = Inode { double: Some(table), ..inode };
        let mid = zeroed.with_inode(next);
        lemma_record_place(img.cfg, inum as int);
        lemma_with_data_keeps_records(img.bumped(), table, blank, inum);
        lemma_stored_after_with_inode(zeroed, next, inum);
        assert((num - 1) * 8 + 8 <= img.cfg.block_size) by (nonlinear_arith)
            requires
                1 <= num <= img.cfg.list_size,
                img.cfg.list_size * 8 <= img.cfg.block_size,
        ;
        assert(mid.data(table) == blank);
        lemma_zero_entry(blank, (num - 1) * 8);
        assert(mid.entry(table, num - 1) == 0);
    }
}

/// Eight zero bytes hold the number zero.
pub proof fn lemma_zero_entry(s: Seq<u8>, off: int)
    requires
        0 <= off,
        off + 8 <= s.len(),
        forall|k: int| off <= k < off + 8 ==> s[k] == 0,
    ensures
        field_at(s, off) == 0,
{
    lemma_auto_spec_u64_to_from_le_bytes();
    spec_u64_to_le_bytes_to_open(0u64);
    assert(0u64 & 0xff == 0 && (0u64 >> 8) & 0xff == 0 && (0u64 >> 16) & 0xff == 0 && (0u64 >> 24)
        & 0xff == 0 && (0u64 >> 32) & 0xff == 0 && (0u64 >> 40) & 0xff == 0 && (0u64 >> 48) & 0xff
        == 0 && (0u64 >> 56) & 0xff == 0) by (bit_vector);
    assert(s.subrange(off, off + 8) =~= spec_u64_to_le_bytes_open(0u64));
}

impl Inode {
    /// Entry `index` of an indirection block that was read whole.
    pub fn parse_entry(raw: &[u8], index: usize) -> (v: u64)
        requires
            index * FIELD_WIDTH + FIELD_WIDTH <= raw.len(),
        ensures
            v == field_at(raw@, index * 8),
    {
        get_field(raw, index * FIELD_WIDTH)
    }

    /// Refreshes this inode from its record on the device.
    pub fn read_inode(&mut self, fs: &FileSystem) -> (r: Result<(), FsError>)
        requires
            fs@.wf(),
        ensures
            fs@.stored(old(self).inum) is Some ==> r is Ok && Some(*final(self)) == fs@.stored(
                old(self).inum,
            ),
            fs@.stored(old(self).inum) is None ==> r == Err::<(), FsError>(
                FsError::CorruptRecord,
            ) && *final(self) == *old(self),
    {
        match fs.load_inode(self.inum) {
            Ok(stored) => {
                *self = stored;
                Ok(())
            },
            Err(e) => Err(e),
        }
    }

    /// Writes this inode's record to the device.
    pub fn write_inode(&self, fs: &mut FileSystem) -> (r: Result<(), FsError>)
        requires
            old(fs)@.wf(),
        ensures
            final(fs)@.wf(),
            old(fs)@.has_record(self.inum) ==> r is Ok && final(fs)@ == old(fs)@.with_inode(*self),
            !old(fs)@.has_record(self.inum) ==> r == Err::<(), FsError>(FsError::CorruptRecord)
                && final(fs)@ == old(fs)@,
    {
        fs.store_inode(self)
    }

    /// Reads the inode `inum` from the table and tells what it is.
    pub fn read_file_from_inum(fs: &FileSystem, inum: usize) -> (r: Result<File, FsError>)
        requires
            fs@.wf(),
        ensures
            r == (match fs@.stored(inum) {
                Some(inode) => if inode.dirtype == crate::inode::DIR_TYPE {
                    Ok::<File, FsError>(File::Directory(inode))
                } else if inode.dirtype == crate::inode::FILE_TYPE {
                    Ok(File::DataFile(inode))
                } else {
                    Err(FsError::CorruptRecord)
                },
                None => Err(FsError::CorruptRecord),
            }),
    {
        match fs.load_inode(inum) {
            Ok(inode) => inode.classify(),
            Err(e) => Err(e),
        }
    }

    /// The data block behind page `num`, by the record on the device; for
    /// reading, so nothing is allocated.
    pub fn get_page(&self, fs: &FileSystem, num: usize) -> (r: Result<usize, FsError>)
        requires
            fs@.wf(),
        ensures
            r == fs@.page_of(self.inum, num),
    {
        let stored = match fs.load_inode(self.inum) {
            Ok(i) => i,
            Err(e) => { return Err(e); },
        };
        let beyond = match num.checked_mul(fs.cfg.block_size) {
            Some(first_byte) => first_byte >= stored.size,
            None => true,
        };
        if beyond {
            return Err(FsError::PageNotAllocated);
        }
        if num == 0 {
            return match stored.single {
                Some(p) => Ok(p),
                None => Err(FsError::PageNotAllocated),
            };
        }
        if num > fs.cfg.list_size {
            return Err(FsError::FileTooLarge);
        }
        let table = match stored.double {
            Some(d) => d,
            None => { return Err(FsError::PageNotAllocated); },
        };
        let raw = match fs.read_data(table) {
            Ok(raw) => raw,
            Err(e) => { return Err(e); },
        };
        assert((num - 1) * FIELD_WIDTH + FIELD_WIDTH <= raw.len()) by (nonlinear_arith)
            requires
                1 <= num <= fs.cfg.list_size,
                fs.cfg.list_size * FIELD_WIDTH <= raw.len(),
        ;
        let entry = Inode::parse_entry(raw.as_slice(), num - 1);
        if entry == 0 {
            Err(FsError::PageNotAllocated)
        } else if entry > usize::MAX as u64 {
            Err(FsError::DeviceIoFailed)
        } else {
            Ok(entry as usize)
        }
    }

    /// The data block behind page `num`, for writing: what is missing on
    /// the way to it is allocated and recorded on the device, and this
    /// inode is brought up to date with its record.
    pub fn get_or_alloc_page(&mut self, fs: &mut FileSystem, num: usize) -> (r: Result<
        usize,
        FsError,
    >)
        requires
            old(fs)@.wf(),
        ensures
            final(fs)@.wf(),
            r == old(fs)@.alloc_page(old(self).inum, num).0,
            final(fs)@ == old(fs)@.alloc_page(old(self).inum, num).1,
            final(self).inum == old(self).inum,
            r is Ok ==> final(fs)@.stored(old(self).inum) == Some(*final(self)),
    {
        proof {
            lemma_alloc_page_keeps(fs@, self.inum, num, self.inum);
        }
        if num > fs.cfg.list_size {
            return Err(FsError::FileTooLarge);
        }
        let stored = match fs.load_inode(self.inum) {
            Ok(i) => i,
            Err(e) => { return Err(e); },
        };
        *self = stored;
        if num == 0 {
            take_direct(fs, self)
        } else {
            let table = match take_table(fs, self) {
                Ok(d) => d,
                Err(e) => { return Err(e); },
            };
            proof {
                lemma_alloc_entry_keeps_records(fs@, table, num - 1, self.inum);
            }
            take_entry(fs, table, num - 1)
        }
    }
}

/// Page 0 of `inode`, which is the inode as the device holds it.
fn take_direct(fs: &mut FileSystem, inode: &mut Inode) -> (r: Result<usize, FsError>)
    requires
        old(fs)@.wf(),
        old(fs)@.stored(old(inode).inum) == Some(*old(inode)),
    ensures
        final(fs)@.wf(),
        r == old(fs)@.alloc_direct(*old(inode)).0,
        final(fs)@ == old(fs)@.alloc_direct(*old(inode)).1,
        final(inode).inum == old(inode).inum,
        final(fs)@.stored(old(inode).inum) == Some(*final(inode)),
{
    match inode.single {
        Some(p) => Ok(p),
        None => {
            let p = match fs.alloc_block() {
                Ok(p) => p,
                Err(e) => { return Err(e); },
            };
            inode.single = Some(p);
            proof {
                lemma_stored_after_with_inode(fs@, *inode, inode.inum);
            }
            match fs.store_inode(inode) {
                Ok(()) => Ok(p),
                Err(e) => Err(e),
            }
        },
    }
}

/// The indirection block of `inode`, which is the inode as the device
/// holds it.
fn take_table(fs: &mut FileSystem, inode: &mut Inode) -> (r: Result<usize, FsError>)
    requires
        old(fs)@.wf(),
        old(fs)@.stored(old(inode).inum) == Some(*old(inode)),
    ensures
        final(fs)@.wf(),
        r == old(fs)@.alloc_table(*old(inode)).0,
        final(fs)@ == old(fs)@.alloc_table(*old(inode)).1,
        final(inode).inum == old(inode).inum,
        final(fs)@.stored(old(inode).inum) == Some(*final(inode)),
{
    match inode.double {
        Some(d) => Ok(d),
        None => {
            let d = match fs.alloc_block() {
                Ok(d) => d,
                Err(e) => { return Err(e); },
            };
            let blank = zeroed(fs.cfg.block_size);
            assert(blank@ =~= zero_block(fs.cfg.block_size as int));
            proof {
                lemma_with_data_keeps_records(fs@, d, blank@, inode.inum);
            }
            match fs.write_data(d, blank) {
                Ok(()) => {},
                Err(e) => { return Err(e); },
            }
            inode.double = Some(d);
            proof {
                lemma_stored_after_with_inode(fs@, *inode, inode.inum);
            }
            match fs.store_inode(inode) {
                Ok(()) => Ok(d),
                Err(e) => Err(e),
            }
        },
    }
}

/// Entry `index` of the indirection block in data block `table`.
fn take_entry(fs: &mut FileSystem, table: usize, index: usize) -> (r: Result<usize, FsError>)
    requires
        old(fs)@.wf(),
        index < old(fs)@.cfg.list_size,
    ensures
        final(fs)@.wf(),
        r == old(fs)@.alloc_entry(table, index as int).0,
        final(fs)@ == old(fs)@.alloc_entry(table, index as int).1,
{
    let mut raw = match fs.read_data(table) {
        Ok(raw) => raw,
        Err(e) => { return Err(e); },
    };
    assert(index * FIELD_WIDTH + FIELD_WIDTH <= raw.len()) by (nonlinear_arith)
        requires
            index < fs.cfg.list_size,
            fs.cfg.list_size * FIELD_WIDTH <= raw.len(),
    ;
    let entry = Inode::parse_entry(raw.as_slice(), index);
    if entry != 0 {
        return if entry > usize::MAX as u64 {
            Err(FsError::DeviceIoFailed)
        } else {
            Ok(entry as usize)
        };
    }
    let p = match fs.alloc_block() {
        Ok(p) => p,
        Err(e) => { return Err(e); },
    };
    put_field(&mut raw, index * FIELD_WIDTH, p as u64);
    match fs.write_data(table, raw) {
        Ok(()) => Ok(p),
        Err(e) => Err(e),
    }
}

} // verus!
