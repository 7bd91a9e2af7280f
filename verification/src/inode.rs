//! The inode: a file's metadata record and its on-disk form.

use vstd::prelude::*;
use vstd::bytes::*;
use crate::codec::{field_at, get_field, overwrite, put_field};
use crate::error::FsError;
use crate::layout::{FIELD_WIDTH, RECORD_BYTES};

verus! {

/// Kind of an inode that is a plain file.
pub const FILE_TYPE: usize = 1;

/// Kind of an inode that is a directory.
pub const DIR_TYPE: usize = 2;

/// Per-file metadata. Block 0 of the data region is never handed out, so a
/// stored pointer of zero means that the pointer is unset.
#[derive(Clone, Copy, Debug, PartialEq, Eq, Structural)]
pub struct Inode {
    /// The inode's number; it fixes where the record lives.
    pub inum: usize,
    /// File or directory.
    pub dirtype: usize,
    /// Data block that holds logical page 0.
    pub single: Option<usize>,
    /// Block that holds the entries for the pages from 1 on.
    pub double: Option<usize>,
    /// Length of the file in bytes.
    pub size: usize,
}

/// What an inode read from the table turns out to be.
#[derive(Clone, Copy, Debug, PartialEq, Eq, Structural)]
pub enum File {
    /// A plain file.
    DataFile(Inode),
    /// A directory.
    Directory(Inode),
}

/// The stored form of an optional block number.
pub open spec fn pointer_field(p: Option<usize>) -> u64 {
    match p {
        Some(b) => b as u64,
        None => 0,
    }
}

/// The optional block number that a stored field stands for.
pub open spec fn field_pointer(v: u64) -> Option<usize> {
    if v == 0 {
        None
    } else {
        Some(v as usize)
    }
}

impl Inode {
    /// No pointer names block 0, which stands for "unset" on disk.
    pub open spec fn valid(&self) -> bool {
        self.single != Some(0usize) && self.double != Some(0usize)
    }

    /// The 32 bytes of the record: kind, size, direct pointer, indirect
    /// pointer, each as eight little-endian bytes.
    pub open spec fn record(&self) -> Seq<u8> {
        spec_u64_to_le_bytes(self.dirtype as u64) + spec_u64_to_le_bytes(self.size as u64)
            + spec_u64_to_le_bytes(pointer_field(self.single)) + spec_u64_to_le_bytes(
            pointer_field(self.double),
        )
    }

    /// The inode that the record `s` holds, or `None` where a field is too
    /// large for this machine.
    pub open spec fn parse(inum: usize, s: Seq<u8>) -> Option<Inode> {
        if field_at(s, 0) <= usize::MAX && field_at(s, 8) <= usize::MAX && field_at(s, 16)
            <= usize::MAX && field_at(s, 24) <= usize::MAX {
            Some(
                Inode {
                    inum,
                    dirtype: field_at(s, 0) as usize,
                    size: field_at(s, 8) as usize,
                    single: field_pointer(field_at(s, 16)),
                    double: field_pointer(field_at(s, 24)),
                },
            )
        } else {
            None
        }
    }

    /// A fresh inode: empty, with no block behind it.
    pub fn new(dirtype: usize, inum: usize) -> (r: Inode)
        ensures
            r == (Inode { inum, dirtype, single: None, double: None, size: 0 }),
            r.valid(),
    {
        Inode { inum, dirtype, single: None, double: None, size: 0 }
    }

    /// Length of the file in bytes.
    pub fn size(&self) -> (r: usize)
        ensures
            r == self.size,
    {
        self.size
    }

    /// Data block of logical page 0, if one was allocated.
    pub fn direct_pointer(&self) -> (r: Option<usize>)
        ensures
            r == self.single,
    {
        self.single
    }

    /// The indirection block, if one was allocated.
    pub fn indirect_pointer(&self) -> (r: Option<usize>)
        ensures
            r == self.double,
    {
        self.double
    }

    /// Writes the record into `buf` at byte `off`; all other bytes of the
    /// buffer stay as they were.
    pub fn encode(&self, buf: &mut Vec<u8>, off: usize)
        requires
            off + RECORD_BYTES <= old(buf).len(),
        ensures
            final(buf)@ == overwrite(old(buf)@, off as int, self.record()),
            final(buf)@.len() == old(buf)@.len(),
    {
        proof {
            lemma_auto_spec_u64_to_from_le_bytes();
        }
        let single: u64 = match self.single {
            Some(b) => b as u64,
            None => 0,
        };
        let double: u64 = match self.double {
            Some(b) => b as u64,
            None => 0,
        };
        put_field(buf, off, self.dirtype as u64);
        put_field(buf, off + FIELD_WIDTH, self.size as u64);
        put_field(buf, off + 2 * FIELD_WIDTH, single);
        put_field(buf, off + 3 * FIELD_WIDTH, double);
        assert(buf@ =~= overwrite(old(buf)@, off as int, self.record()));
    }

    /// Reads the record at byte `off` of `buf`. Fails where the buffer is
    /// too short to hold it, or a field does not fit this machine.
    pub fn decode(inum: usize, buf: &[u8], off: usize) -> (r: Result<Inode, FsError>)
        ensures
            r == (if off + RECORD_BYTES <= buf@.len() {
                match Inode::parse(inum, buf@.subrange(off as int, off + RECORD_BYTES)) {
                    Some(inode) => Ok(inode),
                    None => Err(FsError::CorruptRecord),
                }
            } else {
                Err(FsError::CorruptRecord)
            }),
    {
        if off > buf.len() || buf.len() - off < RECORD_BYTES {
            return Err(FsError::CorruptRecord);
        }
        let ghost s = buf@.subrange(off as int, off + RECORD_BYTES);
        let kind = get_field(buf, off);
        let size = get_field(buf, off + FIELD_WIDTH);
        let single = get_field(buf, off + 2 * FIELD_WIDTH);
        let double = get_field(buf, off + 3 * FIELD_WIDTH);
        proof {
            assert(s.subrange(0, 8) =~= buf@.subrange(off as int, off + 8));
            assert(s.subrange(8, 16) =~= buf@.subrange(off + 8, off + 16));
            assert(s.subrange(16, 24) =~= buf@.subrange(off + 16, off + 24));
            assert(s.subrange(24, 32) =~= buf@.subrange(off + 24, off + 32));
        }
        if kind > usize::MAX as u64 || size > usize::MAX as u64 || single > usize::MAX as u64
            || double > usize::MAX as u64 {
            return Err(FsError::CorruptRecord);
        }
        Ok(
            Inode {
                inum,
                dirtype: kind as usize,
                size: size as usize,
                single: if single == 0 {
                    None
                } else {
                    Some(single as usize)
                },
                double: if double == 0 {
                    None
                } else {
                    Some(double as usize)
                },
            },
        )
    }

    /// Tells a file from a directory; an inode of any other kind is not a
    /// record that this store wrote.
    pub fn classify(self) -> (r: Result<File, FsError>)
        ensures
            r == (if self.dirtype == DIR_TYPE {
                Ok(File::Directory(self))
            } else if self.dirtype == FILE_TYPE {
                Ok(File::DataFile(self))
            } else {
                Err(FsError::CorruptRecord)
            }),
    {
        if self.dirtype == DIR_TYPE {
            Ok(File::Directory(self))
        } else if self.dirtype == FILE_TYPE {
            Ok(File::DataFile(self))
        } else {
            Err(FsError::CorruptRecord)
        }
    }
}

/// Decoding what was encoded gives the inode back: for every inode whose
/// pointers are valid, the record parses to that same inode.
pub proof fn lemma_record_round_trip(inode: Inode)
    requires
        inode.valid(),
    ensures
        inode.record().len() == RECORD_BYTES,
        Inode::parse(inode.inum, inode.record()) == Some(inode),
{
    lemma_auto_spec_u64_to_from_le_bytes();
    let s = inode.record();
    assert(s.subrange(0, 8) =~= spec_u64_to_le_bytes(inode.dirtype as u64));
    assert(s.subrange(8, 16) =~= spec_u64_to_le_bytes(inode.size as u64));
    assert(s.subrange(16, 24) =~= spec_u64_to_le_bytes(pointer_field(inode.single)));
    assert(s.subrange(24, 32) =~= spec_u64_to_le_bytes(pointer_field(inode.double)));
}

/// The same law on a buffer: a record encoded at `off` into any buffer
/// decodes from that place to the inode that was encoded.
pub proof fn lemma_decode_after_encode(inode: Inode, s: Seq<u8>, off: int)
    requires
        inode.valid(),
        0 <= off,
        off + RECORD_BYTES <= s.len(),
    ensures
        overwrite(s, off, inode.record()).len() == s.len(),
        Inode::parse(
            inode.inum,
            overwrite(s, off, inode.record()).subrange(off, off + RECORD_BYTES),
        ) == Some(inode),
{
    lemma_record_round_trip(inode);
    assert(overwrite(s, off, inode.record()).subrange(off, off + RECORD_BYTES)
        =~= inode.record());
}

} // verus!
