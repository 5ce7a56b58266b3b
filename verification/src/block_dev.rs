//! The block device interface, and a device held in memory.

use vstd::prelude::*;
use crate::layout::{disk_wf, zeros, Disk, BLOCK_SZ};

verus! {

/// A device that stores fixed-size blocks addressed by index.
///
/// The filesystem reads and writes whole blocks only. An implementation
/// promises that a block reads back as it was last written.
pub trait BlockDevice {
    /// The blocks currently stored, in order.
    spec fn blocks(&self) -> Disk;

    /// The number of blocks of the device.
    fn num_blocks(&self) -> (n: usize)
        ensures
            n == self.blocks().len(),
    ;

    /// Returns a copy of block `block_id`.
    fn read_block(&self, block_id: usize) -> (data: Vec<u8>)
        requires
            block_id < self.blocks().len(),
        ensures
            data@ == self.blocks()[block_id as int],
    ;

    /// Replaces block `block_id` by `data`.
    fn write_block(&mut self, block_id: usize, data: &Vec<u8>)
        requires
            block_id < old(self).blocks().len(),
            data@.len() == BLOCK_SZ,
        ensures
            final(self).blocks() == old(self).blocks().update(block_id as int, data@),
    ;
}

/// A block device whose blocks live in memory.
pub struct RamDisk {
    data: Vec<Vec<u8>>,
}

impl RamDisk {
    /// The blocks of the device.
    pub closed spec fn contents(&self) -> Disk {
        Seq::new(self.data@.len(), |b: int| self.data@[b]@)
    }

    /// Creates a device of `num_blocks` blocks, all of them zero.
    pub fn new(num_blocks: usize) -> (disk: RamDisk)
        ensures
            disk.blocks().len() == num_blocks,
            disk_wf(disk.blocks()),
            forall|b: int| 0 <= b < num_blocks ==> #[trigger] disk.blocks()[b] == zeros(BLOCK_SZ as int),
    {
        let mut data: Vec<Vec<u8>> = Vec::new();
        let mut i: usize = 0;
        while i < num_blocks
            invariant
                i <= num_blocks,
                data@.len() == i,
                forall|b: int| 0 <= b < i ==> (#[trigger] data@[b])@ == zeros(BLOCK_SZ as int),
            decreases num_blocks - i,
        {
            let block: Vec<u8> = vec![0u8; BLOCK_SZ];
            assert(block@ =~= zeros(BLOCK_SZ as int));
            data.push(block);
            i += 1;
        }
        RamDisk { data }
    }
}

impl BlockDevice for RamDisk {
    closed spec fn blocks(&self) -> Disk {
        self.contents()
    }

    fn num_blocks(&self) -> (n: usize) {
        self.data.len()
    }

    fn read_block(&self, block_id: usize) -> (data: Vec<u8>) {
        self.data[block_id].clone()
    }

    fn write_block(&mut self, block_id: usize, data: &Vec<u8>) {
        self.data[block_id] = data.clone();
        assert(self.contents() =~= old(self).contents().update(block_id as int, data@));
    }
}

} // verus!
