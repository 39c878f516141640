//! Cluster numbers. FAT32 stores 32 bits per entry but uses only the
//! low 28: the top four bits are masked off on read.

use vstd::prelude::*;

verus! {

/// A FAT32 cluster number, already masked to its 28 valid bits.
#[derive(PartialEq, Eq, Structural, Debug, Copy, Clone, Hash)]
pub struct Cluster(pub u32);

impl Cluster {
    /// The cluster number.
    pub open spec fn value(&self) -> u32 {
        self.0
    }

    /// A cluster from a raw 32-bit FAT value: the top 4 bits are
    /// reserved and dropped.
    pub fn from(raw_num: u32) -> (r: Cluster)
        ensures
            r.value() == raw_num & 0x0FFF_FFFF,
            r.value() < 0x1000_0000,
    {
        proof {
            assert(raw_num & 0x0FFF_FFFF < 0x1000_0000) by (bit_vector);
        }
        Cluster(raw_num & 0x0FFF_FFFF)
    }

    /// The cluster number as a plain integer.
    pub fn number(&self) -> (r: u32)
        ensures
            r == self.value(),
    {
        self.0
    }

    /// The first logical sector of this cluster's data.
    pub fn into_sector(&self, data_start_sector: u64, sectors_per_cluster: u8) -> (r: u64)
        requires
            data_start_sector + self.value() * sectors_per_cluster <= u64::MAX,
        ensures
            r == self.value() * sectors_per_cluster + data_start_sector,
    {
        self.0 as u64 * sectors_per_cluster as u64 + data_start_sector
    }

    /// Where this cluster's FAT entry lives: the logical sector, the byte
    /// offset inside it, and the entry width.
    pub fn fat_entry_offset(&self, fat_start_sector: u64, bytes_per_sector: u16) -> (r: (
        u64,
        u64,
        usize,
    ))
        requires
            bytes_per_sector > 0,
            fat_start_sector + (self.value() * 4) as int / (bytes_per_sector as int)
                <= u64::MAX,
        ensures
            r.0 == fat_start_sector
                + (self.value() * 4) as int / (bytes_per_sector as int),
            r.1 == (self.value() * 4) as int % (bytes_per_sector as int),
            r.2 == 4,
    {
        let sector_off = self.0 as u64 * 4 / bytes_per_sector as u64;
        let byte_off = self.0 as u64 * 4 % bytes_per_sector as u64;
        (sector_off + fat_start_sector, byte_off, 4)
    }
}

} // verus!
