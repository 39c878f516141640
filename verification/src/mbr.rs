//! The master boot record: 446 bytes of boot code, four 16-byte
//! partition entries, and the two-byte signature `0x55 0xAA`.

use vstd::prelude::*;

verus! {

use crate::bytes::spec_le16;
use crate::bytes::spec_le32;
use crate::bytes::le16;
use crate::bytes::le32;
use crate::device::BlockDevice;
use crate::device::IoError;
use crate::cache::copy_into;

/// The disk signature that ends a valid MBR.
pub const MBR_SIGNATURE: u16 = 0xAA55;

/// A cylinder/head/sector address, decoded.
#[derive(Clone, Copy, Debug, PartialEq, Eq, Structural)]
pub struct CHS {
    /// The head number.
    pub head: u8,
    /// The sector number within the track.
    pub sector: u8,
    /// The cylinder number.
    pub cylinder: u16,
}

/// A cylinder/head/sector address as packed on disk: the head byte, then
/// sixteen bits holding the sector in the low six and the cylinder above.
#[derive(Clone, Copy, Debug, PartialEq, Eq, Structural)]
pub struct InnerCHS {
    /// The head number.
    pub head: u8,
    /// The packed cylinder and sector bits.
    pub cylinder_sector: u16,
}

impl CHS {
    /// Unpacks an on-disk CHS address.
    pub fn from_inner(ichs: &InnerCHS) -> (r: CHS)
        ensures
            r.head == ichs.head,
            r.sector == ichs.cylinder_sector & 0x3f,
            r.cylinder == ichs.cylinder_sector >> 6,
    {
        let cz = ichs.cylinder_sector;
        proof {
            assert(cz & 0x3f < 0x100) by (bit_vector);
        }
        CHS {
            head: ichs.head,
            sector: (cz & 0x3f) as u8,
            cylinder: cz >> 6,
        }
    }
}

/// One of the four partition entries of the MBR.
#[derive(Clone, Copy, Debug, PartialEq, Eq, Structural)]
pub struct PartitionEntry {
    /// The boot indicator: `0x00` or `0x80`.
    pub indicator: u8,
    /// Where the partition starts, in CHS terms.
    pub chs_start: InnerCHS,
    /// The partition type.
    pub kind: u8,
    /// Where the partition ends, in CHS terms.
    pub chs_end: InnerCHS,
    /// The first sector of the partition.
    pub lba_start: u32,
    /// The number of sectors in the partition.
    pub lba_sectors: u32,
}

impl PartitionEntry {
    /// A boot indicator is `0x00` or `0x80`: any other value is an error.
    pub open spec fn spec_valid_indicator(ind: u8) -> bool {
        ind == 0x00 || ind == 0x80
    }

    /// Whether the entry's boot indicator is valid.
    pub fn valid_indicator(&self) -> (r: bool)
        ensures
            r == Self::spec_valid_indicator(self.indicator),
    {
        let ind = self.indicator;
        proof {
            assert(((ind & 0x7f) == 0) == (ind == 0x00 || ind == 0x80)) by (bit_vector);
        }
        (ind & 0x7f) == 0
    }

    /// The entry decoded from its 16 bytes at `off` in the MBR.
    pub open spec fn spec_decode(b: Seq<u8>, off: int) -> PartitionEntry {
        PartitionEntry {
            indicator: b[off],
            chs_start: InnerCHS {
                head: b[off + 1],
                cylinder_sector: spec_le16(b, off + 2) as u16,
            },
            kind: b[off + 4],
            chs_end: InnerCHS {
                head: b[off + 5],
                cylinder_sector: spec_le16(b, off + 6) as u16,
            },
            lba_start: spec_le32(b, off + 8) as u32,
            lba_sectors: spec_le32(b, off + 12) as u32,
        }
    }

    /// Decodes a 16-byte partition entry at `off`.
    fn decode(b: &Vec<u8>, off: usize) -> (r: PartitionEntry)
        requires
            off + 16 <= b@.len(),
        ensures
            r == Self::spec_decode(b@, off as int),
    {
        let n = b.len();
        PartitionEntry {
            indicator: b[off],
            chs_start: InnerCHS { head: b[off + 1], cylinder_sector: le16(b, off + 2) },
            kind: b[off + 4],
            chs_end: InnerCHS { head: b[off + 5], cylinder_sector: le16(b, off + 6) },
            lba_start: le32(b, off + 8),
            lba_sectors: le32(b, off + 12),
        }
    }
}

/// The master boot record (MBR).
#[derive(Clone, Debug)]
pub struct MasterBootRecord {
    /// The four partition entries.
    pub partitions: [PartitionEntry; 4],
    /// The disk signature.
    pub signature: u16,
}

/// What can go wrong reading an MBR.
#[derive(Clone, Copy, Debug, PartialEq, Eq, Structural)]
pub enum Error {
    /// There was an I/O error while reading the MBR.
    Io(IoError),
    /// Partition `.0` (0-indexed) contains an invalid or unknown boot
    /// indicator.
    UnknownBootIndicator(u8),
    /// The MBR magic signature was invalid.
    BadSignature,
}

impl MasterBootRecord {
    /// The signature field of a 512-byte sector image.
    pub open spec fn spec_signature(b: Seq<u8>) -> int {
        spec_le16(b, 510)
    }

    /// Where partition entry `i` begins in the sector.
    pub open spec fn entry_off(i: int) -> int {
        446 + 16 * i
    }

    /// Whether the decode of a 512-byte sector image succeeds.
    pub open spec fn spec_parse_ok(b: Seq<u8>) -> bool {
        &&& Self::spec_signature(b) == MBR_SIGNATURE
        &&& forall|i: int| 0 <= i < 4 ==> PartitionEntry::spec_valid_indicator(
            b[#[trigger] Self::entry_off(i)])
    }

    /// Decodes a 512-byte boot sector. Returns `BadSignature` if the
    /// magic signature is wrong, and `UnknownBootIndicator(n)` if the
    /// signature is right but partition `n` is the first whose boot
    /// indicator is neither `0x00` nor `0x80`.
    pub fn from_bytes(b: &Vec<u8>) -> (r: Result<MasterBootRecord, Error>)
        requires
            b@.len() == 512,
        ensures
            match r {
                Ok(m) => {
                    &&& Self::spec_parse_ok(b@)
                    &&& m.signature == MBR_SIGNATURE
                    &&& forall|i: int| 0 <= i < 4 ==> m.partitions[i]
                        == PartitionEntry::spec_decode(b@, Self::entry_off(i))
                },
                Err(Error::BadSignature) => Self::spec_signature(b@) != MBR_SIGNATURE,
                Err(Error::UnknownBootIndicator(n)) => {
                    &&& Self::spec_signature(b@) == MBR_SIGNATURE
                    &&& 0 <= n < 4
                    &&& !PartitionEntry::spec_valid_indicator(b@[Self::entry_off(n as int)])
                    &&& forall|i: int| 0 <= i < n ==> PartitionEntry::spec_valid_indicator(
                        b@[#[trigger] Self::entry_off(i)])
                },
                Err(Error::Io(_)) => false,
            },
    {
        let signature = le16(b, 510);
        if signature != MBR_SIGNATURE {
            return Err(Error::BadSignature);
        }
        let p0 = PartitionEntry::decode(b, 446);
        let p1 = PartitionEntry::decode(b, 462);
        let p2 = PartitionEntry::decode(b, 478);
        let p3 = PartitionEntry::decode(b, 494);
        let partitions = [p0, p1, p2, p3];
        if !p0.valid_indicator() {
            return Err(Error::UnknownBootIndicator(0));
        }
        if !p1.valid_indicator() {
            return Err(Error::UnknownBootIndicator(1));
        }
        if !p2.valid_indicator() {
            return Err(Error::UnknownBootIndicator(2));
        }
        if !p3.valid_indicator() {
            return Err(Error::UnknownBootIndicator(3));
        }
        let r = MasterBootRecord { partitions, signature };
        proof {
            assert forall|i: int| 0 <= i < 4 implies PartitionEntry::spec_valid_indicator(
                b@[#[trigger] MasterBootRecord::entry_off(i)]) by {
                if i == 0 {
                    assert(b@[MasterBootRecord::entry_off(0)] == p0.indicator);
                } else if i == 1 {
                    assert(b@[MasterBootRecord::entry_off(1)] == p1.indicator);
                } else if i == 2 {
                    assert(b@[MasterBootRecord::entry_off(2)] == p2.indicator);
                } else {
                    assert(b@[MasterBootRecord::entry_off(3)] == p3.indicator);
                }
            }
            assert forall|i: int| 0 <= i < 4 implies r.partitions[i]
                == PartitionEntry::spec_decode(b@, MasterBootRecord::entry_off(i)) by {
            }
        }
        Ok(r)
    }

    /// Reads and returns the master boot record from sector 0 of
    /// `device`. A short read surfaces as `Io(UnexpectedEof)`.
    pub fn from<T: BlockDevice>(device: &mut T) -> (r: Result<MasterBootRecord, Error>)
        requires
            old(device).inv(),
        ensures
            final(device).inv(),
            final(device).sectors() == old(device).sectors(),
            final(device).sector_len() == old(device).sector_len(),
            match r {
                Ok(m) => {
                    &&& 0 < old(device).sectors().len()
                    &&& old(device).sector_len() >= 512
                    &&& {
                        let b = old(device).sectors()[0].take(512);
                        &&& Self::spec_parse_ok(b)
                        &&& m.signature == MBR_SIGNATURE
                        &&& forall|i: int| 0 <= i < 4 ==> m.partitions[i]
                            == PartitionEntry::spec_decode(b, Self::entry_off(i))
                    }
                },
                Err(_) => true,
            },
    {
        let mut buf: Vec<u8> = Vec::new();
        let mut j: usize = 0;
        while j < 512
            invariant
                buf@.len() == j,
                j <= 512,
            decreases 512 - j,
        {
            buf.push(0u8);
            j = j + 1;
        }
        let got = match device.read_sector(0, &mut buf) {
            Ok(g) => g,
            Err(e) => {
                return Err(Error::Io(e));
            },
        };
        if got != 512 {
            return Err(Error::Io(IoError::UnexpectedEof));
        }
        proof {
            assert(buf@ =~= old(device).sectors()[0].take(512));
        }
        Self::from_bytes(&buf)
    }
}

} // verus!
