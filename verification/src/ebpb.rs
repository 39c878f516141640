//! The FAT32 extended BIOS parameter block: the geometry fields of the
//! partition's first sector, at fixed little-endian offsets.

use vstd::prelude::*;

verus! {

use crate::bytes::spec_le16;
use crate::bytes::spec_le32;
use crate::bytes::le16;
use crate::bytes::le32;
use crate::device::BlockDevice;
use crate::device::IoError;
use crate::vfat::Error;

/// The boot signature that ends a valid parameter block sector.
pub const BOOT_SIG: u16 = 0xAA55;

/// The FAT32 extended BIOS parameter block.
#[derive(Clone, Copy, Debug, PartialEq, Eq, Structural)]
pub struct BiosParameterBlock {
    /// Bytes per logical sector.
    pub bytes_per_sector: u16,
    /// Logical sectors per cluster.
    pub sectors_per_cluster: u8,
    /// Logical sectors before the first FAT.
    pub reserved_sectors: u16,
    /// Number of FATs.
    pub fats: u8,
    /// Total logical sectors of the volume.
    pub logical_sectors: u32,
    /// Logical sectors per FAT.
    pub sectors_per_fat: u32,
    /// The cluster where the root directory starts.
    pub root_dir_cluster: u32,
    /// The extended boot signature: `0x28` or `0x29`.
    pub signature: u8,
}

impl BiosParameterBlock {
    /// Whether the sector image carries the two signatures of a FAT32
    /// parameter block.
    pub open spec fn spec_valid_signature(b: Seq<u8>) -> bool {
        &&& spec_le16(b, 510) == BOOT_SIG
        &&& (b[66] == 0x28 || b[66] == 0x29)
    }

    /// The block decoded from a 512-byte sector image.
    pub open spec fn spec_decode(b: Seq<u8>) -> BiosParameterBlock {
        BiosParameterBlock {
            bytes_per_sector: spec_le16(b, 11) as u16,
            sectors_per_cluster: b[13],
            reserved_sectors: spec_le16(b, 14) as u16,
            fats: b[16],
            logical_sectors: spec_le32(b, 32) as u32,
            sectors_per_fat: spec_le32(b, 36) as u32,
            root_dir_cluster: spec_le32(b, 44) as u32,
            signature: b[66],
        }
    }

    /// Whether this block's signature byte is one of the two FAT32
    /// values.
    pub fn valid_signature(&self) -> (r: bool)
        ensures
            r == (self.signature == 0x28 || self.signature == 0x29),
    {
        self.signature == 0x28 || self.signature == 0x29
    }

    /// Decodes a 512-byte parameter block sector. Returns `BadSignature`
    /// unless both signatures check out.
    pub fn from_bytes(b: &Vec<u8>) -> (r: Result<BiosParameterBlock, Error>)
        requires
            b@.len() == 512,
        ensures
            match r {
                Ok(p) => Self::spec_valid_signature(b@) && p == Self::spec_decode(b@),
                Err(Error::BadSignature) => !Self::spec_valid_signature(b@),
                Err(_) => false,
            },
    {
        let n = b.len();
        let boot_sig = le16(b, 510);
        let sig = b[66];
        if boot_sig != BOOT_SIG || !(sig == 0x28 || sig == 0x29) {
            return Err(Error::BadSignature);
        }
        Ok(BiosParameterBlock {
            bytes_per_sector: le16(b, 11),
            sectors_per_cluster: b[13],
            reserved_sectors: le16(b, 14),
            fats: b[16],
            logical_sectors: le32(b, 32),
            sectors_per_fat: le32(b, 36),
            root_dir_cluster: le32(b, 44),
            signature: sig,
        })
    }

    /// Reads the FAT32 extended BIOS parameter block from sector `sector`
    /// of `device`. A short read surfaces as `Io(UnexpectedEof)`.
    pub fn from<T: BlockDevice>(device: &mut T, sector: u64) -> (r: Result<
        BiosParameterBlock,
        Error,
    >)
        requires
            old(device).inv(),
        ensures
            final(device).inv(),
            final(device).sectors() == old(device).sectors(),
            final(device).sector_len() == old(device).sector_len(),
            match r {
                Ok(p) => {
                    &&& sector < old(device).sectors().len()
                    &&& old(device).sector_len() >= 512
                    &&& {
                        let b = old(device).sectors()[sector as int].take(512);
                        &&& Self::spec_valid_signature(b)
                        &&& p == Self::spec_decode(b)
                    }
                },
                Err(e) => e matches Error::Io(_) || e matches Error::BadSignature,
            },
    {
        let mut buf: Vec<u8> = Vec::new();
        let mut j: usize = 0;
        while j < 512
            invariant
                buf@.len() == j,
                j <= 512,
            decreases 512 - j,
        {
            buf.push(0u8);
            j = j + 1;
        }
        let got = match device.read_sector(sector, &mut buf) {
            Ok(g) => g,
            Err(e) => {
                return Err(Error::Io(e));
            },
        };
        if got != 512 {
            return Err(Error::Io(IoError::UnexpectedEof));
        }
        proof {
            assert(buf@ =~= old(device).sectors()[sector as int].take(512));
        }
        Self::from_bytes(&buf)
    }
}

} // verus!
