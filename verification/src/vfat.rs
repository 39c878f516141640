//! The FAT32 volume: geometry from the parameter block, the FAT chain
//! engine, and cluster reads through the sector cache.

use vstd::prelude::*;

verus! {

use crate::bytes::spec_le32;
use crate::bytes::le32;
use crate::cache::CachedDevice;
use crate::cache::Partition;
use crate::cache::copy_into;
use crate::cluster::Cluster;
use crate::device::BlockDevice;
use crate::device::IoError;
use crate::dir::Dir;
use crate::dir::spec_find;
use crate::dir::nslots;
use crate::dir::entry_matches;
use crate::dir::entry_name_chars;
use crate::ebpb::BiosParameterBlock;
use crate::entry::Entry;
use crate::mbr;
use crate::mbr::MasterBootRecord;

/// What can go wrong in the filesystem.
#[derive(Clone, Copy, Debug, PartialEq, Eq, Structural)]
pub enum Error {
    /// An I/O error from the device layer.
    Io(IoError),
    /// A boot sector signature did not check out.
    BadSignature,
    /// A partition entry holds an invalid boot indicator.
    UnknownBootIndicator(u8),
    /// No FAT32 partition, or no entry of the looked-up name, was found.
    NotFound,
    /// A path component other than the last resolved to a file.
    NotADirectory,
    /// A FAT entry was not what the chain needed: reserved or bad where
    /// data or end-of-chain was expected, or the volume geometry is
    /// degenerate.
    InvalidData,
    /// A request was out of range, such as a seek past the end.
    InvalidInput,
    /// A name was not valid text.
    InvalidUtf8,
}

/// The decoded meaning of a 28-bit FAT entry.
#[derive(Clone, Copy, Debug, PartialEq, Eq, Structural)]
pub enum Status {
    /// The cluster is free.
    Free,
    /// The cluster is reserved and holds no data.
    Reserved,
    /// The cluster is in use; the entry points at the next cluster.
    Data(Cluster),
    /// The cluster is marked defective.
    Bad,
    /// The cluster is the last of its chain; the raw entry is kept.
    Eoc(u32),
}

/// The status a 28-bit FAT value denotes.
pub open spec fn spec_status(v: int) -> Status {
    if v == 0 {
        Status::Free
    } else if v == 1 {
        Status::Reserved
    } else if v <= 0x0FFF_FFEF {
        Status::Data(Cluster(v as u32))
    } else if v <= 0x0FFF_FFF6 {
        Status::Reserved
    } else if v == 0x0FFF_FFF7 {
        Status::Bad
    } else {
        Status::Eoc(v as u32)
    }
}

/// Decodes a raw 32-bit FAT entry: the top four bits are ignored.
fn decode_status(v: u32) -> (r: Status)
    ensures
        r == spec_status((v & 0x0FFF_FFFF) as int),
{
    let e = v & 0x0FFF_FFFF;
    proof {
        assert(v & 0x0FFF_FFFF < 0x1000_0000) by (bit_vector);
    }
    if e == 0 {
        Status::Free
    } else if e == 1 {
        Status::Reserved
    } else if e <= 0x0FFF_FFEF {
        Status::Data(Cluster(e))
    } else if e <= 0x0FFF_FFF6 {
        Status::Reserved
    } else if e == 0x0FFF_FFF7 {
        Status::Bad
    } else {
        Status::Eoc(e)
    }
}

/// Whether an MBR partition entry's kind marks a FAT32 partition.
pub open spec fn spec_is_fat32_kind(k: u8) -> bool {
    k == 0x0B || k == 0x0C
}

/// The index of the first FAT32 partition in a 512-byte MBR image, or
/// 4 when none of the four entries is one.
pub open spec fn spec_fat32_index(b: Seq<u8>) -> int {
    if spec_is_fat32_kind(
        crate::mbr::PartitionEntry::spec_decode(b, MasterBootRecord::entry_off(0)).kind) {
        0
    } else if spec_is_fat32_kind(
        crate::mbr::PartitionEntry::spec_decode(b, MasterBootRecord::entry_off(1)).kind) {
        1
    } else if spec_is_fat32_kind(
        crate::mbr::PartitionEntry::spec_decode(b, MasterBootRecord::entry_off(2)).kind) {
        2
    } else if spec_is_fat32_kind(
        crate::mbr::PartitionEntry::spec_decode(b, MasterBootRecord::entry_off(3)).kind) {
        3
    } else {
        4
    }
}

/// A mounted FAT32 volume over a cached block device.
pub struct VFat<B: BlockDevice> {
    device: CachedDevice<B>,
    bytes_per_sector: u16,
    sectors_per_cluster: u8,
    sectors_per_fat: u32,
    fat_start_sector: u64,
    data_start_sector: u64,
    root_dir_cluster: Cluster,
}

impl<B: BlockDevice> VFat<B> {
    /// Bytes per logical sector.
    pub closed spec fn bps(&self) -> int {
        self.bytes_per_sector as int
    }

    /// Logical sectors per cluster.
    pub closed spec fn spc(&self) -> int {
        self.sectors_per_cluster as int
    }

    /// The first logical sector of the FAT.
    pub closed spec fn fat_start(&self) -> int {
        self.fat_start_sector as int
    }

    /// The first logical sector of the data region, shifted so that
    /// cluster `c` starts at `data_start() + c * spc()`.
    pub closed spec fn data_start(&self) -> int {
        self.data_start_sector as int
    }

    /// The cluster where the root directory starts.
    pub closed spec fn root_cluster(&self) -> Cluster {
        self.root_dir_cluster
    }

    /// The bytes of logical sector `n`.
    pub open spec fn sector_bytes(&self, n: int) -> Seq<u8> {
        self.dev().sector_bytes(n)
    }

    /// The cached device.
    pub closed spec fn dev(&self) -> CachedDevice<B> {
        self.device
    }

    /// The volume's invariant: the cache is sound and clean, geometry is
    /// non-degenerate, and the FAT and data regions are addressable.
    pub closed spec fn wf(&self) -> bool {
        &&& self.device.wf()
        &&& self.device.clean()
        &&& self.device.logical_len() == self.bytes_per_sector
        &&& self.bytes_per_sector >= 4
        &&& self.bytes_per_sector as int % 4 == 0
        &&& self.sectors_per_cluster >= 1
        &&& self.fat_start_sector <= 0xFFFF_FFFF
        &&& self.data_start_sector <= 0xFFFF_FFFF_FFFF
    }

    /// The geometry and device model that every operation preserves.
    pub open spec fn same_model(&self, other: &Self) -> bool {
        &&& self.dev().same_model(&other.dev())
        &&& self.bps() == other.bps()
        &&& self.spc() == other.spc()
        &&& self.fat_start() == other.fat_start()
        &&& self.data_start() == other.data_start()
        &&& self.root_cluster() == other.root_cluster()
    }

    /// The size of a cluster in bytes.
    pub open spec fn spec_cluster_size(&self) -> int {
        self.bps() * self.spc()
    }

    /// The logical sector holding cluster `c`'s FAT entry.
    pub open spec fn fat_sector_of(&self, c: int) -> int {
        self.fat_start() + (c * 4) / self.bps()
    }

    /// The byte offset of cluster `c`'s FAT entry inside its sector.
    pub open spec fn fat_off_of(&self, c: int) -> int {
        (c * 4) % self.bps()
    }

    /// The 28-bit FAT entry of cluster `c`, read from the device model.
    pub open spec fn fat_value(&self, c: int) -> int {
        spec_le32(self.sector_bytes(self.fat_sector_of(c)), self.fat_off_of(c))
            % 0x1000_0000
    }

    /// The status of cluster `c`.
    pub open spec fn status_of(&self, c: int) -> Status {
        spec_status(self.fat_value(c))
    }

    /// The concatenated bytes of `count` logical sectors starting at
    /// `from`.
    pub open spec fn logical_concat(&self, from: int, count: int) -> Seq<u8>
        decreases count,
    {
        if count <= 0 {
            Seq::empty()
        } else {
            self.logical_concat(from, count - 1) + self.sector_bytes(from + count - 1)
        }
    }

    /// The data bytes of cluster `c`.
    pub open spec fn cluster_bytes(&self, c: int) -> Seq<u8> {
        self.logical_concat(self.data_start() + c * self.spc(), self.spc())
    }

    /// The number of entries the FAT holds.
    pub closed spec fn fat_entries(&self) -> int {
        (self.sectors_per_fat as int) * (self.bytes_per_sector as int / 4)
    }

    /// Whether `ps` is a walk from `start` along `Data` links, with no
    /// claim about how its last cluster's entry reads.
    pub open spec fn linked_prefix(&self, ps: Seq<Cluster>, start: Cluster) -> bool {
        &&& ps.len() >= 1
        &&& ps[0] == start
        &&& forall|i: int| 0 <= i < ps.len() - 1
            ==> self.status_of(#[trigger] ps[i].0 as int) == Status::Data(ps[i + 1])
    }

    /// Whether `cs` is a complete FAT chain: consecutive clusters linked
    /// by `Data` entries, with the last marked end-of-chain.
    pub open spec fn is_chain(&self, cs: Seq<Cluster>) -> bool {
        &&& cs.len() >= 1
        &&& forall|i: int| 0 <= i < cs.len() - 1
            ==> self.status_of(#[trigger] cs[i].0 as int) == Status::Data(cs[i + 1])
        &&& self.status_of(cs.last().0 as int) matches Status::Eoc(_)
    }

    /// The concatenated data bytes of the clusters `cs`.
    pub open spec fn chain_bytes(&self, cs: Seq<Cluster>) -> Seq<u8>
        decreases cs.len(),
    {
        if cs.len() == 0 {
            Seq::empty()
        } else {
            self.chain_bytes(cs.drop_last()) + self.cluster_bytes(cs.last().0 as int)
        }
    }

    /// The cluster `k` data-links past `c`, if the links are there.
    pub open spec fn spec_walk(&self, c: Cluster, k: nat) -> Option<Cluster>
        decreases k,
    {
        if k == 0 {
            Some(c)
        } else {
            match self.status_of(c.0 as int) {
                Status::Data(c2) => self.spec_walk(c2, (k - 1) as nat),
                _ => None,
            }
        }
    }

    /// Mounts the FAT32 volume of `device`: reads the master boot
    /// record, finds the first FAT32 partition (kind `0x0B` or `0x0C`),
    /// reads its parameter block, and sets up the cached device and the
    /// geometry. Degenerate geometry is rejected as `InvalidData`.
    pub fn from(device: B) -> (r: Result<VFat<B>, Error>)
        requires
            device.inv(),
        ensures
            match r {
                Ok(v) => {
                    &&& v.wf()
                    &&& 0 < device.sectors().len()
                    &&& device.sector_len() >= 512
                    &&& {
                        let mb = device.sectors()[0].take(512);
                        &&& MasterBootRecord::spec_parse_ok(mb)
                        &&& spec_fat32_index(mb) < 4
                        &&& {
                            let part = crate::mbr::PartitionEntry::spec_decode(
                                mb, MasterBootRecord::entry_off(spec_fat32_index(mb)));
                            let pb = device.sectors()[part.lba_start as int].take(512);
                            &&& part.lba_start < device.sectors().len()
                            &&& BiosParameterBlock::spec_valid_signature(pb)
                            &&& {
                                let p = BiosParameterBlock::spec_decode(pb);
                                &&& v.bps() == p.bytes_per_sector
                                &&& v.spc() == p.sectors_per_cluster
                                &&& v.fat_start() == p.reserved_sectors
                                &&& v.data_start() == p.reserved_sectors
                                    + p.sectors_per_fat * p.fats
                                &&& v.root_cluster().0
                                    == p.root_dir_cluster & 0x0FFF_FFFF
                                &&& v.dev().part_start() == part.lba_start
                                &&& v.dev().logical_len() == p.bytes_per_sector
                                &&& v.dev().dev_sectors() == device.sectors()
                                &&& v.dev().dev_sector_len() == device.sector_len()
                            }
                        }
                    }
                },
                Err(Error::NotFound) => {
                    &&& 0 < device.sectors().len()
                    &&& MasterBootRecord::spec_parse_ok(device.sectors()[0].take(512))
                    &&& spec_fat32_index(device.sectors()[0].take(512)) == 4
                },
                Err(_) => true,
            },
    {
        let mut device = device;
        let mbr_rec = match MasterBootRecord::from(&mut device) {
            Ok(m) => m,
            Err(mbr::Error::Io(e)) => {
                return Err(Error::Io(e));
            },
            Err(mbr::Error::BadSignature) => {
                return Err(Error::BadSignature);
            },
            Err(mbr::Error::UnknownBootIndicator(n)) => {
                return Err(Error::UnknownBootIndicator(n));
            },
        };
        let mut which: usize = 4;
        let mut i: usize = 0;
        while i < 4
            invariant
                i <= 4,
                which <= 4,
                which == 4 ==> forall|i2: int| 0 <= i2 < i
                    ==> !spec_is_fat32_kind(
                        (#[trigger] mbr_rec.partitions[i2]).kind),
                which < 4 ==> which < i
                    && spec_is_fat32_kind(mbr_rec.partitions[which as int].kind)
                    && (forall|i2: int| 0 <= i2 < which
                        ==> !spec_is_fat32_kind(
                            (#[trigger] mbr_rec.partitions[i2]).kind)),
            decreases 4 - i,
        {
            let kind = mbr_rec.partitions[i].kind;
            if which == 4 && (kind == 0x0B || kind == 0x0C) {
                which = i;
            }
            i = i + 1;
        }
        let ghost mb = device.sectors()[0].take(512);
        if which == 4 {
            proof {
                assert(spec_fat32_index(mb) == 4) by {
                    assert(mbr_rec.partitions[0]
                        == crate::mbr::PartitionEntry::spec_decode(
                            mb, MasterBootRecord::entry_off(0)));
                    assert(mbr_rec.partitions[1]
                        == crate::mbr::PartitionEntry::spec_decode(
                            mb, MasterBootRecord::entry_off(1)));
                    assert(mbr_rec.partitions[2]
                        == crate::mbr::PartitionEntry::spec_decode(
                            mb, MasterBootRecord::entry_off(2)));
                    assert(mbr_rec.partitions[3]
                        == crate::mbr::PartitionEntry::spec_decode(
                            mb, MasterBootRecord::entry_off(3)));
                }
            }
            return Err(Error::NotFound);
        }
        proof {
            if which > 0 {
                assert(!spec_is_fat32_kind(mbr_rec.partitions[0].kind));
            }
            if which > 1 {
                assert(!spec_is_fat32_kind(mbr_rec.partitions[1].kind));
            }
            if which > 2 {
                assert(!spec_is_fat32_kind(mbr_rec.partitions[2].kind));
            }
            assert(spec_is_fat32_kind(mbr_rec.partitions[which as int].kind));
            assert(spec_fat32_index(mb) == which) by {
                assert(mbr_rec.partitions[0]
                    == crate::mbr::PartitionEntry::spec_decode(
                        mb, MasterBootRecord::entry_off(0)));
                assert(mbr_rec.partitions[1]
                    == crate::mbr::PartitionEntry::spec_decode(
                        mb, MasterBootRecord::entry_off(1)));
                assert(mbr_rec.partitions[2]
                    == crate::mbr::PartitionEntry::spec_decode(
                        mb, MasterBootRecord::entry_off(2)));
                assert(mbr_rec.partitions[3]
                    == crate::mbr::PartitionEntry::spec_decode(
                        mb, MasterBootRecord::entry_off(3)));
            }
        }
        let part = &mbr_rec.partitions[which];
        let lba_start = part.lba_start;
        let ebpb = match BiosParameterBlock::from(&mut device, lba_start as u64) {
            Ok(p) => p,
            Err(e) => {
                return Err(e);
            },
        };
        // reject geometry the chain engine cannot work with
        if ebpb.bytes_per_sector < 4 || ebpb.bytes_per_sector % 4 != 0
            || ebpb.sectors_per_cluster == 0 {
            return Err(Error::InvalidData);
        }
        let dev_len = device.sector_size();
        if (ebpb.bytes_per_sector as u64) < dev_len
            || (ebpb.bytes_per_sector as u64) % dev_len != 0 {
            return Err(Error::InvalidData);
        }
        let logical = Partition {
            start: lba_start as u64,
            sector_size: ebpb.bytes_per_sector as u64,
        };
        let cache = CachedDevice::new(device, logical);
        proof {
            assert((ebpb.sectors_per_fat as int) * (ebpb.fats as int)
                <= 0xFFFF_FFFF * 0xFF && (ebpb.sectors_per_fat as int)
                    * (ebpb.fats as int) >= 0) by (nonlinear_arith)
                requires 0 <= ebpb.sectors_per_fat <= 0xFFFF_FFFF, 0 <= ebpb.fats <= 0xFF;
        }
        let data_start = ebpb.reserved_sectors as u64
            + ebpb.sectors_per_fat as u64 * ebpb.fats as u64;
        if data_start > 0xFFFF_FFFF_FFFF {
            return Err(Error::InvalidData);
        }
        Ok(VFat {
            device: cache,
            bytes_per_sector: ebpb.bytes_per_sector,
            sectors_per_cluster: ebpb.sectors_per_cluster,
            sectors_per_fat: ebpb.sectors_per_fat,
            fat_start_sector: ebpb.reserved_sectors as u64,
            data_start_sector: data_start,
            root_dir_cluster: Cluster::from(ebpb.root_dir_cluster),
        })
    }


    /// Opens the entry at `path`. Path components are separated by
    /// slashes; `.` and empty components are no-ops, and `..` pops one
    /// level, staying put at the root. Every component but the last must
    /// resolve to a directory, else `NotADirectory`; a missing name is
    /// `NotFound`. The root path yields the root directory.
    pub fn open(&mut self, path: &str) -> (r: Result<Entry, Error>)
        requires
            old(self).wf(),
        ensures
            final(self).wf(),
            final(self).same_model(old(self)),
            all_slashes(path@) ==> (r matches Ok(e) && is_root_entry(
                &e, old(self).root_cluster())),
            exists|e0: Entry, tr: Seq<(int, Seq<Entry>)>| {
                &&& is_root_entry(&e0, old(self).root_cluster())
                &&& #[trigger] open_walk(*old(self), path@, e0, tr)
                &&& open_outcome(*old(self), path@, tr[tr.len() - 1], r)
            },
            forall|s: int, t: int| #[trigger] simple_path(path@, s, t) ==> (match r {
                Ok(e) => root_find_ok(*old(self), path@.subrange(s, t), e)
                    && crate::chars::spec_eq_ignore_ascii(
                        entry_name_chars(&e), path@.subrange(s, t)),
                Err(Error::NotFound) => root_find_none(*old(self), path@.subrange(s, t)),
                Err(_) => true,
            }),
    {
        let chars = crate::chars::str_to_chars(path);
        let n = chars.len();
        let mut stack: Vec<Entry> = Vec::new();
        stack.push(Entry::DirKind(Dir::root(self.root_dir_cluster)));
        let ghost e0 = stack@[0];
        let ghost mut tr: Seq<(int, Seq<Entry>)> = seq![(0int, seq![e0])];
        proof {
            assert(stack@ =~= seq![e0]);
        }
        let mut i: usize = 0;
        while i < n
            invariant
                self.wf(),
                self.same_model(old(self)),
                chars@ == path@,
                n == chars@.len(),
                stack@.len() >= 1,
                i <= n,
                (forall|k: int| 0 <= k < i ==> path@[k] == '/')
                    ==> stack@.len() == 1 && is_root_entry(
                        &stack@[0], old(self).root_cluster()),
                is_root_entry(&e0, old(self).root_cluster()),
                open_walk(*old(self), path@, e0, tr),
                tr.len() >= 1,
                tr[tr.len() - 1] == (i as int, stack@),
                forall|s: int, t: int| #[trigger] simple_path(path@, s, t) ==> (
                    (i as int <= s && stack@.len() == 1)
                    || (t <= i as int && stack@.len() == 2
                        && root_find_ok(*old(self), path@.subrange(s, t), stack@[1])
                        && crate::chars::spec_eq_ignore_ascii(
                            entry_name_chars(&stack@[1]), path@.subrange(s, t)))),
            decreases n - i,
        {
            // the next component: up to the next slash
            let mut j: usize = i;
            while j < n && chars[j] != '/'
                invariant
                    i <= j <= n,
                    n == chars@.len(),
                    chars@ == path@,
                    forall|k: int| i <= k < j ==> chars@[k] != '/',
                    comp_end(path@, i as int) == comp_end(path@, j as int),
                decreases n - j,
            {
                proof {
                    lemma_comp_end_bounds(path@, j as int + 1);
                    assert(comp_end(path@, j as int) == comp_end(path@, j as int + 1));
                }
                j = j + 1;
            }
            proof {
                assert(comp_end(path@, j as int) == j as int);
                assert(comp_end(path@, i as int) == j as int);
            }
            if j == i {
                // an empty component: a slash, skipped
                proof {
                    assert(path@[i as int] == '/');
                    assert(open_step(*old(self), path@,
                        i as int, stack@, i as int + 1, stack@));
                    lemma_walk_push(*old(self), path@, e0, tr,
                        i as int + 1, stack@);
                    tr = tr.push((i as int + 1, stack@));
                }
                i = j + 1;
                continue;
            }
            proof {
                assert(j <= n);
            }
            let comp_len = j - i;
            if comp_len == 1 && chars[i] == '.' {
                proof {
                    let nm = comp_at(path@, i as int);
                    assert(nm.len() == 1 && nm[0] == '.');
                    let i2: int = next_comp(path@, j as int);
                    assert(open_step(*old(self), path@,
                        i as int, stack@, i2, stack@));
                    lemma_walk_push(*old(self), path@, e0, tr, i2, stack@);
                    tr = tr.push((i2, stack@));
                    assert(i2 == if j < n { j as int + 1 } else { n as int });
                }
                if j < n {
                    i = j + 1;
                } else {
                    i = n;
                }
                continue;
            }
            if comp_len == 2 && chars[i] == '.' && chars[i + 1] == '.' {
                // the parent: popping past the root stays at the root
                let ghost stk_pre = stack@;
                if stack.len() > 1 {
                    let _ = stack.pop();
                }
                proof {
                    let nm = comp_at(path@, i as int);
                    assert(nm.len() == 2 && nm[0] == '.' && nm[1] == '.');
                    assert(stack@ == (if stk_pre.len() > 1 {
                        stk_pre.drop_last()
                    } else {
                        stk_pre
                    }));
                    let i2: int = next_comp(path@, j as int);
                    assert(open_step(*old(self), path@,
                        i as int, stk_pre, i2, stack@));
                    lemma_walk_push(*old(self), path@, e0, tr, i2, stack@);
                    tr = tr.push((i2, stack@));
                    assert(i2 == if j < n { j as int + 1 } else { n as int });
                }
                if j < n {
                    i = j + 1;
                } else {
                    i = n;
                }
                continue;
            }
            let mut comp: Vec<char> = Vec::new();
            proof {
                assert(comp@ =~= chars@.subrange(i as int, i as int));
            }
            let mut k: usize = i;
            while k < j
                invariant
                    i <= k <= j <= n,
                    n == chars@.len(),
                    comp@ == chars@.subrange(i as int, k as int),
                decreases j - k,
            {
                let c = chars[k];
                comp.push(c);
                proof {
                    assert(comp@ =~= chars@.subrange(i as int, (k + 1) as int));
                }
                k = k + 1;
            }
            let comp_str = crate::chars::chars_to_string(&comp);
            let ghost stk0 = stack@;
            let ghost vc = *self;
            let found = match &stack[stack.len() - 1] {
                Entry::DirKind(d) => d.find(self, comp_str.as_str()),
                Entry::FileKind(_) => {
                    proof {
                        assert(path@[i as int] != '/');
                        assert(stack@.last() == stack@[stack@.len() - 1]);
                        assert(open_outcome(*old(self), path@, tr[tr.len() - 1],
                            Err::<Entry, Error>(Error::NotADirectory)));
                    }
                    return Err(Error::NotADirectory);
                },
            };
            let e2 = match found {
                Ok(e2) => e2,
                Err(e) => {
                    proof {
                        assert(path@[i as int] != '/');
                        assert forall|s: int, t: int|
                            #[trigger] simple_path(path@, s, t)
                                && e == Error::NotFound
                            implies root_find_none(
                                *old(self), path@.subrange(s, t)) by {
                            assert(chars@[i as int] != '/');
                            if (i as int) < s {
                                assert(path@[i as int] == '/');
                            }
                            if t <= i as int {
                                assert(path@[i as int] == '/');
                            }
                            assert(i as int == s);
                            if (j as int) < t {
                                assert(path@[j as int] != '/');
                                assert(chars@[j as int] == '/');
                            }
                            if t < j as int {
                                assert(chars@[t] != '/');
                                assert(path@[t] == '/');
                            }
                            assert(j as int == t);
                            assert(forall|k: int| 0 <= k < i as int ==> path@[k] == '/');
                            assert(stk0.len() == 1 && is_root_entry(
                                &stk0[0], old(self).root_cluster()));
                            assert(comp_str@ == path@.subrange(s, t)) by {
                                assert(comp@ =~= path@.subrange(s, t));
                            }
                            let cs = choose|cs: Seq<Cluster>| {
                                &&& #[trigger] vc.is_chain(cs)
                                &&& cs[0] == stk0[0]->DirKind_0.first()
                                &&& spec_find(vc.chain_bytes(cs), 0, comp_str@,
                                    (nslots(vc.chain_bytes(cs)) + 1) as nat) is None
                            };
                            lemma_chain_same_model(&vc, old(self), cs);
                            assert(old(self).is_chain(cs));
                            assert(cs[0] == old(self).root_cluster());
                            assert(spec_find(old(self).chain_bytes(cs), 0,
                                path@.subrange(s, t),
                                (nslots(old(self).chain_bytes(cs)) + 1) as nat)
                                is None);
                        }
                        assert(stk0.last() == stk0[stk0.len() - 1]);
                        assert(comp_str@ == comp_at(path@, i as int)) by {
                            assert(comp@ =~= path@.subrange(i as int, j as int));
                        }
                        if e == Error::NotFound {
                            lemma_dir_miss_transfer(
                                *old(self), vc,
                                stk0[stk0.len() - 1]->DirKind_0, comp_str@);
                        }
                        assert(stack@ == stk0);
                        assert(open_outcome(*old(self), path@, tr[tr.len() - 1],
                            Err::<Entry, Error>(e)));
                    }
                    return Err(e);
                },
            };
            stack.push(e2);
            proof {
                assert(path@[i as int] != '/');
                assert forall|s: int, t: int| #[trigger] simple_path(path@, s, t)
                    implies (t <= j as int && stack@.len() == 2
                        && root_find_ok(*old(self), path@.subrange(s, t), stack@[1])
                        && crate::chars::spec_eq_ignore_ascii(
                            entry_name_chars(&stack@[1]), path@.subrange(s, t))) by {
                            assert(chars@[i as int] != '/');
                            if (i as int) < s {
                                assert(path@[i as int] == '/');
                            }
                            if t <= i as int {
                                assert(path@[i as int] == '/');
                            }
                            assert(i as int == s);
                            if (j as int) < t {
                                assert(path@[j as int] != '/');
                                assert(chars@[j as int] == '/');
                            }
                            if t < j as int {
                                assert(chars@[t] != '/');
                                assert(path@[t] == '/');
                            }
                            assert(j as int == t);
                            assert(forall|k: int| 0 <= k < i as int ==> path@[k] == '/');
                            assert(stk0.len() == 1 && is_root_entry(
                                &stk0[0], old(self).root_cluster()));
                            assert(comp_str@ == path@.subrange(s, t)) by {
                                assert(comp@ =~= path@.subrange(s, t));
                            }
                            assert(stack@ == stk0.push(e2));
                            assert(stack@.len() == 2);
                            assert(stack@[1] == e2);
                            let (cs, jj, buf, any) = choose|cs: Seq<Cluster>,
                                jj: int, buf: Seq<u16>, any: bool| {
                                &&& vc.is_chain(cs)
                                &&& cs[0] == stk0[0]->DirKind_0.first()
                                &&& spec_find(vc.chain_bytes(cs), 0, comp_str@,
                                    (nslots(vc.chain_bytes(cs)) + 1) as nat)
                                    == Some((jj, buf, any))
                                &&& #[trigger] entry_matches(
                                    vc.chain_bytes(cs), jj, buf, any, e2)
                            };
                            lemma_chain_same_model(&vc, old(self), cs);
                            assert(old(self).is_chain(cs));
                            assert(cs[0] == old(self).root_cluster());
                            assert(old(self).chain_bytes(cs) == vc.chain_bytes(cs));
                            assert(entry_matches(
                                old(self).chain_bytes(cs), jj, buf, any, e2));
                            assert(spec_find(old(self).chain_bytes(cs), 0,
                                path@.subrange(s, t),
                                (nslots(old(self).chain_bytes(cs)) + 1) as nat)
                                == Some((jj, buf, any)));
                            assert(root_find_ok(
                                *old(self), path@.subrange(s, t), e2));
                }
                let stk2 = stack@;
                assert(stk2 == stk0.push(e2));
                assert(stk2.drop_last() =~= stk0);
                assert(stk0.last() == stk0[stk0.len() - 1]);
                assert(comp_str@ == comp_at(path@, i as int)) by {
                    assert(comp@ =~= path@.subrange(i as int, j as int));
                }
                lemma_dir_find_transfer(
                    *old(self), vc, stk0[stk0.len() - 1]->DirKind_0,
                    comp_str@, e2);
                let nm = comp_at(path@, i as int);
                assert(nm.len() == comp_len);
                assert(nm[0] == path@[i as int]);
                if comp_len == 2 {
                    assert(nm[1] == path@[i as int + 1]);
                }
                let i2: int = next_comp(path@, j as int);
                assert(open_step(*old(self), path@, i as int, stk0, i2, stk2));
                lemma_walk_push(*old(self), path@, e0, tr, i2, stk2);
                tr = tr.push((i2, stk2));
                assert(i2 == if j < n { j as int + 1 } else { n as int });
            }
            if j < n {
                i = j + 1;
            } else {
                i = n;
            }
        }
        let ghost stk_end = stack@;
        match stack.pop() {
            Some(e) => {
                proof {
                    assert forall|s: int, t: int| #[trigger] simple_path(path@, s, t)
                        implies root_find_ok(*old(self), path@.subrange(s, t), e)
                            && crate::chars::spec_eq_ignore_ascii(
                                entry_name_chars(&e), path@.subrange(s, t)) by {
                        assert(!(n as int <= s));
                        assert(t <= i as int && stk_end.len() == 2);
                        assert(e == stk_end[1]);
                    }
                    assert(e == stk_end.last());
                    assert(tr[tr.len() - 1] == (n as int, stk_end));
                    assert(open_outcome(*old(self), path@, tr[tr.len() - 1],
                        Ok::<Entry, Error>(e)));
                }
                Ok(e)
            },
            None => Err(Error::NotFound),
        }
    }

    /// The cluster where the root directory starts.
    pub fn root_dir_cluster(&self) -> (r: Cluster)
        ensures
            r == self.root_cluster(),
    {
        self.root_dir_cluster
    }

    /// The size of a cluster in bytes.
    pub fn cluster_size(&self) -> (r: usize)
        requires
            self.wf(),
        ensures
            r == self.spec_cluster_size(),
            4 <= r < 0x1000_0000,
    {
        proof {
            assert(self.bps() * self.spc() < 0x1000_0000) by (nonlinear_arith)
                requires self.bps() <= 0xFFFF, 1 <= self.spc() <= 0xFF;
            assert(self.bps() * self.spc() >= self.bps() * 1) by (nonlinear_arith)
                requires self.spc() >= 1;
        }
        self.bytes_per_sector as usize * self.sectors_per_cluster as usize
    }

    /// Reads cluster `cluster`'s FAT entry and decodes its status.
    fn fat_entry(&mut self, cluster: Cluster) -> (r: Result<Status, Error>)
        requires
            old(self).wf(),
        ensures
            final(self).wf(),
            final(self).same_model(old(self)),
            match r {
                Ok(s) => s == old(self).status_of(cluster.0 as int),
                Err(e) => e matches Error::Io(_),
            },
    {
        proof {
            let c = cluster.0 as int;
            vstd::arithmetic::div_mod::lemma_div_nonincreasing(c * 4, old(self).bps());
            vstd::arithmetic::div_mod::lemma_div_pos_is_pos(c * 4, old(self).bps());
        }
        let (sector, byte_off, _len) = cluster.fat_entry_offset(
            self.fat_start_sector, self.bytes_per_sector);
        let mut buf: Vec<u8> = Vec::new();
        buf.push(0u8);
        buf.push(0u8);
        buf.push(0u8);
        buf.push(0u8);
        let got = match self.device.read_offset(sector, byte_off as usize, &mut buf) {
            Ok(g) => g,
            Err(e) => {
                return Err(Error::Io(e));
            },
        };
        if got != 4 {
            return Err(Error::Io(IoError::UnexpectedEof));
        }
        proof {
            let c = cluster.0 as int;
            let off = old(self).fat_off_of(c);
            // the entry is 4-aligned inside the sector, so all 4 bytes fit
            assert(off + 4 <= old(self).bps()) by {
                assert((c * 4) % 4 == 0) by {
                    vstd::arithmetic::div_mod::lemma_fundamental_div_mod_converse_mod(
                        c * 4, 4, c, 0);
                }
                crate::util::lemma_aligned_mod_bound(c * 4, old(self).bps());
            }
            assert(old(self).dev().in_range(old(self).fat_sector_of(c)));
            old(self).dev().lemma_sector_bytes_len(old(self).fat_sector_of(c));
            assert(buf@ =~= old(self).sector_bytes(old(self).fat_sector_of(c)).subrange(
                off, off + 4));
            assert(buf@[0] == old(self).sector_bytes(old(self).fat_sector_of(c))[off]);
            assert(buf@[1] == old(self).sector_bytes(old(self).fat_sector_of(c))[off + 1]);
            assert(buf@[2] == old(self).sector_bytes(old(self).fat_sector_of(c))[off + 2]);
            assert(buf@[3] == old(self).sector_bytes(old(self).fat_sector_of(c))[off + 3]);
        }
        let raw = le32(&buf, 0);
        proof {
            assert(raw & 0x0FFF_FFFF == raw % 0x1000_0000) by (bit_vector);
        }
        Ok(decode_status(raw))
    }

    /// Gets the next cluster in the chain: `Some` for a data link, `None`
    /// at end-of-chain, and `InvalidData` for a free, reserved or bad
    /// entry.
    pub fn next_cluster(&mut self, cluster: Cluster) -> (r: Result<Option<Cluster>, Error>)
        requires
            old(self).wf(),
        ensures
            final(self).wf(),
            final(self).same_model(old(self)),
            match r {
                Ok(Some(c2)) => old(self).status_of(cluster.0 as int) == Status::Data(c2),
                Ok(None) => old(self).status_of(cluster.0 as int) matches Status::Eoc(_),
                Err(Error::InvalidData) => {
                    ||| old(self).status_of(cluster.0 as int) == Status::Free
                    ||| old(self).status_of(cluster.0 as int) == Status::Reserved
                    ||| old(self).status_of(cluster.0 as int) == Status::Bad
                },
                Err(e) => e matches Error::Io(_),
            },
    {
        match self.fat_entry(cluster) {
            Ok(Status::Data(c)) => Ok(Some(c)),
            Ok(Status::Eoc(_)) => Ok(None),
            Ok(_) => Err(Error::InvalidData),
            Err(e) => Err(e),
        }
    }

    /// Finds the cluster that is `offset` clusters from `start`, or
    /// `None` if the chain ends first.
    pub fn find_cluster(&mut self, start: Cluster, offset: usize) -> (r: Result<
        Option<Cluster>,
        Error,
    >)
        requires
            old(self).wf(),
        ensures
            final(self).wf(),
            final(self).same_model(old(self)),
            offset == 0 ==> r == Ok::<Option<Cluster>, Error>(Some(start)),
            match r {
                Ok(Some(c2)) => old(self).spec_walk(start, offset as nat) == Some(c2),
                Ok(None) => old(self).spec_walk(start, offset as nat) is None,
                Err(Error::InvalidData) => exists|k2: int|
                    {
                        &&& 0 <= k2 < offset
                        &&& match #[trigger] old(self).spec_walk(start, k2 as nat) {
                            Some(c) => {
                                ||| old(self).status_of(c.0 as int) == Status::Free
                                ||| old(self).status_of(c.0 as int) == Status::Reserved
                                ||| old(self).status_of(c.0 as int) == Status::Bad
                            },
                            None => false,
                        }
                    },
                Err(e) => e matches Error::Io(_),
            },
    {
        let mut cluster = start;
        let mut k: usize = 0;
        while k < offset
            invariant
                k <= offset,
                self.wf(),
                self.same_model(old(self)),
                old(self).spec_walk(start, k as nat) == Some(cluster),
                old(self).spec_walk(start, offset as nat)
                    == old(self).spec_walk(cluster, (offset - k) as nat),
            decreases offset - k,
        {
            let ghost vh = *self;
            let st = match self.fat_entry(cluster) {
                Ok(s) => s,
                Err(e) => {
                    return Err(e);
                },
            };
            proof {
                assert(old(self).status_of(cluster.0 as int)
                    == vh.status_of(cluster.0 as int)) by {
                    assert(old(self).sector_bytes(
                        old(self).fat_sector_of(cluster.0 as int))
                        == vh.sector_bytes(vh.fat_sector_of(cluster.0 as int)));
                }
            }
            match st {
                Status::Data(c2) => {
                    proof {
                        lemma_walk_snoc(old(self), start, k as nat);
                    }
                    cluster = c2;
                },
                Status::Eoc(_) => {
                    return Ok(None);
                },
                _ => {
                    proof {
                        let k2 = k as int;
                        assert(old(self).spec_walk(start, k2 as nat) == Some(cluster));
                        assert(0 <= k2 < offset);
                    }
                    return Err(Error::InvalidData);
                },
            }
            k = k + 1;
        }
        Ok(Some(cluster))
    }

    /// Reads from byte `offset` of cluster `cluster` into the front of
    /// `buf`: as many bytes as the buffer holds and the cluster still
    /// has. The cluster must be in use (`Data` or end-of-chain).
    pub fn read_cluster(&mut self, cluster: Cluster, offset: usize, buf: &mut Vec<u8>)
        -> (r: Result<usize, Error>)
        requires
            old(self).wf(),
        ensures
            final(self).wf(),
            final(self).same_model(old(self)),
            final(buf)@.len() == old(buf)@.len(),
            match r {
                Ok(m) => {
                    &&& (old(self).status_of(cluster.0 as int) matches Status::Data(_)
                        || old(self).status_of(cluster.0 as int) matches Status::Eoc(_))
                    &&& offset <= old(self).spec_cluster_size()
                    &&& m == vstd::math::min(
                        old(buf)@.len() as int,
                        old(self).spec_cluster_size() - offset)
                    &&& forall|j: int| 0 <= j < m ==> final(buf)@[j]
                        == old(self).spec_cluster_byte(cluster.0 as int, offset + j)
                    &&& forall|j: int| m <= j < final(buf)@.len()
                        ==> final(buf)@[j] == old(buf)@[j]
                    &&& forall|sx: int| 0 <= sx < old(self).spc() && m > 0
                        && sx * old(self).bps() < offset + m
                        && offset < (sx + 1) * old(self).bps()
                        ==> #[trigger] old(self).dev().in_range(
                            old(self).data_start() + cluster.0 as int * old(self).spc()
                                + sx)
                },
                Err(Error::InvalidInput) => offset > old(self).spec_cluster_size(),
                Err(e) => e matches Error::Io(_) || e == Error::InvalidData,
            },
            offset > old(self).spec_cluster_size()
                ==> r == Err::<usize, Error>(Error::InvalidInput),
            r == Err::<usize, Error>(Error::InvalidData) ==> {
                ||| old(self).status_of(cluster.0 as int) == Status::Free
                ||| old(self).status_of(cluster.0 as int) == Status::Reserved
                ||| old(self).status_of(cluster.0 as int) == Status::Bad
            },
    {
        let cs = self.cluster_size();
        if offset > cs {
            return Err(Error::InvalidInput);
        }
        let st = match self.fat_entry(cluster) {
            Ok(s) => s,
            Err(e) => {
                return Err(e);
            },
        };
        match st {
            Status::Data(_) => (),
            Status::Eoc(_) => (),
            _ => {
                return Err(Error::InvalidData);
            },
        }
        proof {
            assert(cluster.0 as int * self.spc() <= 0xFFFF_FFFF * 0xFF
                && cluster.0 as int * self.spc() >= 0) by (nonlinear_arith)
                requires 0 <= cluster.0 <= 0xFFFF_FFFF, 1 <= self.spc() <= 0xFF;
        }
        let base = cluster.into_sector(self.data_start_sector, self.sectors_per_cluster);
        let m = if buf.len() < cs - offset { buf.len() } else { cs - offset };
        let bps_us = self.bytes_per_sector as usize;
        let mut copied: usize = 0;
        let mut scratch: Vec<u8> = Vec::new();
        while copied < m
            invariant
                copied <= m,
                self.wf(),
                self.same_model(old(self)),
                bps_us == self.bps(),
                cs == self.spec_cluster_size(),
                offset + m <= cs,
                m <= old(buf)@.len(),
                buf@.len() == old(buf)@.len(),
                base == self.data_start() + cluster.0 as int * self.spc(),
                base + self.spc() <= u64::MAX,
                forall|j: int| 0 <= j < copied
                    ==> buf@[j] == old(self).spec_cluster_byte(cluster.0 as int, offset + j),
                forall|j: int| copied <= j < buf@.len() ==> buf@[j] == old(buf)@[j],
                forall|sx: int| 0 <= sx < self.spc() && copied > 0
                    && sx * self.bps() < offset + copied
                    && offset < (sx + 1) * self.bps()
                    ==> #[trigger] old(self).dev().in_range(base as int + sx),
            decreases m - copied,
        {
            let ghost vh = *self;
            let pos = offset + copied;
            let s = pos / bps_us;
            let so = pos % bps_us;
            let left_in_sector = bps_us - so;
            let left = m - copied;
            let want = if left < left_in_sector { left } else { left_in_sector };
            // scratch must be exactly `want` bytes long
            scratch.clear();
            let mut j: usize = 0;
            while j < want
                invariant
                    j <= want,
                    scratch@.len() == j,
                decreases want - j,
            {
                scratch.push(0u8);
                j = j + 1;
            }
            proof {
                assert(s < self.spc()) by {
                    assert(pos < cs);
                    vstd::arithmetic::div_mod::lemma_multiply_divide_lt(
                        pos as int, bps_us as int, self.spc());
                    vstd::arithmetic::mul::lemma_mul_is_commutative(
                        bps_us as int, self.spc());
                }
            }
            let got = match self.device.read_offset(base + s as u64, so, &mut scratch) {
                Ok(g) => g,
                Err(e) => {
                    return Err(Error::Io(e));
                },
            };
            if got != want {
                return Err(Error::Io(IoError::UnexpectedEof));
            }
            proof {
                assert(vh.dev().in_range(base as int + s));
                assert(old(self).dev().in_range(base as int + s));
                vh.dev().lemma_sector_bytes_len(base as int + s);
                assert(vh.sector_bytes(base as int + s)
                    == old(self).sector_bytes(base as int + s));
                assert(scratch@ =~= old(self).sector_bytes(base as int + s).subrange(
                    so as int, so + want));
                assert(pos == s * self.bps() + so) by {
                    vstd::arithmetic::div_mod::lemma_fundamental_div_mod(
                        pos as int, bps_us as int);
                    vstd::arithmetic::mul::lemma_mul_is_commutative(
                        self.bps(), s as int);
                }
                assert forall|sx: int| 0 <= sx < self.spc() && copied + want > 0
                        && sx * self.bps() < offset + copied + want
                        && offset < (sx + 1) * self.bps()
                    implies #[trigger] old(self).dev().in_range(base as int + sx) by {
                    if !(copied > 0 && sx * self.bps() < offset + copied
                        && offset < (sx + 1) * self.bps()) {
                        // the new sector is exactly the one just read
                        assert(copied == 0 || sx * self.bps() >= offset + copied);
                        assert(pos < (sx + 1) * self.bps() || sx * self.bps() >= pos);
                        assert(sx <= s as int) by (nonlinear_arith)
                            requires
                                sx * self.bps() < pos + want,
                                pos == s as int * self.bps() + so,
                                0 <= so,
                                want <= self.bps() - so,
                                self.bps() > 0,
                                0 <= sx;
                        assert(s as int <= sx) by (nonlinear_arith)
                            requires
                                pos < (sx + 1) * self.bps() || sx * self.bps() >= pos,
                                pos == s as int * self.bps() + so,
                                0 <= so < self.bps(),
                                self.bps() > 0,
                                0 <= sx,
                                0 <= s as int;
                        assert(sx == s);
                    }
                }
            }
            copy_into(buf, copied, &scratch, 0, want);
            proof {
                assert forall|j: int| 0 <= j < copied + want
                    implies buf@[j]
                        == old(self).spec_cluster_byte(cluster.0 as int, offset + j) by {
                    if j >= copied {
                        let p = offset + j;
                        assert(buf@[j] == scratch@[j - copied]);
                        assert(scratch@[j - copied]
                            == old(self).sector_bytes(base as int + s)[so + (j - copied)]);
                        assert(p / bps_us as int == s && p % bps_us as int
                            == so + (j - copied)) by {
                            vstd::arithmetic::div_mod::lemma_fundamental_div_mod(
                                pos as int, bps_us as int);
                            vstd::arithmetic::div_mod::lemma_fundamental_div_mod_converse_mod(
                                p, bps_us as int, s as int, so + (j - copied));
                            vstd::arithmetic::div_mod::lemma_fundamental_div_mod_converse_div(
                                p, bps_us as int, s as int, so + (j - copied));
                        }
                    }
                }
            }
            copied = copied + want;
        }
        Ok(m)
    }

    /// Reads every cluster chained from `start` onto the end of `buf`.
    /// Returns the number of bytes appended: the chain length times the
    /// cluster size. A chain longer than the FAT itself is a cycle and
    /// is rejected as `InvalidData`.
    #[verifier::rlimit(100)]
    pub fn read_chain(&mut self, start: Cluster, buf: &mut Vec<u8>) -> (r: Result<
        usize,
        Error,
    >)
        requires
            old(self).wf(),
        ensures
            final(self).wf(),
            final(self).same_model(old(self)),
            match r {
                Ok(sz) => exists|cs: Seq<Cluster>|
                    {
                        &&& old(self).is_chain(cs)
                        &&& cs[0] == start
                        &&& #[trigger] final(buf)@ == old(buf)@ + old(self).chain_bytes(cs)
                        &&& sz == cs.len() * old(self).spec_cluster_size()
                        &&& final(buf)@.len() == old(buf)@.len() + sz
                    },
                Err(e) => e matches Error::Io(_) || e == Error::InvalidData,
            },
            r == Err::<usize, Error>(Error::InvalidData) ==> exists|ps: Seq<Cluster>|
                {
                    &&& #[trigger] old(self).linked_prefix(ps, start)
                    &&& {
                        ||| old(self).status_of(ps.last().0 as int) == Status::Free
                        ||| old(self).status_of(ps.last().0 as int) == Status::Reserved
                        ||| old(self).status_of(ps.last().0 as int) == Status::Bad
                        ||| ps.len() > old(self).fat_entries()
                        ||| ps.len() * old(self).spec_cluster_size() > usize::MAX
                    }
                },
    {
        let cluster_sz = self.cluster_size();
        // an upper bound on any acyclic chain: the FAT entry count
        proof {
            assert((self.sectors_per_fat as int) * ((self.bytes_per_sector / 4) as int)
                <= 0xFFFF_FFFF * 0x4000
                && (self.sectors_per_fat as int) * ((self.bytes_per_sector / 4) as int)
                    >= 0) by (nonlinear_arith)
                requires
                    0 <= self.sectors_per_fat <= 0xFFFF_FFFF,
                    0 <= self.bytes_per_sector / 4 <= 0x4000;
        }
        let max_links: u64 = (self.sectors_per_fat as u64)
            * ((self.bytes_per_sector / 4) as u64);
        let mut cluster = start;
        let mut sz: usize = 0;
        let mut links: u64 = 0;
        let ghost mut done: Seq<Cluster> = Seq::empty();
        loop
            invariant
                self.wf(),
                old(self).wf(),
                self.same_model(old(self)),
                cluster_sz == self.spec_cluster_size(),
                4 <= cluster_sz < 0x1000_0000,
                links <= max_links,
                sz == done.len() * cluster_sz,
                buf@.len() == old(buf)@.len() + sz,
                buf@ == old(buf)@ + old(self).chain_bytes(done),
                done.len() == links,
                forall|i: int| 0 <= i < done.len() - 1
                    ==> old(self).status_of(#[trigger] done[i].0 as int)
                        == Status::Data(done[i + 1]),
                done.len() > 0 ==> done[0] == start
                    && old(self).status_of(done.last().0 as int) == Status::Data(cluster),
                done.len() == 0 ==> cluster == start,
                max_links == old(self).fat_entries(),
            decreases max_links - links,
        {
            let ghost vh = *self;
            if links >= max_links {
                // the walk visited more clusters than the FAT holds
                proof {
                    lemma_prefix_push(old(self), done, cluster, start);
                    let ps = done.push(cluster);
                    assert(ps.len() > old(self).fat_entries());
                }
                return Err(Error::InvalidData);
            }
            let mut chunk: Vec<u8> = Vec::new();
            let mut j: usize = 0;
            while j < cluster_sz
                invariant
                    j <= cluster_sz,
                    chunk@.len() == j,
                decreases cluster_sz - j,
            {
                chunk.push(0u8);
                j = j + 1;
            }
            let got = match self.read_cluster(cluster, 0, &mut chunk) {
                Ok(g) => g,
                Err(e) => {
                    proof {
                        if e == Error::InvalidData {
                            assert(old(self).status_of(cluster.0 as int)
                                == vh.status_of(cluster.0 as int)) by {
                                assert(old(self).sector_bytes(
                                    old(self).fat_sector_of(cluster.0 as int))
                                    == vh.sector_bytes(
                                        vh.fat_sector_of(cluster.0 as int)));
                            }
                            lemma_prefix_push(old(self), done, cluster, start);
                            let ps = done.push(cluster);
                            assert(ps.last() == cluster);
                        }
                    }
                    return Err(e);
                },
            };
            proof {
                let c = cluster.0 as int;
                assert(vh.spc() == old(self).spc());
                assert(vh.bps() == old(self).bps());
                assert(vh.data_start() == old(self).data_start());
                assert(chunk@.len() == got);
                assert(chunk@.len() == old(self).spec_cluster_size());
                assert forall|j: int| 0 <= j < chunk@.len()
                    implies chunk@[j] == #[trigger] old(self).spec_cluster_byte(c, j) by {
                    assert(chunk@[j] == vh.spec_cluster_byte(c, j));
                    assert(vh.sector_bytes(vh.data_start() + c * vh.spc() + j / vh.bps())
                        == old(self).sector_bytes(
                            old(self).data_start() + c * old(self).spc()
                                + j / old(self).bps()));
                }
                assert forall|sx: int| 0 <= sx < old(self).spc() && chunk@.len() > 0
                        && sx * old(self).bps() < 0 + chunk@.len()
                        && 0 < (sx + 1) * old(self).bps()
                    implies #[trigger] old(self).dev().in_range(
                        old(self).data_start() + c * old(self).spc() + sx) by {
                    assert(vh.dev().in_range(vh.data_start() + c * vh.spc() + sx));
                }
                old(self).lemma_full_read_is_cluster(c, chunk@);
                assert(old(self).status_of(c) == vh.status_of(c)) by {
                    assert(old(self).sector_bytes(old(self).fat_sector_of(c))
                        == vh.sector_bytes(vh.fat_sector_of(c)));
                }
            }
            if sz > usize::MAX - cluster_sz {
                // the chain no longer fits an in-memory buffer
                proof {
                    lemma_prefix_push(old(self), done, cluster, start);
                    let ps = done.push(cluster);
                    let csz = old(self).spec_cluster_size();
                    assert(ps.len() * csz > usize::MAX) by (nonlinear_arith)
                        requires
                            ps.len() == done.len() + 1,
                            sz == done.len() * csz,
                            cluster_sz == csz,
                            sz + cluster_sz > usize::MAX;
                }
                return Err(Error::InvalidData);
            }
            buf.append(&mut chunk);
            sz = sz + cluster_sz;
            let ghost vm = *self;
            let nxt = match self.next_cluster(cluster) {
                Ok(n) => n,
                Err(e) => {
                    proof {
                        if e == Error::InvalidData {
                            assert(old(self).status_of(cluster.0 as int)
                                == vm.status_of(cluster.0 as int)) by {
                                assert(old(self).sector_bytes(
                                    old(self).fat_sector_of(cluster.0 as int))
                                    == vm.sector_bytes(
                                        vm.fat_sector_of(cluster.0 as int)));
                            }
                            lemma_prefix_push(old(self), done, cluster, start);
                            let ps = done.push(cluster);
                            assert(ps.last() == cluster);
                        }
                    }
                    return Err(e);
                },
            };
            proof {
                let prev = done;
                done = done.push(cluster);
                assert(done.drop_last() =~= prev);
                assert(done.last() == cluster);
                assert(old(self).chain_bytes(done)
                    == old(self).chain_bytes(prev)
                        + old(self).cluster_bytes(cluster.0 as int));
                assert(buf@ == old(buf)@ + old(self).chain_bytes(done));
                assert((prev.len() + 1) * cluster_sz
                    == prev.len() * cluster_sz + cluster_sz) by (nonlinear_arith);
                // the link just followed, in the mounted model
                assert(old(self).status_of(cluster.0 as int)
                    == vm.status_of(cluster.0 as int)) by {
                    assert(old(self).sector_bytes(
                        old(self).fat_sector_of(cluster.0 as int))
                        == vm.sector_bytes(vm.fat_sector_of(cluster.0 as int)));
                }
            }
            links = links + 1;
            match nxt {
                Some(c2) => {
                    cluster = c2;
                },
                None => {
                    proof {
                        assert(old(self).is_chain(done));
                    }
                    return Ok(sz);
                },
            }
        }
    }

    /// The byte at offset `i` of cluster `c`, read sector-wise.
    pub open spec fn spec_cluster_byte(&self, c: int, i: int) -> u8 {
        self.sector_bytes(self.data_start() + c * self.spc() + i / self.bps())[i % self.bps()]
    }

    /// Inside a cluster, the concatenation of its sectors indexes like
    /// the sector-wise byte lookup.
    proof fn lemma_logical_concat_index(&self, from: int, count: int, i: int)
        requires
            self.wf(),
            0 <= i < count * self.bps(),
            count >= 1,
            forall|k: int| 0 <= k < count
                ==> (#[trigger] self.sector_bytes(from + k)).len() == self.bps(),
        ensures
            self.logical_concat(from, count).len() == count * self.bps(),
            self.logical_concat(from, count)[i]
                == self.sector_bytes(from + i / self.bps())[i % self.bps()],
        decreases count,
    {
        let b = self.bps();
        assert(b >= 4);
        if count == 1 {
            assert(self.logical_concat(from, 0).len() == 0);
            assert(i < b) by (nonlinear_arith)
                requires i < count * b, count == 1;
            assert(self.sector_bytes(from + 0).len() == b);
            vstd::arithmetic::div_mod::lemma_basic_div(i, b);
            vstd::arithmetic::div_mod::lemma_small_mod(i as nat, b as nat);
        } else {
            assert((count - 1) * b >= 1 * b) by (nonlinear_arith)
                requires count >= 2, b > 0;
            if i < (count - 1) * b {
                self.lemma_logical_concat_index(from, count - 1, i);
            } else {
                self.lemma_logical_concat_index(from, count - 1, 0);
                let r = i - (count - 1) * b;
                assert(r < b) by (nonlinear_arith)
                    requires i < count * b, b > 0, r == i - (count - 1) * b;
                assert(i == (count - 1) * b + r);
                vstd::arithmetic::div_mod::lemma_fundamental_div_mod_converse_div(
                    i, b, count - 1, r);
                vstd::arithmetic::div_mod::lemma_fundamental_div_mod_converse_mod(
                    i, b, count - 1, r);
            }
            assert(count * b == (count - 1) * b + b) by (nonlinear_arith);
        }
    }

    /// A buffer that holds every byte of a cluster, read sector-wise
    /// with every sector reachable, is the cluster's bytes.
    proof fn lemma_full_read_is_cluster(&self, c: int, chunk: Seq<u8>)
        requires
            self.wf(),
            c >= 0,
            chunk.len() == self.spec_cluster_size(),
            forall|j: int| 0 <= j < chunk.len()
                ==> chunk[j] == #[trigger] self.spec_cluster_byte(c, j),
            forall|sx: int| 0 <= sx < self.spc() && chunk.len() > 0
                && sx * self.bps() < 0 + chunk.len()
                && 0 < (sx + 1) * self.bps()
                ==> #[trigger] self.dev().in_range(
                    self.data_start() + c * self.spc() + sx),
        ensures
            chunk == self.cluster_bytes(c),
    {
        let got = chunk.len() as int;
        assert forall|k: int| 0 <= k < self.spc()
            implies (#[trigger] self.sector_bytes(
                self.data_start() + c * self.spc() + k)).len() == self.bps() by {
            assert(k * self.bps() < 0 + got && 0 < (k + 1) * self.bps()
                && got > 0) by (nonlinear_arith)
                requires
                    0 <= k < self.spc(),
                    got == self.spec_cluster_size(),
                    self.spec_cluster_size() == self.bps() * self.spc(),
                    self.spc() > 0,
                    self.bps() > 0;
            assert(self.dev().in_range(self.data_start() + c * self.spc() + k));
            assert(self.data_start() + c * self.spc() + k >= 0) by (nonlinear_arith)
                requires self.data_start() >= 0, c >= 0, self.spc() >= 0, k >= 0;
            self.dev().lemma_sector_bytes_len(
                self.data_start() + c * self.spc() + k);
        }
        self.lemma_cluster_bytes_window(c, 0, got);
        assert(chunk =~= self.cluster_bytes(c)) by {
            assert forall|j2: int| 0 <= j2 < got
                implies chunk[j2] == self.cluster_bytes(c)[j2] by {
                assert(self.spec_cluster_byte(c, 0 + j2) == self.spec_cluster_byte(c, j2));
                assert(self.cluster_bytes(c)[0 + j2]
                    == self.spec_cluster_byte(c, 0 + j2));
                assert(chunk[j2] == self.spec_cluster_byte(c, j2));
            }
        }
    }

    /// A window of a cluster's bytes, position by position.
    proof fn lemma_cluster_bytes_window(&self, c: int, offset: int, m: int)
        requires
            self.wf(),
            0 <= offset,
            0 <= m,
            offset + m <= self.spec_cluster_size(),
            forall|k: int| 0 <= k < self.spc()
                ==> (#[trigger] self.sector_bytes(self.data_start() + c * self.spc() + k))
                    .len() == self.bps(),
        ensures
            self.cluster_bytes(c).len() == self.spec_cluster_size(),
            forall|j: int| 0 <= j < m
                ==> self.cluster_bytes(c)[offset + j]
                    == #[trigger] self.spec_cluster_byte(c, offset + j),
    {
        let from = self.data_start() + c * self.spc();
        vstd::arithmetic::mul::lemma_mul_is_commutative(self.spc(), self.bps());
        assert(self.spec_cluster_size() == self.spc() * self.bps());
        assert(self.spec_cluster_size() > 0) by (nonlinear_arith)
            requires self.bps() >= 4, self.spc() >= 1,
                self.spec_cluster_size() == self.bps() * self.spc();
        self.lemma_logical_concat_index(from, self.spc(), 0);
        assert forall|j: int| 0 <= j < m
            implies self.cluster_bytes(c)[offset + j]
                == #[trigger] self.spec_cluster_byte(c, offset + j) by {
            self.lemma_logical_concat_index(from, self.spc(), offset + j);
        }
    }
}

/// Whether every character of the path is a slash (and there is at
/// least one).
pub open spec fn all_slashes(p: Seq<char>) -> bool {
    p.len() >= 1 && forall|k: int| 0 <= k < p.len() ==> p[k] == '/'
}

/// The index where the path component starting at `i` ends: the next
/// slash, or the end of the path. The result is clamped to `i + 1` at
/// least, so that walking components visibly advances.
pub open spec fn comp_end(p: Seq<char>, i: int) -> int
    decreases p.len() - i,
{
    if i < 0 || i >= p.len() || p[i] == '/' {
        i
    } else {
        let rest = comp_end(p, i + 1);
        if rest >= i + 1 {
            rest
        } else {
            i + 1
        }
    }
}

/// The position after a component ending at `t`: past the slash, or
/// the end of the path.
pub open spec fn next_comp(p: Seq<char>, t: int) -> int {
    if t < p.len() {
        t + 1
    } else {
        t
    }
}

/// The path component starting at `i`.
pub open spec fn comp_at(p: Seq<char>, i: int) -> Seq<char> {
    p.subrange(i, comp_end(p, i))
}

/// Bounds of `comp_end`: it stays within the path, advances over a
/// name, stops at a slash, and crosses none.
pub proof fn lemma_comp_end_bounds(p: Seq<char>, i: int)
    requires
        0 <= i <= p.len(),
    ensures
        i <= comp_end(p, i) <= p.len(),
        i < p.len() && p[i] != '/' ==> comp_end(p, i) >= i + 1,
        comp_end(p, i) < p.len() ==> p[comp_end(p, i)] == '/',
        forall|k: int| i <= k < comp_end(p, i) ==> p[k] != '/',
    decreases p.len() - i,
{
    if i < p.len() && p[i] != '/' {
        lemma_comp_end_bounds(p, i + 1);
    }
}

/// The name resolves in directory `d` to entry `e`: some complete
/// chain from `d`'s first cluster holds directory data in which
/// `spec_find` locates a slot matching `e`.
pub open spec fn dir_find_ok<B: BlockDevice>(
    v: VFat<B>,
    d: Dir,
    name: Seq<char>,
    e: Entry,
) -> bool {
    exists|cs: Seq<Cluster>, j: int, buf: Seq<u16>, any: bool| {
        &&& v.is_chain(cs)
        &&& cs[0] == d.first()
        &&& spec_find(v.chain_bytes(cs), 0, name,
            (nslots(v.chain_bytes(cs)) + 1) as nat) == Some((j, buf, any))
        &&& #[trigger] entry_matches(v.chain_bytes(cs), j, buf, any, e)
    }
}

/// The name does not resolve in directory `d`: `spec_find` comes up
/// empty on a complete chain from its first cluster.
pub open spec fn dir_find_none<B: BlockDevice>(v: VFat<B>, d: Dir, name: Seq<char>) -> bool {
    exists|cs: Seq<Cluster>| {
        &&& #[trigger] v.is_chain(cs)
        &&& cs[0] == d.first()
        &&& spec_find(v.chain_bytes(cs), 0, name,
            (nslots(v.chain_bytes(cs)) + 1) as nat) is None
    }
}

/// A match found over one volume's model is found over any volume
/// with the same model.
proof fn lemma_dir_find_transfer<B: BlockDevice>(
    v0: VFat<B>,
    vc: VFat<B>,
    dd: Dir,
    name: Seq<char>,
    e2: Entry,
)
    requires
        vc.same_model(&v0),
        exists|cs: Seq<Cluster>, jj: int, buf: Seq<u16>, any: bool| {
            &&& vc.is_chain(cs)
            &&& cs[0] == dd.first()
            &&& spec_find(vc.chain_bytes(cs), 0, name,
                (nslots(vc.chain_bytes(cs)) + 1) as nat) == Some((jj, buf, any))
            &&& #[trigger] entry_matches(vc.chain_bytes(cs), jj, buf, any, e2)
        },
    ensures
        dir_find_ok(v0, dd, name, e2),
{
    let (cs, jj, buf, any) = choose|cs: Seq<Cluster>, jj: int, buf: Seq<u16>, any: bool| {
        &&& vc.is_chain(cs)
        &&& cs[0] == dd.first()
        &&& spec_find(vc.chain_bytes(cs), 0, name,
            (nslots(vc.chain_bytes(cs)) + 1) as nat) == Some((jj, buf, any))
        &&& #[trigger] entry_matches(vc.chain_bytes(cs), jj, buf, any, e2)
    };
    lemma_chain_same_model(&vc, &v0, cs);
    assert(v0.is_chain(cs));
    assert(v0.chain_bytes(cs) == vc.chain_bytes(cs));
    assert(spec_find(v0.chain_bytes(cs), 0, name,
        (nslots(v0.chain_bytes(cs)) + 1) as nat) == Some((jj, buf, any)));
    assert(entry_matches(v0.chain_bytes(cs), jj, buf, any, e2));
}

/// A missed lookup over one volume's model misses over any volume with
/// the same model.
proof fn lemma_dir_miss_transfer<B: BlockDevice>(
    v0: VFat<B>,
    vc: VFat<B>,
    dd: Dir,
    name: Seq<char>,
)
    requires
        vc.same_model(&v0),
        exists|cs: Seq<Cluster>| {
            &&& #[trigger] vc.is_chain(cs)
            &&& cs[0] == dd.first()
            &&& spec_find(vc.chain_bytes(cs), 0, name,
                (nslots(vc.chain_bytes(cs)) + 1) as nat) is None
        },
    ensures
        dir_find_none(v0, dd, name),
{
    let cs = choose|cs: Seq<Cluster>| {
        &&& #[trigger] vc.is_chain(cs)
        &&& cs[0] == dd.first()
        &&& spec_find(vc.chain_bytes(cs), 0, name,
            (nslots(vc.chain_bytes(cs)) + 1) as nat) is None
    };
    lemma_chain_same_model(&vc, &v0, cs);
    assert(v0.is_chain(cs));
    assert(v0.chain_bytes(cs) == vc.chain_bytes(cs));
}

/// One step of path walking, from position `i` with entry stack `stk`
/// to position `i2` with stack `stk2`: a slash is skipped, `.` keeps
/// the stack, `..` pops one level but never the root, and a name must
/// resolve in the directory on top of the stack, the found entry going
/// on top.
pub open spec fn open_step<B: BlockDevice>(
    v: VFat<B>,
    p: Seq<char>,
    i: int,
    stk: Seq<Entry>,
    i2: int,
    stk2: Seq<Entry>,
) -> bool {
    &&& 0 <= i < p.len()
    &&& stk.len() >= 1
    &&& if p[i] == '/' {
        i2 == i + 1 && stk2 == stk
    } else {
        let name = comp_at(p, i);
        &&& i2 == next_comp(p, comp_end(p, i))
        &&& if name.len() == 1 && name[0] == '.' {
            stk2 == stk
        } else if name.len() == 2 && name[0] == '.' && name[1] == '.' {
            stk2 == (if stk.len() > 1 {
                stk.drop_last()
            } else {
                stk
            })
        } else {
            &&& stk.last() is DirKind
            &&& stk2.len() == stk.len() + 1
            &&& stk2.drop_last() == stk
            &&& dir_find_ok(v, stk.last()->DirKind_0, name, stk2.last())
        }
    }
}

/// A walk of the path from its start: each position-and-stack pair
/// follows from the one before it by `open_step`.
pub open spec fn open_walk<B: BlockDevice>(
    v: VFat<B>,
    p: Seq<char>,
    e0: Entry,
    tr: Seq<(int, Seq<Entry>)>,
) -> bool {
    &&& tr.len() >= 1
    &&& tr[0] == (0int, seq![e0])
    &&& forall|k: int| 0 <= k < tr.len() - 1
        ==> #[trigger] open_step(v, p, tr[k].0, tr[k].1, tr[k + 1].0, tr[k + 1].1)
}

/// What the end of a walk says of `open`'s result: success is owed at
/// the end of the path and yields the top of the stack; each error
/// names the component it stopped at.
pub open spec fn open_outcome<B: BlockDevice>(
    v: VFat<B>,
    p: Seq<char>,
    last: (int, Seq<Entry>),
    r: Result<Entry, Error>,
) -> bool {
    match r {
        Ok(e) => last.0 >= p.len() && last.1.len() >= 1 && e == last.1.last(),
        Err(Error::NotFound) => {
            &&& 0 <= last.0 < p.len()
            &&& p[last.0] != '/'
            &&& last.1.len() >= 1
            &&& last.1.last() is DirKind
            &&& dir_find_none(v, last.1.last()->DirKind_0, comp_at(p, last.0))
        },
        Err(Error::NotADirectory) => {
            &&& 0 <= last.0 < p.len()
            &&& p[last.0] != '/'
            &&& last.1.len() >= 1
            &&& last.1.last() is FileKind
        },
        Err(e) => e matches Error::Io(_) || e == Error::InvalidData,
    }
}

/// Appending a step to a walk keeps it a walk.
proof fn lemma_walk_push<B: BlockDevice>(
    v: VFat<B>,
    p: Seq<char>,
    e0: Entry,
    tr: Seq<(int, Seq<Entry>)>,
    i2: int,
    stk2: Seq<Entry>,
)
    requires
        open_walk(v, p, e0, tr),
        open_step(v, p, tr[tr.len() - 1].0, tr[tr.len() - 1].1, i2, stk2),
    ensures
        open_walk(v, p, e0, tr.push((i2, stk2))),
{
    let tr2 = tr.push((i2, stk2));
    assert(tr2[0] == tr[0]);
    assert forall|k: int| 0 <= k < tr2.len() - 1
        implies #[trigger] open_step(
            v, p, tr2[k].0, tr2[k].1, tr2[k + 1].0, tr2[k + 1].1) by {
        if k < tr.len() - 1 {
            assert(open_step(v, p, tr[k].0, tr[k].1, tr[k + 1].0, tr[k + 1].1));
            assert(tr2[k] == tr[k] && tr2[k + 1] == tr[k + 1]);
        } else {
            assert(k == tr.len() - 1);
            assert(tr2[k] == tr[k]);
            assert(tr2[k + 1] == (i2, stk2));
        }
    }
}

/// A path that names exactly one thing: slashes, then one component
/// running from `s` to `t` that is neither `.` nor `..`, then slashes.
pub open spec fn simple_path(p: Seq<char>, s: int, t: int) -> bool {
    &&& 0 <= s < t <= p.len()
    &&& (forall|k: int| 0 <= k < s ==> p[k] == '/')
    &&& (forall|k: int| s <= k < t ==> p[k] != '/')
    &&& (forall|k: int| t <= k < p.len() ==> p[k] == '/')
    &&& !(t - s == 1 && p[s] == '.')
    &&& !(t - s == 2 && p[s] == '.' && p[s + 1] == '.')
}

/// The name resolves in the root directory: some complete chain from
/// the root cluster holds directory data in which `spec_find` locates a
/// slot matching `e`.
pub open spec fn root_find_ok<B: BlockDevice>(v: VFat<B>, name: Seq<char>, e: Entry) -> bool {
    exists|cs: Seq<Cluster>, j: int, buf: Seq<u16>, any: bool| {
        &&& v.is_chain(cs)
        &&& cs[0] == v.root_cluster()
        &&& spec_find(v.chain_bytes(cs), 0, name,
            (nslots(v.chain_bytes(cs)) + 1) as nat) == Some((j, buf, any))
        &&& #[trigger] entry_matches(v.chain_bytes(cs), j, buf, any, e)
    }
}

/// The name does not resolve in the root directory: `spec_find` comes
/// up empty on a complete chain from the root cluster.
pub open spec fn root_find_none<B: BlockDevice>(v: VFat<B>, name: Seq<char>) -> bool {
    exists|cs: Seq<Cluster>| {
        &&& #[trigger] v.is_chain(cs)
        &&& cs[0] == v.root_cluster()
        &&& spec_find(v.chain_bytes(cs), 0, name,
            (nslots(v.chain_bytes(cs)) + 1) as nat) is None
    }
}

/// Two volumes with one model concatenate logical sectors identically.
proof fn lemma_concat_same_model<B: BlockDevice>(
    a: &VFat<B>,
    b: &VFat<B>,
    from: int,
    count: int,
)
    requires
        a.same_model(b),
    ensures
        a.logical_concat(from, count) == b.logical_concat(from, count),
    decreases count,
{
    if count > 0 {
        lemma_concat_same_model(a, b, from, count - 1);
        assert(a.sector_bytes(from + count - 1) == b.sector_bytes(from + count - 1));
    }
}

/// Two volumes with one model hold the same chains, with the same
/// bytes.
pub proof fn lemma_chain_same_model<B: BlockDevice>(a: &VFat<B>, b: &VFat<B>, cs: Seq<Cluster>)
    requires
        a.same_model(b),
    ensures
        a.is_chain(cs) == b.is_chain(cs),
        a.chain_bytes(cs) == b.chain_bytes(cs),
    decreases cs.len(),
{
    if cs.len() > 0 {
        lemma_chain_same_model(a, b, cs.drop_last());
        let c = cs.last().0 as int;
        lemma_concat_same_model(a, b, a.data_start() + c * a.spc(), a.spc());
        assert(a.cluster_bytes(c) == b.cluster_bytes(c));
        assert forall|i: int| 0 <= i < cs.len()
            implies a.status_of(#[trigger] cs[i].0 as int)
                == b.status_of(cs[i].0 as int) by {
            let ci = cs[i].0 as int;
            assert(a.sector_bytes(a.fat_sector_of(ci))
                == b.sector_bytes(b.fat_sector_of(ci)));
        }
        assert(a.status_of(cs.last().0 as int) == b.status_of(cs.last().0 as int));
        if a.is_chain(cs) {
            assert forall|i: int| 0 <= i < cs.len() - 1
                implies b.status_of(#[trigger] cs[i].0 as int)
                    == Status::Data(cs[i + 1]) by {
                assert(a.status_of(cs[i].0 as int) == Status::Data(cs[i + 1]));
            }
            assert(b.is_chain(cs));
        }
        if b.is_chain(cs) {
            assert forall|i: int| 0 <= i < cs.len() - 1
                implies a.status_of(#[trigger] cs[i].0 as int)
                    == Status::Data(cs[i + 1]) by {
                assert(b.status_of(cs[i].0 as int) == Status::Data(cs[i + 1]));
            }
            assert(a.is_chain(cs));
        }
    }
}

/// Whether the entry is the root directory of a volume rooted at
/// `root`.
pub open spec fn is_root_entry(e: &Entry, root: Cluster) -> bool {
    match e {
        Entry::DirKind(d) => d.first() == root && d.name_() == Seq::<char>::empty(),
        Entry::FileKind(_) => false,
    }
}

/// Extending a data-linked walk by the cluster its last entry points
/// at keeps it a walk.
proof fn lemma_prefix_push<B: BlockDevice>(
    v: &VFat<B>,
    done: Seq<Cluster>,
    cluster: Cluster,
    start: Cluster,
)
    requires
        forall|i: int| 0 <= i < done.len() - 1
            ==> v.status_of(#[trigger] done[i].0 as int) == Status::Data(done[i + 1]),
        done.len() > 0 ==> done[0] == start
            && v.status_of(done.last().0 as int) == Status::Data(cluster),
        done.len() == 0 ==> cluster == start,
    ensures
        v.linked_prefix(done.push(cluster), start),
{
    let ps = done.push(cluster);
    assert(ps[0] == start);
    assert forall|i: int| 0 <= i < ps.len() - 1
        implies v.status_of(#[trigger] ps[i].0 as int) == Status::Data(ps[i + 1]) by {
        if i < done.len() - 1 {
            assert(ps[i] == done[i] && ps[i + 1] == done[i + 1]);
        } else {
            assert(ps[i] == done.last() && ps[i + 1] == cluster);
        }
    }
}

/// Two volumes with one model walk their chains identically.
pub proof fn lemma_walk_same_model<B: BlockDevice>(
    a: &VFat<B>,
    b: &VFat<B>,
    c: Cluster,
    k: nat,
)
    requires
        a.same_model(b),
    ensures
        a.spec_walk(c, k) == b.spec_walk(c, k),
    decreases k,
{
    assert(a.sector_bytes(a.fat_sector_of(c.0 as int))
        == b.sector_bytes(b.fat_sector_of(c.0 as int)));
    assert(a.status_of(c.0 as int) == b.status_of(c.0 as int));
    if k == 0 {
        assert(a.spec_walk(c, 0) == Some(c));
        assert(b.spec_walk(c, 0) == Some(c));
    } else {
        match a.status_of(c.0 as int) {
            Status::Data(c2) => {
                lemma_walk_same_model(a, b, c2, (k - 1) as nat);
                assert(a.spec_walk(c, k) == a.spec_walk(c2, (k - 1) as nat));
                assert(b.spec_walk(c, k) == b.spec_walk(c2, (k - 1) as nat));
            },
            _ => {
                assert(a.spec_walk(c, k) is None);
                assert(b.spec_walk(c, k) is None);
            },
        }
    }
}

/// Walking one more link goes through the last cluster's entry.
pub proof fn lemma_walk_snoc<B: BlockDevice>(v: &VFat<B>, first: Cluster, k: nat)
    ensures
        v.spec_walk(first, k + 1) == (match v.spec_walk(first, k) {
            Some(c) => match v.status_of(c.0 as int) {
                Status::Data(n) => Some(n),
                _ => None::<Cluster>,
            },
            None => None::<Cluster>,
        }),
    decreases k,
{
    if k == 0 {
        assert(v.spec_walk(first, 0) == Some(first));
        match v.status_of(first.0 as int) {
            Status::Data(n) => {
                assert(v.spec_walk(first, 1) == v.spec_walk(n, 0));
            },
            _ => {
                assert(v.spec_walk(first, 1) is None);
            },
        }
    } else {
        match v.status_of(first.0 as int) {
            Status::Data(c2) => {
                lemma_walk_snoc(v, c2, (k - 1) as nat);
                assert(v.spec_walk(first, k + 1) == v.spec_walk(c2, k));
                assert(v.spec_walk(first, k) == v.spec_walk(c2, (k - 1) as nat));
            },
            _ => {
                assert(v.spec_walk(first, k + 1) is None);
                assert(v.spec_walk(first, k) is None);
            },
        }
    }
}

} // verus!
