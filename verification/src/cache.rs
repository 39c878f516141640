//! The sector cache over a partition of a block device. A logical sector
//! `n` covers the `factor` consecutive physical sectors starting at
//! `partition.start + n * factor`, where `factor` is the ratio of the
//! logical to the physical sector size. Sectors are read through the
//! cache and pinned: there is no eviction.

use vstd::prelude::*;

verus! {

use crate::device::BlockDevice;
use crate::device::IoError;

/// Copies `len` bytes of `src` starting at `src_off` into `dst` starting
/// at `dst_off`.
pub fn copy_into(dst: &mut Vec<u8>, dst_off: usize, src: &Vec<u8>, src_off: usize, len: usize)
    requires
        dst_off + len <= old(dst)@.len(),
        src_off + len <= src@.len(),
    ensures
        final(dst)@.len() == old(dst)@.len(),
        final(dst)@ == old(dst)@.take(dst_off as int)
            + src@.subrange(src_off as int, src_off + len)
            + old(dst)@.skip(dst_off + len),
{
    let dl = dst.len();
    let sl = src.len();
    let mut i: usize = 0;
    while i < len
        invariant
            i <= len,
            dl == dst@.len(),
            sl == src@.len(),
            dst_off + len <= dst@.len(),
            src_off + len <= src@.len(),
            dst@.len() == old(dst)@.len(),
            forall|j: int| dst_off <= j < dst_off + i ==> dst@[j] == src@[j - dst_off + src_off],
            forall|j: int| 0 <= j < dst@.len() && !(dst_off <= j < dst_off + i)
                ==> dst@[j] == old(dst)@[j],
        decreases len - i,
    {
        let b = src[src_off + i];
        dst.set(dst_off + i, b);
        i = i + 1;
    }
    proof {
        assert(dst@ =~= old(dst)@.take(dst_off as int)
            + src@.subrange(src_off as int, src_off + len)
            + old(dst)@.skip(dst_off + len));
    }
}

/// The concatenated bytes of `count` device sectors starting at `from`.
pub open spec fn sectors_concat(secs: Seq<Seq<u8>>, from: int, count: int) -> Seq<u8>
    decreases count,
{
    if count <= 0 {
        Seq::empty()
    } else {
        sectors_concat(secs, from, count - 1) + secs[from + count - 1]
    }
}

/// A partition of a block device.
pub struct Partition {
    /// The physical sector where the partition begins.
    pub start: u64,
    /// The size, in bytes, of a logical sector in the partition.
    pub sector_size: u64,
}

/// One cached logical sector.
struct CacheEntry {
    data: Vec<u8>,
    dirty: bool,
}

/// A block device with a sector cache, addressed in the logical sectors
/// of a partition.
pub struct CachedDevice<B: BlockDevice> {
    device: B,
    keys: Vec<u64>,
    entries: Vec<CacheEntry>,
    partition_start: u64,
    partition_sector_size: u64,
}

impl<B: BlockDevice> CachedDevice<B> {
    /// The underlying device's sectors.
    pub closed spec fn dev_sectors(&self) -> Seq<Seq<u8>> {
        self.device.sectors()
    }

    /// The underlying device's sector size.
    pub closed spec fn dev_sector_len(&self) -> nat {
        self.device.sector_len()
    }

    /// The first physical sector of the partition.
    pub closed spec fn part_start(&self) -> int {
        self.partition_start as int
    }

    /// The byte size of a logical sector.
    pub closed spec fn logical_len(&self) -> nat {
        self.partition_sector_size as nat
    }

    /// Physical sectors per logical sector.
    pub open spec fn factor(&self) -> int {
        self.logical_len() as int / self.dev_sector_len() as int
    }

    /// Whether logical sector `n` lies within the device.
    pub open spec fn in_range(&self, n: int) -> bool {
        self.part_start() + (n + 1) * self.factor() <= self.dev_sectors().len()
    }

    /// The bytes of logical sector `n`.
    pub open spec fn sector_bytes(&self, n: int) -> Seq<u8> {
        sectors_concat(
            self.dev_sectors(),
            self.part_start() + n * self.factor(),
            self.factor(),
        )
    }

    /// The cache's structural invariant: the device is sound, the logical
    /// size is a positive multiple of the physical size, and every clean
    /// cache entry holds exactly its logical sector's bytes.
    pub closed spec fn wf(&self) -> bool {
        &&& self.device.inv()
        &&& self.device.sector_len() > 0
        &&& self.partition_sector_size >= self.device.sector_len()
        &&& self.partition_sector_size <= usize::MAX
        &&& self.partition_sector_size as int % (self.device.sector_len() as int) == 0
        &&& self.keys@.len() == self.entries@.len()
        &&& forall|i: int, j: int| 0 <= i < j < self.keys@.len()
            ==> self.keys@[i] != self.keys@[j]
        &&& forall|i: int| 0 <= i < self.entries@.len()
            ==> (#[trigger] self.entries@[i]).data@.len() == self.logical_len()
        &&& forall|i: int| 0 <= i < self.entries@.len()
            ==> (!(#[trigger] self.entries@[i]).dirty ==> self.in_range(self.keys@[i] as int)
                && self.entries@[i].data@ == self.sector_bytes(self.keys@[i] as int))
    }

    /// The logical sector numbers currently cached.
    pub closed spec fn cache_keys(&self) -> Seq<u64> {
        self.keys@
    }

    /// Whether no cached sector has been written to.
    pub closed spec fn clean(&self) -> bool {
        forall|i: int| 0 <= i < self.entries@.len() ==> !(#[trigger] self.entries@[i]).dirty
    }

    /// Whether the cached entry for logical sector `n` is marked dirty.
    pub closed spec fn dirty_at(&self, n: u64) -> bool {
        exists|i: int| 0 <= i < self.keys@.len()
            && self.keys@[i] == n && (#[trigger] self.entries@[i]).dirty
    }

    /// A logical sector inside the device is exactly one logical sector
    /// long.
    pub proof fn lemma_sector_bytes_len(&self, n: int)
        requires
            self.wf(),
            self.in_range(n),
            n >= 0,
        ensures
            self.sector_bytes(n).len() == self.logical_len(),
    {
        self.device.lemma_wf();
        let from = self.part_start() + n * self.factor();
        let f = self.factor();
        vstd::arithmetic::div_mod::lemma_div_pos_is_pos(
            self.logical_len() as int, self.dev_sector_len() as int);
        assert((n + 1) * f == n * f + f) by (nonlinear_arith);
        assert(n * f >= 0) by (nonlinear_arith)
            requires n >= 0, f >= 0;
        assert forall|k: int| 0 <= k < f
            implies (#[trigger] self.dev_sectors()[from + k]).len()
                == self.dev_sector_len() by {
        }
        lemma_concat_len(self.dev_sectors(), from, f, self.dev_sector_len() as int);
        assert(f * self.dev_sector_len() == self.logical_len()) by {
            vstd::arithmetic::div_mod::lemma_fundamental_div_mod(
                self.logical_len() as int, self.dev_sector_len() as int);
            vstd::arithmetic::mul::lemma_mul_is_commutative(
                self.dev_sector_len() as int, f);
        }
    }

    /// Creates a new cache that transparently caches sectors from `device`
    /// and maps physical sectors to the logical sectors of `partition`.
    /// The partition's sector size must be a positive multiple of the
    /// device's.
    pub fn new(device: B, partition: Partition) -> (r: CachedDevice<B>)
        requires
            device.inv(),
            partition.sector_size >= device.sector_len(),
            partition.sector_size <= usize::MAX,
            partition.sector_size as int % (device.sector_len() as int) == 0,
        ensures
            r.wf(),
            r.clean(),
            r.dev_sectors() == device.sectors(),
            r.dev_sector_len() == device.sector_len(),
            r.part_start() == partition.start,
            r.logical_len() == partition.sector_size,
    {
        proof {
            device.lemma_wf();
        }
        CachedDevice {
            device,
            keys: Vec::new(),
            entries: Vec::new(),
            partition_start: partition.start,
            partition_sector_size: partition.sector_size,
        }
    }

    /// The size of a logical sector in bytes.
    pub fn sector_size(&self) -> (r: u64)
        ensures
            r == self.logical_len(),
    {
        self.partition_sector_size
    }

    /// The geometry and device model that every operation preserves.
    pub open spec fn same_model(&self, other: &Self) -> bool {
        &&& self.dev_sectors() == other.dev_sectors()
        &&& self.dev_sector_len() == other.dev_sector_len()
        &&& self.part_start() == other.part_start()
        &&& self.logical_len() == other.logical_len()
    }

    /// Returns the bytes of the cached logical sector `sector`. If the
    /// sector is not already cached, it is first read from the disk.
    pub fn get(&mut self, sector: u64) -> (r: Result<Vec<u8>, IoError>)
        requires
            old(self).wf(),
        ensures
            final(self).wf(),
            final(self).same_model(old(self)),
            old(self).clean() ==> final(self).clean(),
            old(self).cache_keys().contains(sector) ==> r is Ok,
            forall|k: u64| old(self).cache_keys().contains(k)
                ==> final(self).cache_keys().contains(k),
            r is Ok ==> final(self).cache_keys().contains(sector),
            match r {
                Ok(v) => {
                    &&& v@.len() == old(self).logical_len()
                    &&& old(self).clean() ==> {
                        &&& old(self).in_range(sector as int)
                        &&& v@ == old(self).sector_bytes(sector as int)
                    }
                },
                Err(_) => true,
            },
    {
        // a cached entry answers directly
        let nkeys = self.keys.len();
        let mut i: usize = 0;
        while i < nkeys
            invariant
                i <= nkeys,
                self.wf(),
                nkeys == self.keys@.len(),
                forall|p: int| 0 <= p < i ==> self.keys@[p] != sector,
            decreases nkeys - i,
        {
            if self.keys[i] == sector {
                proof {
                    assert(self.cache_keys().contains(sector));
                }
                return Ok(self.entries[i].data.clone());
            }
            i = i + 1;
        }
        proof {
            if old(self).cache_keys().contains(sector) {
                let p = choose|p: int| 0 <= p < old(self).cache_keys().len()
                    && old(self).cache_keys()[p] == sector;
                assert(false);
            }
        }
        self.load_to_cache(sector)
    }

    /// Returns a copy of cached logical sector `sector`, loading it
    /// first if need be, and marks the entry dirty: the caller is
    /// presumed to go on and write the sector, after which the cached
    /// copy no longer answers for the disk.
    pub fn get_mut(&mut self, sector: u64) -> (r: Result<Vec<u8>, IoError>)
        requires
            old(self).wf(),
        ensures
            final(self).wf(),
            final(self).same_model(old(self)),
            old(self).cache_keys().contains(sector) ==> r is Ok,
            forall|k: u64| old(self).cache_keys().contains(k)
                ==> final(self).cache_keys().contains(k),
            r is Ok ==> final(self).cache_keys().contains(sector),
            r is Ok ==> final(self).dirty_at(sector),
            r is Err ==> (old(self).clean() ==> final(self).clean()),
            match r {
                Ok(v) => {
                    &&& v@.len() == old(self).logical_len()
                    &&& old(self).clean() ==> {
                        &&& old(self).in_range(sector as int)
                        &&& v@ == old(self).sector_bytes(sector as int)
                    }
                },
                Err(_) => true,
            },
    {
        let v = match self.get(sector) {
            Ok(v) => v,
            Err(e) => {
                return Err(e);
            },
        };
        let nkeys = self.keys.len();
        let mut i: usize = 0;
        while i < nkeys
            invariant
                i <= nkeys,
                self.wf(),
                nkeys == self.keys@.len(),
                self.cache_keys().contains(sector),
                self.same_model(old(self)),
                forall|k: u64| old(self).cache_keys().contains(k)
                    ==> self.cache_keys().contains(k),
                v@.len() == old(self).logical_len(),
                old(self).clean() ==> old(self).in_range(sector as int)
                    && v@ == old(self).sector_bytes(sector as int),
                forall|p: int| 0 <= p < i ==> self.keys@[p] != sector,
            decreases nkeys - i,
        {
            if self.keys[i] == sector {
                let ghost pre = *self;
                let mut e = self.entries.remove(i);
                e.dirty = true;
                self.entries.insert(i, e);
                proof {
                    assert(self.entries@ =~= pre.entries@.update(
                        i as int,
                        CacheEntry { data: pre.entries@[i as int].data, dirty: true },
                    ));
                    assert forall|j: int| 0 <= j < self.entries@.len()
                        implies (#[trigger] self.entries@[j]).data@.len()
                                == self.logical_len()
                            && (!self.entries@[j].dirty
                                ==> self.in_range(self.keys@[j] as int)
                                    && self.entries@[j].data@
                                        == self.sector_bytes(self.keys@[j] as int)) by {
                        assert(pre.entries@[j].data@.len() == pre.logical_len());
                    }
                    assert(self.dirty_at(sector)) by {
                        assert(self.keys@[i as int] == sector
                            && self.entries@[i as int].dirty);
                    }
                }
                return Ok(v);
            }
            i = i + 1;
        }
        proof {
            let p = choose|p: int| 0 <= p < self.cache_keys().len()
                && self.cache_keys()[p] == sector;
            assert(false);
        }
        Err(IoError::InvalidInput)
    }

    /// Reads the physical sectors of logical sector `sector` from the
    /// device, caches them, and returns the bytes.
    fn load_to_cache(&mut self, sector: u64) -> (r: Result<Vec<u8>, IoError>)
        requires
            old(self).wf(),
            forall|p: int| 0 <= p < old(self).cache_keys().len()
                ==> old(self).cache_keys()[p] != sector,
        ensures
            final(self).wf(),
            final(self).same_model(old(self)),
            old(self).clean() ==> final(self).clean(),
            forall|k: u64| old(self).cache_keys().contains(k)
                ==> final(self).cache_keys().contains(k),
            r is Ok ==> final(self).cache_keys().contains(sector),
            match r {
                Ok(v) => {
                    &&& v@.len() == old(self).logical_len()
                    &&& old(self).in_range(sector as int)
                    &&& v@ == old(self).sector_bytes(sector as int)
                },
                Err(_) => true,
            },
    {
        proof {
            self.device.lemma_wf();
        }
        let dev_sz = self.device.sector_size();
        let factor = self.partition_sector_size / dev_sz;
        proof {
            vstd::arithmetic::div_mod::lemma_fundamental_div_mod(
                self.logical_len() as int, self.dev_sector_len() as int);
            vstd::arithmetic::div_mod::lemma_div_pos_is_pos(
                self.logical_len() as int, self.dev_sector_len() as int);
        }
        // the physical range must be addressable
        let prod = match sector.checked_mul(factor) {
            Some(p) => p,
            None => {
                return Err(IoError::CommandFailure);
            },
        };
        let phys = match self.partition_start.checked_add(prod) {
            Some(p) => p,
            None => {
                return Err(IoError::CommandFailure);
            },
        };
        if phys > u64::MAX - factor {
            return Err(IoError::CommandFailure);
        }
        let dev_usize = dev_sz as usize;
        let mut data: Vec<u8> = Vec::new();
        let mut scratch: Vec<u8> = Vec::new();
        let mut k: u64 = 0;
        proof {
            assert(self.logical_len() as int == self.factor() * self.dev_sector_len())
                by {
                vstd::arithmetic::div_mod::lemma_fundamental_div_mod(
                    self.logical_len() as int, self.dev_sector_len() as int);
                vstd::arithmetic::mul::lemma_mul_is_commutative(
                    self.dev_sector_len() as int, self.factor());
            }
        }
        while k < factor
            invariant
                k <= factor,
                self.wf(),
                self.same_model(old(self)),
                old(self).clean() ==> self.clean(),
                self.keys@ == old(self).keys@,
                self.entries@ == old(self).entries@,
                factor == self.factor(),
                factor >= 1,
                dev_usize == self.dev_sector_len(),

                phys == self.part_start() + sector * self.factor(),
                phys + factor <= u64::MAX,
                data@.len() == k * self.dev_sector_len(),
                data@ == sectors_concat(
                    self.dev_sectors(),
                    self.part_start() + sector * self.factor(),
                    k as int),
                k > 0 ==> self.part_start() + sector * self.factor() + k
                    <= self.dev_sectors().len(),
                self.logical_len() as int == self.factor() * self.dev_sector_len(),
            decreases factor - k,
        {
            // scratch must be exactly one physical sector long
            scratch.clear();
            let mut j: usize = 0;
            while j < dev_usize
                invariant
                    j <= dev_usize,
                    scratch@.len() == j,
                decreases dev_usize - j,
            {
                scratch.push(0u8);
                j = j + 1;
            }
            let got = match self.device.read_sector(phys + k, &mut scratch) {
                Ok(g) => g,
                Err(e) => {
                    return Err(e);
                },
            };
            if got != dev_usize {
                return Err(IoError::UnexpectedEof);
            }
            proof {
                self.device.lemma_wf();
                assert(scratch@ =~= self.dev_sectors()[phys + k]);
                assert((phys + k) as int == self.part_start() + sector * self.factor() + k);
                assert(data@ + scratch@ =~= sectors_concat(
                    self.dev_sectors(),
                    self.part_start() + sector * self.factor(),
                    k + 1));
                assert((k + 1) * self.dev_sector_len()
                    == k * self.dev_sector_len() + self.dev_sector_len()) by (nonlinear_arith);
            }
            data.append(&mut scratch);
            k = k + 1;
        }
        proof {
            assert(data@.len() == self.factor() * self.dev_sector_len());
            assert(self.in_range(sector as int)) by {
                assert(self.part_start() + sector * self.factor() + factor
                    <= self.dev_sectors().len());
                assert((sector + 1) * self.factor()
                    == sector * self.factor() + self.factor()) by (nonlinear_arith);
            }
        }
        let out = clone_bytes(&data);
        let ghost pre = *self;
        self.keys.push(sector);
        self.entries.push(CacheEntry { data, dirty: false });
        proof {
            assert forall|i: int, j: int| 0 <= i < j < self.keys@.len()
                implies self.keys@[i] != self.keys@[j] by {
                if j < pre.keys@.len() {
                    assert(pre.keys@[i] != pre.keys@[j]);
                } else {
                    assert(old(self).cache_keys()[i] != sector);
                }
            }
            assert forall|i: int| 0 <= i < self.entries@.len()
                implies (#[trigger] self.entries@[i]).data@.len() == self.logical_len()
                    && (!self.entries@[i].dirty ==> self.in_range(self.keys@[i] as int)
                        && self.entries@[i].data@
                            == self.sector_bytes(self.keys@[i] as int)) by {
                if i < pre.entries@.len() {
                    assert(pre.entries@[i].data@.len() == pre.logical_len());
                }
            }
            // the sector is cached now, and nothing already cached left
            assert(self.cache_keys().contains(sector)) by {
                assert(self.keys@[pre.keys@.len() as int] == sector);
            }
            assert forall|k: u64| old(self).cache_keys().contains(k)
                implies self.cache_keys().contains(k) by {
                let p = choose|p: int| 0 <= p < old(self).keys@.len()
                    && old(self).keys@[p] == k;
                assert(self.keys@[p] == k);
            }
        }
        Ok(out)
    }

    /// Read from a specified byte offset within a logical sector: fills
    /// the front of `buf` with as many bytes as remain in the sector.
    pub fn read_offset(&mut self, n: u64, off: usize, buf: &mut Vec<u8>) -> (r: Result<
        usize,
        IoError,
    >)
        requires
            old(self).wf(),
        ensures
            final(self).wf(),
            final(self).same_model(old(self)),
            old(self).clean() ==> final(self).clean(),
            final(buf)@.len() == old(buf)@.len(),
            off > old(self).logical_len() ==> r is Err,
            old(self).cache_keys().contains(n) && off > old(self).logical_len()
                ==> r == Err::<usize, IoError>(IoError::InvalidInput),
            old(self).cache_keys().contains(n) && off <= old(self).logical_len()
                ==> r is Ok,
            match r {
                Ok(m) => {
                    &&& off + m <= old(self).logical_len()
                    &&& m == vstd::math::min(
                        old(buf)@.len() as int,
                        old(self).logical_len() as int - off)
                    &&& old(self).clean() ==> {
                        &&& old(self).in_range(n as int)
                        &&& final(buf)@ == old(self).sector_bytes(n as int).subrange(
                            off as int, off + m) + old(buf)@.skip(m as int)
                    }
                },
                Err(_) => true,
            },
    {
        let data = match self.get(n) {
            Ok(d) => d,
            Err(e) => {
                return Err(e);
            },
        };
        if off > data.len() {
            return Err(IoError::InvalidInput);
        }
        let sz = if buf.len() < data.len() - off { buf.len() } else { data.len() - off };
        copy_into(buf, 0, &data, off, sz);
        proof {
            assert(buf@ =~= data@.subrange(off as int, off + sz) + old(buf)@.skip(sz as int));
        }
        Ok(sz)
    }
}

/// The concatenation of uniform sectors has their combined length.
proof fn lemma_concat_len(secs: Seq<Seq<u8>>, from: int, count: int, each: int)
    requires
        count >= 0,
        each >= 0,
        forall|k: int| 0 <= k < count ==> (#[trigger] secs[from + k]).len() == each,
    ensures
        sectors_concat(secs, from, count).len() == count * each,
    decreases count,
{
    if count <= 0 {
        assert(sectors_concat(secs, from, count) =~= Seq::empty());
    } else {
        lemma_concat_len(secs, from, count - 1, each);
        let k = count - 1;
        assert(secs[from + k].len() == each);
        assert(sectors_concat(secs, from, count)
            == sectors_concat(secs, from, count - 1) + secs[from + count - 1]);
        assert(sectors_concat(secs, from, count).len()
            == sectors_concat(secs, from, count - 1).len() + each);
        assert(count * each == (count - 1) * each + each) by (nonlinear_arith);
    }
}

/// A fresh vector with the same bytes.
fn clone_bytes(v: &Vec<u8>) -> (r: Vec<u8>)
    ensures
        r@ == v@,
{
    let mut r: Vec<u8> = Vec::new();
    let mut i: usize = 0;
    while i < v.len()
        invariant
            i <= v@.len(),
            r@ == v@.take(i as int),
        decreases v@.len() - i,
    {
        let b = v[i];
        r.push(b);
        proof {
            assert(r@ =~= v@.take(i + 1));
        }
        i = i + 1;
    }
    proof {
        assert(v@.take(v@.len() as int) =~= v@);
    }
    r
}

} // verus!
