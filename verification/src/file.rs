//! An open file: its first cluster, size, metadata, and the current
//! read position. Reads and seeks borrow the volume they live on.

use vstd::prelude::*;

verus! {

use crate::cache::copy_into;
use crate::cluster::Cluster;
use crate::device::BlockDevice;
use crate::metadata::Metadata;
use crate::vfat::Error;
use crate::vfat::Status;
use crate::vfat::VFat;

/// A position to seek to.
#[derive(Clone, Copy, Debug, PartialEq, Eq, Structural)]
pub enum SeekFrom {
    /// An absolute offset from the start of the file.
    Start(u64),
    /// A non-positive offset back from the end of the file.
    End(i64),
    /// A signed offset from the current position.
    Current(i64),
}

/// Whether every cluster the file's size calls for is reachable from
/// `first` by data links.
pub open spec fn chain_covers<B: BlockDevice>(v: &VFat<B>, first: Cluster, size: int) -> bool {
    forall|k: int| 0 <= k && k * v.spec_cluster_size() < size
        ==> (#[trigger] v.spec_walk(first, k as nat)) is Some
}

/// The byte at offset `i` of the file starting at `first`, following the
/// FAT chain; zero where the chain does not reach.
pub open spec fn file_byte<B: BlockDevice>(v: &VFat<B>, first: Cluster, i: int) -> u8 {
    match v.spec_walk(first, (i / v.spec_cluster_size()) as nat) {
        Some(c) => v.spec_cluster_byte(c.0 as int, i % v.spec_cluster_size()),
        None => 0,
    }
}

/// The absolute offset a seek asks for, before any range check.
pub open spec fn seek_target(pos: SeekFrom, cur: int, size: int) -> int {
    match pos {
        SeekFrom::Start(k) => k as int,
        SeekFrom::End(d) => size + d,
        SeekFrom::Current(d) => cur + d,
    }
}

/// A file of the volume.
pub struct File {
    first_cluster: Cluster,
    name: String,
    meta: Metadata,
    size: u32,
    pos_cluster: Cluster,
    pos_total: usize,
}

impl File {
    /// The file's first cluster.
    pub closed spec fn first(&self) -> Cluster {
        self.first_cluster
    }

    /// The file's name.
    pub closed spec fn name_(&self) -> Seq<char> {
        self.name@
    }

    /// The file's metadata.
    pub closed spec fn meta_(&self) -> Metadata {
        self.meta
    }

    /// The file's size in bytes.
    pub closed spec fn size_(&self) -> int {
        self.size as int
    }

    /// The current read position.
    pub closed spec fn pos_total_(&self) -> int {
        self.pos_total as int
    }

    /// The cluster the read position lies in.
    pub closed spec fn pos_cluster_(&self) -> Cluster {
        self.pos_cluster
    }

    /// The identity of the file: everything but the position.
    pub open spec fn same_file(&self, other: &File) -> bool {
        &&& self.first() == other.first()
        &&& self.name_() == other.name_()
        &&& self.meta_() == other.meta_()
        &&& self.size_() == other.size_()
    }

    /// The position is inside the file, and its cluster is the one the
    /// chain reaches at that offset.
    pub open spec fn pos_ok<B: BlockDevice>(&self, v: &VFat<B>) -> bool {
        &&& 0 <= self.pos_total_() <= self.size_()
        &&& self.pos_total_() < self.size_()
            ==> v.spec_walk(self.first(), (self.pos_total_() / v.spec_cluster_size()) as nat)
                == Some(self.pos_cluster_())
    }

    /// A freshly opened file positioned at its start.
    pub fn new(first_cluster: Cluster, meta: Metadata, name: String, size: u32) -> (r: File)
        ensures
            r.first() == first_cluster,
            r.meta_() == meta,
            r.name_() == name@,
            r.size_() == size,
            r.pos_total_() == 0,
            r.pos_cluster_() == first_cluster,
    {
        File {
            first_cluster,
            meta,
            name,
            size,
            pos_cluster: first_cluster,
            pos_total: 0,
        }
    }

    /// The file's name.
    pub fn name(&self) -> (r: &String)
        ensures
            r@ == self.name_(),
    {
        &self.name
    }

    /// The file's metadata.
    pub fn meta(&self) -> (r: &Metadata)
        ensures
            *r == self.meta_(),
    {
        &self.meta
    }

    /// Returns the size of the file in bytes.
    pub fn size(&self) -> (r: u64)
        ensures
            r == self.size_(),
    {
        self.size as u64
    }

    /// Reads from the current position into the front of `buf` and
    /// advances the position. Returns the number of bytes read, which is
    /// the full `min(buf.len(), size - position)` whenever the chain
    /// reaches as far as the size promises; `0` only at end of file.
    #[verifier::rlimit(50)]
    pub fn read<B: BlockDevice>(&mut self, vfat: &mut VFat<B>, buf: &mut Vec<u8>) -> (r:
        Result<usize, Error>)
        requires
            old(vfat).wf(),
            old(self).pos_ok(old(vfat)),
        ensures
            final(vfat).wf(),
            final(vfat).same_model(old(vfat)),
            final(self).same_file(old(self)),
            final(buf)@.len() == old(buf)@.len(),
            old(self).pos_total_() == old(self).size_() || old(buf)@.len() == 0
                ==> r == Ok::<usize, Error>(0),
            match r {
                Ok(m) => {
                    &&& m <= old(buf)@.len()
                    &&& old(self).pos_total_() + m <= old(self).size_()
                    &&& final(self).pos_total_() == old(self).pos_total_() + m
                    &&& forall|j: int| 0 <= j < m ==> final(buf)@[j] == file_byte(
                        old(vfat), old(self).first(), old(self).pos_total_() + j)
                    &&& forall|j: int| m <= j < final(buf)@.len()
                        ==> final(buf)@[j] == old(buf)@[j]
                    &&& (chain_covers(old(vfat), old(self).first(), old(self).size_()) ==> {
                        &&& m == vstd::math::min(
                            old(buf)@.len() as int,
                            old(self).size_() - old(self).pos_total_())
                        &&& final(self).pos_ok(final(vfat))
                    })
                },
                Err(_) => true,
            },
    {
        let cs = vfat.cluster_size();
        proof {
            crate::util::lemma_u32_fits_usize();
        }
        let size = self.size as usize;
        let total0 = self.pos_total;
        let mut read: usize = 0;
        loop
            invariant
                vfat.wf(),
                vfat.same_model(old(vfat)),
                self.same_file(old(self)),
                cs == vfat.spec_cluster_size(),
                4 <= cs,
                size == old(self).size_(),
                total0 == old(self).pos_total_(),
                self.pos_total == total0 + read,
                self.pos_total <= size,
                read <= buf@.len(),
                buf@.len() == old(buf)@.len(),
                self.pos_total < size ==> old(vfat).spec_walk(
                    old(self).first(),
                    (self.pos_total as int / cs as int) as nat) == Some(self.pos_cluster_()),
                forall|j: int| 0 <= j < read ==> buf@[j] == file_byte(
                    old(vfat), old(self).first(), total0 + j),
                forall|j: int| read <= j < buf@.len() ==> buf@[j] == old(buf)@[j],
            ensures
                vfat.wf(),
                vfat.same_model(old(vfat)),
                self.same_file(old(self)),
                self.pos_total == total0 + read,
                buf@.len() == old(buf)@.len(),
                read <= buf@.len(),
                self.pos_total <= size,
                forall|j: int| 0 <= j < read ==> buf@[j] == file_byte(
                    old(vfat), old(self).first(), total0 + j),
                forall|j: int| read <= j < buf@.len() ==> buf@[j] == old(buf)@[j],
                read == vstd::math::min(buf@.len() as int, size - total0)
                    || !chain_covers(old(vfat), old(self).first(), old(self).size_()),
                self.pos_total < size ==> old(vfat).spec_walk(
                    old(self).first(),
                    (self.pos_total as int / cs as int) as nat) == Some(self.pos_cluster_()),
            decreases size - self.pos_total,
        {
            let co = self.pos_total % cs;
            let avail_cluster = cs - co;
            let avail_file = size - self.pos_total;
            let avail = if avail_cluster < avail_file { avail_cluster } else { avail_file };
            let left = buf.len() - read;
            let n = if left < avail { left } else { avail };
            if n == 0 {
                proof {
                    if left != 0 {
                        assert(avail == 0);
                        assert(self.pos_total == size);
                    }
                }
                break;
            }
            proof {
                vstd::arithmetic::div_mod::lemma_fundamental_div_mod(
                    self.pos_total as int, cs as int);
            }
            let mut scratch: Vec<u8> = Vec::new();
            let mut j: usize = 0;
            while j < n
                invariant
                    j <= n,
                    scratch@.len() == j,
                decreases n - j,
            {
                scratch.push(0u8);
                j = j + 1;
            }
            let got = match vfat.read_cluster(self.pos_cluster, co, &mut scratch) {
                Ok(g) => g,
                Err(e) => {
                    return Err(e);
                },
            };
            if got != n {
                return Err(Error::Io(crate::device::IoError::UnexpectedEof));
            }
            let ghost q = self.pos_total as int / cs as int;
            proof {
                assert(self.pos_total < size);
                // the bytes just read are the file's bytes at this window
                assert(old(vfat).spec_walk(old(self).first(), q as nat)
                    == Some(self.pos_cluster));
                assert forall|j2: int| 0 <= j2 < n
                    implies scratch@[j2] == file_byte(
                        old(vfat), old(self).first(), total0 + read + j2) by {
                    let p = self.pos_total + j2;
                    assert(scratch@[j2] == vfat.spec_cluster_byte(
                        self.pos_cluster.0 as int, co + j2));
                    assert(vfat.spec_cluster_byte(self.pos_cluster.0 as int, co + j2)
                        == old(vfat).spec_cluster_byte(self.pos_cluster.0 as int, co + j2));
                    assert(p / cs as int == q && p % cs as int == co + j2) by {
                        vstd::arithmetic::div_mod::lemma_fundamental_div_mod(
                            self.pos_total as int, cs as int);
                        vstd::arithmetic::div_mod::lemma_fundamental_div_mod_converse_div(
                            p, cs as int, q, co + j2);
                        vstd::arithmetic::div_mod::lemma_fundamental_div_mod_converse_mod(
                            p, cs as int, q, co + j2);
                    }
                }
            }
            copy_into(buf, read, &scratch, 0, n);
            read = read + n;
            self.pos_total = self.pos_total + n;
            proof {
                vstd::arithmetic::mul::lemma_mul_is_commutative(cs as int, q);
                if co + n < cs {
                    // still inside the same cluster
                    vstd::arithmetic::div_mod::lemma_fundamental_div_mod_converse_div(
                        self.pos_total as int, cs as int, q, co + n);
                } else {
                    assert(co + n == cs);
                    assert(self.pos_total as int == (q + 1) * (cs as int))
                        by (nonlinear_arith)
                        requires
                            self.pos_total as int == (cs as int) * q + co + n,
                            co + n == cs;
                    vstd::arithmetic::div_mod::lemma_fundamental_div_mod_converse_div(
                        self.pos_total as int, cs as int, q + 1, 0);
                }
            }
            if co + n == cs {
                // the cluster is exhausted: advance along the chain
                let nxt = match vfat.next_cluster(self.pos_cluster) {
                    Ok(x) => x,
                    Err(e) => {
                        return Err(e);
                    },
                };
                proof {
                    crate::vfat::lemma_walk_snoc(old(vfat), old(self).first(), q as nat);
                    assert(old(vfat).status_of(self.pos_cluster.0 as int)
                        == vfat.status_of(self.pos_cluster.0 as int)) by {
                        assert(old(vfat).sector_bytes(
                            old(vfat).fat_sector_of(self.pos_cluster.0 as int))
                            == vfat.sector_bytes(
                                vfat.fat_sector_of(self.pos_cluster.0 as int)));
                    }
                }
                match nxt {
                    Some(c2) => {
                        self.pos_cluster = c2;
                    },
                    None => {
                        // the chain ends here; the size promised more
                        // only if the volume is inconsistent
                        proof {
                            if self.pos_total < size {
                                assert(old(vfat).spec_walk(old(self).first(), (q + 1) as nat)
                                    is None);
                                if chain_covers(old(vfat), old(self).first(),
                                    old(self).size_()) {
                                    assert((q + 1) * cs < size) by (nonlinear_arith)
                                        requires
                                            self.pos_total as int == (q + 1) * cs
                                                || (q + 1) * cs <= self.pos_total,
                                            self.pos_total < size;
                                    assert(old(vfat).spec_walk(old(self).first(),
                                        (q + 1) as nat) is Some);
                                    assert(false);
                                }
                            }
                        }
                        if self.pos_total < size {
                            return Ok(read);
                        }
                        break;
                    },
                }
            }
        }
        proof {
            if self.pos_total < size {
                crate::vfat::lemma_walk_same_model(
                    old(vfat), vfat, old(self).first(),
                    (self.pos_total as int / cs as int) as nat);
            }
        }
        Ok(read)
    }

    /// Seeks to `pos`. A seek to the end of the file is allowed; a seek
    /// before the start or beyond the end returns `InvalidInput`, as does
    /// a chain that ends before the sought cluster. On success, returns
    /// the new position from the start of the file.
    pub fn seek<B: BlockDevice>(&mut self, vfat: &mut VFat<B>, pos: SeekFrom) -> (r: Result<
        u64,
        Error,
    >)
        requires
            old(vfat).wf(),
            old(self).pos_total_() <= old(self).size_(),
        ensures
            final(vfat).wf(),
            final(vfat).same_model(old(vfat)),
            final(self).same_file(old(self)),
            r is Err ==> final(self).pos_total_() == old(self).pos_total_()
                && final(self).pos_cluster_() == old(self).pos_cluster_(),
            !(0 <= seek_target(pos, old(self).pos_total_(), old(self).size_())
                <= old(self).size_()) ==> r == Err::<u64, Error>(Error::InvalidInput),
            (0 <= seek_target(pos, old(self).pos_total_(), old(self).size_())
                && seek_target(pos, old(self).pos_total_(), old(self).size_())
                    <= old(self).size_()
                && seek_target(pos, old(self).pos_total_(), old(self).size_())
                    < old(vfat).spec_cluster_size()) ==> r is Ok,
            match r {
                Ok(o) => {
                    &&& o == final(self).pos_total_()
                    &&& o == seek_target(pos, old(self).pos_total_(), old(self).size_())
                    &&& final(self).pos_total_() <= final(self).size_()
                    &&& final(self).pos_ok(final(vfat))
                },
                Err(Error::InvalidInput) => {
                    ||| !(0 <= seek_target(pos, old(self).pos_total_(), old(self).size_())
                        <= old(self).size_())
                    ||| old(vfat).spec_walk(
                        old(self).first(),
                        (seek_target(pos, old(self).pos_total_(), old(self).size_())
                            / old(vfat).spec_cluster_size()) as nat) is None
                },
                Err(e) => e matches Error::Io(_) || e == Error::InvalidData,
            },
    {
        let cs = vfat.cluster_size();
        let size64 = self.size as u64;
        let bytes: u64 = match pos {
            SeekFrom::Start(off) => {
                if off > size64 {
                    return Err(Error::InvalidInput);
                }
                off
            },
            SeekFrom::End(off) => {
                if off > 0 || off == i64::MIN {
                    return Err(Error::InvalidInput);
                }
                let back = (-off) as u64;
                if back > size64 {
                    return Err(Error::InvalidInput);
                }
                size64 - back
            },
            SeekFrom::Current(off) => {
                let cur = self.pos_total as u64;
                if off >= 0 {
                    let fwd = off as u64;
                    if fwd > size64 || cur > size64 - fwd {
                        return Err(Error::InvalidInput);
                    }
                    cur + fwd
                } else {
                    if off == i64::MIN {
                        return Err(Error::InvalidInput);
                    }
                    let back = (-off) as u64;
                    if back > cur {
                        return Err(Error::InvalidInput);
                    }
                    cur - back
                }
            },
        };
        proof {
            assert(bytes as int
                == seek_target(pos, old(self).pos_total_(), old(self).size_()));
        }
        if bytes > size64 {
            return Err(Error::InvalidInput);
        }
        proof {
            crate::util::lemma_u32_fits_usize();
        }
        let target = bytes as usize;
        let q = target / cs;
        proof {
            if (target as int) < cs as int {
                vstd::arithmetic::div_mod::lemma_basic_div(target as int, cs as int);
            }
        }
        let cluster = match vfat.find_cluster(self.first_cluster, q) {
            Ok(Some(c)) => c,
            Ok(None) => {
                return Err(Error::InvalidInput);
            },
            Err(e) => {
                return Err(e);
            },
        };
        self.pos_cluster = cluster;
        self.pos_total = target;
        proof {
            crate::vfat::lemma_walk_same_model(
                old(vfat), vfat, self.first_cluster, q as nat);
            assert(vfat.spec_walk(self.first(), q as nat) == Some(self.pos_cluster_()));
            assert(self.pos_total_() == bytes);
            assert(self.pos_total_() <= self.size_());
            if self.pos_total < self.size {
                assert((self.pos_total_() / vfat.spec_cluster_size()) as nat == q as nat);
            }
            assert(self.pos_ok(vfat));
        }
        Ok(bytes)
    }
}

/// The seek law: after a seek puts the position at `k`, a read that
/// returns `m` bytes returns exactly the file's bytes `[k, k + m)` —
/// the position `seek` ensures is the offset `read`'s bytes come from.
pub proof fn lemma_seek_then_read<B: BlockDevice>(
    v: &VFat<B>,
    first: Cluster,
    k: int,
    m: int,
    pos_after_seek: int,
    bytes: Seq<u8>,
)
    requires
        pos_after_seek == k,
        bytes.len() == m,
        forall|j: int| 0 <= j < m
            ==> #[trigger] bytes[j] == file_byte(v, first, pos_after_seek + j),
    ensures
        forall|j: int| 0 <= j < m ==> #[trigger] bytes[j] == file_byte(v, first, k + j),
{
}

} // verus!
