//! The directory decoder: 32-byte slots from a chain-read buffer, long
//! filenames reassembled across sequence-ordered entries, deleted slots
//! skipped, iteration ended by a zero id byte.

use vstd::prelude::*;

verus! {

use crate::bytes::spec_le16;
use crate::bytes::le16;
use crate::chars::chars_to_string;
use crate::chars::eq_ignore_ascii_case;
use crate::chars::spec_utf16_points;
use crate::chars::utf16_to_chars;
use crate::cluster::Cluster;
use crate::device::BlockDevice;
use crate::entry::Entry;
use crate::file::File;
use crate::metadata::Attributes;
use crate::metadata::Date;
use crate::metadata::Metadata;
use crate::metadata::Time;
use crate::metadata::Timestamp;
use crate::metadata::DIRECTORY;
use crate::metadata::LFN;
use crate::vfat::Error;
use crate::vfat::VFat;

/// A regular 8.3 directory entry, decoded from its 32-byte slot.
#[derive(Clone, Copy, Debug)]
pub struct VFatRegularDirEntry {
    /// The 8-byte short name, space padded.
    pub file_name: [u8; 8],
    /// The 3-byte extension, space padded.
    pub file_ext: [u8; 3],
    /// The attribute byte.
    pub attributes: Attributes,
    /// When the entry was created.
    pub creation: Timestamp,
    /// When the entry was last read.
    pub last_access_date: Date,
    /// The high half of the first cluster number.
    pub first_cluster_high: u16,
    /// When the entry was last changed.
    pub last_modified: Timestamp,
    /// The low half of the first cluster number.
    pub first_cluster_low: u16,
    /// The file size in bytes.
    pub file_size: u32,
}

/// A long-filename entry, decoded from its 32-byte slot.
#[derive(Clone, Copy, Debug)]
pub struct VFatLfnDirEntry {
    /// The sequence byte; the low five bits give the 1-based position.
    pub seq_number: u8,
    /// The first five UTF-16 code units.
    pub name_1: [u16; 5],
    /// The attribute byte, `0x0F` for a long-filename entry.
    pub attributes: Attributes,
    /// The checksum over the paired short name.
    pub checksum: u8,
    /// The next six UTF-16 code units.
    pub name_2: [u16; 6],
    /// The last two UTF-16 code units.
    pub name_3: [u16; 2],
}

/// The bytes of a slot every kind shares: the id and the attributes.
#[derive(Clone, Copy, Debug, PartialEq, Eq, Structural)]
pub struct VFatUnknownDirEntry {
    /// The first byte: `0x00` ends the directory, `0xE5` marks a free
    /// slot.
    pub id: u8,
    /// The attribute byte.
    pub attributes: Attributes,
}

/// The number of whole 32-byte slots in the buffer.
pub open spec fn nslots(data: Seq<u8>) -> int {
    data.len() as int / 32
}

/// The id byte of slot `j`.
pub open spec fn slot_id(data: Seq<u8>, j: int) -> u8 {
    data[32 * j]
}

/// The attribute byte of slot `j`.
pub open spec fn slot_attr(data: Seq<u8>, j: int) -> u8 {
    data[32 * j + 11]
}

/// The `k`-th of the thirteen UTF-16 code units of long-filename slot
/// `j`: five at offset 1, six at offset 14, two at offset 28.
pub open spec fn lfn_unit(data: Seq<u8>, j: int, k: int) -> u16 {
    if k < 5 {
        spec_le16(data, 32 * j + 1 + 2 * k) as u16
    } else if k < 11 {
        spec_le16(data, 32 * j + 14 + 2 * (k - 5)) as u16
    } else {
        spec_le16(data, 32 * j + 28 + 2 * (k - 11)) as u16
    }
}

/// The staging buffer after long-filename slot `j` wrote its thirteen
/// units at the position its sequence byte selects; a slot whose
/// position falls outside the buffer writes nothing.
pub open spec fn lfn_write(data: Seq<u8>, j: int, buf: Seq<u16>) -> Seq<u16> {
    let n = (slot_id(data, j) & 0x1F) as int;
    if 1 <= n <= 20 {
        Seq::new(260, |i: int|
            if (n - 1) * 13 <= i < (n - 1) * 13 + 13 {
                lfn_unit(data, j, i - (n - 1) * 13)
            } else {
                buf[i]
            })
    } else {
        buf
    }
}

/// Scans from slot `j`: skips deleted slots, accumulates long-filename
/// slots into the staging buffer, and stops at the first regular slot or
/// at the end of the directory.
pub open spec fn scan(data: Seq<u8>, j: int, buf: Seq<u16>, any: bool) -> Option<
    (int, Seq<u16>, bool),
>
    decreases nslots(data) - j,
{
    if j < 0 || 32 * (j + 1) > data.len() {
        None
    } else if slot_id(data, j) == 0 {
        None
    } else if slot_id(data, j) == 0xE5 {
        scan(data, j + 1, buf, any)
    } else if slot_attr(data, j) == LFN {
        scan(data, j + 1, lfn_write(data, j, buf), true)
    } else {
        Some((j, buf, any))
    }
}

/// The staging buffer's code units up to the first `0x0000` or `0xFFFF`
/// terminator.
pub open spec fn trunc_units(buf: Seq<u16>) -> Seq<u16>
    decreases buf.len(),
{
    if buf.len() == 0 {
        Seq::empty()
    } else if buf[0] == 0 || buf[0] == 0xFFFF {
        Seq::empty()
    } else {
        seq![buf[0]] + trunc_units(buf.skip(1))
    }
}

/// The bytes with any trailing spaces removed.
pub open spec fn trim_spaces(s: Seq<u8>) -> Seq<u8>
    decreases s.len(),
{
    if s.len() > 0 && s.last() == 0x20 {
        trim_spaces(s.drop_last())
    } else {
        s
    }
}

/// The scalar values of the 8.3 short name of regular slot `j`:
/// the trimmed name, then a dot and the trimmed extension if the
/// extension is not empty.
pub open spec fn short_name_points(data: Seq<u8>, j: int) -> Seq<u32> {
    let name = trim_spaces(data.subrange(32 * j, 32 * j + 8));
    let ext = trim_spaces(data.subrange(32 * j + 8, 32 * j + 11));
    if ext.len() == 0 {
        name.map_values(|b: u8| b as u32)
    } else {
        name.map_values(|b: u8| b as u32) + seq![0x2Eu32]
            + ext.map_values(|b: u8| b as u32)
    }
}

/// The empty long-filename staging buffer.
pub open spec fn zeros260() -> Seq<u16> {
    Seq::new(260, |i: int| 0u16)
}

/// Whether the scalar values `a` spell `b`, up to ASCII case.
pub open spec fn points_match(a: Seq<u32>, b: Seq<char>) -> bool {
    &&& a.len() == b.len()
    &&& forall|i: int| 0 <= i < a.len()
        ==> crate::chars::fold_point((#[trigger] a[i]) as int)
            == crate::chars::fold_char(b[i])
}

/// The first entry of the directory bytes, from slot `j` on, whose name
/// spells `name` up to ASCII case. The fuel only serves termination; one
/// more than the slot count is always enough.
pub open spec fn spec_find(data: Seq<u8>, j: int, name: Seq<char>, fuel: nat) -> Option<
    (int, Seq<u16>, bool),
>
    decreases fuel,
{
    if fuel == 0 {
        None
    } else {
        match scan(data, j, zeros260(), false) {
            None => None,
            Some((l, buff, any)) => if points_match(
                entry_name_points(data, l, buff, any),
                name,
            ) {
                Some((l, buff, any))
            } else {
                spec_find(data, l + 1, name, (fuel - 1) as nat)
            },
        }
    }
}

/// The scalar values of the name the scan result denotes: the decoded
/// long filename when one was accumulated, else the short name.
pub open spec fn entry_name_points(data: Seq<u8>, j: int, buf: Seq<u16>, any: bool) -> Seq<
    u32,
> {
    if any {
        spec_utf16_points(trunc_units(buf))
    } else {
        short_name_points(data, j)
    }
}

/// The first cluster regular slot `j` points at.
pub open spec fn slot_first_cluster(data: Seq<u8>, j: int) -> Cluster {
    Cluster(((spec_le16(data, 32 * j + 20) * 0x1_0000 + spec_le16(data, 32 * j + 26))
        % 0x1000_0000) as u32)
}

/// The metadata of regular slot `j`.
pub open spec fn slot_metadata(data: Seq<u8>, j: int) -> Metadata {
    Metadata {
        attributes: Attributes(slot_attr(data, j)),
        creation: Timestamp {
            time: Time(spec_le16(data, 32 * j + 14) as u16),
            date: Date(spec_le16(data, 32 * j + 16) as u16),
        },
        last_access_date: Date(spec_le16(data, 32 * j + 18) as u16),
        last_modified: Timestamp {
            time: Time(spec_le16(data, 32 * j + 22) as u16),
            date: Date(spec_le16(data, 32 * j + 24) as u16),
        },
    }
}

/// The file size regular slot `j` records.
pub open spec fn slot_size(data: Seq<u8>, j: int) -> int {
    spec_le16(data, 32 * j + 28) + 0x1_0000 * spec_le16(data, 32 * j + 30)
}

/// Whether the entry the scan result denotes matches `e` field by
/// field: the directory bit picks the kind, the name is the decoded
/// long or short name, and cluster, metadata and size come from the
/// terminating regular slot.
pub open spec fn entry_matches(
    data: Seq<u8>,
    j: int,
    buf: Seq<u16>,
    any: bool,
    e: Entry,
) -> bool {
    match e {
        Entry::FileKind(f) => {
            &&& slot_attr(data, j) & DIRECTORY == 0
            &&& f.first() == slot_first_cluster(data, j)
            &&& f.name_().map_values(|c: char| c as u32) == entry_name_points(data, j, buf, any)
            &&& f.meta_() == slot_metadata(data, j)
            &&& f.size_() == slot_size(data, j)
            &&& f.pos_total_() == 0
        },
        Entry::DirKind(d) => {
            &&& slot_attr(data, j) & DIRECTORY != 0
            &&& d.first() == slot_first_cluster(data, j)
            &&& d.name_().map_values(|c: char| c as u32) == entry_name_points(data, j, buf, any)
            &&& d.meta_() == slot_metadata(data, j)
        },
    }
}

/// A directory of the volume.
pub struct Dir {
    first_cluster: Cluster,
    name: String,
    meta: Metadata,
}

impl Dir {
    /// The directory's first cluster.
    pub closed spec fn first(&self) -> Cluster {
        self.first_cluster
    }

    /// The directory's name.
    pub closed spec fn name_(&self) -> Seq<char> {
        self.name@
    }

    /// The directory's metadata.
    pub closed spec fn meta_(&self) -> Metadata {
        self.meta
    }

    /// A directory entry with the given fields.
    pub fn new(first_cluster: Cluster, meta: Metadata, name: String) -> (r: Dir)
        ensures
            r.first() == first_cluster,
            r.meta_() == meta,
            r.name_() == name@,
    {
        Dir { first_cluster, meta, name }
    }

    /// The root directory: it has no name of its own, and its metadata
    /// carries only the directory attribute.
    pub fn root(cluster: Cluster) -> (r: Dir)
        ensures
            r.first() == cluster,
            r.name_() == Seq::<char>::empty(),
            r.meta_().attributes.0 == DIRECTORY,
    {
        let r = Dir {
            first_cluster: cluster,
            name: String::new(),
            meta: Metadata {
                attributes: Attributes(DIRECTORY),
                creation: Timestamp { time: Time(0), date: Date(0) },
                last_access_date: Date(0),
                last_modified: Timestamp { time: Time(0), date: Date(0) },
            },
        };
        r
    }

    /// The directory's name.
    pub fn name(&self) -> (r: &String)
        ensures
            r@ == self.name_(),
    {
        &self.name
    }

    /// The directory's metadata.
    pub fn meta(&self) -> (r: &Metadata)
        ensures
            *r == self.meta_(),
    {
        &self.meta
    }

    /// Reads the whole directory and returns an iterator over its
    /// decoded entries.
    pub fn entries<B: BlockDevice>(&self, vfat: &mut VFat<B>) -> (r: Result<DirIter, Error>)
        requires
            old(vfat).wf(),
        ensures
            final(vfat).wf(),
            final(vfat).same_model(old(vfat)),
            match r {
                Ok(it) => {
                    &&& it.off == 0
                    &&& exists|cs: Seq<Cluster>|
                        {
                            &&& old(vfat).is_chain(cs)
                            &&& cs[0] == self.first()
                            &&& #[trigger] it.data@ == old(vfat).chain_bytes(cs)
                        }
                },
                Err(e) => e matches Error::Io(_) || e == Error::InvalidData,
            },
    {
        let mut data: Vec<u8> = Vec::new();
        match vfat.read_chain(self.first_cluster, &mut data) {
            Ok(_) => {
                proof {
                    let cs = choose|cs: Seq<Cluster>|
                        {
                            &&& old(vfat).is_chain(cs)
                            &&& cs[0] == self.first()
                            &&& #[trigger] data@ == Seq::<u8>::empty()
                                + old(vfat).chain_bytes(cs)
                        };
                }
                Ok(DirIter { data, off: 0 })
            },
            Err(e) => Err(e),
        }
    }

    /// Finds the entry named `name` in this directory, the first match
    /// in slot order under ASCII case-insensitive comparison. Returns
    /// `NotFound` exactly when no decoded entry's name matches.
    pub fn find<B: BlockDevice>(&self, vfat: &mut VFat<B>, name: &str) -> (r: Result<
        Entry,
        Error,
    >)
        requires
            old(vfat).wf(),
        ensures
            final(vfat).wf(),
            final(vfat).same_model(old(vfat)),
            match r {
                Ok(e) => {
                    &&& crate::chars::spec_eq_ignore_ascii(entry_name_chars(&e), name@)
                    &&& exists|cs: Seq<crate::cluster::Cluster>, j: int, buf: Seq<u16>,
                        any: bool|
                        {
                            &&& old(vfat).is_chain(cs)
                            &&& cs[0] == self.first()
                            &&& spec_find(
                                old(vfat).chain_bytes(cs), 0, name@,
                                (nslots(old(vfat).chain_bytes(cs)) + 1) as nat)
                                == Some((j, buf, any))
                            &&& #[trigger] entry_matches(
                                old(vfat).chain_bytes(cs), j, buf, any, e)
                        }
                },
                Err(Error::NotFound) => exists|cs: Seq<crate::cluster::Cluster>|
                    {
                        &&& #[trigger] old(vfat).is_chain(cs)
                        &&& cs[0] == self.first()
                        &&& spec_find(
                            old(vfat).chain_bytes(cs), 0, name@,
                            (nslots(old(vfat).chain_bytes(cs)) + 1) as nat) is None
                    },
                Err(e) => e matches Error::Io(_) || e == Error::InvalidData,
            },
    {
        let mut it = match self.entries(vfat) {
            Ok(it) => it,
            Err(e) => {
                return Err(e);
            },
        };
        let ghost cs = choose|cs: Seq<crate::cluster::Cluster>|
            {
                &&& old(vfat).is_chain(cs)
                &&& cs[0] == self.first()
                &&& #[trigger] it.data@ == old(vfat).chain_bytes(cs)
            };
        let ghost fuel0: nat = (nslots(it.data@) + 1) as nat;
        let ghost mut fuel: nat = fuel0;
        loop
            invariant
                it.off % 32 == 0,
                it.off <= it.data@.len() + 32,
                vfat.wf(),
                vfat.same_model(old(vfat)),
                old(vfat).is_chain(cs),
                cs[0] == self.first(),
                it.data@ == old(vfat).chain_bytes(cs),
                fuel0 == (nslots(it.data@) + 1) as nat,
                fuel <= fuel0,
                fuel > nslots(it.data@) - it.off as int / 32,
                spec_find(it.data@, 0, name@, fuel0)
                    == spec_find(it.data@, it.off as int / 32, name@, fuel),
            decreases it.data@.len() + 32 - it.off,
        {
            if it.off > it.data.len() {
                proof {
                    let jc = it.off as int / 32;
                    vstd::arithmetic::div_mod::lemma_fundamental_div_mod(
                        it.off as int, 32);
                    assert(32 * (jc + 1) > it.data@.len());
                    assert(scan(it.data@, jc, zeros260(), false) is None);
                }
                return Err(Error::NotFound);
            }
            let ghost off0 = it.off;
            let e = match it.next() {
                Some(e) => e,
                None => {
                    proof {
                        assert(scan(it.data@, off0 as int / 32, zeros260(), false)
                            is None);
                    }
                    return Err(Error::NotFound);
                },
            };
            let ghost (j, buf, any) = choose|j: int, buf: Seq<u16>, any: bool|
                {
                    &&& scan(it.data@, off0 as int / 32,
                        Seq::new(260, |i: int| 0u16), false) == Some((j, buf, any))
                    &&& it.off == 32 * (j + 1)
                    &&& #[trigger] entry_matches(it.data@, j, buf, any, e)
                };
            proof {
                lemma_scan_in_bounds(it.data@, off0 as int / 32, zeros260(), false);
                assert(scan(it.data@, j, buf, any) == Some((j, buf, any)));
            }
            let matches = match &e {
                Entry::FileKind(f) => eq_ignore_ascii_case(f.name().as_str(), name),
                Entry::DirKind(d) => eq_ignore_ascii_case(d.name().as_str(), name),
            };
            proof {
                // the executable comparison agrees with the point-wise one
                lemma_fold_transfer(entry_name_chars(&e), name@);
                assert(entry_name_chars(&e).map_values(|c: char| c as u32)
                    == entry_name_points(it.data@, j, buf, any));
            }
            if matches {
                proof {
                    assert(spec_find(it.data@, off0 as int / 32, name@, fuel)
                        == Some((j, buf, any)));
                }
                return Ok(e);
            }
            proof {
                assert(spec_find(it.data@, off0 as int / 32, name@, fuel)
                    == spec_find(it.data@, j + 1, name@, (fuel - 1) as nat));
                fuel = (fuel - 1) as nat;
                vstd::arithmetic::div_mod::lemma_fundamental_div_mod_converse_div(
                    it.off as int, 32, j + 1, 0);
            }
        }
    }
}

/// The characters of an entry's name.
pub open spec fn entry_name_chars(e: &Entry) -> Seq<char> {
    match e {
        Entry::FileKind(f) => f.name_(),
        Entry::DirKind(d) => d.name_(),
    }
}

/// An iterator over the decoded entries of a directory's chain-read
/// bytes.
pub struct DirIter {
    /// The directory's raw bytes.
    pub data: Vec<u8>,
    /// The byte offset of the next slot to look at.
    pub off: usize,
}

impl DirIter {
    /// Decodes the next entry: skips deleted slots, reassembles a long
    /// filename if its slots precede the regular entry, and returns
    /// `None` at the end of the directory.
    pub fn next(&mut self) -> (r: Option<Entry>)
        requires
            old(self).off % 32 == 0,
        ensures
            final(self).data == old(self).data,
            final(self).off % 32 == 0,
            final(self).off >= old(self).off,
            match r {
                Some(e) => exists|j: int, buf: Seq<u16>, any: bool|
                    {
                        &&& scan(
                            old(self).data@,
                            old(self).off as int / 32,
                            Seq::new(260, |i: int| 0u16),
                            false,
                        ) == Some((j, buf, any))
                        &&& final(self).off == 32 * (j + 1)
                        &&& #[trigger] entry_matches(old(self).data@, j, buf, any, e)
                    },
                None => scan(
                    old(self).data@,
                    old(self).off as int / 32,
                    Seq::new(260, |i: int| 0u16),
                    false,
                ) is None,
            },
    {
        let n = self.data.len();
        // the 260-unit staging buffer for a long filename
        let mut buf: Vec<u16> = Vec::new();
        let mut k: usize = 0;
        while k < 260
            invariant
                buf@.len() == k,
                k <= 260,
                forall|i: int| 0 <= i < k ==> buf@[i] == 0u16,
            decreases 260 - k,
        {
            buf.push(0u16);
            k = k + 1;
        }
        proof {
            assert(buf@ =~= Seq::new(260, |i: int| 0u16));
        }
        let mut any = false;
        let ghost j0 = self.off as int / 32;
        loop
            invariant
                self.data == old(self).data,
                self.off % 32 == 0,
                self.off >= old(self).off,
                buf@.len() == 260,
                n == self.data@.len(),
                j0 == old(self).off as int / 32,
                scan(old(self).data@, j0, Seq::new(260, |i: int| 0u16), false)
                    == scan(self.data@, self.off as int / 32, buf@, any),
            decreases n + 32 - self.off,
        {
            let ghost jc = self.off as int / 32;
            if self.off > n || n - self.off < 32 {
                proof {
                    vstd::arithmetic::div_mod::lemma_fundamental_div_mod(
                        self.off as int, 32);
                    assert(32 * jc == self.off);
                    assert(32 * (jc + 1) > self.data@.len());
                }
                return None;
            }
            proof {
                vstd::arithmetic::div_mod::lemma_fundamental_div_mod(
                    self.off as int, 32);
                assert(32 * jc == self.off);
                assert(32 * (jc + 1) <= self.data@.len());
            }
            let id = self.data[self.off];
            if id == 0 {
                return None;
            }
            let attr = self.data[self.off + 11];
            if id == 0xE5 {
                self.off = self.off + 32;
                proof {
                    vstd::arithmetic::div_mod::lemma_fundamental_div_mod_converse_div(
                        self.off as int, 32, jc + 1, 0);
                }
                continue;
            }
            if attr == LFN {
                // accumulate thirteen code units at the slot's position
                let seq_no = id & 0x1F;
                proof {
                    assert(id & 0x1F < 0x20) by (bit_vector);
                }
                if 1 <= seq_no && seq_no <= 20 {
                    let base = (seq_no as usize - 1) * 13;
                    let ghost prev = buf@;
                    let mut u: usize = 0;
                    while u < 13
                        invariant
                            u <= 13,
                            base + 13 <= 260,
                            buf@.len() == 260,
                            self.off + 32 <= self.data@.len(),
                            self.off % 32 == 0,
                            self.off == 32 * jc,
                            n == self.data@.len(),
                            self.data == old(self).data,
                            forall|i: int| 0 <= i < u
                                ==> buf@[base + i] == lfn_unit(self.data@, jc, i),
                            forall|i: int| 0 <= i < 260 && !(base <= i < base + u)
                                ==> buf@[i] == prev[i],
                        decreases 13 - u,
                    {
                        let unit: u16 = if u < 5 {
                            le16(&self.data, self.off + 1 + 2 * u)
                        } else if u < 11 {
                            le16(&self.data, self.off + 14 + 2 * (u - 5))
                        } else {
                            le16(&self.data, self.off + 28 + 2 * (u - 11))
                        };
                        buf.set(base + u, unit);
                        u = u + 1;
                    }
                    proof {
                        assert(buf@ =~= lfn_write(self.data@, jc, prev)) by {
                            assert((slot_id(self.data@, jc) & 0x1F) as int
                                == seq_no as int);
                            assert(base as int == (seq_no as int - 1) * 13);
                        }
                    }
                    any = true;
                } else {
                    proof {
                        assert(lfn_write(self.data@, jc, buf@) == buf@) by {
                            assert((slot_id(self.data@, jc) & 0x1F) as int
                                == seq_no as int);
                        }
                    }
                    any = true;
                }
                self.off = self.off + 32;
                proof {
                    vstd::arithmetic::div_mod::lemma_fundamental_div_mod_converse_div(
                        self.off as int, 32, jc + 1, 0);
                }
                continue;
            }
            // the terminating regular slot
            let e = self.decode_regular(any, &buf);
            self.off = self.off + 32;
            proof {
                assert(scan(self.data@, jc, buf@, any) == Some((jc, buf@, any)));
                vstd::arithmetic::div_mod::lemma_fundamental_div_mod_converse_div(
                    self.off as int, 32, jc + 1, 0);
            }
            return Some(e);
        }
    }

    /// Builds the entry for the regular slot at `self.off`, with the
    /// accumulated staging buffer if a long filename preceded it.
    fn decode_regular(&self, any: bool, buf: &Vec<u16>) -> (e: Entry)
        requires
            self.off % 32 == 0,
            self.off + 32 <= self.data@.len(),
            buf@.len() == 260,
        ensures
            entry_matches(self.data@, self.off as int / 32, buf@, any, e),
    {
        let ghost j = self.off as int / 32;
        proof {
            vstd::arithmetic::div_mod::lemma_fundamental_div_mod(self.off as int, 32);
            assert(32 * j == self.off);
        }
        let nlen = self.data.len();
        let off = self.off;
        // the name: the decoded long filename, or the trimmed short name
        let name_chars: Vec<char>;
        if any {
            // take the staging buffer up to its terminator
            let mut t: usize = 0;
            while t < 260 && buf[t] != 0 && buf[t] != 0xFFFF
                invariant
                    t <= 260,
                    buf@.len() == 260,
                    forall|i: int| 0 <= i < t ==> buf@[i] != 0 && buf@[i] != 0xFFFF,
                decreases 260 - t,
            {
                t = t + 1;
            }
            let mut units: Vec<u16> = Vec::new();
            let mut i: usize = 0;
            while i < t
                invariant
                    i <= t,
                    t <= 260,
                    buf@.len() == 260,
                    units@ == buf@.take(i as int),
                decreases t - i,
            {
                let w = buf[i];
                units.push(w);
                proof {
                    assert(units@ =~= buf@.take(i + 1));
                }
                i = i + 1;
            }
            proof {
                lemma_trunc_is_take(buf@, t as int);
                assert(units@ == trunc_units(buf@));
            }
            name_chars = utf16_to_chars(&units);
        } else {
            // trim the 8-byte name and the 3-byte extension
            let mut name_end: usize = 8;
            while name_end > 0 && self.data[off + name_end - 1] == 0x20
                invariant
                    name_end <= 8,
                    nlen == self.data@.len(),
                    off + 32 <= self.data@.len(),
                    forall|i: int| name_end <= i < 8
                        ==> #[trigger] self.data@[off + i] == 0x20,
                decreases name_end,
            {
                name_end = name_end - 1;
            }
            let mut ext_end: usize = 3;
            while ext_end > 0 && self.data[off + 8 + ext_end - 1] == 0x20
                invariant
                    ext_end <= 3,
                    nlen == self.data@.len(),
                    off + 32 <= self.data@.len(),
                    forall|i: int| ext_end <= i < 3
                        ==> #[trigger] self.data@[off + 8 + i] == 0x20,
                decreases ext_end,
            {
                ext_end = ext_end - 1;
            }
            proof {
                let s8 = self.data@.subrange(off as int, off + 8);
                assert forall|i: int| name_end <= i < s8.len()
                    implies s8[i] == 0x20 by {
                    assert(self.data@[off + i] == 0x20);
                }
                lemma_trim_is_take(s8, name_end as int);
                let s3 = self.data@.subrange(off + 8, off + 11);
                assert forall|i: int| ext_end <= i < s3.len()
                    implies s3[i] == 0x20 by {
                    assert(self.data@[off + 8 + i] == 0x20);
                }
                lemma_trim_is_take(s3, ext_end as int);
            }
            let mut cs: Vec<char> = Vec::new();
            let mut i: usize = 0;
            while i < name_end
                invariant
                    i <= name_end,
                    name_end <= 8,
                    nlen == self.data@.len(),
                    off + 32 <= self.data@.len(),
                    cs@.len() == i,
                    forall|k2: int| 0 <= k2 < i
                        ==> (#[trigger] cs@[k2]) as u32 == self.data@[off + k2],
                decreases name_end - i,
            {
                let b = self.data[off + i];
                cs.push(b as char);
                i = i + 1;
            }
            if ext_end > 0 {
                cs.push('.');
                let mut i2: usize = 0;
                while i2 < ext_end
                    invariant
                        i2 <= ext_end,
                        ext_end <= 3,
                        nlen == self.data@.len(),
                        off + 32 <= self.data@.len(),
                        cs@.len() == name_end + 1 + i2,
                        name_end <= 8,
                        forall|k2: int| 0 <= k2 < name_end
                            ==> (#[trigger] cs@[k2]) as u32 == self.data@[off + k2],
                        cs@[name_end as int] == '.',
                        forall|k2: int| 0 <= k2 < i2
                            ==> (#[trigger] cs@[name_end + 1 + k2]) as u32
                                == self.data@[off + 8 + k2],
                    decreases ext_end - i2,
                {
                    let b = self.data[off + 8 + i2];
                    cs.push(b as char);
                    i2 = i2 + 1;
                }
            }
            proof {
                lemma_short_points(self.data@, j, off as int, name_end as int,
                    ext_end as int, cs@);
            }
            name_chars = cs;
        }
        let name = chars_to_string(&name_chars);
        let attributes = Attributes(self.data[off + 11]);
        let meta = Metadata {
            attributes,
            creation: Timestamp {
                time: Time(le16(&self.data, off + 14)),
                date: Date(le16(&self.data, off + 16)),
            },
            last_access_date: Date(le16(&self.data, off + 18)),
            last_modified: Timestamp {
                time: Time(le16(&self.data, off + 22)),
                date: Date(le16(&self.data, off + 24)),
            },
        };
        let high = le16(&self.data, off + 20);
        let low = le16(&self.data, off + 26);
        let raw = ((high as u32) << 16u32) | (low as u32);
        let first_cluster = Cluster::from(raw);
        proof {
            assert(raw == high as int * 0x1_0000 + low as int) by (bit_vector)
                requires raw == ((high as u32) << 16u32) | (low as u32);
            assert(raw & 0x0FFF_FFFF == raw % 0x1000_0000) by (bit_vector);
        }
        let size_lo = le16(&self.data, off + 28);
        let size_hi = le16(&self.data, off + 30);
        let size = (size_lo as u32) | ((size_hi as u32) << 16u32);
        proof {
            assert(size == size_lo as int + 0x1_0000 * (size_hi as int)) by (bit_vector)
                requires size == (size_lo as u32) | ((size_hi as u32) << 16u32);
        }
        let is_dir = (attributes.0 & DIRECTORY) != 0;
        if is_dir {
            Entry::DirKind(Dir::new(first_cluster, meta, name))
        } else {
            Entry::FileKind(File::new(first_cluster, meta, name, size))
        }
    }
}

/// Folding a name character-wise is folding its scalar values.
proof fn lemma_fold_transfer(a: Seq<char>, b: Seq<char>)
    ensures
        crate::chars::spec_eq_ignore_ascii(a, b)
            == points_match(a.map_values(|c: char| c as u32), b),
{
    let pts = a.map_values(|c: char| c as u32);
    assert(pts.len() == a.len());
    if crate::chars::spec_eq_ignore_ascii(a, b) {
        assert forall|i: int| 0 <= i < pts.len()
            implies crate::chars::fold_point((#[trigger] pts[i]) as int)
                == crate::chars::fold_char(b[i]) by {
            assert(pts[i] == a[i] as u32);
            assert(crate::chars::fold_char(a[i]) == crate::chars::fold_char(b[i]));
        }
    } else if points_match(pts, b) {
        assert forall|i: int| 0 <= i < a.len()
            implies crate::chars::fold_char(#[trigger] a[i])
                == crate::chars::fold_char(b[i]) by {
            assert(pts[i] == a[i] as u32);
            assert(crate::chars::fold_point(pts[i] as int)
                == crate::chars::fold_char(b[i]));
        }
        assert(crate::chars::spec_eq_ignore_ascii(a, b));
    }
}

/// A successful scan stops at a slot inside the buffer, at or past
/// where it started.
pub proof fn lemma_scan_in_bounds(data: Seq<u8>, j: int, buf: Seq<u16>, any: bool)
    ensures
        scan(data, j, buf, any) matches Some((l, b2, a2))
            ==> j <= l && 32 * (l + 1) <= data.len()
                && scan(data, l, b2, a2) == Some((l, b2, a2)),
    decreases nslots(data) - j,
{
    if j < 0 || 32 * (j + 1) > data.len() {
    } else if slot_id(data, j) == 0 {
    } else if slot_id(data, j) == 0xE5 {
        lemma_scan_in_bounds(data, j + 1, buf, any);
    } else if slot_attr(data, j) == LFN {
        lemma_scan_in_bounds(data, j + 1, lfn_write(data, j, buf), true);
    } else {
    }
}

/// When the first `t` units carry no terminator and unit `t` does (or
/// the buffer ends), the truncation is exactly the first `t` units.
proof fn lemma_trunc_is_take(buf: Seq<u16>, t: int)
    requires
        0 <= t <= buf.len(),
        forall|i: int| 0 <= i < t ==> buf[i] != 0 && buf[i] != 0xFFFF,
        t < buf.len() ==> buf[t] == 0 || buf[t] == 0xFFFF,
    ensures
        trunc_units(buf) == buf.take(t),
    decreases t,
{
    if t == 0 {
        assert(buf.take(0) =~= Seq::<u16>::empty());
    } else {
        lemma_trunc_is_take(buf.skip(1), t - 1);
        assert(buf.skip(1).take(t - 1) =~= buf.take(t).skip(1));
        assert(seq![buf[0]] + buf.take(t).skip(1) =~= buf.take(t));
    }
}

/// When the last bytes down to `e` are spaces and byte `e - 1` is not,
/// trimming keeps exactly the first `e` bytes.
proof fn lemma_trim_is_take(s: Seq<u8>, e: int)
    requires
        0 <= e <= s.len(),
        forall|i: int| e <= i < s.len() ==> s[i] == 0x20,
        e > 0 ==> s[e - 1] != 0x20,
    ensures
        trim_spaces(s) == s.take(e),
    decreases s.len(),
{
    if s.len() > 0 && s.last() == 0x20 {
        assert(e < s.len());
        lemma_trim_is_take(s.drop_last(), e);
        assert(s.drop_last().take(e) =~= s.take(e));
    } else {
        assert(s.take(e) =~= s);
    }
}

/// The assembled character vector spells the short name's points.
proof fn lemma_short_points(
    data: Seq<u8>,
    j: int,
    off: int,
    name_end: int,
    ext_end: int,
    cs: Seq<char>,
)
    requires
        0 <= off,
        off == 32 * j,
        off + 32 <= data.len(),
        0 <= name_end <= 8,
        0 <= ext_end <= 3,
        trim_spaces(data.subrange(off, off + 8)) == data.subrange(off, off + 8).take(name_end),
        trim_spaces(data.subrange(off + 8, off + 11))
            == data.subrange(off + 8, off + 11).take(ext_end),
        ext_end == 0 ==> cs.len() == name_end,
        ext_end > 0 ==> cs.len() == name_end + 1 + ext_end,
        forall|k2: int| 0 <= k2 < name_end ==> (#[trigger] cs[k2]) as u32 == data[off + k2],
        ext_end > 0 ==> cs[name_end] == '.',
        forall|k2: int| 0 <= k2 < ext_end
            ==> (#[trigger] cs[name_end + 1 + k2]) as u32 == data[off + 8 + k2],
    ensures
        cs.map_values(|c: char| c as u32) == short_name_points(data, j),
{
    assert(data.subrange(off, off + 8) == data.subrange(32 * j, 32 * j + 8));
    assert(data.subrange(off + 8, off + 11) == data.subrange(32 * j + 8, 32 * j + 11));
    let name = trim_spaces(data.subrange(off, off + 8));
    let ext = trim_spaces(data.subrange(off + 8, off + 11));
    assert(name.len() == name_end);
    assert(ext.len() == ext_end);
    let pts = short_name_points(data, j);
    assert(pts.len() == cs.len());
    assert(cs.map_values(|c: char| c as u32) =~= pts) by {
        assert forall|i: int| 0 <= i < cs.len()
            implies cs.map_values(|c: char| c as u32)[i] == pts[i] by {
            assert(cs.map_values(|c: char| c as u32)[i] == cs[i] as u32);
            if i < name_end {
                assert(name[i] == data.subrange(off, off + 8)[i]);
                assert(name[i] == data[off + i]);
                assert(pts[i] == name.map_values(|b: u8| b as u32)[i]);
                assert(pts[i] == name[i] as u32);
            } else if ext_end > 0 && i == name_end {
                assert(('.') as u32 == 0x2E);
                assert(pts[i] == 0x2Eu32);
            } else {
                assert(ext_end > 0 && i > name_end);
                assert((cs[name_end + 1 + (i - name_end - 1)]) as u32
                    == data[off + 8 + (i - name_end - 1)]);
                assert(ext[i - name_end - 1]
                    == data.subrange(off + 8, off + 11)[i - name_end - 1]);
                assert(ext[i - name_end - 1] == data[off + 8 + (i - name_end - 1)]);
                assert(pts[i] == ext.map_values(|b: u8| b as u32)[i - name_end - 1]);
                assert(pts[i] == ext[i - name_end - 1] as u32);
            }
        }
    }
}

} // verus!
