//! The block device interface the filesystem is built over, and an
//! in-memory device. A device is modeled as a sequence of fixed-size
//! sectors of bytes; reads may fail at any time (a timeout, a controller
//! fault), but whatever they return comes from the modeled sectors.

use vstd::prelude::*;

verus! {

/// An error from the block device layer.
#[derive(Clone, Copy, Debug, PartialEq, Eq, Structural)]
pub enum IoError {
    /// The device did not answer in time.
    Timeout,
    /// The device rejected or failed the command.
    CommandFailure,
    /// Fewer bytes than needed came back.
    UnexpectedEof,
    /// The request itself was malformed, such as an offset past the end
    /// of a sector.
    InvalidInput,
}

/// A sector-addressed block device.
pub trait BlockDevice: Sized {
    /// The bytes of every sector.
    spec fn sectors(&self) -> Seq<Seq<u8>>;

    /// The byte size of one sector.
    spec fn sector_len(&self) -> nat;

    /// The device's own well-formedness.
    spec fn inv(&self) -> bool;

    /// A well-formed device has uniform, nonempty sectors.
    proof fn lemma_wf(&self)
        requires
            self.inv(),
        ensures
            self.sector_len() > 0,
            self.sector_len() <= u64::MAX,
            forall|i: int| 0 <= i < self.sectors().len()
                ==> (#[trigger] self.sectors()[i]).len() == self.sector_len(),
    ;

    /// Returns the size of a sector in bytes.
    fn sector_size(&self) -> (r: u64)
        requires
            self.inv(),
        ensures
            r == self.sector_len(),
    ;

    /// Reads sector `n` into the front of `buf`. On success, `m` bytes
    /// were read: the smaller of the buffer's length and the sector size,
    /// unless the device cut the read short.
    fn read_sector(&mut self, n: u64, buf: &mut Vec<u8>) -> (r: Result<usize, IoError>)
        requires
            old(self).inv(),
        ensures
            final(self).inv(),
            final(self).sectors() == old(self).sectors(),
            final(self).sector_len() == old(self).sector_len(),
            final(buf)@.len() == old(buf)@.len(),
            match r {
                Ok(m) => {
                    &&& n < old(self).sectors().len()
                    &&& m <= final(buf)@.len()
                    &&& m <= old(self).sector_len()
                    &&& final(buf)@ == old(self).sectors()[n as int].take(m as int)
                        + old(buf)@.skip(m as int)
                },
                Err(_) => true,
            },
    ;

    /// Writes the front of `buf` over sector `n`. On success, `m` bytes
    /// were written: the smaller of the buffer's length and the sector
    /// size, unless the device cut the write short.
    fn write_sector(&mut self, n: u64, buf: &Vec<u8>) -> (r: Result<usize, IoError>)
        requires
            old(self).inv(),
        ensures
            final(self).inv(),
            final(self).sector_len() == old(self).sector_len(),
            final(self).sectors().len() == old(self).sectors().len(),
            match r {
                Ok(m) => {
                    &&& n < old(self).sectors().len()
                    &&& m <= buf@.len()
                    &&& m <= old(self).sector_len()
                    &&& final(self).sectors() == old(self).sectors().update(
                        n as int,
                        buf@.take(m as int) + old(self).sectors()[n as int].skip(m as int))
                },
                Err(_) => final(self).sectors() == old(self).sectors(),
            },
    ;
}

/// A block device backed by memory: the whole disk image as a vector of
/// sectors.
pub struct MemoryDevice {
    sectors: Vec<Vec<u8>>,
    sector_size: u64,
}

impl MemoryDevice {
    /// A device over the given sectors. Every sector must be `sector_size`
    /// bytes long.
    pub fn new(sectors: Vec<Vec<u8>>, sector_size: u64) -> (r: MemoryDevice)
        requires
            sector_size > 0,
            forall|i: int| 0 <= i < sectors@.len()
                ==> (#[trigger] sectors@[i])@.len() == sector_size,
        ensures
            r.inv(),
            r.sector_len() == sector_size,
            r.sectors() == sectors@.map_values(|v: Vec<u8>| v@),
    {
        MemoryDevice { sectors, sector_size }
    }
}

impl BlockDevice for MemoryDevice {
    closed spec fn sectors(&self) -> Seq<Seq<u8>> {
        self.sectors@.map_values(|v: Vec<u8>| v@)
    }

    closed spec fn sector_len(&self) -> nat {
        self.sector_size as nat
    }

    closed spec fn inv(&self) -> bool {
        &&& self.sector_size > 0
        &&& forall|i: int| 0 <= i < self.sectors@.len()
            ==> (#[trigger] self.sectors@[i])@.len() == self.sector_size
    }

    proof fn lemma_wf(&self)
    {
    }

    fn sector_size(&self) -> (r: u64)
    {
        self.sector_size
    }

    fn read_sector(&mut self, n: u64, buf: &mut Vec<u8>) -> (r: Result<usize, IoError>)
    {
        if n >= self.sectors.len() as u64 {
            return Err(IoError::CommandFailure);
        }
        let idx = n as usize;
        let sector = &self.sectors[idx];
        let m = if buf.len() < sector.len() { buf.len() } else { sector.len() };
        let mut i: usize = 0;
        while i < m
            invariant
                i <= m,
                m <= buf@.len(),
                m <= sector@.len(),
                buf@.len() == old(buf)@.len(),
                forall|j: int| 0 <= j < i ==> buf@[j] == sector@[j],
                forall|j: int| i <= j < buf@.len() ==> buf@[j] == old(buf)@[j],
            decreases m - i,
        {
            let b = sector[i];
            buf.set(i, b);
            i = i + 1;
        }
        proof {
            assert(self.sectors@[idx as int]@.len() == self.sector_size);
            assert(buf@ =~= self.sectors()[n as int].take(m as int) + old(buf)@.skip(m as int));
        }
        Ok(m)
    }

    fn write_sector(&mut self, n: u64, buf: &Vec<u8>) -> (r: Result<usize, IoError>)
    {
        if n >= self.sectors.len() as u64 {
            return Err(IoError::CommandFailure);
        }
        let idx = n as usize;
        let m = if buf.len() < self.sectors[idx].len() {
            buf.len()
        } else {
            self.sectors[idx].len()
        };
        let mut i: usize = 0;
        while i < m
            invariant
                i <= m,
                idx < self.sectors@.len(),
                m <= buf@.len(),
                m <= self.sectors@[idx as int]@.len(),
                self.sector_size == old(self).sector_size,
                self.sectors@.len() == old(self).sectors@.len(),
                forall|k: int| 0 <= k < self.sectors@.len() && k != idx
                    ==> #[trigger] self.sectors@[k] == old(self).sectors@[k],
                self.sectors@[idx as int]@.len() == old(self).sectors@[idx as int]@.len(),
                forall|j: int| 0 <= j < i ==> self.sectors@[idx as int]@[j] == buf@[j],
                forall|j: int| i <= j < self.sectors@[idx as int]@.len()
                    ==> self.sectors@[idx as int]@[j] == old(self).sectors@[idx as int]@[j],
            decreases m - i,
        {
            let b = buf[i];
            let sec = vstd::std_specs::vec::vec_index_mut(&mut self.sectors, idx);
            sec.set(i, b);
            i = i + 1;
        }
        proof {
            assert(self.sectors()[idx as int] =~= buf@.take(m as int)
                + old(self).sectors()[idx as int].skip(m as int));
            assert(self.sectors() =~= old(self).sectors().update(
                n as int,
                buf@.take(m as int) + old(self).sectors()[n as int].skip(m as int)));
        }
        Ok(m)
    }
}

} // verus!
