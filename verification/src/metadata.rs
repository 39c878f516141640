//! File metadata as represented in FAT32 on-disk structures: packed
//! dates and times, and the attribute byte.

use vstd::prelude::*;

verus! {

/// The read-only attribute bit.
pub const READ_ONLY: u8 = 0x1;

/// The hidden attribute bit.
pub const HIDDEN: u8 = 0x2;

/// The system attribute bit.
pub const SYSTEM: u8 = 0x4;

/// The volume-id attribute bit.
pub const VOLUME_ID: u8 = 0x8;

/// The directory attribute bit.
pub const DIRECTORY: u8 = 0x10;

/// The archive attribute bit.
pub const ARCHIVE: u8 = 0x20;

/// The long-filename marker: the first four attribute bits together.
pub const LFN: u8 = 0xF;

/// A date as represented in FAT32 on-disk structures: the year since
/// 1980 in the high 7 bits, then 4 bits of month and 5 of day.
#[derive(Debug, Copy, Clone, PartialEq, Eq, Structural)]
pub struct Date(pub u16);

/// Time as represented in FAT32 on-disk structures: 5 bits of hour,
/// 6 of minute, and 5 holding the second halved.
#[derive(Debug, Copy, Clone, PartialEq, Eq, Structural)]
pub struct Time(pub u16);

/// File attributes as represented in FAT32 on-disk structures.
#[derive(Debug, Copy, Clone, PartialEq, Eq, Structural)]
pub struct Attributes(pub u8);

/// A structure containing a date and time.
#[derive(Copy, Clone, Debug, PartialEq, Eq, Structural)]
pub struct Timestamp {
    /// The time of day.
    pub time: Time,
    /// The calendar date.
    pub date: Date,
}

/// Metadata for a directory entry.
#[derive(Debug, Copy, Clone, PartialEq, Eq, Structural)]
pub struct Metadata {
    /// The attribute byte.
    pub attributes: Attributes,
    /// When the entry was created.
    pub creation: Timestamp,
    /// When the entry was last read.
    pub last_access_date: Date,
    /// When the entry was last changed.
    pub last_modified: Timestamp,
}

/// The English name of month `m`, or a placeholder outside `1..=12`.
pub open spec fn spec_month_name(m: int) -> Seq<char> {
    if m == 1 { "January"@ }
    else if m == 2 { "February"@ }
    else if m == 3 { "March"@ }
    else if m == 4 { "April"@ }
    else if m == 5 { "May"@ }
    else if m == 6 { "June"@ }
    else if m == 7 { "July"@ }
    else if m == 8 { "August"@ }
    else if m == 9 { "September"@ }
    else if m == 10 { "October"@ }
    else if m == 11 { "November"@ }
    else if m == 12 { "December"@ }
    else { "<invalid>"@ }
}

impl Date {
    /// The calendar year.
    pub fn year(&self) -> (r: usize)
        ensures
            r == (self.0 >> 9) + 1980,
    {
        let v = self.0;
        proof {
            assert(v >> 9 < 0x80) by (bit_vector);
        }
        (v >> 9) as usize + 1980
    }

    /// The month, `1..=12` on a well-formed date.
    pub fn month(&self) -> (r: u8)
        ensures
            r == (self.0 >> 5) & 0xF,
    {
        let v = self.0;
        proof {
            assert((v >> 5) & 0xF < 0x10) by (bit_vector);
        }
        ((v >> 5) & 0xF) as u8
    }

    /// The day of the month, `1..=31` on a well-formed date.
    pub fn day(&self) -> (r: u8)
        ensures
            r == self.0 & 0x1F,
    {
        let v = self.0;
        proof {
            assert(v & 0x1F < 0x20) by (bit_vector);
        }
        (v & 0x1F) as u8
    }

    /// The English name of this date's month.
    pub fn month_str(&self) -> (r: &'static str)
        ensures
            r@ == spec_month_name(((self.0 >> 5) & 0xF) as int),
    {
        match self.month() {
            1 => "January",
            2 => "February",
            3 => "March",
            4 => "April",
            5 => "May",
            6 => "June",
            7 => "July",
            8 => "August",
            9 => "September",
            10 => "October",
            11 => "November",
            12 => "December",
            _ => "<invalid>",
        }
    }
}

impl Time {
    /// The hour, `0..=23` on a well-formed time.
    pub fn hour(&self) -> (r: u8)
        ensures
            r == self.0 >> 11,
    {
        let v = self.0;
        proof {
            assert(v >> 11 < 0x20) by (bit_vector);
        }
        (v >> 11) as u8
    }

    /// The minute, `0..=59` on a well-formed time.
    pub fn minute(&self) -> (r: u8)
        ensures
            r == (self.0 >> 5) & 0x3F,
    {
        let v = self.0;
        proof {
            assert((v >> 5) & 0x3F < 0x40) by (bit_vector);
        }
        ((v >> 5) & 0x3F) as u8
    }

    /// The second, rounded down to an even value.
    pub fn second(&self) -> (r: u8)
        ensures
            r == (self.0 & 0x1F) * 2,
    {
        let v = self.0;
        proof {
            assert(v & 0x1F < 0x20) by (bit_vector);
        }
        ((v & 0x1F) as u8) * 2
    }
}

impl Attributes {
    /// Whether this is a long-filename entry: the first four bits all
    /// set.
    pub fn is_lfn(&self) -> (r: bool)
        ensures
            r == (self.0 == LFN),
    {
        self.0 == LFN
    }

    /// Whether the directory bit is set.
    pub fn is_dir(&self) -> (r: bool)
        ensures
            r == ((self.0 & DIRECTORY) != 0),
    {
        (self.0 & DIRECTORY) != 0
    }
}

impl Timestamp {
    /// The calendar year.
    pub fn year(&self) -> (r: usize)
        ensures
            r == (self.date.0 >> 9) + 1980,
    {
        self.date.year()
    }

    /// The month.
    pub fn month(&self) -> (r: u8)
        ensures
            r == (self.date.0 >> 5) & 0xF,
    {
        self.date.month()
    }

    /// The day of the month.
    pub fn day(&self) -> (r: u8)
        ensures
            r == self.date.0 & 0x1F,
    {
        self.date.day()
    }

    /// The hour.
    pub fn hour(&self) -> (r: u8)
        ensures
            r == self.time.0 >> 11,
    {
        self.time.hour()
    }

    /// The minute.
    pub fn minute(&self) -> (r: u8)
        ensures
            r == (self.time.0 >> 5) & 0x3F,
    {
        self.time.minute()
    }

    /// The second, rounded down to an even value.
    pub fn second(&self) -> (r: u8)
        ensures
            r == (self.time.0 & 0x1F) * 2,
    {
        self.time.second()
    }
}

impl Metadata {
    /// Whether the entry is read-only.
    pub fn read_only(&self) -> (r: bool)
        ensures
            r == ((self.attributes.0 & READ_ONLY) != 0),
    {
        (self.attributes.0 & READ_ONLY) != 0
    }

    /// Whether the entry is hidden.
    pub fn hidden(&self) -> (r: bool)
        ensures
            r == ((self.attributes.0 & HIDDEN) != 0),
    {
        (self.attributes.0 & HIDDEN) != 0
    }

    /// When the entry was created.
    pub fn created(&self) -> (r: Timestamp)
        ensures
            r == self.creation,
    {
        self.creation
    }

    /// When the entry was last read; the on-disk format keeps only the
    /// date.
    pub fn accessed(&self) -> (r: Timestamp)
        ensures
            r == (Timestamp { time: Time(0), date: self.last_access_date }),
    {
        Timestamp { time: Time(0), date: self.last_access_date }
    }

    /// When the entry was last changed.
    pub fn modified(&self) -> (r: Timestamp)
        ensures
            r == self.last_modified,
    {
        self.last_modified
    }
}

} // verus!
