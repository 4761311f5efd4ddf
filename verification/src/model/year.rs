//! Years as one byte: the distance from an epoch that lies before the
//! games of both corpora.

use vstd::prelude::*;

verus! {

/// The year that the byte `0` stands for.
pub const EPOCH_YEAR: u16 = 1900;

/// The largest byte that stands for a year. The byte above it is the
/// sentinel that closes a scan.
pub const LAST_YEAR_OFFSET: u8 = 254;

/// A year, counted from `EPOCH_YEAR`.
#[derive(Clone, Copy, Debug, PartialEq, Eq, Structural, Hash)]
pub struct AnnoLichess {
    offset: u8,
}

impl View for AnnoLichess {
    type V = nat;

    /// The byte that stands for the year.
    closed spec fn view(&self) -> nat {
        self.offset as nat
    }
}

/// The byte of a calendar year: years before the epoch count as the epoch,
/// years beyond the last byte as the last.
pub open spec fn year_offset(year: nat) -> nat {
    if year <= EPOCH_YEAR {
        0
    } else if year - EPOCH_YEAR >= LAST_YEAR_OFFSET {
        LAST_YEAR_OFFSET as nat
    } else {
        (year - EPOCH_YEAR) as nat
    }
}

impl AnnoLichess {
    /// A year is held in one byte.
    pub proof fn lemma_bound(&self)
        ensures
            self@ <= 255,
    {
    }

    /// The sentinel above every year.
    pub fn max() -> (y: AnnoLichess)
        ensures
            y@ == 255,
    {
        AnnoLichess { offset: 255 }
    }

    /// The year of a calendar year, clamped to what one byte can hold.
    pub fn from_year(year: u16) -> (y: AnnoLichess)
        ensures
            y@ == year_offset(year as nat),
            y@ <= LAST_YEAR_OFFSET,
    {
        if year <= EPOCH_YEAR {
            AnnoLichess { offset: 0 }
        } else if year - EPOCH_YEAR >= LAST_YEAR_OFFSET as u16 {
            AnnoLichess { offset: LAST_YEAR_OFFSET }
        } else {
            AnnoLichess { offset: (year - EPOCH_YEAR) as u8 }
        }
    }

    /// The calendar year.
    pub fn year(&self) -> (year: u16)
        ensures
            year == EPOCH_YEAR + self@,
    {
        EPOCH_YEAR + self.offset as u16
    }

    /// The byte that stands for the year.
    pub fn to_byte(&self) -> (b: u8)
        ensures
            b == self@,
    {
        self.offset
    }

    /// The year that a byte stands for.
    pub fn from_byte(b: u8) -> (y: AnnoLichess)
        ensures
            y@ == b,
    {
        AnnoLichess { offset: b }
    }

    /// Whether this is the sentinel.
    pub fn is_max(&self) -> (b: bool)
        ensures
            b == (self@ == 255),
    {
        self.offset == 255
    }

    /// The following year, or the sentinel after the last.
    pub fn succ(&self) -> (y: AnnoLichess)
        ensures
            y@ == if self@ < 255 { self@ + 1 } else { 255 },
    {
        if self.offset < 255 {
            AnnoLichess { offset: self.offset + 1 }
        } else {
            AnnoLichess { offset: 255 }
        }
    }
}

} // verus!
