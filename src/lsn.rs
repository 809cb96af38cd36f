use vstd::prelude::*;

verus! {

/// A position in the write-ahead log. `Lsn(0)` is the invalid sentinel.
#[derive(Clone, Copy, Debug, PartialEq, Eq, Structural, PartialOrd, Ord, Hash)]
pub struct Lsn(pub u64);

/// `x` rounded up to the next multiple of the WAL record alignment (8 bytes).
pub open spec fn align_up(x: u64) -> int {
    (x as int + 7) / 8 * 8
}

impl Lsn {
    /// Whether this is not the invalid sentinel.
    pub fn is_valid(&self) -> (r: bool)
        ensures
            r == (self.0 != 0),
    {
        self.0 != 0
    }

    /// Rounds up to the WAL record alignment.
    pub fn align(&self) -> (r: Lsn)
        requires
            self.0 <= u64::MAX - 7,
        ensures
            r.0 == align_up(self.0),
            r.0 >= self.0,
            r.0 % 8 == 0,
            r.0 < self.0 + 8,
    {
        Lsn((self.0 + 7) / 8 * 8)
    }

    /// `self - other` when it does not go below zero.
    pub fn checked_sub(&self, other: u64) -> (r: Option<Lsn>)
        ensures
            self.0 >= other ==> r == Some(Lsn((self.0 - other) as u64)),
            self.0 < other ==> r.is_none(),
    {
        if self.0 >= other {
            Some(Lsn(self.0 - other))
        } else {
            None
        }
    }

    /// `self - other`, or zero where that would go below zero.
    pub fn saturating_sub(&self, other: u64) -> (r: Lsn)
        ensures
            self.0 >= other ==> r.0 == self.0 - other,
            self.0 < other ==> r.0 == 0,
    {
        if self.0 >= other {
            Lsn(self.0 - other)
        } else {
            Lsn(0)
        }
    }

    /// The smaller of two positions.
    pub fn min(a: Lsn, b: Lsn) -> (r: Lsn)
        ensures
            r.0 == if a.0 <= b.0 { a.0 } else { b.0 },
    {
        if a.0 <= b.0 {
            a
        } else {
            b
        }
    }
}

} // verus!
