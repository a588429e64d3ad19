//! Positions in the two instruction streams, and the bounded displacements
//! between them.

use vstd::prelude::*;

verus! {

/// The ways in which compiling can fail.
#[derive(Clone, Copy, Debug, PartialEq, Eq, Structural)]
pub enum Error {
    /// A jump or split would need a displacement that does not fit an
    /// offset.
    TooLarge,
}

impl Error {
    /// What went wrong, in words.
    pub fn message(&self) -> (r: String)
        ensures
            r@ == "regexp too large"@,
    {
        match self {
            Error::TooLarge => "regexp too large".to_owned(),
        }
    }
}

/// A position in the code: an offset in the forward stream, and an offset in
/// one of the backward sequences, named by its identifier.
#[derive(Clone, Copy, Debug, Default, PartialEq, Eq, Structural)]
pub struct Location {
    pub fwd: usize,
    pub bck_seq_id: u64,
    pub bck: usize,
}

/// The displacement between two positions, in both streams.
#[derive(Clone, Copy, Debug, PartialEq, Eq, Structural)]
pub struct Offset {
    pub fwd: i16,
    pub bck: i16,
}

/// True if `d` can be written as an offset.
pub open spec fn fits_offset(d: int) -> bool {
    i16::MIN <= d <= i16::MAX
}

/// The difference `a - b` as an offset, if it fits.
fn displacement(a: usize, b: usize) -> (r: Option<i16>)
    ensures
        r is Some <==> fits_offset(a - b),
        r matches Some(d) ==> d == a - b,
{
    if a >= b {
        let d = a - b;
        if d <= 0x7FFF {
            Some(d as i16)
        } else {
            None
        }
    } else {
        let d = b - a;
        if d <= 0x8000 {
            Some((0 - (d as i32)) as i16)
        } else {
            None
        }
    }
}

impl Location {
    /// The displacement from `rhs` to `self`, component by component.
    /// Fails with `TooLarge` if and only if one of the two differences does
    /// not fit an offset.
    pub fn sub(&self, rhs: &Location) -> (r: Result<Offset, Error>)
        ensures
            r is Ok <==> fits_offset(self.fwd - rhs.fwd) && fits_offset(self.bck - rhs.bck),
            r matches Ok(o) ==> o.fwd == self.fwd - rhs.fwd && o.bck == self.bck - rhs.bck,
            r matches Err(e) ==> e == Error::TooLarge,
    {
        let fwd = match displacement(self.fwd, rhs.fwd) {
            Some(d) => d,
            None => {
                return Err(Error::TooLarge);
            },
        };
        let bck = match displacement(self.bck, rhs.bck) {
            Some(d) => d,
            None => {
                return Err(Error::TooLarge);
            },
        };
        Ok(Offset { fwd, bck })
    }
}

} // verus!
