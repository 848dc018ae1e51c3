//! Statistics of an encoding: how many blocks of each kind the body holds.
use crate::blocks::Typ;
use crate::stream::{typ_of, Token};
use vstd::prelude::*;

verus! {

/// The number of blocks of the same kind as `typ` among `tokens`.
pub open spec fn count_of<const CHANNELS: usize>(tokens: Seq<Token>, typ: Typ<CHANNELS>) -> nat
    decreases tokens.len(),
{
    if tokens.len() == 0 {
        0
    } else {
        count_of(tokens.drop_last(), typ) + if typ_of::<CHANNELS>(tokens.last()) == typ {
            1nat
        } else {
            0nat
        }
    }
}

/// No kind has more blocks than there are blocks.
pub proof fn lemma_count_bound<const CHANNELS: usize>(tokens: Seq<Token>, typ: Typ<CHANNELS>)
    ensures
        count_of(tokens, typ) <= tokens.len(),
    decreases tokens.len(),
{
    if tokens.len() > 0 {
        lemma_count_bound(tokens.drop_last(), typ);
    }
}

/// The number of blocks of each kind.
#[derive(Clone, Copy, Debug, PartialEq, Eq)]
pub struct Logger {
    /// Runs.
    pub repeating: usize,
    /// Short pixels.
    pub short: usize,
    /// Medium pixels.
    pub medium: usize,
    /// Long pixels.
    pub long: usize,
    /// References to the offset table.
    pub offset: usize,
    /// References to the palette.
    pub palette: usize,
    /// Gray blocks.
    pub gray: usize,
}

impl Logger {
    /// The counts of these blocks.
    pub open spec fn counts<const CHANNELS: usize>(self, tokens: Seq<Token>) -> bool {
        &&& self.repeating == count_of(tokens, Typ::<CHANNELS>::Repeating)
        &&& self.short == count_of(tokens, Typ::<CHANNELS>::Short)
        &&& self.medium == count_of(tokens, Typ::<CHANNELS>::Medium)
        &&& self.long == count_of(tokens, Typ::<CHANNELS>::Long)
        &&& self.offset == count_of(tokens, Typ::<CHANNELS>::Offset)
        &&& self.palette == count_of(tokens, Typ::<CHANNELS>::Color)
        &&& self.gray == count_of(tokens, Typ::<CHANNELS>::Gray)
    }

    /// All counts zero.
    pub fn new() -> (logger: Self)
        ensures
            logger.repeating == 0,
            logger.short == 0,
            logger.medium == 0,
            logger.long == 0,
            logger.offset == 0,
            logger.palette == 0,
            logger.gray == 0,
    {
        Self { repeating: 0, short: 0, medium: 0, long: 0, offset: 0, palette: 0, gray: 0 }
    }

    /// The number of blocks of all kinds together, if it fits a `usize`.
    pub fn total(&self) -> (total: Option<usize>)
        ensures
            ({
                let sum = self.repeating + self.short + self.medium + self.long + self.offset
                    + self.palette + self.gray;
                match total {
                    Some(t) => t == sum,
                    None => sum > usize::MAX,
                }
            }),
    {
        let a = self.repeating.checked_add(self.short)?;
        let b = a.checked_add(self.medium)?;
        let c = b.checked_add(self.long)?;
        let d = c.checked_add(self.offset)?;
        let e = d.checked_add(self.palette)?;
        e.checked_add(self.gray)
    }
}

} // verus!
