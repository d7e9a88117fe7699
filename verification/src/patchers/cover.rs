//! The state that runs through the covers of a patch, and the step it takes.
//!
//! A patch rebuilds the new files one after the other from two sources: spans
//! copied from the old files and spans taken from the literal bytes. The covers
//! say which comes when. A [`CoverCursor`] holds what must be remembered from
//! one span to the next, and from one file to the next.
use vstd::prelude::*;
use crate::utils::error::DiffError;
use crate::utils::Cover;

verus! {

/// Where the work on the covers stands.
#[derive(Clone, Debug)]
pub struct CoverCursor {
    /// The covers. The one at `cover_index` is cut down when it runs over the
    /// end of a file.
    pub covers: Vec<Cover>,
    /// The cover that is served next.
    pub cover_index: usize,
    /// Where in the old file the last copy ended.
    pub old_pos: i64,
    /// How many literal bytes are still due before the next copy.
    pub to_read: u64,
}

/// What a [`CoverCursor`] stands for.
pub struct CursorModel {
    pub covers: Seq<Cover>,
    pub cover_index: nat,
    pub old_pos: int,
    pub to_read: nat,
}

/// The next span of a new file.
#[derive(Clone, Copy, Debug, PartialEq, Eq, Structural)]
pub enum Step {
    /// `length` bytes of the old file, from `offset` on.
    Copy { offset: u64, length: u64 },
    /// The next `length` literal bytes.
    Insert { length: u64 },
}

impl Step {
    /// How many bytes the span adds to the new file.
    pub open spec fn spec_length(self) -> u64 {
        match self {
            Step::Copy { length, .. } => length,
            Step::Insert { length } => length,
        }
    }

    /// How many bytes the span adds to the new file.
    #[verifier::when_used_as_spec(spec_length)]
    pub fn length(self) -> (n: u64)
        ensures
            n == self.spec_length(),
    {
        match self {
            Step::Copy { length, .. } => length,
            Step::Insert { length } => length,
        }
    }
}

impl View for CoverCursor {
    type V = CursorModel;

    open spec fn view(&self) -> CursorModel {
        CursorModel {
            covers: self.covers@,
            cover_index: self.cover_index as nat,
            old_pos: self.old_pos as int,
            to_read: self.to_read as nat,
        }
    }
}

/// The state before the first span: no cover served, nothing copied, and the
/// gap of the first cover due. Without covers nothing is due.
pub open spec fn spec_start(covers: Seq<Cover>) -> CursorModel {
    CursorModel {
        covers,
        cover_index: 0,
        old_pos: 0,
        to_read: if covers.len() > 0 {
            covers[0].new_pos as nat
        } else {
            0
        },
    }
}

/// The next span of a file that still lacks `remaining` bytes, and the state
/// behind it.
///
/// With no literal bytes due and a cover left, the span is a copy: it starts
/// where the last copy ended, moved by the cover's offset, and is as long as
/// the cover, or as the file has room. A copy that fills the file before the
/// cover is used up leaves the rest of the cover in place, with offset and gap
/// zero, to go on in the next file. Any other copy moves on to the next cover,
/// whose gap is then due. A copy from before the start of the old file, or one
/// that ends beyond the largest offset, is `OldFileRange`.
///
/// Otherwise the span is literal: as long as the bytes due, or as the file has
/// room; with no cover left, as long as the file has room.
pub open spec fn spec_next(c: CursorModel, remaining: u64) -> Result<
    (Step, CursorModel),
    DiffError,
> {
    if c.to_read == 0 && c.cover_index < c.covers.len() {
        let cover = c.covers[c.cover_index as int];
        let offset = c.old_pos + cover.old_pos;
        let length = if cover.length <= remaining {
            cover.length
        } else {
            remaining
        };
        if offset < 0 || offset + length > i64::MAX {
            Err(DiffError::OldFileRange)
        } else if length == remaining && remaining != cover.length {
            Ok(
                (
                    Step::Copy { offset: offset as u64, length },
                    CursorModel {
                        covers: c.covers.update(
                            c.cover_index as int,
                            Cover {
                                old_pos: 0,
                                new_pos: 0,
                                length: (cover.length - length) as u64,
                            },
                        ),
                        cover_index: c.cover_index,
                        old_pos: offset + length,
                        to_read: 0,
                    },
                ),
            )
        } else {
            Ok(
                (
                    Step::Copy { offset: offset as u64, length },
                    CursorModel {
                        covers: c.covers,
                        cover_index: c.cover_index + 1,
                        old_pos: offset + length,
                        to_read: if c.cover_index + 1 < c.covers.len() {
                            c.covers[c.cover_index + 1 as int].new_pos as nat
                        } else {
                            0
                        },
                    },
                ),
            )
        }
    } else if c.cover_index < c.covers.len() {
        let length = if c.to_read <= remaining {
            c.to_read as u64
        } else {
            remaining
        };
        Ok(
            (
                Step::Insert { length },
                CursorModel {
                    covers: c.covers,
                    cover_index: c.cover_index,
                    old_pos: c.old_pos,
                    to_read: (c.to_read - length) as nat,
                },
            ),
        )
    } else {
        Ok((Step::Insert { length: remaining }, c))
    }
}

/// A step makes headway: it adds bytes to the file, never more than the file
/// lacks, or else it moves on to the next cover.
pub proof fn lemma_next_progress(c: CursorModel, remaining: u64)
    requires
        remaining > 0,
    ensures
        spec_next(c, remaining) matches Ok((step, next)) ==> {
            &&& step.length() <= remaining
            &&& next.covers.len() == c.covers.len()
            &&& next.cover_index >= c.cover_index
            &&& step.length() == 0 ==> c.cover_index < c.covers.len() && next.cover_index
                == c.cover_index + 1
        },
{
}

impl CoverCursor {
    /// The state before the first span.
    pub fn new(covers: Vec<Cover>) -> (c: Self)
        ensures
            c@ == spec_start(covers@),
    {
        let to_read: u64 = if covers.len() > 0 {
            covers[0].new_pos
        } else {
            0
        };
        CoverCursor { covers, cover_index: 0, old_pos: 0, to_read }
    }

    /// Gives the next span of a file that still lacks `remaining` bytes, and
    /// moves behind it. Where there is no such span, nothing moves.
    pub fn next_step(&mut self, remaining: u64) -> (r: Result<Step, DiffError>)
        ensures
            match spec_next(old(self)@, remaining) {
                Ok((step, next)) => r == Ok::<Step, DiffError>(step) && final(self)@ == next,
                Err(e) => r == Err::<Step, DiffError>(e) && *final(self) == *old(self),
            },
    {
        if self.to_read == 0 && self.cover_index < self.covers.len() {
            let cover = self.covers[self.cover_index];
            let length: u64 = if cover.length <= remaining {
                cover.length
            } else {
                remaining
            };
            let offset: i64 = match self.old_pos.checked_add(cover.old_pos) {
                Some(sum) => sum,
                None => {
                    return Err(DiffError::OldFileRange);
                },
            };
            if offset < 0 || length > (i64::MAX - offset) as u64 {
                return Err(DiffError::OldFileRange);
            }
            self.old_pos = offset + length as i64;
            if length == remaining && remaining != cover.length {
                self.covers[self.cover_index] = Cover {
                    old_pos: 0,
                    new_pos: 0,
                    length: cover.length - length,
                };
            } else {
                self.cover_index = self.cover_index + 1;
                if self.cover_index < self.covers.len() {
                    self.to_read = self.covers[self.cover_index].new_pos;
                }
            }
            Ok(Step::Copy { offset: offset as u64, length })
        } else if self.cover_index < self.covers.len() {
            let length: u64 = if self.to_read <= remaining {
                self.to_read
            } else {
                remaining
            };
            self.to_read = self.to_read - length;
            Ok(Step::Insert { length })
        } else {
            Ok(Step::Insert { length: remaining })
        }
    }
}

} // verus!
