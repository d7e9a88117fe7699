//! A file that its covers fill.
//!
//! Where the gaps and lengths of the covers add up to the size of a file, and
//! the old file and the literal bytes hold what the covers ask for, the file
//! is built, it is the spans of the covers one after the other, and no
//! literal byte beyond the gaps is taken.
use vstd::prelude::*;
use crate::patchers::cover::spec_next;
use crate::patchers::cover::spec_start;
use crate::patchers::cover::CursorModel;
use crate::patchers::cover::Step;
use crate::patchers::spec_resolve;
use crate::utils::error::DiffError;
use crate::utils::Cover;

verus! {

/// How many bytes the covers from `from` on account for: their gaps and
/// their lengths.
pub open spec fn spec_total(covers: Seq<Cover>, from: nat) -> nat
    decreases covers.len() - from,
{
    if from >= covers.len() {
        0
    } else {
        covers[from as int].new_pos as nat + covers[from as int].length as nat + spec_total(
            covers,
            from + 1,
        )
    }
}

/// How many literal bytes the covers from `from` on take: their gaps.
pub open spec fn spec_gaps(covers: Seq<Cover>, from: nat) -> nat
    decreases covers.len() - from,
{
    if from >= covers.len() {
        0
    } else {
        covers[from as int].new_pos as nat + spec_gaps(covers, from + 1)
    }
}

/// The bytes that a copy of `length` bytes from `offset` of `old` gives.
pub open spec fn spec_copied(old: Seq<u8>, offset: int, length: int) -> Seq<u8> {
    if length == 0 {
        Seq::empty()
    } else {
        old.subrange(offset, offset + length)
    }
}

/// Whether the sources hold what the covers from `from` on ask for, when the
/// last copy ended at `old_pos` and the literal bytes are taken from `at` on:
/// every gap lies within `literal`, every copy starts at or behind the start
/// of `old`, and every copy that is not empty lies within `old`.
pub open spec fn spec_served(
    covers: Seq<Cover>,
    from: nat,
    old_pos: int,
    old: Seq<u8>,
    literal: Seq<u8>,
    at: int,
) -> bool
    decreases covers.len() - from,
{
    from >= covers.len() || {
        let c = covers[from as int];
        let offset = old_pos + c.old_pos;
        &&& 0 <= at
        &&& at + c.new_pos <= literal.len()
        &&& 0 <= offset
        &&& offset + c.length <= i64::MAX
        &&& c.length > 0 ==> offset + c.length <= old.len()
        &&& spec_served(covers, from + 1, offset + c.length, old, literal, at + c.new_pos)
    }
}

/// The bytes that the covers from `from` on describe: for each, its gap from
/// the literal bytes and then its copy from the old file.
pub open spec fn spec_render(
    covers: Seq<Cover>,
    from: nat,
    old_pos: int,
    old: Seq<u8>,
    literal: Seq<u8>,
    at: int,
) -> Seq<u8>
    decreases covers.len() - from,
{
    if from >= covers.len() {
        Seq::empty()
    } else {
        let c = covers[from as int];
        let offset = old_pos + c.old_pos;
        literal.subrange(at, at + c.new_pos) + spec_copied(old, offset, c.length as int)
            + spec_render(covers, from + 1, offset + c.length, old, literal, at + c.new_pos)
    }
}

/// The state in which the cover at `from` is the next to serve, its gap still
/// due, and the last copy ended at `old_pos`.
pub open spec fn spec_before(covers: Seq<Cover>, from: nat, old_pos: int) -> CursorModel {
    CursorModel {
        covers,
        cover_index: from,
        old_pos,
        to_read: if from < covers.len() {
            covers[from as int].new_pos as nat
        } else {
            0
        },
    }
}

/// A file as long as the covers from `from` on account for, built from the
/// state before the cover at `from`, is the bytes that those covers describe.
/// It takes the literal bytes of their gaps and no more.
pub proof fn lemma_covers_fill(
    covers: Seq<Cover>,
    from: nat,
    old_pos: int,
    old: Seq<u8>,
    literal: Seq<u8>,
    at: int,
)
    requires
        from <= covers.len(),
        spec_total(covers, from) <= u64::MAX,
        spec_served(covers, from, old_pos, old, literal, at),
    ensures
        spec_resolve(
            spec_before(covers, from, old_pos),
            spec_total(covers, from) as u64,
            old,
            literal,
            at,
        ) matches Ok((bytes, _, end)) && bytes == spec_render(
            covers,
            from,
            old_pos,
            old,
            literal,
            at,
        ) && bytes.len() == spec_total(covers, from) && end == at + spec_gaps(covers, from),
    decreases covers.len() - from,
{
    let total = spec_total(covers, from) as u64;
    let gap_state = spec_before(covers, from, old_pos);
    if from < covers.len() {
        let c = covers[from as int];
        let offset = old_pos + c.old_pos;
        let rest = spec_total(covers, from + 1) as u64;
        let gap = literal.subrange(at, at + c.new_pos);
        let copy = spec_copied(old, offset, c.length as int);
        let after = spec_before(covers, from + 1, offset + c.length);
        lemma_covers_fill(covers, from + 1, offset + c.length, old, literal, at + c.new_pos);
        let tail = spec_resolve(after, rest, old, literal, at + c.new_pos);
        let tail_bytes = tail->Ok_0.0;
        let copy_state = CursorModel {
            covers,
            cover_index: from,
            old_pos,
            to_read: 0,
        };
        let due = (c.length + rest) as u64;
        // The copy of the cover, then what follows it.
        let copied = spec_resolve(copy_state, due, old, literal, at + c.new_pos);
        assert(copied matches Ok((bytes, _, end)) && bytes =~= copy + tail_bytes && end
            == tail->Ok_0.2) by {
            if due == 0 {
                assert(tail_bytes =~= Seq::<u8>::empty());
            } else {
                assert(spec_next(copy_state, due) == Ok::<(Step, CursorModel), DiffError>(
                    (Step::Copy { offset: offset as u64, length: c.length }, after),
                ));
            }
        }
        // The gap of the cover, then its copy.
        let whole = spec_resolve(gap_state, total, old, literal, at);
        assert(whole matches Ok((bytes, _, end)) && bytes =~= gap + (copy + tail_bytes) && end
            == tail->Ok_0.2) by {
            if c.new_pos == 0 {
                assert(gap_state == copy_state);
                assert(gap =~= Seq::<u8>::empty());
            } else {
                assert(spec_next(gap_state, total) == Ok::<(Step, CursorModel), DiffError>(
                    (Step::Insert { length: c.new_pos }, copy_state),
                ));
            }
        }
        assert(gap + (copy + tail_bytes) =~= gap + copy + tail_bytes);
    }
}

/// The covers of a patch fill its first file: where their gaps and lengths
/// add up to `size` and the sources hold what they ask for, the file is built
/// with exactly `size` bytes, which are the bytes that the covers describe.
pub proof fn lemma_covers_fill_file(
    covers: Seq<Cover>,
    size: u64,
    old: Seq<u8>,
    literal: Seq<u8>,
    at: int,
)
    requires
        spec_total(covers, 0) == size,
        spec_served(covers, 0, 0, old, literal, at),
    ensures
        spec_resolve(spec_start(covers), size, old, literal, at) matches Ok((bytes, _, end))
            && bytes.len() == size && bytes == spec_render(covers, 0, 0, old, literal, at) && end
            == at + spec_gaps(covers, 0),
{
    lemma_covers_fill(covers, 0, 0, old, literal, at);
    assert(spec_start(covers) == spec_before(covers, 0, 0));
}

} // verus!
