//! A file cut in two.
//!
//! The covers know nothing of where one new file ends and the next begins. So
//! where two new files in a row copy from the same old bytes, they hold
//! together what one file of both their lengths would hold: a cover or a gap
//! that runs over the end of the first goes on at the start of the second,
//! from where it stopped.
use vstd::prelude::*;
use crate::patchers::cover::lemma_next_progress;
use crate::patchers::cover::spec_next;
use crate::patchers::cover::CursorModel;
use crate::patchers::cover::Step;
use crate::patchers::spec_behind;
use crate::patchers::spec_resolve;
use crate::patchers::spec_span;
use crate::utils::error::DiffError;

verus! {

/// Whether two states are the same for every span to come: they stand at the
/// same cover with the same bytes due and the same place in the old file, and
/// they agree on that cover and on those behind it.
pub open spec fn spec_alike(a: CursorModel, b: CursorModel) -> bool {
    &&& a.cover_index == b.cover_index
    &&& a.old_pos == b.old_pos
    &&& a.to_read == b.to_read
    &&& a.covers.len() == b.covers.len()
    &&& forall|j: int| a.cover_index <= j < a.covers.len() ==> a.covers[j] == b.covers[j]
}

/// Whether two outcomes are the same bytes, the same place in the literal
/// bytes and states that are alike, or the same failure.
pub open spec fn spec_same(
    x: Result<(Seq<u8>, CursorModel, int), DiffError>,
    y: Result<(Seq<u8>, CursorModel, int), DiffError>,
) -> bool {
    match x {
        Ok((bytes, state, end)) => y matches Ok((other, reached, at)) && bytes == other
            && spec_alike(state, reached) && end == at,
        Err(e) => y matches Err(f) && e == f,
    }
}

/// Two files in a row, of `a` and of `b` bytes, that copy from the same old
/// bytes: the bytes of both, one after the other.
pub open spec fn spec_resolve_two(
    c: CursorModel,
    a: u64,
    b: u64,
    old: Seq<u8>,
    literal: Seq<u8>,
    at: int,
) -> Result<(Seq<u8>, CursorModel, int), DiffError> {
    match spec_resolve(c, a, old, literal, at) {
        Err(e) => Err(e),
        Ok((first, mid, from)) => match spec_resolve(mid, b, old, literal, from) {
            Err(e) => Err(e),
            Ok((second, last, end)) => Ok((first + second, last, end)),
        },
    }
}

/// States that are alike take the same step and are alike behind it.
pub proof fn lemma_next_alike(c: CursorModel, d: CursorModel, remaining: u64)
    requires
        spec_alike(c, d),
    ensures
        match spec_next(c, remaining) {
            Ok((step, next)) => spec_next(d, remaining) matches Ok((other, reached)) && step
                == other && spec_alike(next, reached),
            Err(e) => spec_next(d, remaining) matches Err(f) && e == f,
        },
{
}

/// States that are alike build the same file.
pub proof fn lemma_resolve_alike(
    c: CursorModel,
    d: CursorModel,
    remaining: u64,
    old: Seq<u8>,
    literal: Seq<u8>,
    at: int,
)
    requires
        spec_alike(c, d),
    ensures
        spec_same(
            spec_resolve(c, remaining, old, literal, at),
            spec_resolve(d, remaining, old, literal, at),
        ),
    decreases remaining, c.covers.len() - c.cover_index,
{
    if remaining > 0 {
        lemma_next_alike(c, d, remaining);
        lemma_next_progress(c, remaining);
        match spec_next(c, remaining) {
            Err(_) => {},
            Ok((step, next)) => {
                let reached = spec_next(d, remaining)->Ok_0.1;
                match spec_span(step, old, literal, at) {
                    Err(_) => {},
                    Ok((_, behind)) => {
                        lemma_resolve_alike(
                            next,
                            reached,
                            (remaining - step.length()) as u64,
                            old,
                            literal,
                            behind,
                        );
                    },
                }
            },
        }
    }
}

/// Cutting a file in two changes nothing: a file of `a` bytes and then one of
/// `b` bytes hold together what one file of `a + b` bytes holds, take the same
/// literal bytes and leave the covers alike; and where the one file cannot be
/// built, neither can the two, for the same reason.
pub proof fn lemma_split(
    c: CursorModel,
    a: u64,
    b: u64,
    old: Seq<u8>,
    literal: Seq<u8>,
    at: int,
)
    requires
        a + b <= u64::MAX,
    ensures
        spec_same(
            spec_resolve(c, (a + b) as u64, old, literal, at),
            spec_resolve_two(c, a, b, old, literal, at),
        ),
    decreases a, c.covers.len() - c.cover_index,
{
    if a == 0 {
        let second = spec_resolve(c, b, old, literal, at);
        if second is Ok {
            assert(Seq::<u8>::empty() + second->Ok_0.0 =~= second->Ok_0.0);
        }
    } else if b == 0 {
        let first = spec_resolve(c, a, old, literal, at);
        if first is Ok {
            assert(first->Ok_0.0 + Seq::<u8>::empty() =~= first->Ok_0.0);
        }
    } else {
        lemma_wide_step(c, a, b);
        match spec_next(c, a) {
            Err(_) => {},
            Ok((step, next)) => match spec_next(c, (a + b) as u64) {
                Err(_) => {
                    lemma_split_fails(c, a, b, old, literal, at);
                },
                Ok((wide, reached)) => {
                    if wide == step && reached == next {
                        lemma_next_progress(c, a);
                        match spec_span(step, old, literal, at) {
                            Err(_) => {},
                            Ok((_, behind)) => {
                                lemma_split(
                                    next,
                                    (a - step.length()) as u64,
                                    b,
                                    old,
                                    literal,
                                    behind,
                                );
                            },
                        }
                        lemma_split_same_step(c, a, b, old, literal, at);
                    } else {
                        lemma_split_goes_on(c, a, b, old, literal, at);
                    }
                },
            },
        }
    }
}

/// What the first step of one file of `a + b` bytes has to do with the first
/// step of a file of `a` bytes: it is the same step, or the shorter file is
/// full behind its first step and the longer is not; and where one file
/// cannot take its first step, a longer one cannot either.
proof fn lemma_wide_step(c: CursorModel, a: u64, b: u64)
    requires
        a > 0,
        b > 0,
        a + b <= u64::MAX,
    ensures
        match spec_next(c, a) {
            Err(e) => spec_next(c, (a + b) as u64) matches Err(f) && e == f,
            Ok((step, next)) => match spec_next(c, (a + b) as u64) {
                Ok((wide, reached)) => (wide == step && reached == next) || (step.length() == a
                    && wide.length() > a),
                Err(e) => e == DiffError::OldFileRange && step.length() == a && spec_next(next, b)
                    == Err::<(Step, CursorModel), DiffError>(DiffError::OldFileRange),
            },
        },
{
    if c.to_read == 0 && c.cover_index < c.covers.len() {
        let cover = c.covers[c.cover_index as int];
        if spec_next(c, a) is Ok && cover.length > a {
            let next = spec_next(c, a)->Ok_0.1;
            assert(next.covers[c.cover_index as int].length == cover.length - a);
        }
    }
}

/// Where one file of both lengths cannot take its first step though the
/// first of two files can, the second of the two cannot go on.
proof fn lemma_split_fails(
    c: CursorModel,
    a: u64,
    b: u64,
    old: Seq<u8>,
    literal: Seq<u8>,
    at: int,
)
    requires
        a > 0,
        b > 0,
        a + b <= u64::MAX,
        spec_next(c, a) matches Ok((step, next)) && step.length() == a && spec_next(next, b)
            == Err::<(Step, CursorModel), DiffError>(DiffError::OldFileRange),
        spec_next(c, (a + b) as u64) == Err::<(Step, CursorModel), DiffError>(
            DiffError::OldFileRange,
        ),
    ensures
        spec_same(
            spec_resolve(c, (a + b) as u64, old, literal, at),
            spec_resolve_two(c, a, b, old, literal, at),
        ),
{
    let (step, next) = spec_next(c, a)->Ok_0;
    assert(step is Copy);
    match spec_span(step, old, literal, at) {
        Err(e) => {
            assert(e == DiffError::OldFileRange);
        },
        Ok((_, behind)) => {
            assert(spec_resolve(next, 0, old, literal, behind) is Ok);
            assert(spec_resolve(next, b, old, literal, behind) is Err);
        },
    }
}

/// Where a file of `a` bytes and a file of `a + b` bytes start with the same
/// step, cutting the longer in two changes nothing if it changes nothing
/// behind that step.
proof fn lemma_split_same_step(
    c: CursorModel,
    a: u64,
    b: u64,
    old: Seq<u8>,
    literal: Seq<u8>,
    at: int,
)
    requires
        a > 0,
        b > 0,
        a + b <= u64::MAX,
        spec_next(c, a) is Ok,
        spec_next(c, (a + b) as u64) == spec_next(c, a),
        spec_next(c, a)->Ok_0.0.length() <= a,
        spec_span(spec_next(c, a)->Ok_0.0, old, literal, at) matches Ok((_, behind)) ==> spec_same(
            spec_resolve(
                spec_next(c, a)->Ok_0.1,
                (a + b - spec_next(c, a)->Ok_0.0.length()) as u64,
                old,
                literal,
                behind,
            ),
            spec_resolve_two(
                spec_next(c, a)->Ok_0.1,
                (a - spec_next(c, a)->Ok_0.0.length()) as u64,
                b,
                old,
                literal,
                behind,
            ),
        ),
    ensures
        spec_same(
            spec_resolve(c, (a + b) as u64, old, literal, at),
            spec_resolve_two(c, a, b, old, literal, at),
        ),
{
    let (step, next) = spec_next(c, a)->Ok_0;
    match spec_span(step, old, literal, at) {
        Err(_) => {},
        Ok((span, behind)) => {
            let less = (a - step.length()) as u64;
            let rest = spec_resolve(next, less, old, literal, behind);
            if rest is Ok {
                let tail = spec_resolve(rest->Ok_0.1, b, old, literal, rest->Ok_0.2);
                if tail is Ok {
                    assert(span + (rest->Ok_0.0 + tail->Ok_0.0) =~= (span + rest->Ok_0.0)
                        + tail->Ok_0.0);
                }
            }
        },
    }
}

/// Where the first step fills the first of two files and one file of both
/// lengths would step further, cutting it in two changes nothing.
proof fn lemma_split_goes_on(
    c: CursorModel,
    a: u64,
    b: u64,
    old: Seq<u8>,
    literal: Seq<u8>,
    at: int,
)
    requires
        a > 0,
        b > 0,
        a + b <= u64::MAX,
        spec_next(c, a) matches Ok((step, _)) && step.length() == a,
        spec_next(c, (a + b) as u64) matches Ok((wide, _)) && wide.length() > a,
    ensures
        spec_same(
            spec_resolve(c, (a + b) as u64, old, literal, at),
            spec_resolve_two(c, a, b, old, literal, at),
        ),
{
    let (step, next) = spec_next(c, a)->Ok_0;
    let (wide, reached) = spec_next(c, (a + b) as u64)->Ok_0;
    lemma_step_goes_on(c, a, b);
    lemma_next_progress(c, (a + b) as u64);
    let (more, beyond) = spec_next(next, b)->Ok_0;
    lemma_span_joined(wide, step, more, old, literal, at);
    match spec_span(wide, old, literal, at) {
        Err(_) => {
            match spec_span(step, old, literal, at) {
                Err(_) => {},
                Ok((_, from)) => {
                    assert(spec_resolve(next, 0, old, literal, from) is Ok);
                    assert(spec_resolve(next, b, old, literal, from) is Err);
                },
            }
        },
        Ok((span, behind)) => {
            let (first, from) = spec_span(step, old, literal, at)->Ok_0;
            let (second, _) = spec_span(more, old, literal, from)->Ok_0;
            let left = (b - more.length()) as u64;
            assert(spec_resolve(next, 0, old, literal, from) is Ok);
            lemma_resolve_alike(beyond, reached, left, old, literal, behind);
            let tail = spec_resolve(beyond, left, old, literal, behind);
            let other = spec_resolve(reached, left, old, literal, behind);
            assert(spec_resolve(c, (a + b) as u64, old, literal, at) == spec_behind(span, other));
            assert(spec_resolve(next, b, old, literal, from) == spec_behind(second, tail));
            if tail is Ok {
                assert((first + Seq::<u8>::empty()) + (second + tail->Ok_0.0) =~= (first + second)
                    + tail->Ok_0.0);
            }
        },
    }
}

/// Whether the span `wide` is the span `head` with the span `more` behind
/// it: both copy, the second from where the first ends, or both are literal.
pub open spec fn spec_joined(wide: Step, head: Step, more: Step) -> bool {
    match wide {
        Step::Copy { offset, length } => head matches Step::Copy { offset: first, length: a }
            && more matches Step::Copy { offset: second, length: b } && first == offset && second
            == offset + a && a + b == length,
        Step::Insert { length } => head matches Step::Insert { length: a }
            && more matches Step::Insert { length: b } && a + b == length,
    }
}

/// Where the first step fills the first of two files and one file of both
/// lengths would step further, the second file starts with a step that takes
/// up where the first stopped and leads to a state like that of the one file.
proof fn lemma_step_goes_on(c: CursorModel, a: u64, b: u64)
    requires
        a > 0,
        b > 0,
        a + b <= u64::MAX,
        spec_next(c, a) matches Ok((step, _)) && step.length() == a,
        spec_next(c, (a + b) as u64) matches Ok((wide, _)) && wide.length() > a,
    ensures
        spec_next(spec_next(c, a)->Ok_0.1, b) matches Ok((more, beyond)) && spec_joined(
            spec_next(c, (a + b) as u64)->Ok_0.0,
            spec_next(c, a)->Ok_0.0,
            more,
        ) && spec_alike(beyond, spec_next(c, (a + b) as u64)->Ok_0.1),
{
    let (step, next) = spec_next(c, a)->Ok_0;
    let (wide, reached) = spec_next(c, (a + b) as u64)->Ok_0;
    if c.to_read == 0 && c.cover_index < c.covers.len() {
        let cover = c.covers[c.cover_index as int];
        assert(cover.length > a);
        assert(next.covers[c.cover_index as int].length == cover.length - a);
        let (more, beyond) = spec_next(next, b)->Ok_0;
        assert(beyond.covers.len() == reached.covers.len());
        if cover.length > a + b {
            assert(beyond.covers =~= reached.covers);
        }
    }
}

/// A span that is joined of two is the bytes of the one and then of the
/// other; and where it cannot be had, one of the two cannot, for the same
/// reason.
proof fn lemma_span_joined(
    wide: Step,
    head: Step,
    more: Step,
    old: Seq<u8>,
    literal: Seq<u8>,
    at: int,
)
    requires
        spec_joined(wide, head, more),
        head.length() > 0,
        more.length() > 0,
        wide matches Step::Copy { offset, length } ==> offset + length <= i64::MAX,
    ensures
        match spec_span(wide, old, literal, at) {
            Ok((span, behind)) => spec_span(head, old, literal, at) matches Ok((first, from))
                && spec_span(more, old, literal, from) matches Ok((second, end)) && span == first
                + second && end == behind,
            Err(e) => match spec_span(head, old, literal, at) {
                Ok((_, from)) => spec_span(more, old, literal, from) matches Err(f) && e == f,
                Err(f) => e == f,
            },
        },
{
    match spec_span(wide, old, literal, at) {
        Ok((span, _)) => {
            let (first, from) = spec_span(head, old, literal, at)->Ok_0;
            let (second, _) = spec_span(more, old, literal, from)->Ok_0;
            assert(span =~= first + second);
        },
        Err(_) => {},
    }
}

} // verus!
