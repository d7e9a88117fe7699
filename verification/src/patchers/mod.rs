//! Replaying a decoded patch.
pub mod cover;
pub mod fill;
pub mod hdiff;
pub mod krdiff;
pub mod split;

use vstd::prelude::*;
use vstd::slice::slice_subrange;
use crate::patchers::cover::lemma_next_progress;
use crate::patchers::cover::spec_next;
use crate::patchers::cover::spec_start;
use crate::patchers::cover::CoverCursor;
use crate::patchers::cover::CursorModel;
use crate::patchers::cover::Step;
use crate::utils::codec::zstd_decode_all;
use crate::utils::codec::zstd_decoded;
use crate::utils::error::DiffError;
use crate::utils::parser::spec_read_bytes;
use crate::utils::DirDiff;
use crate::utils::DirDiffModel;
use crate::utils::File;
use crate::utils::FileModel;

verus! {

/// A directory patch to apply: where the old tree is, where the patch file is
/// and where the new tree goes. Without a destination the new tree replaces
/// the old one.
#[derive(Clone, Debug)]
pub struct KrDiff {
    /// The root of the old tree.
    pub source_path: String,
    /// The patch file.
    pub kr_diff_path: String,
    /// The root of the new tree, if it is not to replace the old one.
    pub dest_path: Option<String>,
    /// How many bytes may be held in memory at a time; zero sets no limit.
    pub cache_size: usize,
}

/// A single-file patch to apply: the old file, the patch file and the file to
/// write.
#[derive(Clone, Debug)]
pub struct HDiff {
    /// The old file.
    pub source_path: String,
    /// The patch file.
    pub diff_path: String,
    /// The file to write.
    pub dest_path: String,
    /// How many bytes may be held in memory at a time; zero sets no limit.
    pub cache_size: usize,
}

/// Rebuilds the new files of a decoded patch in memory: a patch, its literal
/// bytes, and how many of them have been handed out.
pub struct KrPatcher {
    diff: DirDiff,
    literal: Vec<u8>,
    current_index: usize,
}

/// The bytes of one span: `length` bytes of `old` from `offset` on, or the
/// `length` bytes of `literal` from `at` on; and the place in `literal` behind
/// the span.
///
/// A copy that reaches beyond the end of `old` is `OldFileRange`; an empty
/// copy reaches nowhere. Literal bytes that are not there are `UnexpectedEof`.
pub open spec fn spec_span(step: Step, old: Seq<u8>, literal: Seq<u8>, at: int) -> Result<
    (Seq<u8>, int),
    DiffError,
> {
    match step {
        Step::Copy { offset, length } => if length == 0 {
            Ok((Seq::empty(), at))
        } else if offset + length <= old.len() {
            Ok((old.subrange(offset as int, offset + length), at))
        } else {
            Err(DiffError::OldFileRange)
        },
        Step::Insert { length } => spec_read_bytes(literal, at, length as int),
    }
}

/// The `remaining` bytes that a new file still lacks, with the state of the
/// covers and the place in `literal` when it is complete. The bytes are the
/// spans that follow one another from the state `c` on, until the file is
/// full.
pub open spec fn spec_resolve(
    c: CursorModel,
    remaining: u64,
    old: Seq<u8>,
    literal: Seq<u8>,
    at: int,
) -> Result<(Seq<u8>, CursorModel, int), DiffError>
    decreases remaining, c.covers.len() - c.cover_index,
    via resolve_terminates
{
    if remaining == 0 {
        Ok((Seq::empty(), c, at))
    } else {
        match spec_next(c, remaining) {
            Err(e) => Err(e),
            Ok((step, next)) => match spec_span(step, old, literal, at) {
                Err(e) => Err(e),
                Ok((span, behind)) => match spec_resolve(
                    next,
                    (remaining - step.length()) as u64,
                    old,
                    literal,
                    behind,
                ) {
                    Err(e) => Err(e),
                    Ok((rest, last, end)) => Ok((span + rest, last, end)),
                },
            },
        }
    }
}

#[via_fn]
proof fn resolve_terminates(
    c: CursorModel,
    remaining: u64,
    old: Seq<u8>,
    literal: Seq<u8>,
    at: int,
) {
    if remaining > 0 {
        lemma_next_progress(c, remaining);
    }
}

/// The outcome `tail` for the rest of a file, as the outcome for the file
/// whose first bytes are `front`.
pub open spec fn spec_behind(
    front: Seq<u8>,
    tail: Result<(Seq<u8>, CursorModel, int), DiffError>,
) -> Result<(Seq<u8>, CursorModel, int), DiffError> {
    match tail {
        Err(e) => Err(e),
        Ok((rest, last, end)) => Ok((front + rest, last, end)),
    }
}

/// The bytes of each of `v`.
pub open spec fn contents(v: Seq<Vec<u8>>) -> Seq<Seq<u8>> {
    v.map_values(|bytes: Vec<u8>| bytes@)
}

/// The length of each of `files`.
pub open spec fn model_sizes(files: Seq<FileModel>) -> Seq<u64> {
    files.map_values(|f: FileModel| f.file_size as u64)
}

/// The first `n` new files, with the state of the covers and the place in
/// `literal` behind them.
///
/// The new file at an index has the length that `sizes` gives for it and
/// copies from the old file at the same index; a new file without such an old
/// file is `OldFileMissing`. The state of the covers and the place in
/// `literal` run on from each file to the next.
pub open spec fn spec_patch(
    start: CursorModel,
    sizes: Seq<u64>,
    olds: Seq<Seq<u8>>,
    literal: Seq<u8>,
    at: int,
    n: nat,
) -> Result<(Seq<Seq<u8>>, CursorModel, int), DiffError>
    decreases n,
{
    if n == 0 {
        Ok((Seq::empty(), start, at))
    } else {
        match spec_patch(start, sizes, olds, literal, at, (n - 1) as nat) {
            Err(e) => Err(e),
            Ok((files, c, from)) => if n - 1 >= olds.len() {
                Err(DiffError::OldFileMissing)
            } else {
                match spec_resolve(c, sizes[n - 1], olds[n - 1], literal, from) {
                    Err(e) => Err(e),
                    Ok((file, next, behind)) => Ok((files.push(file), next, behind)),
                }
            },
        }
    }
}

/// Patching that fails within the first `i` files fails in the same way
/// however many files there are.
pub proof fn lemma_patch_failure(
    start: CursorModel,
    sizes: Seq<u64>,
    olds: Seq<Seq<u8>>,
    literal: Seq<u8>,
    at: int,
    i: nat,
    n: nat,
)
    requires
        i <= n,
        spec_patch(start, sizes, olds, literal, at, i) is Err,
    ensures
        spec_patch(start, sizes, olds, literal, at, n) == spec_patch(
            start,
            sizes,
            olds,
            literal,
            at,
            i,
        ),
    decreases n,
{
    if i < n {
        lemma_patch_failure(start, sizes, olds, literal, at, i, (n - 1) as nat);
    }
}

/// The literal bytes of the patch stored in `diff_file`, whose compressed
/// literal stream runs from `offset` to the end of the file. A file that ends
/// at `offset` has none; one that ends before it is `UnexpectedEof`; a stream
/// that does not unpack is `Decompression`.
pub open spec fn spec_literal(diff_file: Seq<u8>, offset: int) -> Result<Seq<u8>, DiffError> {
    if offset > diff_file.len() {
        Err(DiffError::UnexpectedEof)
    } else if offset == diff_file.len() {
        Ok(Seq::empty())
    } else {
        match zstd_decoded(diff_file.subrange(offset, diff_file.len() as int)) {
            None => Err(DiffError::Decompression),
            Some(bytes) => Ok(bytes),
        }
    }
}

/// A file that was built has the length that was asked for.
pub proof fn lemma_resolve_len(
    c: CursorModel,
    remaining: u64,
    old: Seq<u8>,
    literal: Seq<u8>,
    at: int,
)
    ensures
        spec_resolve(c, remaining, old, literal, at) matches Ok((bytes, _, _)) ==> bytes.len()
            == remaining,
    decreases remaining, c.covers.len() - c.cover_index,
{
    if remaining > 0 {
        lemma_next_progress(c, remaining);
        match spec_next(c, remaining) {
            Err(_) => {},
            Ok((step, next)) => match spec_span(step, old, literal, at) {
                Err(_) => {},
                Ok((span, behind)) => {
                    lemma_resolve_len(
                        next,
                        (remaining - step.length()) as u64,
                        old,
                        literal,
                        behind,
                    );
                },
            },
        }
    }
}

/// The files that were built are as many as were asked for, and each has the
/// length that was asked for.
pub proof fn lemma_patch_len(
    start: CursorModel,
    sizes: Seq<u64>,
    olds: Seq<Seq<u8>>,
    literal: Seq<u8>,
    at: int,
    n: nat,
)
    requires
        n <= sizes.len(),
    ensures
        spec_patch(start, sizes, olds, literal, at, n) matches Ok((files, _, _)) ==> files.len()
            == n && forall|i: int| 0 <= i < n ==> #[trigger] files[i].len() == sizes[i],
    decreases n,
{
    if n > 0 {
        lemma_patch_len(start, sizes, olds, literal, at, (n - 1) as nat);
        match spec_patch(start, sizes, olds, literal, at, (n - 1) as nat) {
            Err(_) => {},
            Ok((files, c, from)) => {
                if n - 1 < olds.len() {
                    lemma_resolve_len(c, sizes[n - 1], olds[n - 1], literal, from);
                }
            },
        }
    }
}

impl KrPatcher {
    #[verifier::type_invariant]
    spec fn in_bounds(self) -> bool {
        self.current_index <= self.literal@.len()
    }

    /// The patch that is replayed.
    pub closed spec fn patch_model(&self) -> DirDiffModel {
        self.diff@
    }

    /// The covers of the patch.
    pub open spec fn covers(&self) -> Seq<crate::utils::Cover> {
        self.patch_model().main_diff.covers
    }

    /// The lengths of the new files of the patch.
    pub open spec fn new_sizes(&self) -> Seq<u64> {
        model_sizes(self.patch_model().head_data.new_files)
    }

    /// All the literal bytes of the patch.
    pub closed spec fn literal_bytes(&self) -> Seq<u8> {
        self.literal@
    }

    /// How many literal bytes have been handed out.
    pub closed spec fn consumed(&self) -> int {
        self.current_index as int
    }

    /// Whether `self` is `before` with `end` literal bytes handed out.
    pub open spec fn advanced(&self, before: Self, end: int) -> bool {
        &&& self.patch_model() == before.patch_model()
        &&& self.literal_bytes() == before.literal_bytes()
        &&& self.consumed() == end
    }

    /// A patcher for `diff` whose literal bytes are `literal`, none of them
    /// handed out yet.
    pub fn with_literal(diff: DirDiff, literal: Vec<u8>) -> (p: Self)
        ensures
            p.patch_model() == diff@,
            p.literal_bytes() == literal@,
            p.consumed() == 0,
    {
        KrPatcher { diff, literal, current_index: 0 }
    }

    /// A patcher for `diff`, which was decoded from `diff_file`. The literal
    /// bytes are unpacked from the end of the file.
    pub fn new(diff: DirDiff, diff_file: &[u8]) -> (r: Result<Self, DiffError>)
        ensures
            match spec_literal(diff_file@, diff.main_diff.new_data_offset as int) {
                Ok(literal) => r matches Ok(p) && p.patch_model() == diff@ && p.literal_bytes()
                    == literal && p.consumed() == 0,
                Err(e) => r matches Err(x) && x == e,
            },
    {
        let offset: u64 = diff.main_diff.new_data_offset;
        if offset > diff_file.len() as u64 {
            return Err(DiffError::UnexpectedEof);
        }
        if offset == diff_file.len() as u64 {
            return Ok(Self::with_literal(diff, Vec::new()));
        }
        let packed = slice_subrange(diff_file, offset as usize, diff_file.len());
        match zstd_decode_all(packed) {
            Err(_) => Err(DiffError::Decompression),
            Ok(literal) => Ok(Self::with_literal(diff, literal)),
        }
    }

    /// Gives up the patch that was replayed.
    pub fn into_diff(self) -> (d: DirDiff)
        ensures
            d@ == self.patch_model(),
    {
        self.diff
    }

    /// The patch that is replayed.
    pub fn diff(&self) -> (d: &DirDiff)
        ensures
            d@ == self.patch_model(),
    {
        &self.diff
    }

    /// Hands out the next `len` literal bytes: all of them, or none where
    /// fewer are left.
    pub fn read(&mut self, len: u64) -> (r: Result<Vec<u8>, DiffError>)
        ensures
            match spec_read_bytes(old(self).literal_bytes(), old(self).consumed(), len as int) {
                Ok((bytes, end)) => r matches Ok(v) && v@ == bytes && final(self).advanced(
                    *old(self),
                    end,
                ),
                Err(e) => r matches Err(x) && x == e && *final(self) == *old(self),
            },
    {
        proof {
            use_type_invariant(&*self);
        }
        if len > (self.literal.len() - self.current_index) as u64 {
            return Err(DiffError::UnexpectedEof);
        }
        let end: usize = self.current_index + len as usize;
        let mut bytes: Vec<u8> = Vec::new();
        bytes.extend_from_slice(slice_subrange(self.literal.as_slice(), self.current_index, end));
        self.current_index = end;
        Ok(bytes)
    }

    /// Rebuilds every new file of the patch, in the order of the patch. The
    /// new file at an index copies from `old_files` at the same index. Either
    /// all files are built, or none and no literal byte is handed out.
    pub fn patch(&mut self, old_files: &Vec<Vec<u8>>) -> (r: Result<Vec<Vec<u8>>, DiffError>)
        ensures
            match spec_patch(
                spec_start(old(self).covers()),
                old(self).new_sizes(),
                contents(old_files@),
                old(self).literal_bytes(),
                old(self).consumed(),
                old(self).new_sizes().len(),
            ) {
                Ok((files, _, end)) => r matches Ok(out) && contents(out@) == files
                    && final(self).advanced(*old(self), end)
                    && out@.len() == old(self).new_sizes().len()
                    && forall|i: int|
                    0 <= i < out@.len() ==> (#[trigger] out@[i])@.len()
                        == old(self).new_sizes()[i],
                Err(e) => r matches Err(x) && x == e && final(self).advanced(
                    *old(self),
                    old(self).consumed(),
                ),
            },
    {
        proof {
            use_type_invariant(&*self);
        }
        let origin: usize = self.current_index;
        let ghost sizes = self.new_sizes();
        assert(sizes =~= self.diff.head_data.new_files@.map_values(|f: File| f.file_size));
        let ghost olds = contents(old_files@);
        let ghost literal = self.literal_bytes();
        let mut covers: Vec<crate::utils::Cover> = Vec::new();
        let mut k: usize = 0;
        while k < self.diff.main_diff.cover_buf.covers.len()
            invariant
                *self == *old(self),
                k <= self.diff.main_diff.cover_buf.covers@.len(),
                covers@ == self.diff.main_diff.cover_buf.covers@.take(k as int),
            decreases self.diff.main_diff.cover_buf.covers@.len() - k,
        {
            covers.push(self.diff.main_diff.cover_buf.covers[k]);
            k = k + 1;
            assert(covers@ =~= self.diff.main_diff.cover_buf.covers@.take(k as int));
        }
        assert(covers@ =~= self.covers());
        let mut cursor = CoverCursor::new(covers);
        let ghost start = cursor@;
        let mut out: Vec<Vec<u8>> = Vec::new();
        let count: usize = self.diff.head_data.new_files.len();
        let mut i: usize = 0;
        assert(contents(out@) =~= Seq::<Seq<u8>>::empty());
        while i < count
            invariant
                i <= count,
                count == sizes.len(),
                count == self.diff.head_data.new_files@.len(),
                sizes == old(self).new_sizes(),
                sizes == self.new_sizes(),
                olds == contents(old_files@),
                literal == old(self).literal_bytes(),
                start == spec_start(old(self).covers()),
                origin == old(self).consumed(),
                origin <= self.literal@.len(),
                self.advanced(*old(self), self.consumed()),
                spec_patch(start, sizes, olds, literal, origin as int, i as nat) == Ok::<
                    (Seq<Seq<u8>>, CursorModel, int),
                    DiffError,
                >((contents(out@), cursor@, self.consumed())),
            decreases count - i,
        {
            if i >= old_files.len() {
                proof {
                    assert(spec_patch(start, sizes, olds, literal, origin as int, (i + 1) as nat)
                        is Err);
                    lemma_patch_failure(
                        start,
                        sizes,
                        olds,
                        literal,
                        origin as int,
                        (i + 1) as nat,
                        count as nat,
                    );
                }
                self.current_index = origin;
                return Err(DiffError::OldFileMissing);
            }
            let size: u64 = self.diff.head_data.new_files[i].file_size;
            assert(sizes[i as int] == size);
            assert(olds[i as int] == old_files@[i as int]@);
            match self.patch_file(&mut cursor, size, old_files[i].as_slice()) {
                Err(e) => {
                    proof {
                        assert(spec_patch(
                            start,
                            sizes,
                            olds,
                            literal,
                            origin as int,
                            (i + 1) as nat,
                        ) is Err);
                        lemma_patch_failure(
                            start,
                            sizes,
                            olds,
                            literal,
                            origin as int,
                            (i + 1) as nat,
                            count as nat,
                        );
                    }
                    self.current_index = origin;
                    return Err(e);
                },
                Ok(file) => {
                    assert(contents(out@.push(file)) =~= contents(out@).push(file@));
                    out.push(file);
                },
            }
            i = i + 1;
        }
        proof {
            lemma_patch_len(start, sizes, olds, literal, origin as int, count as nat);
            assert forall|j: int| 0 <= j < out@.len() implies (#[trigger] out@[j])@.len()
                == sizes[j] by {
                assert(contents(out@)[j] == out@[j]@);
            }
        }
        Ok(out)
    }

    /// Builds one new file of `size` bytes from `old_file` and the literal
    /// bytes.
    fn patch_file(&mut self, cursor: &mut CoverCursor, size: u64, old_file: &[u8]) -> (r: Result<
        Vec<u8>,
        DiffError,
    >)
        ensures
            final(self).advanced(*old(self), final(self).consumed()),
            match spec_resolve(
                old(cursor)@,
                size,
                old_file@,
                old(self).literal_bytes(),
                old(self).consumed(),
            ) {
                Ok((bytes, last, end)) => r matches Ok(v) && v@ == bytes && final(cursor)@ == last
                    && final(self).consumed() == end,
                Err(e) => r matches Err(x) && x == e,
            },
    {
        let ghost start = cursor@;
        let ghost from = self.consumed();
        let ghost literal = self.literal_bytes();
        let mut out: Vec<u8> = Vec::new();
        let mut written: u64 = 0;
        assert(Seq::<u8>::empty() + spec_resolve(start, size, old_file@, literal, from)->Ok_0.0
            =~= spec_resolve(start, size, old_file@, literal, from)->Ok_0.0);
        while written < size
            invariant
                written <= size,
                out@.len() == written,
                self.advanced(*old(self), self.consumed()),
                literal == self.literal_bytes(),
                start == old(cursor)@,
                from == old(self).consumed(),
                spec_resolve(start, size, old_file@, literal, from) == spec_behind(
                    out@,
                    spec_resolve(
                        cursor@,
                        (size - written) as u64,
                        old_file@,
                        literal,
                        self.consumed(),
                    ),
                ),
            decreases size - written, cursor@.covers.len() - cursor@.cover_index,
        {
            let remaining: u64 = size - written;
            let ghost before = cursor@;
            let ghost at = self.consumed();
            let ghost front = out@;
            proof {
                lemma_next_progress(before, remaining);
            }
            let step = cursor.next_step(remaining)?;
            match step {
                Step::Copy { offset, length } => {
                    if length > 0 {
                        if offset > old_file.len() as u64 || length > old_file.len() as u64
                            - offset {
                            return Err(DiffError::OldFileRange);
                        }
                        out.extend_from_slice(
                            slice_subrange(old_file, offset as usize, (offset + length) as usize),
                        );
                    }
                },
                Step::Insert { length } => {
                    let bytes = self.read(length)?;
                    out.extend_from_slice(bytes.as_slice());
                },
            }
            proof {
                let span = spec_span(step, old_file@, literal, at)->Ok_0.0;
                let tail = spec_resolve(
                    cursor@,
                    (remaining - step.length()) as u64,
                    old_file@,
                    literal,
                    self.consumed(),
                );
                assert(out@ =~= front + span);
                if tail is Ok {
                    assert((front + span) + tail->Ok_0.0 =~= front + (span + tail->Ok_0.0));
                }
            }
            written = written + step.length();
        }
        assert(out@ + Seq::<u8>::empty() =~= out@);
        Ok(out)
    }
}

} // verus!
