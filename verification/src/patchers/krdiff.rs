//! The directory patch, from the bytes of the patch file to the bytes of the
//! new files.
use vstd::prelude::*;
use crate::patchers::cover::spec_start;
use crate::patchers::contents;
use crate::patchers::model_sizes;
use crate::patchers::spec_literal;
use crate::patchers::spec_patch;
use crate::patchers::KrDiff;
use crate::patchers::KrPatcher;
use crate::utils::error::DiffError;
use crate::utils::lemma_dir_diff_in_range;
use crate::utils::parser::spec_read_bytes;
use crate::utils::parser::Parser;
use crate::utils::spec_dir_diff;
use crate::utils::truncation::lemma_dir_diff_cut;
use crate::utils::truncation::lemma_read_bytes_cut;
use crate::utils::DiffZModel;
use crate::utils::DirDiff;
use crate::utils::DirDiffModel;

verus! {

/// How many bytes of the file a section takes: its compressed size where it
/// has one, else its size.
pub open spec fn stored_size(size: int, compressed_size: int) -> int {
    if compressed_size > 0 {
        compressed_size
    } else {
        size
    }
}

/// The patch that the file `s` holds.
///
/// It is the container from the start of the file; behind the covers follow
/// the two run-length sections, control first, which are stepped over
/// unread; where they end the literal bytes start, and that place is the
/// patch's `new_data_offset`.
pub open spec fn spec_decode(s: Seq<u8>) -> Result<DirDiffModel, DiffError> {
    match spec_dir_diff(s, 0) {
        Err(e) => Err(e),
        Ok((diff, ctrl_at)) => match spec_read_bytes(
            s,
            ctrl_at,
            stored_size(
                diff.main_diff.rle_ctrl_buf_size,
                diff.main_diff.compressed_rle_ctrl_buf_size,
            ),
        ) {
            Err(e) => Err(e),
            Ok((_, code_at)) => match spec_read_bytes(
                s,
                code_at,
                stored_size(
                    diff.main_diff.rle_code_buf_size,
                    diff.main_diff.compressed_rle_code_buf_size,
                ),
            ) {
                Err(e) => Err(e),
                Ok((_, literal_at)) => Ok(
                    DirDiffModel {
                        main_diff: DiffZModel { new_data_offset: literal_at, ..diff.main_diff },
                        ..diff
                    },
                ),
            },
        },
    }
}

/// The patch that the file `s` holds and the new files that it makes of the
/// old files `olds`. The new files stand in the order in which the patch
/// lists them, which also names them and the directories of the new tree.
pub open spec fn spec_rebuild(s: Seq<u8>, olds: Seq<Seq<u8>>) -> Result<
    (DirDiffModel, Seq<Seq<u8>>),
    DiffError,
> {
    match spec_decode(s) {
        Err(e) => Err(e),
        Ok(diff) => match spec_literal(s, diff.main_diff.new_data_offset) {
            Err(e) => Err(e),
            Ok(literal) => match spec_patch(
                spec_start(diff.main_diff.covers),
                model_sizes(diff.head_data.new_files),
                olds,
                literal,
                0,
                diff.head_data.new_files.len(),
            ) {
                Err(e) => Err(e),
                Ok((files, _, _)) => Ok((diff, files)),
            },
        },
    }
}

/// A patch file that is cut short before its literal bytes start is
/// `UnexpectedEof`: no cut yields a patch, be it another one or a part of
/// this one.
pub proof fn lemma_truncated_patch_fails(s: Seq<u8>, n: int)
    requires
        0 <= n <= s.len(),
        spec_decode(s) is Ok,
        n < spec_decode(s)->Ok_0.main_diff.new_data_offset,
    ensures
        spec_decode(s.take(n)) == Err::<DirDiffModel, DiffError>(DiffError::UnexpectedEof),
{
    lemma_decode_cut(s, n);
}

/// A patch file that is cut anywhere behind the start of its literal bytes
/// holds the same patch.
pub proof fn lemma_patch_ignores_tail(s: Seq<u8>, n: int)
    requires
        0 <= n <= s.len(),
        spec_decode(s) is Ok,
        n >= spec_decode(s)->Ok_0.main_diff.new_data_offset,
    ensures
        spec_decode(s.take(n)) == spec_decode(s),
{
    lemma_decode_cut(s, n);
}

proof fn lemma_decode_cut(s: Seq<u8>, n: int)
    requires
        0 <= n <= s.len(),
        spec_decode(s) is Ok,
    ensures
        spec_decode(s.take(n)) == if spec_decode(s)->Ok_0.main_diff.new_data_offset <= n {
            spec_decode(s)
        } else {
            Err(DiffError::UnexpectedEof)
        },
{
    lemma_dir_diff_cut(s, 0, n);
    let (diff, ctrl_at) = spec_dir_diff(s, 0)->Ok_0;
    let ctrl = stored_size(
        diff.main_diff.rle_ctrl_buf_size,
        diff.main_diff.compressed_rle_ctrl_buf_size,
    );
    let code = stored_size(
        diff.main_diff.rle_code_buf_size,
        diff.main_diff.compressed_rle_code_buf_size,
    );
    lemma_read_bytes_cut(s, ctrl_at, ctrl, n);
    let code_at = spec_read_bytes(s, ctrl_at, ctrl)->Ok_0.1;
    lemma_read_bytes_cut(s, code_at, code, n);
}

impl KrDiff {
    /// A patch of the tree at `source_path` by the file at `kr_diff_path` into
    /// `dest_path`, with no cache.
    pub fn new(source_path: String, kr_diff_path: String, dest_path: Option<String>) -> (k: Self)
        ensures
            k.source_path == source_path,
            k.kr_diff_path == kr_diff_path,
            k.dest_path == dest_path,
            k.cache_size == 0,
    {
        KrDiff { source_path, kr_diff_path, dest_path, cache_size: 0 }
    }

    /// Sets the size of the cache and nothing else.
    pub fn set_cache_size(&mut self, cache_size: usize)
        ensures
            final(self).cache_size == cache_size,
            final(self).source_path == old(self).source_path,
            final(self).kr_diff_path == old(self).kr_diff_path,
            final(self).dest_path == old(self).dest_path,
    {
        self.cache_size = cache_size;
    }

    /// Decodes the patch that the file `diff_file` holds and finds where its
    /// literal bytes start.
    pub fn decode(diff_file: &[u8]) -> (r: Result<DirDiff, DiffError>)
        ensures
            match spec_decode(diff_file@) {
                Ok(diff) => r matches Ok(d) && d@ == diff && d.head_data.well_formed(),
                Err(e) => r matches Err(x) && x == e,
            },
    {
        let mut parser = Parser::from_reader(diff_file, "");
        let mut diff = DirDiff::parse(&mut parser)?;
        proof {
            lemma_dir_diff_in_range(diff_file@, 0);
        }
        let ctrl: u64 = if diff.main_diff.compressed_rle_ctrl_buf_size.0 > 0 {
            diff.main_diff.compressed_rle_ctrl_buf_size.0 as u64
        } else {
            diff.main_diff.rle_ctrl_buf_size.0 as u64
        };
        let code: u64 = if diff.main_diff.compressed_rle_code_buf_size.0 > 0 {
            diff.main_diff.compressed_rle_code_buf_size.0 as u64
        } else {
            diff.main_diff.rle_code_buf_size.0 as u64
        };
        parser.skip(ctrl)?;
        parser.skip(code)?;
        diff.main_diff.new_data_offset = parser.position();
        Ok(diff)
    }

    /// Applies the patch that the file `diff_file` holds to the old files
    /// `old_files`, given in the order in which the patch lists them. Returns
    /// the patch, which names the files and directories of the new tree, and
    /// the new files in the order in which the patch lists them.
    pub fn rebuild(diff_file: &[u8], old_files: &Vec<Vec<u8>>) -> (r: Result<
        (DirDiff, Vec<Vec<u8>>),
        DiffError,
    >)
        ensures
            match spec_rebuild(diff_file@, contents(old_files@)) {
                Ok((diff, files)) => r matches Ok((d, out)) && d@ == diff && contents(out@)
                    == files && out@.len() == d.head_data.new_files@.len() && forall|i: int|
                    0 <= i < out@.len() ==> (#[trigger] out@[i])@.len()
                        == d.head_data.new_files@[i].file_size,
                Err(e) => r matches Err(x) && x == e,
            },
    {
        let diff = Self::decode(diff_file)?;
        let mut patcher = KrPatcher::new(diff, diff_file)?;
        let out = patcher.patch(old_files)?;
        let diff = patcher.into_diff();
        assert(forall|i: int|
            0 <= i < diff.head_data.new_files@.len() ==> model_sizes(diff@.head_data.new_files)[i]
                == (#[trigger] diff.head_data.new_files@[i]).file_size);
        Ok((diff, out))
    }
}

} // verus!
