//! What becomes of a reading when the input is cut short.
//!
//! Every reading of the format looks only at the bytes it takes. So where a
//! reading of the whole input succeeds, the same reading of the first `n` bytes
//! gives the same result if it ends within them, and is `UnexpectedEof` if it
//! does not: a cut never yields another value.
use vstd::prelude::*;
use crate::utils::cover_item;
use crate::utils::error::DiffError;
use crate::utils::inner_magic;
use crate::utils::outer_magic;
use crate::utils::parser::spec_find;
use crate::utils::parser::spec_match_bytes;
use crate::utils::parser::spec_match_varint;
use crate::utils::parser::spec_read_bytes;
use crate::utils::parser::spec_read_maybe_compressed;
use crate::utils::parser::spec_read_string;
use crate::utils::reserved_item;
use crate::utils::spec_cover_buf;
use crate::utils::spec_cover_section;
use crate::utils::spec_head_section;
use crate::utils::Cover;
use crate::utils::HeadDataModel;
use crate::utils::spec_diff_z;
use crate::utils::spec_dir_diff;
use crate::utils::spec_head_data;
use crate::utils::spec_read_cover;
use crate::utils::spec_read_reserved;
use crate::utils::table::index_item;
use crate::utils::table::name_item;
use crate::utils::table::plain_item;
use crate::utils::table::spec_read_index;
use crate::utils::table::spec_repeat;
use crate::utils::table::Item;
use crate::utils::varint::first_continues;
use crate::utils::varint::first_digit;
use crate::utils::varint::spec_read_varint;
use crate::utils::varint::spec_varint_tail;

verus! {

/// What a reading that succeeds on the whole input with `whole` comes to on
/// the first `n` bytes.
pub open spec fn spec_cut<T>(whole: Result<(T, int), DiffError>, n: int) -> Result<
    (T, int),
    DiffError,
> {
    match whole {
        Ok((_, end)) => if end <= n {
            whole
        } else {
            Err(DiffError::UnexpectedEof)
        },
        Err(e) => Err(e),
    }
}

/// As [`spec_cut`], for a reading that only gives the position behind it.
pub open spec fn spec_cut_end(whole: Result<int, DiffError>, n: int) -> Result<int, DiffError> {
    match whole {
        Ok(end) => if end <= n {
            whole
        } else {
            Err(DiffError::UnexpectedEof)
        },
        Err(e) => Err(e),
    }
}

/// Whether reading one item at `pos` takes a cut of `s` to `n` bytes as
/// [`spec_cut`] says, and ends behind `pos`.
pub open spec fn cuts_at<T>(item: Item<T>, s: Seq<u8>, pos: int, n: int) -> bool {
    item(s, pos) matches Ok((_, end)) ==> pos <= end && (pos <= n ==> item(s.take(n), pos)
        == spec_cut(item(s, pos), n))
}

/// A run of bytes is cut as [`spec_cut`] says.
pub proof fn lemma_read_bytes_cut(s: Seq<u8>, pos: int, len: int, n: int)
    requires
        0 <= n <= s.len(),
        spec_read_bytes(s, pos, len) is Ok,
    ensures
        pos <= n ==> spec_read_bytes(s.take(n), pos, len) == spec_cut(
            spec_read_bytes(s, pos, len),
            n,
        ),
        pos <= spec_read_bytes(s, pos, len)->Ok_0.1,
{
    if pos + len <= n {
        assert(s.take(n).subrange(pos, pos + len) =~= s.subrange(pos, pos + len));
    }
}

/// Expected bytes that are found are cut as [`spec_cut_end`] says.
pub proof fn lemma_match_bytes_cut(s: Seq<u8>, pos: int, expected: Seq<u8>, n: int)
    requires
        0 <= n <= s.len(),
        spec_match_bytes(s, pos, expected) is Ok,
    ensures
        pos <= n ==> spec_match_bytes(s.take(n), pos, expected) == spec_cut_end(
            spec_match_bytes(s, pos, expected),
            n,
        ),
        pos <= spec_match_bytes(s, pos, expected)->Ok_0,
{
    let cut = s.take(n);
    if expected.len() > 0 {
        assert(0 <= pos && pos + expected.len() <= s.len());
        assert(s.subrange(pos, pos + expected.len()) == expected.take(expected.len() as int));
        if pos + expected.len() <= n {
            assert(cut.subrange(pos, pos + expected.len()) =~= s.subrange(
                pos,
                pos + expected.len(),
            ));
        } else if pos < n {
            let shared = n - pos;
            assert(cut.subrange(pos, pos + shared) =~= expected.take(shared)) by {
                assert forall|i: int| 0 <= i < shared implies cut.subrange(pos, pos + shared)[i]
                    == expected.take(shared)[i] by {
                    assert(s.subrange(pos, pos + expected.len())[i] == expected.take(
                        expected.len() as int,
                    )[i]);
                }
            }
        }
    }
}

proof fn lemma_find_cut(s: Seq<u8>, pos: int, c: u8, n: int)
    requires
        0 <= n <= s.len(),
        spec_find(s, pos, c) is Some,
    ensures
        pos <= spec_find(s, pos, c)->Some_0 < s.len(),
        pos <= n ==> spec_find(s.take(n), pos, c) == if spec_find(s, pos, c)->Some_0 < n {
            spec_find(s, pos, c)
        } else {
            None
        },
    decreases s.len() - pos,
{
    if 0 <= pos < s.len() && s[pos] != c {
        lemma_find_cut(s, pos + 1, c, n);
    }
}

/// A name is cut as [`spec_cut`] says.
pub proof fn lemma_read_string_cut(s: Seq<u8>, pos: int, n: int)
    requires
        0 <= n <= s.len(),
        spec_read_string(s, pos) is Ok,
    ensures
        cuts_at(name_item(), s, pos, n),
{
    lemma_find_cut(s, pos, 0, n);
    let at = spec_find(s, pos, 0)->Some_0;
    if at < n {
        assert(s.take(n).subrange(pos, at) =~= s.subrange(pos, at));
    }
}

proof fn lemma_tail_cut(s: Seq<u8>, pos: int, acc: int, n: int)
    requires
        0 <= n <= s.len(),
        spec_varint_tail(s, pos, acc) is Ok,
    ensures
        pos <= n ==> spec_varint_tail(s.take(n), pos, acc) == spec_cut(
            spec_varint_tail(s, pos, acc),
            n,
        ),
        pos <= spec_varint_tail(s, pos, acc)->Ok_0.1,
    decreases s.len() - pos,
{
    if 0 <= pos < s.len() && s[pos] >= 128 {
        lemma_tail_cut(s, pos + 1, acc * 128 + s[pos] as int % 128, n);
    }
}

/// An integer is cut as [`spec_cut`] says.
pub proof fn lemma_varint_cut(s: Seq<u8>, pos: int, k: u8, n: int)
    requires
        0 <= n <= s.len(),
        spec_read_varint(s, pos, k) is Ok,
    ensures
        pos <= n ==> spec_read_varint(s.take(n), pos, k) == spec_cut(
            spec_read_varint(s, pos, k),
            n,
        ),
        pos <= spec_read_varint(s, pos, k)->Ok_0.1,
{
    if first_continues(s[pos], k) {
        lemma_tail_cut(s, pos + 1, first_digit(s[pos], k), n);
    }
}

/// An integer of a fixed value is cut as [`spec_cut_end`] says.
pub proof fn lemma_match_varint_cut(s: Seq<u8>, pos: int, expected: int, n: int)
    requires
        0 <= n <= s.len(),
        spec_match_varint(s, pos, expected) is Ok,
    ensures
        pos <= n ==> spec_match_varint(s.take(n), pos, expected) == spec_cut_end(
            spec_match_varint(s, pos, expected),
            n,
        ),
        pos <= spec_match_varint(s, pos, expected)->Ok_0,
{
    lemma_varint_cut(s, pos, 0, n);
}

/// A cover is cut as [`spec_cut`] says.
pub proof fn lemma_cover_cut(s: Seq<u8>, pos: int, n: int)
    requires
        0 <= n <= s.len(),
        spec_read_cover(s, pos) is Ok,
    ensures
        cuts_at(cover_item(), s, pos, n),
{
    lemma_varint_cut(s, pos, 1, n);
    let gap_at = spec_read_varint(s, pos, 1)->Ok_0.1;
    lemma_varint_cut(s, gap_at, 0, n);
    let length_at = spec_read_varint(s, gap_at, 0)->Ok_0.1;
    lemma_varint_cut(s, length_at, 0, n);
}

/// A section is cut as [`spec_cut`] says: what it unpacks to does not depend
/// on what follows it.
pub proof fn lemma_section_cut(s: Seq<u8>, pos: int, size: int, compressed_size: int, n: int)
    requires
        0 <= n <= s.len(),
        spec_read_maybe_compressed(s, pos, size, compressed_size) is Ok,
    ensures
        pos <= n ==> spec_read_maybe_compressed(s.take(n), pos, size, compressed_size) == spec_cut(
            spec_read_maybe_compressed(s, pos, size, compressed_size),
            n,
        ),
        pos <= spec_read_maybe_compressed(s, pos, size, compressed_size)->Ok_0.1,
{
    if compressed_size > 0 {
        lemma_read_bytes_cut(s, pos, compressed_size, n);
    } else {
        lemma_read_bytes_cut(s, pos, size, n);
    }
}

/// A run of items is cut as its items are.
pub proof fn lemma_repeat_cut<T>(item: Item<T>, s: Seq<u8>, pos: int, count: nat, n: int)
    requires
        0 <= n <= s.len(),
        spec_repeat(item, s, pos, count) is Ok,
        forall|p: int| cuts_at(item, s, p, n),
    ensures
        pos <= n ==> spec_repeat(item, s.take(n), pos, count) == spec_cut(
            spec_repeat(item, s, pos, count),
            n,
        ),
        pos <= spec_repeat(item, s, pos, count)->Ok_0.1,
    decreases count,
{
    if count > 0 {
        lemma_repeat_cut(item, s, pos, (count - 1) as nat, n);
        let mid = spec_repeat(item, s, pos, (count - 1) as nat)->Ok_0.1;
        assert(cuts_at(item, s, mid, n));
    }
}

/// A run of integers is cut as [`spec_cut`] says.
pub proof fn lemma_plain_cut(s: Seq<u8>, pos: int, count: nat, n: int)
    requires
        0 <= n <= s.len(),
        spec_repeat(plain_item(), s, pos, count) is Ok,
    ensures
        pos <= n ==> spec_repeat(plain_item(), s.take(n), pos, count) == spec_cut(
            spec_repeat(plain_item(), s, pos, count),
            n,
        ),
        pos <= spec_repeat(plain_item(), s, pos, count)->Ok_0.1,
{
    assert forall|p: int| cuts_at(plain_item(), s, p, n) by {
        if spec_read_varint(s, p, 0) is Ok {
            lemma_varint_cut(s, p, 0, n);
        }
    }
    lemma_repeat_cut(plain_item(), s, pos, count, n);
}

/// A run of fields that must be zero is cut as [`spec_cut`] says.
pub proof fn lemma_reserved_cut(s: Seq<u8>, pos: int, count: nat, n: int)
    requires
        0 <= n <= s.len(),
        spec_repeat(reserved_item(), s, pos, count) is Ok,
    ensures
        pos <= n ==> spec_repeat(reserved_item(), s.take(n), pos, count) == spec_cut(
            spec_repeat(reserved_item(), s, pos, count),
            n,
        ),
        pos <= spec_repeat(reserved_item(), s, pos, count)->Ok_0.1,
{
    assert forall|p: int| cuts_at(reserved_item(), s, p, n) by {
        if spec_read_reserved(s, p) is Ok {
            lemma_match_varint_cut(s, p, 0, n);
        }
    }
    lemma_repeat_cut(reserved_item(), s, pos, count, n);
}

/// A run of names is cut as [`spec_cut`] says.
pub proof fn lemma_names_cut(s: Seq<u8>, pos: int, count: nat, n: int)
    requires
        0 <= n <= s.len(),
        spec_repeat(name_item(), s, pos, count) is Ok,
    ensures
        pos <= n ==> spec_repeat(name_item(), s.take(n), pos, count) == spec_cut(
            spec_repeat(name_item(), s, pos, count),
            n,
        ),
        pos <= spec_repeat(name_item(), s, pos, count)->Ok_0.1,
{
    assert forall|p: int| cuts_at(name_item(), s, p, n) by {
        if spec_read_string(s, p) is Ok {
            lemma_read_string_cut(s, p, n);
        }
    }
    lemma_repeat_cut(name_item(), s, pos, count, n);
}

/// A run of reference indices is cut as [`spec_cut`] says.
pub proof fn lemma_indices_cut(s: Seq<u8>, pos: int, count: nat, n: int)
    requires
        0 <= n <= s.len(),
        spec_repeat(index_item(), s, pos, count) is Ok,
    ensures
        pos <= n ==> spec_repeat(index_item(), s.take(n), pos, count) == spec_cut(
            spec_repeat(index_item(), s, pos, count),
            n,
        ),
        pos <= spec_repeat(index_item(), s, pos, count)->Ok_0.1,
{
    assert forall|p: int| cuts_at(index_item(), s, p, n) by {
        if spec_read_index(s, p) is Ok {
            lemma_varint_cut(s, p, 0, n);
        }
    }
    lemma_repeat_cut(index_item(), s, pos, count, n);
}

/// The content of a cover section that is cut short is `UnexpectedEof`.
pub proof fn lemma_cover_section_cut(data: Seq<u8>, count: nat, n: int)
    requires
        0 <= n < data.len(),
        spec_cover_section(data, count) is Ok,
    ensures
        spec_cover_section(data.take(n), count) == Err::<Seq<Cover>, DiffError>(
            DiffError::UnexpectedEof,
        ),
{
    assert forall|p: int| cuts_at(cover_item(), data, p, n) by {
        if spec_read_cover(data, p) is Ok {
            lemma_cover_cut(data, p, n);
        }
    }
    lemma_repeat_cut(cover_item(), data, 0, count, n);
}

/// The content of a head section that is cut short is `UnexpectedEof`.
pub proof fn lemma_head_section_cut(
    data: Seq<u8>,
    old_path_count: nat,
    new_path_count: nat,
    old_ref_file_count: nat,
    new_ref_file_count: nat,
    n: int,
)
    requires
        0 <= n < data.len(),
        spec_head_section(
            data,
            old_path_count,
            new_path_count,
            old_ref_file_count,
            new_ref_file_count,
        ) is Ok,
    ensures
        spec_head_section(
            data.take(n),
            old_path_count,
            new_path_count,
            old_ref_file_count,
            new_ref_file_count,
        ) == Err::<HeadDataModel, DiffError>(DiffError::UnexpectedEof),
{
    lemma_names_cut(data, 0, old_path_count, n);
    let new_names_at = spec_repeat(name_item(), data, 0, old_path_count)->Ok_0.1;
    lemma_names_cut(data, new_names_at, new_path_count, n);
    let old_indices_at = spec_repeat(name_item(), data, new_names_at, new_path_count)->Ok_0.1;
    lemma_indices_cut(data, old_indices_at, old_ref_file_count, n);
    let new_indices_at = spec_repeat(
        index_item(),
        data,
        old_indices_at,
        old_ref_file_count,
    )->Ok_0.1;
    lemma_indices_cut(data, new_indices_at, new_ref_file_count, n);
    let old_sizes_at = spec_repeat(
        index_item(),
        data,
        new_indices_at,
        new_ref_file_count,
    )->Ok_0.1;
    lemma_plain_cut(data, old_sizes_at, old_ref_file_count, n);
    let new_sizes_at = spec_repeat(plain_item(), data, old_sizes_at, old_ref_file_count)->Ok_0.1;
    lemma_plain_cut(data, new_sizes_at, new_ref_file_count, n);
    let spare_at = spec_repeat(plain_item(), data, new_sizes_at, new_ref_file_count)->Ok_0.1;
    lemma_plain_cut(data, spare_at, new_ref_file_count, n);
}

/// A cover section is cut as [`spec_cut`] says.
pub proof fn lemma_cover_buf_cut(
    s: Seq<u8>,
    pos: int,
    size: int,
    compressed_size: int,
    count: nat,
    n: int,
)
    requires
        0 <= n <= s.len(),
        spec_cover_buf(s, pos, size, compressed_size, count) is Ok,
    ensures
        pos <= n ==> spec_cover_buf(s.take(n), pos, size, compressed_size, count) == spec_cut(
            spec_cover_buf(s, pos, size, compressed_size, count),
            n,
        ),
        pos <= spec_cover_buf(s, pos, size, compressed_size, count)->Ok_0.1,
{
    lemma_section_cut(s, pos, size, compressed_size, n);
}

/// A head section is cut as [`spec_cut`] says.
pub proof fn lemma_head_data_cut(
    s: Seq<u8>,
    pos: int,
    size: int,
    compressed_size: int,
    old_path_count: nat,
    new_path_count: nat,
    old_ref_file_count: nat,
    new_ref_file_count: nat,
    n: int,
)
    requires
        0 <= n <= s.len(),
        spec_head_data(
            s,
            pos,
            size,
            compressed_size,
            old_path_count,
            new_path_count,
            old_ref_file_count,
            new_ref_file_count,
        ) is Ok,
    ensures
        pos <= n ==> spec_head_data(
            s.take(n),
            pos,
            size,
            compressed_size,
            old_path_count,
            new_path_count,
            old_ref_file_count,
            new_ref_file_count,
        ) == spec_cut(
            spec_head_data(
                s,
                pos,
                size,
                compressed_size,
                old_path_count,
                new_path_count,
                old_ref_file_count,
                new_ref_file_count,
            ),
            n,
        ),
        pos <= spec_head_data(
            s,
            pos,
            size,
            compressed_size,
            old_path_count,
            new_path_count,
            old_ref_file_count,
            new_ref_file_count,
        )->Ok_0.1,
{
    lemma_section_cut(s, pos, size, compressed_size, n);
}

/// An inner container is cut as [`spec_cut`] says.
pub proof fn lemma_diff_z_cut(s: Seq<u8>, pos: int, n: int)
    requires
        0 <= n <= s.len(),
        spec_diff_z(s, pos) is Ok,
    ensures
        pos <= n ==> spec_diff_z(s.take(n), pos) == spec_cut(spec_diff_z(s, pos), n),
        pos <= spec_diff_z(s, pos)->Ok_0.1,
{
    lemma_match_bytes_cut(s, pos, inner_magic(), n);
    let fields_at = spec_match_bytes(s, pos, inner_magic())->Ok_0;
    lemma_plain_cut(s, fields_at, 11, n);
    let (f, covers_at) = spec_repeat(plain_item(), s, fields_at, 11)->Ok_0;
    lemma_cover_buf_cut(s, covers_at, f[3], f[4], f[2] as nat, n);
}

/// A container that is cut short before the covers of its inner container end
/// is `UnexpectedEof`; cut anywhere behind them it reads as before.
pub proof fn lemma_dir_diff_cut(s: Seq<u8>, pos: int, n: int)
    requires
        0 <= n <= s.len(),
        spec_dir_diff(s, pos) is Ok,
    ensures
        pos <= n ==> spec_dir_diff(s.take(n), pos) == spec_cut(spec_dir_diff(s, pos), n),
        pos <= spec_dir_diff(s, pos)->Ok_0.1,
{
    lemma_match_bytes_cut(s, pos, outer_magic(), n);
    let counts_at = spec_match_bytes(s, pos, outer_magic())->Ok_0;
    lemma_plain_cut(s, counts_at, 8, n);
    let (c, reserved_at) = spec_repeat(plain_item(), s, counts_at, 8)->Ok_0;
    lemma_reserved_cut(s, reserved_at, 6, n);
    let (_, sizes_at) = spec_repeat(reserved_item(), s, reserved_at, 6)->Ok_0;
    lemma_plain_cut(s, sizes_at, 3, n);
    let (h, checksum_at) = spec_repeat(plain_item(), s, sizes_at, 3)->Ok_0;
    lemma_read_bytes_cut(s, checksum_at, 4 * h[2], n);
    let (_, head_at) = spec_read_bytes(s, checksum_at, 4 * h[2])->Ok_0;
    lemma_head_data_cut(
        s,
        head_at,
        h[0],
        h[1],
        c[0] as nat,
        c[2] as nat,
        c[4] as nat,
        c[6] as nat,
        n,
    );
    let (_, main_at) = spec_head_data(
        s,
        head_at,
        h[0],
        h[1],
        c[0] as nat,
        c[2] as nat,
        c[4] as nat,
        c[6] as nat,
    )->Ok_0;
    lemma_diff_z_cut(s, main_at, n);
}

} // verus!
