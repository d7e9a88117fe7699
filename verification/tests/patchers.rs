use krdiff::patchers::cover::CoverCursor;
use krdiff::patchers::cover::Step;
use krdiff::patchers::HDiff;
use krdiff::patchers::KrDiff;
use krdiff::patchers::KrPatcher;
use krdiff::utils::error::DiffError;
use krdiff::utils::varint::VarInt;
use krdiff::utils::Cover;
use krdiff::utils::CoverBuf;
use krdiff::utils::DiffZ;
use krdiff::utils::DirDiff;
use krdiff::utils::File;
use krdiff::utils::HeadData;

fn cover(old_pos: i64, new_pos: u64, length: u64) -> Cover {
    Cover { old_pos, new_pos, length }
}

fn diff_of(covers: Vec<Cover>, new_sizes: &[u64]) -> DirDiff {
    let file = |i: usize, size: u64| File { name: format!("f{}", i), file_offset: 0, file_size: size };
    let new_files: Vec<File> = new_sizes.iter().enumerate().map(|(i, s)| file(i, *s)).collect();
    DirDiff {
        compression_type: String::from("zstd"),
        checksum_type: String::from("fadler64"),
        old_path_is_dir: true,
        new_path_is_dir: true,
        old_path_count: VarInt(0),
        new_path_count: VarInt(new_sizes.len() as i64),
        old_path_sum_size: VarInt(0),
        new_path_sum_size: VarInt(0),
        old_ref_file_count: VarInt(0),
        new_ref_file_count: VarInt(new_sizes.len() as i64),
        old_ref_size: VarInt(0),
        new_ref_size: VarInt(0),
        head_data_size: VarInt(0),
        head_data_compressed_size: VarInt(0),
        checksum_byte_size: VarInt(0),
        checksum: Vec::new(),
        head_data: HeadData {
            old_files: Vec::new(),
            new_files,
            old_dirs: Vec::new(),
            new_dirs: Vec::new(),
        },
        main_diff: DiffZ {
            compress_type: String::from("zstd"),
            new_data_size: VarInt(0),
            old_data_size: VarInt(0),
            cover_count: VarInt(covers.len() as i64),
            cover_buf_size: VarInt(0),
            compressed_cover_buf_size: VarInt(0),
            rle_ctrl_buf_size: VarInt(0),
            compressed_rle_ctrl_buf_size: VarInt(0),
            rle_code_buf_size: VarInt(0),
            compressed_rle_code_buf_size: VarInt(0),
            new_data_diff_size: VarInt(0),
            compressed_new_data_diff_size: VarInt(0),
            cover_buf: CoverBuf { covers },
            new_data_offset: 0,
        },
    }
}

fn run(
    covers: Vec<Cover>,
    new_sizes: &[u64],
    old_files: &[&[u8]],
    literal: &[u8],
) -> (Result<Vec<Vec<u8>>, DiffError>, KrPatcher) {
    let mut patcher = KrPatcher::with_literal(diff_of(covers, new_sizes), literal.to_vec());
    let olds: Vec<Vec<u8>> = old_files.iter().map(|f| f.to_vec()).collect();
    let out = patcher.patch(&olds);
    (out, patcher)
}

#[test]
fn apply_hdiff_patch() {
    let src = String::from("<path to game dir>");
    let hdiff = String::from("./2.5.1_2.6.0.hdiff");
    let out = String::from("./2.5.1_2.6.1.blk");

    let mut hd = HDiff::new(src, hdiff, out);
    let status = hd.apply();
    if status { println!("hdiff applied successfully"); } else { println!("hdiff apply failed"); }
}

#[test]
fn hdiff_keeps_its_paths() {
    let mut hd = HDiff::new(String::from("a"), String::from("b"), String::from("c"));
    assert_eq!(hd.cache_size, 0);
    hd.set_cache_size(4096);
    assert_eq!(hd.cache_size, 4096);
    assert!(hd.apply());
    assert_eq!(hd.source_path, "a");
    assert_eq!(hd.diff_path, "b");
    assert_eq!(hd.dest_path, "c");
    assert_eq!(hd.cache_size, 4096);
}

#[test]
fn krdiff_keeps_its_paths() {
    let mut kd = KrDiff::new(String::from("src"), String::from("p.krpdiff"), Some(String::from("dst")));
    assert_eq!(kd.source_path, "src");
    assert_eq!(kd.kr_diff_path, "p.krpdiff");
    assert_eq!(kd.dest_path, Some(String::from("dst")));
    assert_eq!(kd.cache_size, 0);
    kd.set_cache_size(1 << 20);
    assert_eq!(kd.cache_size, 1 << 20);
    assert_eq!(kd.source_path, "src");
    let in_place = KrDiff::new(String::from("src"), String::from("p"), None);
    assert_eq!(in_place.dest_path, None);
}

#[test]
fn pure_copy_takes_nothing_from_the_literal_bytes() {
    let (out, mut patcher) = run(vec![cover(0, 0, 10)], &[10], &[b"HELLOWORLD"], b"unused");
    assert_eq!(out, Ok(vec![b"HELLOWORLD".to_vec()]));
    assert_eq!(patcher.read(6), Ok(b"unused".to_vec()));
}

#[test]
fn pure_insert_takes_the_next_literal_bytes() {
    let (out, mut patcher) = run(vec![cover(0, 5, 0)], &[5], &[b"HELLO"], b"WORLD!");
    assert_eq!(out, Ok(vec![b"WORLD".to_vec()]));
    assert_eq!(patcher.read(1), Ok(b"!".to_vec()));
}

#[test]
fn cover_that_spans_two_files_goes_on_where_it_stopped() {
    let old0: Vec<u8> = (0u8..40).collect();
    let old1: Vec<u8> = (100u8..140).collect();
    let (out, _) = run(vec![cover(0, 0, 20)], &[8, 12], &[&old0, &old1], b"");
    let files = out.unwrap();
    assert_eq!(files[0], (0u8..8).collect::<Vec<u8>>());
    assert_eq!(files[1], (108u8..120).collect::<Vec<u8>>());
}

#[test]
fn cover_that_spans_two_files_leaves_no_gap_between_its_parts() {
    let old: Vec<u8> = (0u8..40).collect();
    let covers = vec![cover(4, 2, 20), cover(-10, 3, 4)];
    let (out, mut patcher) = run(covers, &[10, 19], &[&old, &old], b"abXYZ-");
    let files = out.unwrap();
    let mut first = b"ab".to_vec();
    first.extend(4u8..12);
    assert_eq!(files[0], first);
    let mut second: Vec<u8> = (12u8..24).collect();
    second.extend_from_slice(b"XYZ");
    second.extend(14u8..18);
    assert_eq!(files[1], second);
    assert_eq!(patcher.read(1), Ok(b"-".to_vec()));
}

#[test]
fn covers_that_fill_the_file_give_exactly_its_size() {
    let old = b"0123456789abcdefghij".to_vec();
    let covers = vec![cover(2, 3, 4), cover(1, 0, 2), cover(-5, 2, 3)];
    let size: u64 = covers.iter().map(|c| c.new_pos + c.length).sum();
    assert_eq!(size, 14);
    let (out, mut patcher) = run(covers, &[size], &[&old], b"LITERALS");
    let files = out.unwrap();
    assert_eq!(files.len(), 1);
    assert_eq!(files[0].len() as u64, size);
    assert_eq!(files[0], b"LIT234578ER456".to_vec());
    assert_eq!(patcher.read(3), Ok(b"ALS".to_vec()));
}

#[test]
fn literal_bytes_fill_what_the_covers_leave() {
    let old = b"0123456789".to_vec();
    let (out, _) = run(vec![cover(0, 1, 2)], &[6], &[&old], b"abcdef");
    assert_eq!(out, Ok(vec![b"a01bcd".to_vec()]));
}

#[test]
fn patch_without_covers_is_all_literal() {
    let (out, _) = run(vec![], &[3, 0, 2], &[b"", b"", b""], b"abcde");
    assert_eq!(out, Ok(vec![b"abc".to_vec(), Vec::new(), b"de".to_vec()]));
}

#[test]
fn gap_that_spans_two_files_goes_on_in_the_next() {
    let old = b"0123456789".to_vec();
    let (out, _) = run(vec![cover(3, 5, 2)], &[2, 5], &[&old, &old], b"abcde");
    assert_eq!(out, Ok(vec![b"ab".to_vec(), b"cde34".to_vec()]));
}

#[test]
fn empty_files_are_built_empty() {
    let old = b"0123456789".to_vec();
    let (out, _) = run(vec![cover(0, 0, 4)], &[0, 4, 0], &[&old, &old, &old], b"");
    assert_eq!(out, Ok(vec![Vec::new(), b"0123".to_vec(), Vec::new()]));
}

#[test]
fn new_file_without_old_file_is_missing() {
    let old = b"0123456789".to_vec();
    let (out, mut patcher) = run(vec![cover(0, 0, 4)], &[2, 2], &[&old], b"xy");
    assert_eq!(out, Err(DiffError::OldFileMissing));
    assert_eq!(patcher.read(2), Ok(b"xy".to_vec()));
}

#[test]
fn copy_beyond_the_old_file_is_out_of_range() {
    let (out, _) = run(vec![cover(8, 0, 4)], &[4], &[b"0123456789"], b"");
    assert_eq!(out, Err(DiffError::OldFileRange));
    let (edge, _) = run(vec![cover(6, 0, 4)], &[4], &[b"0123456789"], b"");
    assert_eq!(edge, Ok(vec![b"6789".to_vec()]));
}

#[test]
fn copy_from_before_the_old_file_is_out_of_range() {
    let (out, _) = run(vec![cover(-1, 0, 4)], &[4], &[b"0123456789"], b"");
    assert_eq!(out, Err(DiffError::OldFileRange));
    let (empty, _) = run(vec![cover(-1, 0, 0)], &[1], &[b"0123456789"], b"a");
    assert_eq!(empty, Err(DiffError::OldFileRange));
}

#[test]
fn empty_copy_reaches_nowhere() {
    let (out, _) = run(vec![cover(50, 0, 0), cover(-50, 0, 2)], &[2], &[b"0123456789"], b"");
    assert_eq!(out, Ok(vec![b"01".to_vec()]));
}

#[test]
fn offsets_that_leave_63_bits_are_out_of_range() {
    let covers = vec![cover(i64::MAX, 0, 0), cover(1, 0, 0)];
    let (out, _) = run(covers, &[1], &[b"0123456789"], b"a");
    assert_eq!(out, Err(DiffError::OldFileRange));
}

#[test]
fn literal_bytes_that_run_out_are_end_of_input() {
    let (out, mut patcher) = run(vec![cover(0, 5, 0)], &[3, 3], &[b"", b""], b"abcd");
    assert_eq!(out, Err(DiffError::UnexpectedEof));
    assert_eq!(patcher.read(4), Ok(b"abcd".to_vec()));
}

#[test]
fn read_hands_out_all_or_nothing() {
    let mut patcher = KrPatcher::with_literal(diff_of(vec![], &[]), b"abcdef".to_vec());
    assert_eq!(patcher.read(0), Ok(Vec::new()));
    assert_eq!(patcher.read(4), Ok(b"abcd".to_vec()));
    assert_eq!(patcher.read(3), Err(DiffError::UnexpectedEof));
    assert_eq!(patcher.read(2), Ok(b"ef".to_vec()));
    assert_eq!(patcher.read(1), Err(DiffError::UnexpectedEof));
    assert_eq!(patcher.read(0), Ok(Vec::new()));
}

#[test]
fn patcher_unpacks_the_literal_bytes_from_the_offset() {
    let literal = b"literal bytes, literal bytes, literal bytes".to_vec();
    let mut file = vec![0xAAu8; 7];
    file.extend(zstd::stream::encode_all(&literal[..], 3).unwrap());
    let mut diff = diff_of(vec![], &[literal.len() as u64]);
    diff.main_diff.new_data_offset = 7;
    let mut patcher = KrPatcher::new(diff, &file).unwrap();
    assert_eq!(patcher.diff().main_diff.new_data_offset, 7);
    assert_eq!(patcher.patch(&vec![Vec::new()]), Ok(vec![literal]));
}

#[test]
fn patcher_without_payload_has_no_literal_bytes() {
    let file = vec![0xAAu8; 7];
    let mut diff = diff_of(vec![cover(0, 0, 3)], &[3]);
    diff.main_diff.new_data_offset = 7;
    let mut patcher = KrPatcher::new(diff, &file).unwrap();
    assert_eq!(patcher.read(1), Err(DiffError::UnexpectedEof));
    assert_eq!(patcher.patch(&vec![b"abc".to_vec()]), Ok(vec![b"abc".to_vec()]));
}

#[test]
fn patcher_rejects_an_offset_behind_the_file() {
    let file = vec![0xAAu8; 7];
    let mut diff = diff_of(vec![], &[]);
    diff.main_diff.new_data_offset = 8;
    assert!(matches!(KrPatcher::new(diff, &file), Err(DiffError::UnexpectedEof)));
}

#[test]
fn patcher_rejects_a_payload_that_is_no_frame() {
    let file = vec![0xAAu8; 16];
    let mut diff = diff_of(vec![], &[]);
    diff.main_diff.new_data_offset = 4;
    assert!(matches!(KrPatcher::new(diff, &file), Err(DiffError::Decompression)));
}

#[test]
fn cursor_starts_with_the_first_gap() {
    let cursor = CoverCursor::new(vec![cover(3, 7, 2), cover(0, 9, 1)]);
    assert_eq!(cursor.cover_index, 0);
    assert_eq!(cursor.old_pos, 0);
    assert_eq!(cursor.to_read, 7);
    let none = CoverCursor::new(vec![]);
    assert_eq!(none.to_read, 0);
}

#[test]
fn cursor_steps_through_gap_and_copy() {
    let mut cursor = CoverCursor::new(vec![cover(3, 7, 2), cover(-1, 9, 1)]);
    assert_eq!(cursor.next_step(100), Ok(Step::Insert { length: 7 }));
    assert_eq!(cursor.to_read, 0);
    assert_eq!(cursor.next_step(93), Ok(Step::Copy { offset: 3, length: 2 }));
    assert_eq!(cursor.cover_index, 1);
    assert_eq!(cursor.old_pos, 5);
    assert_eq!(cursor.to_read, 9);
    assert_eq!(cursor.next_step(91), Ok(Step::Insert { length: 9 }));
    assert_eq!(cursor.next_step(82), Ok(Step::Copy { offset: 4, length: 1 }));
    assert_eq!(cursor.cover_index, 2);
    assert_eq!(cursor.old_pos, 5);
    assert_eq!(cursor.next_step(81), Ok(Step::Insert { length: 81 }));
    assert_eq!(cursor.to_read, 0);
}

#[test]
fn cursor_splits_a_gap_at_the_end_of_a_file() {
    let mut cursor = CoverCursor::new(vec![cover(0, 10, 4)]);
    assert_eq!(cursor.next_step(6), Ok(Step::Insert { length: 6 }));
    assert_eq!(cursor.to_read, 4);
    assert_eq!(cursor.next_step(20), Ok(Step::Insert { length: 4 }));
    assert_eq!(cursor.next_step(16).map(|s| s.length()), Ok(4));
}

#[test]
fn cursor_keeps_the_rest_of_a_cover_that_fills_the_file() {
    let mut cursor = CoverCursor::new(vec![cover(5, 0, 20), cover(1, 2, 3)]);
    assert_eq!(cursor.next_step(8), Ok(Step::Copy { offset: 5, length: 8 }));
    assert_eq!(cursor.cover_index, 0);
    assert_eq!(cursor.covers[0], cover(0, 0, 12));
    assert_eq!(cursor.old_pos, 13);
    assert_eq!(cursor.to_read, 0);
    assert_eq!(cursor.next_step(12), Ok(Step::Copy { offset: 13, length: 12 }));
    assert_eq!(cursor.cover_index, 1);
    assert_eq!(cursor.to_read, 2);
    assert_eq!(cursor.old_pos, 25);
}

#[test]
fn cursor_moves_on_when_cover_and_file_end_together() {
    let mut cursor = CoverCursor::new(vec![cover(0, 0, 8), cover(0, 4, 0)]);
    assert_eq!(cursor.next_step(8), Ok(Step::Copy { offset: 0, length: 8 }));
    assert_eq!(cursor.cover_index, 1);
    assert_eq!(cursor.covers[0], cover(0, 0, 8));
    assert_eq!(cursor.to_read, 4);
}

#[test]
fn cursor_that_fails_does_not_move() {
    let mut cursor = CoverCursor::new(vec![cover(-3, 0, 8)]);
    assert_eq!(cursor.next_step(8), Err(DiffError::OldFileRange));
    assert_eq!(cursor.cover_index, 0);
    assert_eq!(cursor.old_pos, 0);
    assert_eq!(cursor.covers[0], cover(-3, 0, 8));
}

#[test]
fn cutting_a_file_in_two_changes_no_byte() {
    let old: Vec<u8> = (0u8..60).collect();
    let literal: Vec<u8> = (200u8..230).collect();
    let covers = vec![cover(5, 3, 9), cover(-6, 0, 4), cover(10, 7, 0), cover(2, 1, 12)];
    let total: u64 = covers.iter().map(|c| c.new_pos + c.length).sum::<u64>() + 6;
    let (whole, _) = run(covers.clone(), &[total], &[&old], &literal);
    let whole = whole.unwrap().remove(0);
    assert_eq!(whole.len() as u64, total);
    for a in 0..=total {
        let (two, mut patcher) = run(covers.clone(), &[a, total - a], &[&old, &old], &literal);
        let two = two.unwrap();
        assert_eq!(two[0].len() as u64, a);
        assert_eq!([two[0].clone(), two[1].clone()].concat(), whole, "cut at {}", a);
        assert_eq!(patcher.read(100), Err(DiffError::UnexpectedEof));
        assert_eq!(patcher.read(13), Ok((217u8..230).collect::<Vec<u8>>()));
    }
}
