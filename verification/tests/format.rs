use krdiff::patchers::KrDiff;
use krdiff::utils::error::DiffError;
use krdiff::utils::error::ErrorKind;
use krdiff::utils::parser::Parser;
use krdiff::utils::varint::VarInt;
use krdiff::utils::Cover;
use krdiff::utils::CoverBuf;
use krdiff::utils::DiffZ;
use krdiff::utils::DirDiff;
use krdiff::utils::HeadData;

const OUTER_MAGIC: &[u8] = b"HDIFF19&zstd&fadler64\0\x01\x01";
const INNER_MAGIC: &[u8] = b"HDIFF13&zstd\0";

fn plain(value: u64) -> Vec<u8> {
    VarInt::encode(value as i64, 0)
}

fn pack(bytes: &[u8]) -> Vec<u8> {
    zstd::stream::encode_all(bytes, 3).unwrap()
}

#[derive(Clone)]
struct Sample {
    old_names: Vec<&'static str>,
    new_names: Vec<&'static str>,
    old_offsets: Vec<u64>,
    new_offsets: Vec<u64>,
    old_sizes: Vec<u64>,
    new_sizes: Vec<u64>,
    covers: Vec<Cover>,
    literal: Vec<u8>,
    checksum: Vec<u8>,
    reserved: [u64; 6],
    rle_ctrl: Vec<u8>,
    rle_code: Vec<u8>,
    pack_head: bool,
    pack_covers: bool,
    pack_rle: bool,
}

impl Sample {
    fn small() -> Sample {
        Sample {
            old_names: vec!["", "data/", "data/a.bin", "data/b.bin"],
            new_names: vec!["", "data/", "data/a.bin", "data/b.bin", "extra/", "extra/c.bin"],
            old_offsets: vec![0, 1],
            new_offsets: vec![0, 1, 2],
            old_sizes: vec![10, 16],
            new_sizes: vec![8, 12, 5],
            covers: vec![
                Cover { old_pos: 0, new_pos: 0, length: 8 },
                Cover { old_pos: -4, new_pos: 2, length: 10 },
                Cover { old_pos: 0, new_pos: 5, length: 0 },
            ],
            literal: b"xyHELLO".to_vec(),
            checksum: vec![0xde, 0xad, 0xbe, 0xef, 1, 2, 3, 4],
            reserved: [0; 6],
            rle_ctrl: vec![0x11, 0x22, 0x33],
            rle_code: vec![0x44, 0x55],
            pack_head: false,
            pack_covers: false,
            pack_rle: false,
        }
    }

    fn head_section(&self) -> Vec<u8> {
        let mut out = Vec::new();
        for name in self.old_names.iter().chain(self.new_names.iter()) {
            out.extend_from_slice(name.as_bytes());
            out.push(0);
        }
        for v in self.old_offsets.iter().chain(self.new_offsets.iter()) {
            out.extend(plain(*v));
        }
        for v in self.old_sizes.iter().chain(self.new_sizes.iter()) {
            out.extend(plain(*v));
        }
        for _ in self.new_sizes.iter() {
            out.extend(plain(0));
        }
        out
    }

    fn cover_section(&self) -> Vec<u8> {
        let mut out = Vec::new();
        for c in self.covers.iter() {
            out.extend(VarInt::encode(c.old_pos, 1));
            out.extend(plain(c.new_pos));
            out.extend(plain(c.length));
        }
        out
    }

    fn section(content: &[u8], packed: bool) -> (u64, u64, Vec<u8>) {
        if packed {
            let stored = pack(content);
            (content.len() as u64, stored.len() as u64, stored)
        } else {
            (content.len() as u64, 0, content.to_vec())
        }
    }

    /// The file, where its covers end and where its literal bytes start.
    fn container(&self) -> (Vec<u8>, usize, usize) {
        let (head_size, head_packed, head) = Sample::section(&self.head_section(), self.pack_head);
        let (cover_size, cover_packed, covers) =
            Sample::section(&self.cover_section(), self.pack_covers);
        let (ctrl_size, ctrl_packed, ctrl) = Sample::section(&self.rle_ctrl, self.pack_rle);
        let (code_size, code_packed, code) = Sample::section(&self.rle_code, self.pack_rle);
        let literal = pack(&self.literal);
        let mut out = OUTER_MAGIC.to_vec();
        out.extend(plain(self.old_names.len() as u64));
        out.extend(plain(100));
        out.extend(plain(self.new_names.len() as u64));
        out.extend(plain(200));
        out.extend(plain(self.old_offsets.len() as u64));
        out.extend(plain(self.old_sizes.iter().sum()));
        out.extend(plain(self.new_offsets.len() as u64));
        out.extend(plain(self.new_sizes.iter().sum()));
        for r in self.reserved.iter() {
            out.extend(plain(*r));
        }
        out.extend(plain(head_size));
        out.extend(plain(head_packed));
        out.extend(plain((self.checksum.len() / 4) as u64));
        out.extend_from_slice(&self.checksum);
        out.extend(head);
        out.extend_from_slice(INNER_MAGIC);
        out.extend(plain(self.new_sizes.iter().sum()));
        out.extend(plain(self.old_sizes.iter().sum()));
        out.extend(plain(self.covers.len() as u64));
        out.extend(plain(cover_size));
        out.extend(plain(cover_packed));
        out.extend(plain(ctrl_size));
        out.extend(plain(ctrl_packed));
        out.extend(plain(code_size));
        out.extend(plain(code_packed));
        out.extend(plain(self.literal.len() as u64));
        out.extend(plain(literal.len() as u64));
        out.extend(covers);
        let covers_end = out.len();
        out.extend(ctrl);
        out.extend(code);
        let literal_at = out.len();
        out.extend(literal);
        (out, covers_end, literal_at)
    }
}

fn parse(bytes: &[u8]) -> Result<DirDiff, DiffError> {
    let mut parser = Parser::from_reader(bytes, "");
    DirDiff::parse(&mut parser)
}

fn names(files: &[krdiff::utils::File]) -> Vec<String> {
    files.iter().map(|f| f.name.clone()).collect()
}

fn check_small(diff: &DirDiff, sample: &Sample) {
    assert_eq!(diff.compression_type, "zstd");
    assert_eq!(diff.checksum_type, "fadler64");
    assert!(diff.old_path_is_dir);
    assert!(diff.new_path_is_dir);
    assert_eq!(diff.old_path_count, VarInt(4));
    assert_eq!(diff.old_path_sum_size, VarInt(100));
    assert_eq!(diff.new_path_count, VarInt(6));
    assert_eq!(diff.new_path_sum_size, VarInt(200));
    assert_eq!(diff.old_ref_file_count, VarInt(2));
    assert_eq!(diff.old_ref_size, VarInt(26));
    assert_eq!(diff.new_ref_file_count, VarInt(3));
    assert_eq!(diff.new_ref_size, VarInt(25));
    assert_eq!(diff.head_data_size, VarInt(sample.head_section().len() as i64));
    assert_eq!(diff.checksum_byte_size, VarInt(2));
    assert_eq!(diff.checksum, sample.checksum);
    let head = &diff.head_data;
    assert_eq!(names(&head.old_files), vec!["data/a.bin", "data/b.bin"]);
    assert_eq!(names(&head.new_files), vec!["data/a.bin", "data/b.bin", "extra/c.bin"]);
    let dirs = |v: &Vec<krdiff::utils::Directory>| -> Vec<String> {
        v.iter().map(|d| d.name.clone()).collect()
    };
    assert_eq!(dirs(&head.old_dirs), vec!["", "data/"]);
    assert_eq!(dirs(&head.new_dirs), vec!["", "data/", "extra/"]);
    assert_eq!(head.old_files[1].file_offset, 1);
    assert_eq!(head.old_files[1].file_size, 16);
    assert_eq!(head.new_files[2].file_offset, 2);
    assert_eq!(head.new_files[2].file_size, 5);
    let main = &diff.main_diff;
    assert_eq!(main.compress_type, "zstd");
    assert_eq!(main.new_data_size, VarInt(25));
    assert_eq!(main.old_data_size, VarInt(26));
    assert_eq!(main.cover_count, VarInt(3));
    assert_eq!(main.cover_buf_size, VarInt(sample.cover_section().len() as i64));
    assert_eq!(main.rle_ctrl_buf_size, VarInt(3));
    assert_eq!(main.rle_code_buf_size, VarInt(2));
    assert_eq!(main.new_data_diff_size, VarInt(7));
    assert_eq!(main.cover_buf.covers, sample.covers);
}

#[test]
fn decodes_a_container() {
    let sample = Sample::small();
    let (bytes, covers_end, _) = sample.container();
    let mut parser = Parser::from_reader(&bytes, "");
    let diff = DirDiff::parse(&mut parser).unwrap();
    assert_eq!(parser.position(), covers_end as u64);
    check_small(&diff, &sample);
    assert_eq!(diff.head_data_compressed_size, VarInt(0));
    assert_eq!(diff.main_diff.compressed_cover_buf_size, VarInt(0));
    assert_eq!(diff.main_diff.new_data_offset, 0);
}

#[test]
fn decodes_a_container_with_compressed_sections() {
    let mut sample = Sample::small();
    sample.pack_head = true;
    sample.pack_covers = true;
    sample.pack_rle = true;
    let (bytes, covers_end, _) = sample.container();
    let mut parser = Parser::from_reader(&bytes, "");
    let diff = DirDiff::parse(&mut parser).unwrap();
    assert_eq!(parser.position(), covers_end as u64);
    check_small(&diff, &sample);
    assert!(diff.head_data_compressed_size.0 > 0);
    assert!(diff.main_diff.compressed_cover_buf_size.0 > 0);
}

#[test]
fn literal_bytes_start_behind_the_run_length_sections() {
    let sample = Sample::small();
    let (bytes, covers_end, literal_at) = sample.container();
    assert_eq!(literal_at, covers_end + 5);
    let diff = KrDiff::decode(&bytes).unwrap();
    assert_eq!(diff.main_diff.new_data_offset, literal_at as u64);
    check_small(&diff, &sample);
}

#[test]
fn compressed_run_length_sections_are_stepped_over_by_their_stored_size() {
    let mut sample = Sample::small();
    sample.rle_ctrl = vec![7; 300];
    sample.rle_code = vec![9; 500];
    sample.pack_rle = true;
    let (bytes, covers_end, literal_at) = sample.container();
    assert!(literal_at < covers_end + 800);
    let diff = KrDiff::decode(&bytes).unwrap();
    assert_eq!(diff.main_diff.new_data_offset, literal_at as u64);
    assert_eq!(diff.main_diff.rle_ctrl_buf_size, VarInt(300));
    assert_eq!(diff.main_diff.rle_code_buf_size, VarInt(500));
}

#[test]
fn rebuilds_the_new_files() {
    let sample = Sample::small();
    let (bytes, _, _) = sample.container();
    let old_a = b"0123456789".to_vec();
    let old_b = b"abcdefghijklmnop".to_vec();
    let (diff, out) = KrDiff::rebuild(&bytes, &vec![old_a, old_b, Vec::new()]).unwrap();
    check_small(&diff, &sample);
    assert_eq!(out.len(), 3);
    assert_eq!(out[0], b"01234567".to_vec());
    assert_eq!(out[1], b"xyefghijklmn".to_vec());
    assert_eq!(out[2], b"HELLO".to_vec());
}

#[test]
fn rebuilds_from_compressed_sections() {
    let mut sample = Sample::small();
    sample.pack_head = true;
    sample.pack_covers = true;
    let (bytes, _, _) = sample.container();
    let olds = vec![b"0123456789".to_vec(), b"abcdefghijklmnop".to_vec(), Vec::new()];
    let (diff, out) = KrDiff::rebuild(&bytes, &olds).unwrap();
    assert_eq!(names(&diff.head_data.new_files), vec!["data/a.bin", "data/b.bin", "extra/c.bin"]);
    assert_eq!(out, vec![b"01234567".to_vec(), b"xyefghijklmn".to_vec(), b"HELLO".to_vec()]);
}

#[test]
fn rebuild_needs_an_old_file_for_every_new_file() {
    let sample = Sample::small();
    let (bytes, _, _) = sample.container();
    let olds = vec![b"0123456789".to_vec(), b"abcdefghijklmnop".to_vec()];
    assert_eq!(KrDiff::rebuild(&bytes, &olds).err(), Some(DiffError::OldFileMissing));
}

#[test]
fn every_truncation_before_the_literal_bytes_is_end_of_input() {
    for packed in [false, true] {
        let mut sample = Sample::small();
        sample.pack_head = packed;
        sample.pack_covers = packed;
        let (bytes, covers_end, literal_at) = sample.container();
        for n in 0..literal_at {
            let r = KrDiff::decode(&bytes[..n]);
            assert_eq!(r.err(), Some(DiffError::UnexpectedEof), "cut to {} bytes", n);
        }
        for n in 0..covers_end {
            assert_eq!(parse(&bytes[..n]).err(), Some(DiffError::UnexpectedEof));
        }
        assert!(parse(&bytes[..covers_end]).is_ok());
        assert!(KrDiff::decode(&bytes[..literal_at]).is_ok());
    }
}

#[test]
fn truncated_literal_bytes_fail_the_rebuild() {
    let mut sample = Sample::small();
    sample.literal = (0..200u32).map(|i| (i * 7 % 251) as u8).collect();
    sample.new_sizes = vec![8, 12, 198];
    sample.covers = vec![
        Cover { old_pos: 0, new_pos: 0, length: 8 },
        Cover { old_pos: -4, new_pos: 2, length: 10 },
    ];
    let (bytes, _, literal_at) = sample.container();
    let olds = vec![b"0123456789".to_vec(), b"abcdefghijklmnop".to_vec(), Vec::new()];
    assert!(KrDiff::rebuild(&bytes, &olds).is_ok());
    for n in literal_at + 1..bytes.len() {
        let r = KrDiff::rebuild(&bytes[..n], &olds);
        assert_eq!(r.err(), Some(DiffError::Decompression), "cut to {} bytes", n);
    }
    assert_eq!(
        KrDiff::rebuild(&bytes[..literal_at], &olds).err(),
        Some(DiffError::UnexpectedEof)
    );
}

#[test]
fn another_outer_magic_is_an_unsupported_variant() {
    let sample = Sample::small();
    let (bytes, _, _) = sample.container();
    for i in 0..OUTER_MAGIC.len() {
        let mut changed = bytes.clone();
        changed[i] ^= 0x20;
        let mut parser = Parser::from_reader(&changed, "");
        assert_eq!(DirDiff::parse(&mut parser).err(), Some(DiffError::UnsupportedVariant));
        assert_eq!(parser.position(), 0);
        assert_eq!(parse(&changed[..i + 1]).err(), Some(DiffError::UnsupportedVariant));
    }
    assert_eq!(DiffError::UnsupportedVariant.kind(), ErrorKind::Unsupported);
}

#[test]
fn other_compression_or_file_mode_is_an_unsupported_variant() {
    let sample = Sample::small();
    let (bytes, _, _) = sample.container();
    let mut lzma = b"HDIFF19&lzma&fadler64\0\x01\x01".to_vec();
    lzma.extend_from_slice(&bytes[OUTER_MAGIC.len()..]);
    assert_eq!(parse(&lzma).err(), Some(DiffError::UnsupportedVariant));
    let mut file_mode = bytes.clone();
    file_mode[22] = 0;
    assert_eq!(parse(&file_mode).err(), Some(DiffError::UnsupportedVariant));
    let mut new_file_mode = bytes.clone();
    new_file_mode[23] = 0;
    assert_eq!(parse(&new_file_mode).err(), Some(DiffError::UnsupportedVariant));
}

#[test]
fn field_that_must_be_zero_is_an_unsupported_variant() {
    for i in 0..6 {
        let mut sample = Sample::small();
        sample.reserved[i] = 1 + i as u64 * 1000;
        let (bytes, _, _) = sample.container();
        assert_eq!(parse(&bytes).err(), Some(DiffError::UnsupportedVariant), "field {}", i);
    }
}

#[test]
fn another_inner_magic_is_a_mismatch() {
    let sample = Sample::small();
    let (bytes, _, _) = sample.container();
    let at = bytes.windows(INNER_MAGIC.len()).position(|w| w == INNER_MAGIC).unwrap();
    for i in 0..INNER_MAGIC.len() {
        let mut changed = bytes.clone();
        changed[at + i] ^= 0x01;
        assert_eq!(parse(&changed).err(), Some(DiffError::MagicMismatch));
        assert_eq!(parse(&changed[..at + i + 1]).err(), Some(DiffError::MagicMismatch));
    }
    let mut parser = Parser::from_reader(&bytes[at..], "");
    let inner = DiffZ::parse(&mut parser).unwrap();
    assert_eq!(inner.cover_buf.covers, sample.covers);
}

#[test]
fn more_files_than_references_is_a_count_mismatch() {
    let mut sample = Sample::small();
    sample.new_names = vec!["", "data/a.bin", "data/b.bin", "extra/c.bin", "extra/d.bin", "x/"];
    let (bytes, _, _) = sample.container();
    assert_eq!(parse(&bytes).err(), Some(DiffError::CountMismatch));
    assert_eq!(DiffError::CountMismatch.kind(), ErrorKind::Consistency);
}

#[test]
fn fewer_files_than_references_is_a_count_mismatch() {
    let mut sample = Sample::small();
    sample.old_names = vec!["", "data/", "data/a.bin", "more/"];
    let (bytes, _, _) = sample.container();
    assert_eq!(parse(&bytes).err(), Some(DiffError::CountMismatch));
}

#[test]
fn more_references_than_names_is_a_count_mismatch() {
    let mut sample = Sample::small();
    sample.old_names = vec!["a"];
    let (bytes, _, _) = sample.container();
    assert_eq!(parse(&bytes).err(), Some(DiffError::CountMismatch));
}

#[test]
fn reference_index_of_128_is_rejected() {
    let mut sample = Sample::small();
    sample.new_offsets = vec![0, 127, 2];
    let (ok, _, _) = sample.container();
    assert_eq!(parse(&ok).unwrap().head_data.new_files[1].file_offset, 127);
    sample.new_offsets = vec![0, 128, 2];
    let (bytes, _, _) = sample.container();
    assert_eq!(parse(&bytes).err(), Some(DiffError::ReferenceIndex));
}

#[test]
fn name_that_is_not_utf8_is_rejected() {
    let sample = Sample::small();
    let (mut bytes, _, _) = sample.container();
    let at = bytes.windows(6).position(|w| w == b"a.bin\0").unwrap();
    bytes[at] = 0xff;
    assert_eq!(parse(&bytes).err(), Some(DiffError::InvalidUtf8));
}

#[test]
fn head_section_must_be_filled() {
    let sample = Sample::small();
    let mut section = sample.head_section();
    let head = HeadData::parse_section(&section, 4, 6, 2, 3).unwrap();
    assert_eq!(head.new_files.len(), 3);
    section.push(0);
    assert_eq!(HeadData::parse_section(&section, 4, 6, 2, 3).err(), Some(DiffError::SectionLength));
    section.pop();
    section.pop();
    assert_eq!(HeadData::parse_section(&section, 4, 6, 2, 3).err(), Some(DiffError::UnexpectedEof));
}

#[test]
fn head_section_reads_the_tables_in_order() {
    let section = b"b/\0a\0c\0A\0\x03\x07\x09\x0a\x14\x1e\x00".to_vec();
    let head = HeadData::parse_section(&section, 3, 1, 2, 1).unwrap();
    assert_eq!(names(&head.old_files), vec!["a", "c"]);
    assert_eq!(head.old_dirs.len(), 1);
    assert_eq!(head.old_dirs[0].name, "b/");
    assert_eq!(head.old_files[0].file_offset, 3);
    assert_eq!(head.old_files[1].file_offset, 7);
    assert_eq!(head.old_files[0].file_size, 10);
    assert_eq!(head.old_files[1].file_size, 20);
    assert_eq!(names(&head.new_files), vec!["A"]);
    assert_eq!(head.new_files[0].file_offset, 9);
    assert_eq!(head.new_files[0].file_size, 30);
    assert!(head.new_dirs.is_empty());
}

#[test]
fn head_section_of_an_empty_patch_is_empty() {
    let head = HeadData::parse_section(&[], 0, 0, 0, 0).unwrap();
    assert!(head.old_files.is_empty() && head.new_files.is_empty());
    assert!(head.old_dirs.is_empty() && head.new_dirs.is_empty());
}

#[test]
fn count_mismatch_comes_before_an_unfilled_section_only_for_too_many_files() {
    let too_many = b"a\0b\0\x00\x05\x00".to_vec();
    assert_eq!(
        HeadData::parse_section(&too_many, 0, 2, 0, 1).err(),
        Some(DiffError::CountMismatch)
    );
    let mut too_few = b"a/\0\x00\x05\x00".to_vec();
    assert_eq!(
        HeadData::parse_section(&too_few, 0, 1, 0, 1).err(),
        Some(DiffError::CountMismatch)
    );
    too_few.push(0);
    assert_eq!(
        HeadData::parse_section(&too_few, 0, 1, 0, 1).err(),
        Some(DiffError::SectionLength)
    );
}

#[test]
fn cover_section_holds_signed_offsets_and_plain_lengths() {
    let section = [0x85u8, 0x02, 0x03, 0x40, 0x40, 0x81, 0x00, 0x00];
    let buf = CoverBuf::parse_section(&section, 2).unwrap();
    assert_eq!(
        buf.covers,
        vec![
            Cover { old_pos: -5, new_pos: 2, length: 3 },
            Cover { old_pos: 64, new_pos: 128, length: 0 },
        ]
    );
}

#[test]
fn cover_section_must_be_filled() {
    let section = [0x85u8, 0x02, 0x03, 0x00, 0x01, 0x01];
    assert_eq!(CoverBuf::parse_section(&section, 2).unwrap().covers.len(), 2);
    assert_eq!(CoverBuf::parse_section(&section, 1).err(), Some(DiffError::SectionLength));
    assert_eq!(CoverBuf::parse_section(&section, 3).err(), Some(DiffError::UnexpectedEof));
    assert_eq!(CoverBuf::parse_section(&[], 0).unwrap().covers.len(), 0);
}

#[test]
fn cover_buf_is_read_from_the_cursor() {
    let content = [0x85u8, 0x02, 0x03];
    let mut data = vec![0xAA];
    data.extend_from_slice(&content);
    data.push(0xBB);
    let mut parser = Parser::from_reader(&data, "");
    parser.read().unwrap();
    let buf = CoverBuf::parse(&mut parser, 3, 0, 1).unwrap();
    assert_eq!(buf.covers, vec![Cover { old_pos: -5, new_pos: 2, length: 3 }]);
    assert_eq!(parser.position(), 4);

    let stored = pack(&content);
    let mut parser = Parser::from_reader(&stored, "");
    let buf = CoverBuf::parse(&mut parser, 3, stored.len() as u64, 1).unwrap();
    assert_eq!(buf.covers, vec![Cover { old_pos: -5, new_pos: 2, length: 3 }]);
    assert_eq!(parser.remaining(), 0);
    let mut parser = Parser::from_reader(&stored, "");
    assert_eq!(
        CoverBuf::parse(&mut parser, 4, stored.len() as u64, 1).err(),
        Some(DiffError::SizeMismatch)
    );
    assert_eq!(parser.position(), 0);
}

#[test]
fn head_data_is_read_from_the_cursor() {
    let sample = Sample::small();
    let content = sample.head_section();
    let stored = pack(&content);
    let mut data = stored.clone();
    data.push(0x99);
    let mut parser = Parser::from_reader(&data, "");
    let head =
        HeadData::parse(&mut parser, content.len() as u64, stored.len() as u64, 4, 6, 2, 3).unwrap();
    assert_eq!(names(&head.new_files), vec!["data/a.bin", "data/b.bin", "extra/c.bin"]);
    assert_eq!(parser.position(), stored.len() as u64);
    let mut parser = Parser::from_reader(&data, "");
    let r = HeadData::parse(&mut parser, content.len() as u64 + 1, stored.len() as u64, 4, 6, 2, 3);
    assert_eq!(r.err(), Some(DiffError::SizeMismatch));
    assert_eq!(parser.position(), 0);
}

#[test]
fn checksum_takes_four_bytes_a_word() {
    let mut sample = Sample::small();
    sample.checksum = (0u8..12).collect();
    let (bytes, _, _) = sample.container();
    let diff = parse(&bytes).unwrap();
    assert_eq!(diff.checksum_byte_size, VarInt(3));
    assert_eq!(diff.checksum, (0u8..12).collect::<Vec<u8>>());
    sample.checksum = Vec::new();
    let (bytes, _, _) = sample.container();
    assert!(parse(&bytes).unwrap().checksum.is_empty());
}

#[test]
fn failed_decoding_leaves_the_cursor() {
    let sample = Sample::small();
    let (bytes, _, _) = sample.container();
    let mut data = vec![0x00];
    data.extend_from_slice(&bytes[..60]);
    let mut parser = Parser::from_reader(&data, "");
    parser.read().unwrap();
    assert_eq!(DirDiff::parse(&mut parser).err(), Some(DiffError::UnexpectedEof));
    assert_eq!(parser.position(), 1);
}

#[test]
fn names_are_sorted_by_their_last_character() {
    let section = "données/\0données/é\0名/\0/\0a/b\0\x01\x02\x05\x06\x00\x00".as_bytes().to_vec();
    let head = HeadData::parse_section(&section, 0, 5, 0, 2).unwrap();
    let dirs: Vec<&str> = head.new_dirs.iter().map(|d| d.name.as_str()).collect();
    assert_eq!(dirs, vec!["données/", "名/", "/"]);
    assert_eq!(names(&head.new_files), vec!["données/é", "a/b"]);
    assert_eq!(head.new_files[0].file_offset, 1);
    assert_eq!(head.new_files[1].file_offset, 2);
    assert_eq!(head.new_files[0].file_size, 5);
    assert_eq!(head.new_files[1].file_size, 6);
}
