//! The container format: its error type, its integer encoding, the cursor that
//! reads it and the structures it decodes to.
pub mod error;
pub mod varint;
pub mod codec;
pub mod parser;
pub mod names;
pub mod table;
pub mod truncation;

use vstd::prelude::*;
use vstd::utf8::encode_utf8;
use crate::utils::error::DiffError;
use crate::utils::names::is_directory;
use crate::utils::names::lemma_directory_names;
use crate::utils::parser::spec_match_bytes;
use crate::utils::parser::spec_match_varint;
use crate::utils::parser::spec_read_bytes;
use crate::utils::parser::spec_read_maybe_compressed;
use crate::utils::parser::Parser;
use crate::utils::table::index_item;
use crate::utils::table::lemma_repeat_failure;
use crate::utils::table::lemma_plain_range;
use crate::utils::table::lemma_repeat_len;
use crate::utils::table::name_bytes;
use crate::utils::table::name_item;
use crate::utils::table::plain_item;
use crate::utils::table::read_indices;
use crate::utils::table::read_names;
use crate::utils::table::read_plain;
use crate::utils::table::spec_repeat;
use crate::utils::table::values;
use crate::utils::table::widened;
use crate::utils::table::Item;
use crate::utils::varint::spec_read_varint;
use crate::utils::varint::VarInt;

verus! {

/// One copy instruction.
///
/// `new_pos` literal bytes go to the new file first; then `length` bytes are
/// copied from the old file, starting `old_pos` bytes behind the place where
/// the copy before this one ended.
#[derive(Clone, Copy, Debug, PartialEq, Eq, Structural)]
pub struct Cover {
    pub old_pos: i64,
    pub new_pos: u64,
    pub length: u64,
}

/// The copy instructions of a patch, in the order of the new data.
#[derive(Clone, Debug)]
pub struct CoverBuf {
    pub covers: Vec<Cover>,
}

/// The cover written at `pos`: a signed offset with one tag bit, then a gap
/// and a length without tag bits.
pub open spec fn spec_read_cover(s: Seq<u8>, pos: int) -> Result<(Cover, int), DiffError> {
    match spec_read_varint(s, pos, 1) {
        Err(e) => Err(e),
        Ok((old_pos, gap_at)) => match spec_read_varint(s, gap_at, 0) {
            Err(e) => Err(e),
            Ok((new_pos, length_at)) => match spec_read_varint(s, length_at, 0) {
                Err(e) => Err(e),
                Ok((length, end)) => Ok(
                    (
                        Cover {
                            old_pos: old_pos as i64,
                            new_pos: new_pos as u64,
                            length: length as u64,
                        },
                        end,
                    ),
                ),
            },
        },
    }
}

/// One cover.
pub open spec fn cover_item() -> Item<Cover> {
    |s: Seq<u8>, pos: int| spec_read_cover(s, pos)
}

/// The covers that the section `data` holds: `count` of them, filling the
/// section to its last byte.
pub open spec fn spec_cover_section(data: Seq<u8>, count: nat) -> Result<Seq<Cover>, DiffError> {
    match spec_repeat(cover_item(), data, 0, count) {
        Err(e) => Err(e),
        Ok((covers, end)) => if end == data.len() {
            Ok(covers)
        } else {
            Err(DiffError::SectionLength)
        },
    }
}

/// The covers of the cover section at `pos`, and the position behind the
/// section.
pub open spec fn spec_cover_buf(
    s: Seq<u8>,
    pos: int,
    size: int,
    compressed_size: int,
    count: nat,
) -> Result<(Seq<Cover>, int), DiffError> {
    match spec_read_maybe_compressed(s, pos, size, compressed_size) {
        Err(e) => Err(e),
        Ok((data, end)) => match spec_cover_section(data, count) {
            Err(e) => Err(e),
            Ok(covers) => Ok((covers, end)),
        },
    }
}

fn read_cover(parser: &mut Parser) -> (r: Result<Cover, DiffError>)
    ensures
        match spec_read_cover(old(parser).bytes(), old(parser).offset()) {
            Ok((cover, end)) => r == Ok::<Cover, DiffError>(cover) && final(parser).moved(
                *old(parser),
                end,
            ),
            Err(e) => r == Err::<Cover, DiffError>(e) && *final(parser) == *old(parser),
        },
{
    let mut fork = *parser;
    let old_pos = fork.read_varint(1)?;
    let new_pos = fork.read_varint(0)?;
    let length = fork.read_varint(0)?;
    *parser = fork;
    Ok(Cover { old_pos: old_pos.0, new_pos: new_pos.0 as u64, length: length.0 as u64 })
}

impl View for CoverBuf {
    type V = Seq<Cover>;

    open spec fn view(&self) -> Seq<Cover> {
        self.covers@
    }
}

impl CoverBuf {
    /// Decodes the content of a cover section that is declared to hold
    /// `cover_count` covers.
    pub fn parse_section(data: &[u8], cover_count: u64) -> (r: Result<Self, DiffError>)
        ensures
            match spec_cover_section(data@, cover_count as nat) {
                Ok(covers) => r matches Ok(buf) && buf@ == covers,
                Err(e) => r matches Err(x) && x == e,
            },
    {
        let mut cursor = Parser::from_reader(data, "cover_buf");
        let mut covers: Vec<Cover> = Vec::new();
        let mut i: u64 = 0;
        while i < cover_count
            invariant
                i <= cover_count,
                cursor.bytes() == data@,
                spec_repeat(cover_item(), data@, 0, i as nat) == Ok::<
                    (Seq<Cover>, int),
                    DiffError,
                >((covers@, cursor.offset())),
            decreases cover_count - i,
        {
            match read_cover(&mut cursor) {
                Err(e) => {
                    proof {
                        assert(spec_repeat(cover_item(), data@, 0, (i + 1) as nat) is Err);
                        lemma_repeat_failure(
                            cover_item(),
                            data@,
                            0,
                            (i + 1) as nat,
                            cover_count as nat,
                        );
                    }
                    return Err(e);
                },
                Ok(cover) => {
                    covers.push(cover);
                },
            }
            i = i + 1;
        }
        cursor.check_read(data.len() as u64)?;
        Ok(CoverBuf { covers })
    }

    /// Reads the cover section at the cursor: `size` bytes of content, stored
    /// in `compressed_size` bytes where that is not zero, holding
    /// `cover_count` covers.
    pub fn parse(parser: &mut Parser, size: u64, compressed_size: u64, cover_count: u64) -> (r:
        Result<Self, DiffError>)
        ensures
            match spec_cover_buf(
                old(parser).bytes(),
                old(parser).offset(),
                size as int,
                compressed_size as int,
                cover_count as nat,
            ) {
                Ok((covers, end)) => r matches Ok(buf) && buf@ == covers && final(parser).moved(
                    *old(parser),
                    end,
                ),
                Err(e) => r matches Err(x) && x == e && *final(parser) == *old(parser),
            },
    {
        let mut fork = *parser;
        let data = fork.read_maybe_compressed(size, compressed_size)?;
        let buf = Self::parse_section(data.as_slice(), cover_count)?;
        *parser = fork;
        Ok(buf)
    }
}

/// A file of the old or the new tree.
#[derive(Clone, Debug)]
pub struct File {
    /// The path, relative to the root of the tree.
    pub name: String,
    /// The index of the reference, less than 128.
    pub file_offset: u8,
    /// The length in bytes.
    pub file_size: u64,
}

/// A directory of the old or the new tree.
#[derive(Clone, Debug)]
pub struct Directory {
    /// The path, relative to the root of the tree: empty, or ending in `/`.
    pub name: String,
}

/// The files and directories of both trees.
#[derive(Clone, Debug)]
pub struct HeadData {
    pub old_files: Vec<File>,
    pub new_files: Vec<File>,
    pub old_dirs: Vec<Directory>,
    pub new_dirs: Vec<Directory>,
}

/// What a [`File`] stands for: the bytes of its name and its two numbers.
pub struct FileModel {
    pub name: Seq<u8>,
    pub file_offset: int,
    pub file_size: int,
}

/// What a [`HeadData`] stands for; a directory is the bytes of its name.
pub struct HeadDataModel {
    pub old_files: Seq<FileModel>,
    pub new_files: Seq<FileModel>,
    pub old_dirs: Seq<Seq<u8>>,
    pub new_dirs: Seq<Seq<u8>>,
}

impl View for File {
    type V = FileModel;

    open spec fn view(&self) -> FileModel {
        FileModel {
            name: encode_utf8(self.name@),
            file_offset: self.file_offset as int,
            file_size: self.file_size as int,
        }
    }
}

impl View for Directory {
    type V = Seq<u8>;

    open spec fn view(&self) -> Seq<u8> {
        encode_utf8(self.name@)
    }
}

/// What each file of `v` stands for.
pub open spec fn file_models(v: Seq<File>) -> Seq<FileModel> {
    v.map_values(|f: File| f@)
}

/// What each directory of `v` stands for.
pub open spec fn directory_names(v: Seq<Directory>) -> Seq<Seq<u8>> {
    v.map_values(|d: Directory| d@)
}

impl View for HeadData {
    type V = HeadDataModel;

    open spec fn view(&self) -> HeadDataModel {
        HeadDataModel {
            old_files: file_models(self.old_files@),
            new_files: file_models(self.new_files@),
            old_dirs: directory_names(self.old_dirs@),
            new_dirs: directory_names(self.new_dirs@),
        }
    }
}

/// Whether a name is that of a directory: it is empty or ends in `/`.
pub open spec fn is_directory_name(name: Seq<u8>) -> bool {
    name.len() == 0 || name.last() == 0x2f
}

/// The names of directories among `names`, in order.
pub open spec fn spec_directories(names: Seq<Seq<u8>>) -> Seq<Seq<u8>>
    decreases names.len(),
{
    if names.len() == 0 {
        Seq::empty()
    } else if is_directory_name(names.last()) {
        spec_directories(names.drop_last()).push(names.last())
    } else {
        spec_directories(names.drop_last())
    }
}

/// The names of files among `names`, in order.
pub open spec fn spec_file_names(names: Seq<Seq<u8>>) -> Seq<Seq<u8>>
    decreases names.len(),
{
    if names.len() == 0 {
        Seq::empty()
    } else if is_directory_name(names.last()) {
        spec_file_names(names.drop_last())
    } else {
        spec_file_names(names.drop_last()).push(names.last())
    }
}

/// The files among `names`: the file that comes `j`-th takes the `j`-th
/// reference index and the `j`-th size.
pub open spec fn spec_files(names: Seq<Seq<u8>>, offsets: Seq<int>, sizes: Seq<int>) -> Seq<
    FileModel,
> {
    let file_names = spec_file_names(names);
    Seq::new(
        file_names.len(),
        |j: int| FileModel { name: file_names[j], file_offset: offsets[j], file_size: sizes[j] },
    )
}

/// The tables of both trees, as the head section `data` holds them.
///
/// The section is, in this order: the old names, the new names, the old
/// reference indices, the new ones, the old sizes, the new ones, and one more
/// table as long as the new sizes, which is read and dropped. The tables must
/// fill the section, and each tree must name as many files as it has
/// references.
pub open spec fn spec_head_section(
    data: Seq<u8>,
    old_path_count: nat,
    new_path_count: nat,
    old_ref_file_count: nat,
    new_ref_file_count: nat,
) -> Result<HeadDataModel, DiffError> {
    match spec_repeat(name_item(), data, 0, old_path_count) {
        Err(e) => Err(e),
        Ok((old_names, new_names_at)) => match spec_repeat(
            name_item(),
            data,
            new_names_at,
            new_path_count,
        ) {
            Err(e) => Err(e),
            Ok((new_names, old_indices_at)) => match spec_repeat(
                index_item(),
                data,
                old_indices_at,
                old_ref_file_count,
            ) {
                Err(e) => Err(e),
                Ok((old_offsets, new_indices_at)) => match spec_repeat(
                    index_item(),
                    data,
                    new_indices_at,
                    new_ref_file_count,
                ) {
                    Err(e) => Err(e),
                    Ok((new_offsets, old_sizes_at)) => match spec_repeat(
                        plain_item(),
                        data,
                        old_sizes_at,
                        old_ref_file_count,
                    ) {
                        Err(e) => Err(e),
                        Ok((old_sizes, new_sizes_at)) => match spec_repeat(
                            plain_item(),
                            data,
                            new_sizes_at,
                            new_ref_file_count,
                        ) {
                            Err(e) => Err(e),
                            Ok((new_sizes, spare_at)) => match spec_repeat(
                                plain_item(),
                                data,
                                spare_at,
                                new_ref_file_count,
                            ) {
                                Err(e) => Err(e),
                                Ok((_, end)) => spec_head_tables(
                                    old_names,
                                    new_names,
                                    old_offsets,
                                    new_offsets,
                                    old_sizes,
                                    new_sizes,
                                    end == data.len(),
                                ),
                            },
                        },
                    },
                },
            },
        },
    }
}

/// The two trees that the tables of a head section give, once they are read.
/// `filled` says whether the tables fill the section.
///
/// More files than references, or more references than names, is
/// `CountMismatch`; otherwise a section that is not filled is
/// `SectionLength`; otherwise fewer files than references is `CountMismatch`.
pub open spec fn spec_head_tables(
    old_names: Seq<Seq<u8>>,
    new_names: Seq<Seq<u8>>,
    old_offsets: Seq<int>,
    new_offsets: Seq<int>,
    old_sizes: Seq<int>,
    new_sizes: Seq<int>,
    filled: bool,
) -> Result<HeadDataModel, DiffError> {
    let old_files = spec_file_names(old_names).len();
    let new_files = spec_file_names(new_names).len();
    if old_offsets.len() > old_names.len() || new_offsets.len() > new_names.len() || old_files
        > old_offsets.len() || new_files > new_offsets.len() {
        Err(DiffError::CountMismatch)
    } else if !filled {
        Err(DiffError::SectionLength)
    } else if old_files != old_offsets.len() || new_files != new_offsets.len() {
        Err(DiffError::CountMismatch)
    } else {
        Ok(
            HeadDataModel {
                old_files: spec_files(old_names, old_offsets, old_sizes),
                new_files: spec_files(new_names, new_offsets, new_sizes),
                old_dirs: spec_directories(old_names),
                new_dirs: spec_directories(new_names),
            },
        )
    }
}

/// The two trees of the head section at `pos`, and the position behind the
/// section.
pub open spec fn spec_head_data(
    s: Seq<u8>,
    pos: int,
    size: int,
    compressed_size: int,
    old_path_count: nat,
    new_path_count: nat,
    old_ref_file_count: nat,
    new_ref_file_count: nat,
) -> Result<(HeadDataModel, int), DiffError> {
    match spec_read_maybe_compressed(s, pos, size, compressed_size) {
        Err(e) => Err(e),
        Ok((data, end)) => match spec_head_section(
            data,
            old_path_count,
            new_path_count,
            old_ref_file_count,
            new_ref_file_count,
        ) {
            Err(e) => Err(e),
            Ok(head) => Ok((head, end)),
        },
    }
}

/// Whether each of `files` has the name of a file and a reference index
/// below 128.
pub open spec fn all_files(files: Seq<File>) -> bool {
    forall|i: int|
        0 <= i < files.len() ==> !is_directory((#[trigger] files[i]).name@) && files[i].file_offset
            < 128
}

/// Whether each of `dirs` has the name of a directory.
pub open spec fn all_directories(dirs: Seq<Directory>) -> bool {
    forall|i: int| 0 <= i < dirs.len() ==> is_directory((#[trigger] dirs[i]).name@)
}

impl HeadData {
    /// Whether the files and the directories are told apart as the format
    /// tells them apart: the name of a directory is empty or ends in `/`,
    /// that of a file does neither, and no reference index exceeds 127.
    pub open spec fn well_formed(&self) -> bool {
        &&& all_files(self.old_files@)
        &&& all_files(self.new_files@)
        &&& all_directories(self.old_dirs@)
        &&& all_directories(self.new_dirs@)
    }
}

/// Whether `name` is the name of a directory.
fn names_directory(name: &String) -> (b: bool)
    ensures
        b == is_directory_name(encode_utf8(name@)),
{
    let bytes = name.as_str().as_bytes();
    bytes.len() == 0 || bytes[bytes.len() - 1] == 0x2f
}

/// Sorts `names` into files and directories. A file takes the next reference
/// index and size. Gives nothing where the files outnumber the references.
fn classify(names: &Vec<String>, offsets: &Vec<u8>, sizes: &Vec<VarInt>) -> (r: Option<
    (Vec<File>, Vec<Directory>),
>)
    requires
        offsets@.len() == sizes@.len(),
        forall|j: int| 0 <= j < sizes@.len() ==> 0 <= #[trigger] values(sizes@)[j] <= i64::MAX,
        forall|j: int| 0 <= j < offsets@.len() ==> #[trigger] offsets@[j] < 128,
    ensures
        r is Some <==> spec_file_names(name_bytes(names@)).len() <= offsets@.len(),
        r matches Some((files, dirs)) ==> all_files(files@) && all_directories(dirs@),
        r matches Some((files, dirs)) ==> file_models(files@) == spec_files(
            name_bytes(names@),
            widened(offsets@),
            values(sizes@),
        ) && directory_names(dirs@) == spec_directories(name_bytes(names@)) && files@.len()
            == spec_file_names(name_bytes(names@)).len(),
{
    let ghost all = name_bytes(names@);
    let mut files: Vec<File> = Vec::new();
    let mut dirs: Vec<Directory> = Vec::new();
    let mut i: usize = 0;
    assert(all.take(0) =~= Seq::<Seq<u8>>::empty());
    assert(file_models(files@) =~= spec_files(all.take(0), widened(offsets@), values(sizes@)));
    assert(directory_names(dirs@) =~= spec_directories(all.take(0)));
    while i < names.len()
        invariant
            i <= names@.len(),
            all == name_bytes(names@),
            offsets@.len() == sizes@.len(),
            forall|j: int| 0 <= j < sizes@.len() ==> 0 <= #[trigger] values(sizes@)[j] <= i64::MAX,
            forall|j: int| 0 <= j < offsets@.len() ==> #[trigger] offsets@[j] < 128,
            all_files(files@),
            all_directories(dirs@),
            files@.len() == spec_file_names(all.take(i as int)).len(),
            files@.len() <= offsets@.len(),
            file_models(files@) == spec_files(
                all.take(i as int),
                widened(offsets@),
                values(sizes@),
            ),
            directory_names(dirs@) == spec_directories(all.take(i as int)),
        decreases names@.len() - i,
    {
        let name = names[i].clone();
        proof {
            assert(all.take(i + 1).drop_last() =~= all.take(i as int));
            assert(all.take(i + 1).last() == encode_utf8(name@));
        }
        proof {
            lemma_directory_names(name@);
        }
        if names_directory(&name) {
            let dir = Directory { name };
            assert(directory_names(dirs@.push(dir)) =~= directory_names(dirs@).push(dir@));
            dirs.push(dir);
        } else {
            let j = files.len();
            if j >= offsets.len() {
                proof {
                    lemma_file_names_grow(all, i + 1);
                }
                return None;
            }
            let file = File { name, file_offset: offsets[j], file_size: sizes[j].0 as u64 };
            proof {
                assert(values(sizes@)[j as int] == sizes@[j as int]@);
                assert(file_models(files@.push(file)) =~= file_models(files@).push(file@));
                assert(file_models(files@).push(file@) =~= spec_files(
                    all.take(i + 1),
                    widened(offsets@),
                    values(sizes@),
                ));
            }
            files.push(file);
        }
        i = i + 1;
    }
    assert(all.take(i as int) =~= all);
    Some((files, dirs))
}

/// The files among the first names are no more than the files among all.
proof fn lemma_file_names_grow(names: Seq<Seq<u8>>, i: int)
    requires
        0 <= i <= names.len(),
    ensures
        spec_file_names(names.take(i)).len() <= spec_file_names(names).len(),
    decreases names.len() - i,
{
    if i < names.len() {
        lemma_file_names_grow(names, i + 1);
        assert(names.take(i + 1).drop_last() =~= names.take(i));
    } else {
        assert(names.take(i) =~= names);
    }
}

impl HeadData {
    /// Decodes the content of a head section, given the numbers of paths and
    /// of references that the header declares for each tree.
    pub fn parse_section(
        data: &[u8],
        old_path_count: u64,
        new_path_count: u64,
        old_ref_file_count: u64,
        new_ref_file_count: u64,
    ) -> (r: Result<Self, DiffError>)
        ensures
            match spec_head_section(
                data@,
                old_path_count as nat,
                new_path_count as nat,
                old_ref_file_count as nat,
                new_ref_file_count as nat,
            ) {
                Ok(head) => r matches Ok(h) && h@ == head && h.well_formed(),
                Err(e) => r matches Err(x) && x == e,
            },
    {
        let mut cursor = Parser::from_reader(data, "head_data");
        let old_names = read_names(&mut cursor, old_path_count)?;
        let ghost new_names_at = cursor.offset();
        let new_names = read_names(&mut cursor, new_path_count)?;
        let ghost old_indices_at = cursor.offset();
        let old_offsets = read_indices(&mut cursor, old_ref_file_count)?;
        let ghost new_indices_at = cursor.offset();
        let new_offsets = read_indices(&mut cursor, new_ref_file_count)?;
        let ghost old_sizes_at = cursor.offset();
        let old_sizes = read_plain(&mut cursor, old_ref_file_count)?;
        let ghost new_sizes_at = cursor.offset();
        let new_sizes = read_plain(&mut cursor, new_ref_file_count)?;
        let _ = read_plain(&mut cursor, new_ref_file_count)?;
        proof {
            lemma_repeat_len(name_item(), data@, 0, old_path_count as nat);
            lemma_repeat_len(name_item(), data@, new_names_at, new_path_count as nat);
            lemma_repeat_len(index_item(), data@, old_indices_at, old_ref_file_count as nat);
            lemma_repeat_len(index_item(), data@, new_indices_at, new_ref_file_count as nat);
            lemma_repeat_len(plain_item(), data@, old_sizes_at, old_ref_file_count as nat);
            lemma_repeat_len(plain_item(), data@, new_sizes_at, new_ref_file_count as nat);
        }
        let filled = cursor.position() == data.len() as u64;
        if old_ref_file_count > old_path_count || new_ref_file_count > new_path_count {
            return Err(DiffError::CountMismatch);
        }
        let (old_files, old_dirs) = match classify(&old_names, &old_offsets, &old_sizes) {
            None => {
                return Err(DiffError::CountMismatch);
            },
            Some(sorted) => sorted,
        };
        let (new_files, new_dirs) = match classify(&new_names, &new_offsets, &new_sizes) {
            None => {
                return Err(DiffError::CountMismatch);
            },
            Some(sorted) => sorted,
        };
        if !filled {
            return Err(DiffError::SectionLength);
        }
        if old_files.len() != old_offsets.len() || new_files.len() != new_offsets.len() {
            return Err(DiffError::CountMismatch);
        }
        Ok(HeadData { old_files, new_files, old_dirs, new_dirs })
    }

    /// Reads the head section at the cursor: `size` bytes of content, stored
    /// in `compressed_size` bytes where that is not zero.
    pub fn parse(
        parser: &mut Parser,
        size: u64,
        compressed_size: u64,
        old_path_count: u64,
        new_path_count: u64,
        old_ref_file_count: u64,
        new_ref_file_count: u64,
    ) -> (r: Result<Self, DiffError>)
        ensures
            match spec_head_data(
                old(parser).bytes(),
                old(parser).offset(),
                size as int,
                compressed_size as int,
                old_path_count as nat,
                new_path_count as nat,
                old_ref_file_count as nat,
                new_ref_file_count as nat,
            ) {
                Ok((head, end)) => r matches Ok(h) && h@ == head && h.well_formed()
                    && final(parser).moved(*old(parser), end),
                Err(e) => r matches Err(x) && x == e && *final(parser) == *old(parser),
            },
    {
        let mut fork = *parser;
        let data = fork.read_maybe_compressed(size, compressed_size)?;
        let head = Self::parse_section(
            data.as_slice(),
            old_path_count,
            new_path_count,
            old_ref_file_count,
            new_ref_file_count,
        )?;
        *parser = fork;
        Ok(head)
    }
}

/// The inner container: the sizes of its parts and its covers.
#[derive(Clone, Debug)]
pub struct DiffZ {
    pub compress_type: String,
    pub new_data_size: VarInt,
    pub old_data_size: VarInt,
    pub cover_count: VarInt,
    pub cover_buf_size: VarInt,
    pub compressed_cover_buf_size: VarInt,
    pub rle_ctrl_buf_size: VarInt,
    pub compressed_rle_ctrl_buf_size: VarInt,
    pub rle_code_buf_size: VarInt,
    pub compressed_rle_code_buf_size: VarInt,
    pub new_data_diff_size: VarInt,
    pub compressed_new_data_diff_size: VarInt,
    pub cover_buf: CoverBuf,
    /// Where in the file the compressed literal bytes start. Zero until the
    /// two run-length sections behind the covers have been stepped over.
    pub new_data_offset: u64,
}

/// What a [`DiffZ`] stands for.
pub struct DiffZModel {
    pub compress_type: Seq<char>,
    pub new_data_size: int,
    pub old_data_size: int,
    pub cover_count: int,
    pub cover_buf_size: int,
    pub compressed_cover_buf_size: int,
    pub rle_ctrl_buf_size: int,
    pub compressed_rle_ctrl_buf_size: int,
    pub rle_code_buf_size: int,
    pub compressed_rle_code_buf_size: int,
    pub new_data_diff_size: int,
    pub compressed_new_data_diff_size: int,
    pub covers: Seq<Cover>,
    pub new_data_offset: int,
}

impl View for DiffZ {
    type V = DiffZModel;

    open spec fn view(&self) -> DiffZModel {
        DiffZModel {
            compress_type: self.compress_type@,
            new_data_size: self.new_data_size@,
            old_data_size: self.old_data_size@,
            cover_count: self.cover_count@,
            cover_buf_size: self.cover_buf_size@,
            compressed_cover_buf_size: self.compressed_cover_buf_size@,
            rle_ctrl_buf_size: self.rle_ctrl_buf_size@,
            compressed_rle_ctrl_buf_size: self.compressed_rle_ctrl_buf_size@,
            rle_code_buf_size: self.rle_code_buf_size@,
            compressed_rle_code_buf_size: self.compressed_rle_code_buf_size@,
            new_data_diff_size: self.new_data_diff_size@,
            compressed_new_data_diff_size: self.compressed_new_data_diff_size@,
            covers: self.cover_buf@,
            new_data_offset: self.new_data_offset as int,
        }
    }
}

/// The bytes `HDIFF13&zstd` and a zero, which open the inner container.
pub open spec fn inner_magic() -> Seq<u8> {
    seq![0x48u8, 0x44, 0x49, 0x46, 0x46, 0x31, 0x33, 0x26, 0x7a, 0x73, 0x74, 0x64, 0x00]
}

/// The inner container at `pos` and the position behind its covers.
///
/// It is the magic bytes, eleven integers without tag bits in the order of the
/// fields of [`DiffZModel`], and the cover section. The offset of the literal
/// bytes is left at zero.
pub open spec fn spec_diff_z(s: Seq<u8>, pos: int) -> Result<(DiffZModel, int), DiffError> {
    match spec_match_bytes(s, pos, inner_magic()) {
        Err(e) => Err(e),
        Ok(fields_at) => match spec_repeat(plain_item(), s, fields_at, 11) {
            Err(e) => Err(e),
            Ok((f, covers_at)) => match spec_cover_buf(s, covers_at, f[3], f[4], f[2] as nat) {
                Err(e) => Err(e),
                Ok((covers, end)) => Ok(
                    (
                        DiffZModel {
                            compress_type: "zstd"@,
                            new_data_size: f[0],
                            old_data_size: f[1],
                            cover_count: f[2],
                            cover_buf_size: f[3],
                            compressed_cover_buf_size: f[4],
                            rle_ctrl_buf_size: f[5],
                            compressed_rle_ctrl_buf_size: f[6],
                            rle_code_buf_size: f[7],
                            compressed_rle_code_buf_size: f[8],
                            new_data_diff_size: f[9],
                            compressed_new_data_diff_size: f[10],
                            covers,
                            new_data_offset: 0,
                        },
                        end,
                    ),
                ),
            },
        },
    }
}

impl DiffZModel {
    /// Whether every size and count is one that the container can hold: not
    /// negative and within 63 bits.
    pub open spec fn in_range(self) -> bool {
        &&& 0 <= self.new_data_size <= i64::MAX
        &&& 0 <= self.old_data_size <= i64::MAX
        &&& 0 <= self.cover_count <= i64::MAX
        &&& 0 <= self.cover_buf_size <= i64::MAX
        &&& 0 <= self.compressed_cover_buf_size <= i64::MAX
        &&& 0 <= self.rle_ctrl_buf_size <= i64::MAX
        &&& 0 <= self.compressed_rle_ctrl_buf_size <= i64::MAX
        &&& 0 <= self.rle_code_buf_size <= i64::MAX
        &&& 0 <= self.compressed_rle_code_buf_size <= i64::MAX
        &&& 0 <= self.new_data_diff_size <= i64::MAX
        &&& 0 <= self.compressed_new_data_diff_size <= i64::MAX
    }
}

/// The sizes and counts of a decoded inner container are in range.
pub proof fn lemma_diff_z_in_range(s: Seq<u8>, pos: int)
    ensures
        spec_diff_z(s, pos) matches Ok((diff, _)) ==> diff.in_range(),
{
    match spec_match_bytes(s, pos, inner_magic()) {
        Err(_) => {},
        Ok(fields_at) => {
            lemma_plain_range(s, fields_at, 11);
            lemma_repeat_len(plain_item(), s, fields_at, 11);
        },
    }
}

impl DiffZ {
    /// Reads the inner container at the cursor, up to and with its covers.
    pub fn parse(parser: &mut Parser) -> (r: Result<Self, DiffError>)
        ensures
            match spec_diff_z(old(parser).bytes(), old(parser).offset()) {
                Ok((diff, end)) => r matches Ok(d) && d@ == diff && final(parser).moved(
                    *old(parser),
                    end,
                ),
                Err(e) => r matches Err(x) && x == e && *final(parser) == *old(parser),
            },
    {
        let magic: [u8; 13] = [
            0x48,
            0x44,
            0x49,
            0x46,
            0x46,
            0x31,
            0x33,
            0x26,
            0x7a,
            0x73,
            0x74,
            0x64,
            0x00,
        ];
        assert(magic@ =~= inner_magic());
        let mut fork = *parser;
        fork.match_bytes(magic.as_slice())?;
        let ghost fields_at = fork.offset();
        let f = read_plain(&mut fork, 11)?;
        proof {
            lemma_repeat_len(plain_item(), parser.bytes(), fields_at, 11);
            assert(forall|i: int| 0 <= i < 11 ==> values(f@)[i] == f@[i]@);
        }
        let cover_buf = CoverBuf::parse(&mut fork, f[3].0 as u64, f[4].0 as u64, f[2].0 as u64)?;
        *parser = fork;
        Ok(
            DiffZ {
                compress_type: "zstd".to_owned(),
                new_data_size: f[0],
                old_data_size: f[1],
                cover_count: f[2],
                cover_buf_size: f[3],
                compressed_cover_buf_size: f[4],
                rle_ctrl_buf_size: f[5],
                compressed_rle_ctrl_buf_size: f[6],
                rle_code_buf_size: f[7],
                compressed_rle_code_buf_size: f[8],
                new_data_diff_size: f[9],
                compressed_new_data_diff_size: f[10],
                cover_buf,
                new_data_offset: 0,
            },
        )
    }
}

/// A decoded patch: the header of the container, both trees and the inner
/// container.
#[derive(Clone, Debug)]
pub struct DirDiff {
    pub compression_type: String,
    pub checksum_type: String,
    pub old_path_is_dir: bool,
    pub new_path_is_dir: bool,
    pub old_path_count: VarInt,
    pub new_path_count: VarInt,
    pub old_path_sum_size: VarInt,
    pub new_path_sum_size: VarInt,
    pub old_ref_file_count: VarInt,
    pub new_ref_file_count: VarInt,
    pub old_ref_size: VarInt,
    pub new_ref_size: VarInt,
    pub head_data_size: VarInt,
    pub head_data_compressed_size: VarInt,
    pub checksum_byte_size: VarInt,
    pub checksum: Vec<u8>,
    pub head_data: HeadData,
    pub main_diff: DiffZ,
}

/// What a [`DirDiff`] stands for.
pub struct DirDiffModel {
    pub compression_type: Seq<char>,
    pub checksum_type: Seq<char>,
    pub old_path_is_dir: bool,
    pub new_path_is_dir: bool,
    pub old_path_count: int,
    pub new_path_count: int,
    pub old_path_sum_size: int,
    pub new_path_sum_size: int,
    pub old_ref_file_count: int,
    pub new_ref_file_count: int,
    pub old_ref_size: int,
    pub new_ref_size: int,
    pub head_data_size: int,
    pub head_data_compressed_size: int,
    pub checksum_byte_size: int,
    pub checksum: Seq<u8>,
    pub head_data: HeadDataModel,
    pub main_diff: DiffZModel,
}

impl View for DirDiff {
    type V = DirDiffModel;

    open spec fn view(&self) -> DirDiffModel {
        DirDiffModel {
            compression_type: self.compression_type@,
            checksum_type: self.checksum_type@,
            old_path_is_dir: self.old_path_is_dir,
            new_path_is_dir: self.new_path_is_dir,
            old_path_count: self.old_path_count@,
            new_path_count: self.new_path_count@,
            old_path_sum_size: self.old_path_sum_size@,
            new_path_sum_size: self.new_path_sum_size@,
            old_ref_file_count: self.old_ref_file_count@,
            new_ref_file_count: self.new_ref_file_count@,
            old_ref_size: self.old_ref_size@,
            new_ref_size: self.new_ref_size@,
            head_data_size: self.head_data_size@,
            head_data_compressed_size: self.head_data_compressed_size@,
            checksum_byte_size: self.checksum_byte_size@,
            checksum: self.checksum@,
            head_data: self.head_data@,
            main_diff: self.main_diff@,
        }
    }
}

/// The bytes `HDIFF19&zstd&fadler64`, a zero, and two bytes of value one:
/// a directory patch, compressed with zstd, checked with fadler64, from a
/// directory to a directory.
pub open spec fn outer_magic() -> Seq<u8> {
    seq![
        0x48u8, 0x44, 0x49, 0x46, 0x46, 0x31, 0x39, 0x26, 0x7a, 0x73, 0x74, 0x64, 0x26, 0x66,
        0x61, 0x64, 0x6c, 0x65, 0x72, 0x36, 0x34, 0x00, 0x01, 0x01,
    ]
}

/// A header field that only a variant that is not handled would set: an
/// integer without tag bits whose value must be zero.
pub open spec fn spec_read_reserved(s: Seq<u8>, pos: int) -> Result<((), int), DiffError> {
    match spec_match_varint(s, pos, 0) {
        Ok(end) => Ok(((), end)),
        Err(e) => if e == DiffError::VarIntMismatch {
            Err(DiffError::UnsupportedVariant)
        } else {
            Err(e)
        },
    }
}

/// A header field that must be zero.
pub open spec fn reserved_item() -> Item<()> {
    |s: Seq<u8>, pos: int| spec_read_reserved(s, pos)
}

/// The container at `pos` and the position behind the covers of its inner
/// container.
///
/// It is, in this order: the magic bytes, where anything else is
/// `UnsupportedVariant`; the eight counts and sums of the two trees; six
/// fields that must be zero; the two sizes of the head section and the size
/// of the checksum in words of four bytes; the checksum; the head section;
/// the inner container.
pub open spec fn spec_dir_diff(s: Seq<u8>, pos: int) -> Result<(DirDiffModel, int), DiffError> {
    match spec_match_bytes(s, pos, outer_magic()) {
        Err(e) => if e == DiffError::MagicMismatch {
            Err(DiffError::UnsupportedVariant)
        } else {
            Err(e)
        },
        Ok(counts_at) => match spec_repeat(plain_item(), s, counts_at, 8) {
            Err(e) => Err(e),
            Ok((c, reserved_at)) => match spec_repeat(reserved_item(), s, reserved_at, 6) {
                Err(e) => Err(e),
                Ok((_, sizes_at)) => match spec_repeat(plain_item(), s, sizes_at, 3) {
                    Err(e) => Err(e),
                    Ok((h, checksum_at)) => match spec_read_bytes(s, checksum_at, 4 * h[2]) {
                        Err(e) => Err(e),
                        Ok((checksum, head_at)) => match spec_head_data(
                            s,
                            head_at,
                            h[0],
                            h[1],
                            c[0] as nat,
                            c[2] as nat,
                            c[4] as nat,
                            c[6] as nat,
                        ) {
                            Err(e) => Err(e),
                            Ok((head_data, main_at)) => match spec_diff_z(s, main_at) {
                                Err(e) => Err(e),
                                Ok((main_diff, end)) => Ok(
                                    (
                                        DirDiffModel {
                                            compression_type: "zstd"@,
                                            checksum_type: "fadler64"@,
                                            old_path_is_dir: true,
                                            new_path_is_dir: true,
                                            old_path_count: c[0],
                                            old_path_sum_size: c[1],
                                            new_path_count: c[2],
                                            new_path_sum_size: c[3],
                                            old_ref_file_count: c[4],
                                            old_ref_size: c[5],
                                            new_ref_file_count: c[6],
                                            new_ref_size: c[7],
                                            head_data_size: h[0],
                                            head_data_compressed_size: h[1],
                                            checksum_byte_size: h[2],
                                            checksum,
                                            head_data,
                                            main_diff,
                                        },
                                        end,
                                    ),
                                ),
                            },
                        },
                    },
                },
            },
        },
    }
}

/// The sizes and counts of the inner container of a decoded container are in
/// range.
pub proof fn lemma_dir_diff_in_range(s: Seq<u8>, pos: int)
    ensures
        spec_dir_diff(s, pos) matches Ok((diff, _)) ==> diff.main_diff.in_range(),
{
    match spec_dir_diff(s, pos) {
        Err(_) => {},
        Ok(_) => {
            let counts_at = spec_match_bytes(s, pos, outer_magic())->Ok_0;
            let (c, reserved_at) = spec_repeat(plain_item(), s, counts_at, 8)->Ok_0;
            let (_, sizes_at) = spec_repeat(reserved_item(), s, reserved_at, 6)->Ok_0;
            let (h, checksum_at) = spec_repeat(plain_item(), s, sizes_at, 3)->Ok_0;
            let (_, head_at) = spec_read_bytes(s, checksum_at, 4 * h[2])->Ok_0;
            let (_, main_at) = spec_head_data(
                s,
                head_at,
                h[0],
                h[1],
                c[0] as nat,
                c[2] as nat,
                c[4] as nat,
                c[6] as nat,
            )->Ok_0;
            lemma_diff_z_in_range(s, main_at);
        },
    }
}

/// One byte that differs from the magic bytes decides: the container is an
/// `UnsupportedVariant`, whatever stands behind that byte and however much of
/// it there is.
pub proof fn lemma_outer_magic_decides(s: Seq<u8>, pos: int, i: int)
    requires
        0 <= pos,
        0 <= i < outer_magic().len(),
        pos + i < s.len(),
        s[pos + i] != outer_magic()[i],
    ensures
        spec_dir_diff(s, pos) == Err::<(DirDiffModel, int), DiffError>(
            DiffError::UnsupportedVariant,
        ),
{
    lemma_magic_differs(s, pos, outer_magic(), i);
}

/// One byte that differs from the magic bytes decides: the inner container is
/// a `MagicMismatch`, whatever stands behind that byte and however much of it
/// there is.
pub proof fn lemma_inner_magic_decides(s: Seq<u8>, pos: int, i: int)
    requires
        0 <= pos,
        0 <= i < inner_magic().len(),
        pos + i < s.len(),
        s[pos + i] != inner_magic()[i],
    ensures
        spec_diff_z(s, pos) == Err::<(DiffZModel, int), DiffError>(DiffError::MagicMismatch),
{
    lemma_magic_differs(s, pos, inner_magic(), i);
}

/// Expected bytes are not matched where one byte of the input differs from
/// them.
pub proof fn lemma_magic_differs(s: Seq<u8>, pos: int, expected: Seq<u8>, i: int)
    requires
        0 <= pos,
        0 <= i < expected.len(),
        pos + i < s.len(),
        s[pos + i] != expected[i],
    ensures
        spec_match_bytes(s, pos, expected) == Err::<int, DiffError>(DiffError::MagicMismatch),
{
    let left = s.len() - pos;
    let shared = if left < expected.len() {
        left
    } else {
        expected.len() as int
    };
    assert(s.subrange(pos, pos + shared)[i] != expected.take(shared)[i]);
}

/// Reads `n` header fields that must be zero.
fn read_reserved(parser: &mut Parser, n: u64) -> (r: Result<(), DiffError>)
    ensures
        match spec_repeat(reserved_item(), old(parser).bytes(), old(parser).offset(), n as nat) {
            Ok((_, end)) => r == Ok::<(), DiffError>(()) && final(parser).moved(*old(parser), end),
            Err(e) => r == Err::<(), DiffError>(e) && *final(parser) == *old(parser),
        },
{
    let ghost s = parser.bytes();
    let ghost start = parser.offset();
    let mut fork = *parser;
    let mut i: u64 = 0;
    while i < n
        invariant
            i <= n,
            *parser == *old(parser),
            s == parser.bytes(),
            start == parser.offset(),
            fork.bytes() == s,
            fork.label() == parser.label(),
            spec_repeat(reserved_item(), s, start, i as nat) matches Ok((_, end)) && end
                == fork.offset(),
        decreases n - i,
    {
        match fork.match_varint(0) {
            Err(e) => {
                proof {
                    assert(spec_repeat(reserved_item(), s, start, (i + 1) as nat) is Err);
                    lemma_repeat_failure(reserved_item(), s, start, (i + 1) as nat, n as nat);
                }
                return Err(
                    match e {
                        DiffError::VarIntMismatch => DiffError::UnsupportedVariant,
                        _ => e,
                    },
                );
            },
            Ok(()) => {},
        }
        i = i + 1;
    }
    *parser = fork;
    Ok(())
}

impl DirDiff {
    /// Reads the container at the cursor, up to and with the covers of its
    /// inner container.
    pub fn parse(parser: &mut Parser) -> (r: Result<Self, DiffError>)
        ensures
            match spec_dir_diff(old(parser).bytes(), old(parser).offset()) {
                Ok((diff, end)) => r matches Ok(d) && d@ == diff && d.head_data.well_formed()
                    && final(parser).moved(*old(parser), end),
                Err(e) => r matches Err(x) && x == e && *final(parser) == *old(parser),
            },
    {
        let magic: [u8; 24] = [
            0x48,
            0x44,
            0x49,
            0x46,
            0x46,
            0x31,
            0x39,
            0x26,
            0x7a,
            0x73,
            0x74,
            0x64,
            0x26,
            0x66,
            0x61,
            0x64,
            0x6c,
            0x65,
            0x72,
            0x36,
            0x34,
            0x00,
            0x01,
            0x01,
        ];
        assert(magic@ =~= outer_magic());
        let mut fork = *parser;
        match fork.match_bytes(magic.as_slice()) {
            Err(DiffError::MagicMismatch) => {
                return Err(DiffError::UnsupportedVariant);
            },
            Err(e) => {
                return Err(e);
            },
            Ok(()) => {},
        }
        let ghost counts_at = fork.offset();
        let c = read_plain(&mut fork, 8)?;
        read_reserved(&mut fork, 6)?;
        let ghost sizes_at = fork.offset();
        let h = read_plain(&mut fork, 3)?;
        proof {
            lemma_repeat_len(plain_item(), parser.bytes(), counts_at, 8);
            lemma_repeat_len(plain_item(), parser.bytes(), sizes_at, 3);
            assert(forall|i: int| 0 <= i < 8 ==> values(c@)[i] == c@[i]@);
            assert(forall|i: int| 0 <= i < 3 ==> values(h@)[i] == h@[i]@);
        }
        let words: u64 = h[2].0 as u64;
        if words > (fork.remaining() / 4) as u64 {
            return Err(DiffError::UnexpectedEof);
        }
        let checksum = fork.read_bytes((words * 4) as usize)?;
        let head_data = HeadData::parse(
            &mut fork,
            h[0].0 as u64,
            h[1].0 as u64,
            c[0].0 as u64,
            c[2].0 as u64,
            c[4].0 as u64,
            c[6].0 as u64,
        )?;
        let main_diff = DiffZ::parse(&mut fork)?;
        *parser = fork;
        Ok(
            DirDiff {
                compression_type: "zstd".to_owned(),
                checksum_type: "fadler64".to_owned(),
                old_path_is_dir: true,
                new_path_is_dir: true,
                old_path_count: c[0],
                old_path_sum_size: c[1],
                new_path_count: c[2],
                new_path_sum_size: c[3],
                old_ref_file_count: c[4],
                old_ref_size: c[5],
                new_ref_file_count: c[6],
                new_ref_size: c[7],
                head_data_size: h[0],
                head_data_compressed_size: h[1],
                checksum_byte_size: h[2],
                checksum,
                head_data,
                main_diff,
            },
        )
    }
}

} // verus!
