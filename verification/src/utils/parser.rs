//! A cursor over the bytes of a container, with the primitive reads of the
//! format.
//!
//! Every read either succeeds and moves the cursor behind what it read, or
//! fails and leaves the cursor where it was.
use vstd::prelude::*;
use vstd::slice::slice_subrange;
use vstd::slice::slice_to_vec;
use vstd::utf8::decode_utf8;
use vstd::utf8::encode_utf8;
use vstd::utf8::encode_utf8_decode_utf8;
use vstd::utf8::valid_utf8;
use crate::utils::codec::zstd_decode_all;
use crate::utils::codec::zstd_decoded;
use crate::utils::error::DiffError;
use crate::utils::varint::decode_varint;
use crate::utils::varint::spec_read_varint;
use crate::utils::varint::VarInt;
use crate::utils::varint::MAX_MAGNITUDE;

verus! {

/// The byte at `pos` and the position behind it.
pub open spec fn spec_read(s: Seq<u8>, pos: int) -> Result<(u8, int), DiffError> {
    if 0 <= pos < s.len() {
        Ok((s[pos], pos + 1))
    } else {
        Err(DiffError::UnexpectedEof)
    }
}

/// The `n` bytes from `pos` on and the position behind them.
pub open spec fn spec_read_bytes(s: Seq<u8>, pos: int, n: int) -> Result<
    (Seq<u8>, int),
    DiffError,
> {
    if 0 <= pos && 0 <= n && pos + n <= s.len() {
        Ok((s.subrange(pos, pos + n), pos + n))
    } else {
        Err(DiffError::UnexpectedEof)
    }
}

/// The position of the first byte equal to `c` at or behind `pos`.
pub open spec fn spec_find(s: Seq<u8>, pos: int, c: u8) -> Option<int>
    decreases s.len() - pos,
{
    if pos < 0 || pos >= s.len() {
        None
    } else if s[pos] == c {
        Some(pos)
    } else {
        spec_find(s, pos + 1, c)
    }
}

/// The bytes from `pos` up to the first `c`, and the position behind that `c`.
pub open spec fn spec_read_until(s: Seq<u8>, pos: int, c: u8) -> Result<(Seq<u8>, int), DiffError> {
    match spec_find(s, pos, c) {
        None => Err(DiffError::UnexpectedEof),
        Some(at) => Ok((s.subrange(pos, at), at + 1)),
    }
}

/// The bytes of the zero-terminated string at `pos`, without the zero, and the
/// position behind the zero. The bytes must be valid UTF-8.
pub open spec fn spec_read_string(s: Seq<u8>, pos: int) -> Result<(Seq<u8>, int), DiffError> {
    match spec_read_until(s, pos, 0) {
        Err(e) => Err(e),
        Ok((raw, end)) => if valid_utf8(raw) {
            Ok((raw, end))
        } else {
            Err(DiffError::InvalidUtf8)
        },
    }
}

/// The position behind `expected`, where it stands at `pos`.
///
/// The bytes that the input still has are held against the start of
/// `expected`: a difference among them is `MagicMismatch`, however short the
/// input; an input that agrees as far as it goes but ends early is
/// `UnexpectedEof`.
pub open spec fn spec_match_bytes(s: Seq<u8>, pos: int, expected: Seq<u8>) -> Result<
    int,
    DiffError,
> {
    let left = if 0 <= pos <= s.len() {
        s.len() - pos
    } else {
        0
    };
    let shared = if left < expected.len() {
        left
    } else {
        expected.len() as int
    };
    if shared > 0 && s.subrange(pos, pos + shared) != expected.take(shared) {
        Err(DiffError::MagicMismatch)
    } else if shared < expected.len() {
        Err(DiffError::UnexpectedEof)
    } else {
        Ok(pos + expected.len())
    }
}

/// The position behind the integer at `pos`, written without tag bits, where
/// its value is `expected`.
pub open spec fn spec_match_varint(s: Seq<u8>, pos: int, expected: int) -> Result<int, DiffError> {
    match spec_read_varint(s, pos, 0) {
        Err(e) => Err(e),
        Ok((value, end)) => if value == expected {
            Ok(end)
        } else {
            Err(DiffError::VarIntMismatch)
        },
    }
}

/// What a section's unpacking comes to: `decoded` itself where it has the
/// declared `size`.
pub open spec fn spec_checked_section(decoded: Option<Seq<u8>>, size: int) -> Result<
    Seq<u8>,
    DiffError,
> {
    match decoded {
        None => Err(DiffError::Decompression),
        Some(bytes) => if bytes.len() == size {
            Ok(bytes)
        } else {
            Err(DiffError::SizeMismatch)
        },
    }
}

/// The content of the section at `pos` and the position behind it.
///
/// With `compressed_size > 0` the section takes that many bytes of input and
/// its content is what they unpack to, which must be `size` bytes long.
/// Otherwise the section is `size` bytes of input, taken as they are.
pub open spec fn spec_read_maybe_compressed(
    s: Seq<u8>,
    pos: int,
    size: int,
    compressed_size: int,
) -> Result<(Seq<u8>, int), DiffError> {
    if compressed_size > 0 {
        match spec_read_bytes(s, pos, compressed_size) {
            Err(e) => Err(e),
            Ok((packed, end)) => match spec_checked_section(zstd_decoded(packed), size) {
                Err(e) => Err(e),
                Ok(bytes) => Ok((bytes, end)),
            },
        }
    } else {
        spec_read_bytes(s, pos, size)
    }
}

/// `std::string::FromUtf8Error`, the error of `String::from_utf8`. Nothing is
/// claimed of its values; it is matched away where the call returns.
#[verifier::external_type_specification]
#[verifier::external_body]
pub struct ExFromUtf8Error(std::string::FromUtf8Error);

/// Calls `String::from_utf8`. The contract claims what its documentation
/// says: it accepts exactly the byte sequences that are valid UTF-8, and the
/// string it makes has those bytes. Nothing here is proved.
#[verifier::external_body]
fn string_from_utf8(bytes: Vec<u8>) -> (r: Result<String, std::string::FromUtf8Error>)
    ensures
        r is Ok <==> valid_utf8(bytes@),
        r matches Ok(s) ==> encode_utf8(s@) == bytes@,
{
    String::from_utf8(bytes)
}

/// A cursor over the bytes of a container.
#[derive(Clone, Copy, Debug)]
pub struct Parser<'a> {
    data: &'a [u8],
    pos: usize,
    context: &'a str,
}

impl<'a> Parser<'a> {
    #[verifier::type_invariant]
    spec fn in_bounds(self) -> bool {
        self.pos <= self.data@.len()
    }

    /// The bytes the cursor runs over.
    pub closed spec fn bytes(&self) -> Seq<u8> {
        self.data@
    }

    /// How many bytes lie before the cursor.
    pub closed spec fn offset(&self) -> int {
        self.pos as int
    }

    /// The label given to the cursor when it was made.
    pub closed spec fn label(&self) -> Seq<char> {
        self.context@
    }

    /// Whether `self` is `before` moved to `end`.
    pub open spec fn moved(&self, before: Self, end: int) -> bool {
        &&& self.bytes() == before.bytes()
        &&& self.label() == before.label()
        &&& self.offset() == end
    }

    /// A cursor at the start of `reader`. `context` names the section for
    /// whoever reports a failure.
    pub fn from_reader(reader: &'a [u8], context: &'a str) -> (p: Self)
        ensures
            p.bytes() == reader@,
            p.offset() == 0,
            p.label() == context@,
    {
        Parser { data: reader, pos: 0, context }
    }

    /// A cursor at the start of `data`, for a section that was cut out of the
    /// input of `self` or unpacked from it.
    pub fn sub_parser<'b>(&self, data: &'b [u8], context: &'b str) -> (p: Parser<'b>)
        ensures
            p.bytes() == data@,
            p.offset() == 0,
            p.label() == context@,
    {
        Parser::from_reader(data, context)
    }

    /// The label given to the cursor when it was made.
    pub fn context(&self) -> (c: &'a str)
        ensures
            c@ == self.label(),
    {
        self.context
    }

    /// How many bytes lie before the cursor.
    pub fn position(&self) -> (p: u64)
        ensures
            p == self.offset(),
            0 <= self.offset() <= self.bytes().len(),
    {
        proof {
            use_type_invariant(self);
        }
        self.pos as u64
    }

    /// How many bytes lie behind the cursor.
    pub fn remaining(&self) -> (n: usize)
        ensures
            n == self.bytes().len() - self.offset(),
            0 <= self.offset() <= self.bytes().len(),
    {
        proof {
            use_type_invariant(self);
        }
        self.data.len() - self.pos
    }

    /// Succeeds where exactly `b` bytes lie before the cursor.
    pub fn check_read(&self, b: u64) -> (r: Result<(), DiffError>)
        ensures
            r == if self.offset() == b {
                Ok::<(), DiffError>(())
            } else {
                Err::<(), DiffError>(DiffError::SectionLength)
            },
    {
        if self.position() != b {
            Err(DiffError::SectionLength)
        } else {
            Ok(())
        }
    }

    /// Reads one byte.
    pub fn read(&mut self) -> (r: Result<u8, DiffError>)
        ensures
            match spec_read(old(self).bytes(), old(self).offset()) {
                Ok((byte, end)) => r == Ok::<u8, DiffError>(byte) && final(self).moved(
                    *old(self),
                    end,
                ),
                Err(e) => r == Err::<u8, DiffError>(e) && *final(self) == *old(self),
            },
    {
        proof {
            use_type_invariant(&*self);
        }
        if self.pos >= self.data.len() {
            return Err(DiffError::UnexpectedEof);
        }
        let byte: u8 = self.data[self.pos];
        self.pos = self.pos + 1;
        Ok(byte)
    }

    /// Reads `n` bytes.
    pub fn read_bytes(&mut self, n: usize) -> (r: Result<Vec<u8>, DiffError>)
        ensures
            match spec_read_bytes(old(self).bytes(), old(self).offset(), n as int) {
                Ok((bytes, end)) => r matches Ok(v) && v@ == bytes && final(self).moved(
                    *old(self),
                    end,
                ),
                Err(e) => r == Err::<Vec<u8>, DiffError>(e) && *final(self) == *old(self),
            },
    {
        proof {
            use_type_invariant(&*self);
        }
        if n > self.data.len() - self.pos {
            return Err(DiffError::UnexpectedEof);
        }
        let bytes = slice_to_vec(slice_subrange(self.data, self.pos, self.pos + n));
        self.pos = self.pos + n;
        Ok(bytes)
    }

    /// Moves over `n` bytes without looking at them.
    pub fn skip(&mut self, n: u64) -> (r: Result<(), DiffError>)
        ensures
            match spec_read_bytes(old(self).bytes(), old(self).offset(), n as int) {
                Ok((_, end)) => r == Ok::<(), DiffError>(()) && final(self).moved(*old(self), end),
                Err(e) => r == Err::<(), DiffError>(e) && *final(self) == *old(self),
            },
    {
        proof {
            use_type_invariant(&*self);
        }
        if n > (self.data.len() - self.pos) as u64 {
            return Err(DiffError::UnexpectedEof);
        }
        self.pos = self.pos + n as usize;
        Ok(())
    }

    /// Appends to `buffer` the bytes up to the next `c` and moves behind
    /// that `c`. Without a `c` ahead, nothing is appended.
    pub fn read_until(&mut self, c: u8, buffer: &mut Vec<u8>) -> (r: Result<(), DiffError>)
        ensures
            match spec_read_until(old(self).bytes(), old(self).offset(), c) {
                Ok((bytes, end)) => r == Ok::<(), DiffError>(())
                    && final(buffer)@ == old(buffer)@ + bytes
                    && final(self).moved(*old(self), end),
                Err(e) => r == Err::<(), DiffError>(e) && *final(self) == *old(self)
                    && final(buffer)@ == old(buffer)@,
            },
    {
        proof {
            use_type_invariant(&*self);
        }
        let mut at: usize = self.pos;
        while at < self.data.len() && self.data[at] != c
            invariant
                self.pos <= at <= self.data@.len(),
                spec_find(self.data@, self.pos as int, c) == spec_find(self.data@, at as int, c),
            decreases self.data@.len() - at,
        {
            at = at + 1;
        }
        if at >= self.data.len() {
            return Err(DiffError::UnexpectedEof);
        }
        buffer.extend_from_slice(slice_subrange(self.data, self.pos, at));
        self.pos = at + 1;
        Ok(())
    }

    /// Reads a zero-terminated string and moves behind the zero.
    pub fn read_string(&mut self) -> (r: Result<String, DiffError>)
        ensures
            match spec_read_string(old(self).bytes(), old(self).offset()) {
                Ok((bytes, end)) => r matches Ok(name) && encode_utf8(name@) == bytes && name@
                    == decode_utf8(bytes) && final(self).moved(*old(self), end),
                Err(e) => r == Err::<String, DiffError>(e) && *final(self) == *old(self),
            },
    {
        let mut fork: Parser<'a> = *self;
        let mut buffer: Vec<u8> = Vec::new();
        match fork.read_until(0, &mut buffer) {
            Err(e) => Err(e),
            Ok(()) => {
                assert(buffer@ =~= spec_read_until(self.bytes(), self.offset(), 0)->Ok_0.0);
                match string_from_utf8(buffer) {
                    Err(_) => Err(DiffError::InvalidUtf8),
                    Ok(name) => {
                        proof {
                            encode_utf8_decode_utf8(name@);
                        }
                        *self = fork;
                        Ok(name)
                    },
                }
            },
        }
    }

    /// Reads an integer written with `k_tag_bit` tag bits.
    pub fn read_varint(&mut self, k_tag_bit: u8) -> (r: Result<VarInt, DiffError>)
        requires
            k_tag_bit <= 7,
        ensures
            match spec_read_varint(old(self).bytes(), old(self).offset(), k_tag_bit) {
                Ok((value, end)) => r matches Ok(x) && x@ == value && final(self).moved(
                    *old(self),
                    end,
                ) && -(MAX_MAGNITUDE as int) <= value <= MAX_MAGNITUDE as int && (k_tag_bit == 0
                    ==> value >= 0),
                Err(e) => r == Err::<VarInt, DiffError>(e) && *final(self) == *old(self),
            },
    {
        match decode_varint(self.data, self.pos, k_tag_bit) {
            Err(e) => Err(e),
            Ok((value, end)) => {
                self.pos = end;
                Ok(value)
            },
        }
    }

    /// Reads an integer written without tag bits and succeeds where its value
    /// is `expected`.
    pub fn match_varint(&mut self, expected: u64) -> (r: Result<(), DiffError>)
        ensures
            match spec_match_varint(old(self).bytes(), old(self).offset(), expected as int) {
                Ok(end) => r == Ok::<(), DiffError>(()) && final(self).moved(*old(self), end),
                Err(e) => r == Err::<(), DiffError>(e) && *final(self) == *old(self),
            },
    {
        match decode_varint(self.data, self.pos, 0) {
            Err(e) => Err(e),
            Ok((value, end)) => {
                if value.0 < 0 || value.0 as u64 != expected {
                    Err(DiffError::VarIntMismatch)
                } else {
                    self.pos = end;
                    Ok(())
                }
            },
        }
    }

    /// Succeeds where the next byte is `expected`, and moves behind it.
    pub fn match_byte(&mut self, expected: u8) -> (r: Result<(), DiffError>)
        ensures
            match spec_match_bytes(old(self).bytes(), old(self).offset(), seq![expected]) {
                Ok(end) => r == Ok::<(), DiffError>(()) && final(self).moved(*old(self), end),
                Err(e) => r == Err::<(), DiffError>(e) && *final(self) == *old(self),
            },
    {
        let one: [u8; 1] = [expected];
        assert(one@ =~= seq![expected]);
        self.match_bytes(one.as_slice())
    }

    /// Succeeds where the next bytes are `expected`, and moves behind them.
    pub fn match_bytes(&mut self, expected: &[u8]) -> (r: Result<(), DiffError>)
        ensures
            match spec_match_bytes(old(self).bytes(), old(self).offset(), expected@) {
                Ok(end) => r == Ok::<(), DiffError>(()) && final(self).moved(*old(self), end),
                Err(e) => r == Err::<(), DiffError>(e) && *final(self) == *old(self),
            },
    {
        proof {
            use_type_invariant(&*self);
        }
        let left: usize = self.data.len() - self.pos;
        let shared: usize = if left < expected.len() {
            left
        } else {
            expected.len()
        };
        let mut i: usize = 0;
        while i < shared
            invariant
                i <= shared,
                shared <= expected@.len(),
                self.pos + shared <= self.data@.len() <= usize::MAX,
                self.data@.subrange(self.pos as int, self.pos + i) == expected@.take(i as int),
            decreases shared - i,
        {
            if self.data[self.pos + i] != expected[i] {
                assert(self.data@.subrange(self.pos as int, self.pos + shared)[i as int]
                    != expected@.take(shared as int)[i as int]);
                return Err(DiffError::MagicMismatch);
            }
            assert(self.data@.subrange(self.pos as int, self.pos + i + 1)
                =~= self.data@.subrange(self.pos as int, self.pos + i).push(
                self.data@[self.pos + i],
            ));
            assert(expected@.take(i + 1) =~= expected@.take(i as int).push(expected@[i as int]));
            i = i + 1;
        }
        if shared < expected.len() {
            return Err(DiffError::UnexpectedEof);
        }
        self.pos = self.pos + shared;
        Ok(())
    }

    /// What a section's unpacking comes to: `decoded` itself where it has the
    /// declared `size`, `Decompression` where there is none, `SizeMismatch`
    /// where the length is another.
    pub fn checked_section(decoded: Option<Vec<u8>>, size: u64) -> (r: Result<Vec<u8>, DiffError>)
        ensures
            match spec_checked_section(
                match decoded {
                    Some(v) => Some(v@),
                    None => None,
                },
                size as int,
            ) {
                Ok(bytes) => r matches Ok(v) && v@ == bytes,
                Err(e) => r == Err::<Vec<u8>, DiffError>(e),
            },
    {
        match decoded {
            None => Err(DiffError::Decompression),
            Some(bytes) => {
                if bytes.len() as u64 != size {
                    Err(DiffError::SizeMismatch)
                } else {
                    Ok(bytes)
                }
            },
        }
    }

    /// Reads a section that is declared to hold `size` bytes and, where
    /// `compressed_size > 0`, to be stored compressed in that many bytes.
    pub fn read_maybe_compressed(&mut self, size: u64, compressed_size: u64) -> (r: Result<
        Vec<u8>,
        DiffError,
    >)
        ensures
            match spec_read_maybe_compressed(
                old(self).bytes(),
                old(self).offset(),
                size as int,
                compressed_size as int,
            ) {
                Ok((bytes, end)) => r matches Ok(v) && v@ == bytes && final(self).moved(
                    *old(self),
                    end,
                ),
                Err(e) => r == Err::<Vec<u8>, DiffError>(e) && *final(self) == *old(self),
            },
    {
        proof {
            use_type_invariant(&*self);
        }
        let stored: u64 = if compressed_size > 0 {
            compressed_size
        } else {
            size
        };
        if stored > (self.data.len() - self.pos) as u64 {
            return Err(DiffError::UnexpectedEof);
        }
        let mut fork: Parser<'a> = *self;
        let raw = fork.read_bytes(stored as usize)?;
        let content = if compressed_size > 0 {
            let decoded = match zstd_decode_all(raw.as_slice()) {
                Ok(bytes) => Some(bytes),
                Err(_) => None,
            };
            Self::checked_section(decoded, size)?
        } else {
            raw
        };
        *self = fork;
        Ok(content)
    }
}

} // verus!
