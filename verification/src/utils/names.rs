//! Names of files and directories.
//!
//! The format tells a directory from a file by the bytes of its name. Here is
//! what that comes to for the name as a string.
use vstd::prelude::*;
use vstd::utf8::char_is_scalar;
use vstd::utf8::char_u32_cast;
use vstd::utf8::encode_scalar;
use vstd::utf8::encode_utf8;
use vstd::utf8::has_width_1_encoding;
use crate::utils::is_directory_name;

verus! {

/// Whether a name is that of a directory: it is empty or ends in `/`.
pub open spec fn is_directory(name: Seq<char>) -> bool {
    name.len() == 0 || name.last() == '/'
}

/// The bytes of one character are at least one, and the last of them is the
/// byte of `/` for that character alone.
proof fn lemma_scalar_last_byte(c: char)
    ensures
        encode_scalar(c as u32).len() > 0,
        (encode_scalar(c as u32).last() == 0x2f) == (c == '/'),
{
    let v = c as u32;
    char_is_scalar(c);
    if has_width_1_encoding(v) {
        assert((v & 0x7f) as u8 == v) by (bit_vector)
            requires
                v <= 0x7f,
        ;
        if v == 0x2f {
            char_u32_cast(c, 0x2fu32);
        }
    } else {
        assert((0x80u8 | (v & 0x3f) as u8) >= 0x80) by (bit_vector);
    }
}

/// The bytes of a name end as the name does: they are empty for the empty
/// name alone, and they end in the byte of `/` where the name ends in `/`.
pub proof fn lemma_name_last_byte(name: Seq<char>)
    ensures
        (encode_utf8(name).len() == 0) == (name.len() == 0),
        name.len() > 0 ==> (encode_utf8(name).last() == 0x2f) == (name.last() == '/'),
    decreases name.len(),
{
    if name.len() > 0 {
        let head = encode_scalar(name[0] as u32);
        let rest = name.drop_first();
        lemma_scalar_last_byte(name[0]);
        lemma_name_last_byte(rest);
        if rest.len() > 0 {
            assert(encode_utf8(name).last() == encode_utf8(rest).last());
            assert(name.last() == rest.last());
        } else {
            assert(encode_utf8(name) =~= head);
        }
    }
}

/// A name is taken for a directory by its bytes exactly where it is empty or
/// ends in `/`.
pub proof fn lemma_directory_names(name: Seq<char>)
    ensures
        is_directory_name(encode_utf8(name)) == is_directory(name),
{
    lemma_name_last_byte(name);
}

} // verus!
