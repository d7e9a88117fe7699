//! Runs of items of one kind, as the tables of the container hold them.
use vstd::prelude::*;
use vstd::utf8::encode_utf8;
use crate::utils::error::DiffError;
use crate::utils::parser::spec_read_string;
use crate::utils::parser::Parser;
use crate::utils::varint::lemma_varint_range;
use crate::utils::varint::spec_read_varint;
use crate::utils::varint::VarInt;

verus! {

/// How one item is read: from the input and a position to the item and the
/// position behind it.
pub type Item<T> = spec_fn(Seq<u8>, int) -> Result<(T, int), DiffError>;

/// `n` items in a row from `pos` on, and the position behind the last.
/// The first item that cannot be read decides the failure.
pub open spec fn spec_repeat<T>(item: Item<T>, s: Seq<u8>, pos: int, n: nat) -> Result<
    (Seq<T>, int),
    DiffError,
>
    decreases n,
{
    if n == 0 {
        Ok((Seq::empty(), pos))
    } else {
        match spec_repeat(item, s, pos, (n - 1) as nat) {
            Err(e) => Err(e),
            Ok((front, mid)) => match item(s, mid) {
                Err(e) => Err(e),
                Ok((x, end)) => Ok((front.push(x), end)),
            },
        }
    }
}

/// A run that fails after `i` items fails in the same way however many more
/// are asked for.
pub proof fn lemma_repeat_failure<T>(item: Item<T>, s: Seq<u8>, pos: int, i: nat, n: nat)
    requires
        i <= n,
        spec_repeat(item, s, pos, i) is Err,
    ensures
        spec_repeat(item, s, pos, n) == spec_repeat(item, s, pos, i),
    decreases n,
{
    if i < n {
        lemma_repeat_failure(item, s, pos, i, (n - 1) as nat);
    }
}

/// A run of `n` items holds `n` items.
pub proof fn lemma_repeat_len<T>(item: Item<T>, s: Seq<u8>, pos: int, n: nat)
    ensures
        spec_repeat(item, s, pos, n) matches Ok((items, _)) ==> items.len() == n,
    decreases n,
{
    if n > 0 {
        lemma_repeat_len(item, s, pos, (n - 1) as nat);
    }
}

/// An integer written without tag bits.
pub open spec fn plain_item() -> Item<int> {
    |s: Seq<u8>, pos: int| spec_read_varint(s, pos, 0)
}

/// Integers without tag bits are not negative and fit in 63 bits.
pub proof fn lemma_plain_range(s: Seq<u8>, pos: int, n: nat)
    ensures
        spec_repeat(plain_item(), s, pos, n) matches Ok((items, _)) ==> forall|i: int|
            0 <= i < items.len() ==> 0 <= #[trigger] items[i] <= i64::MAX,
    decreases n,
{
    if n > 0 {
        lemma_plain_range(s, pos, (n - 1) as nat);
        match spec_repeat(plain_item(), s, pos, (n - 1) as nat) {
            Err(_) => {},
            Ok((_, mid)) => {
                lemma_varint_range(s, mid, 0);
            },
        }
    }
}

/// A zero-terminated name.
pub open spec fn name_item() -> Item<Seq<u8>> {
    |s: Seq<u8>, pos: int| spec_read_string(s, pos)
}

/// The index of a reference: an integer without tag bits that is less
/// than 128.
pub open spec fn spec_read_index(s: Seq<u8>, pos: int) -> Result<(int, int), DiffError> {
    match spec_read_varint(s, pos, 0) {
        Err(e) => Err(e),
        Ok((value, end)) => if value < 128 {
            Ok((value, end))
        } else {
            Err(DiffError::ReferenceIndex)
        },
    }
}

/// The index of a reference.
pub open spec fn index_item() -> Item<int> {
    |s: Seq<u8>, pos: int| spec_read_index(s, pos)
}

/// The values of `v` as mathematical integers.
pub open spec fn values(v: Seq<VarInt>) -> Seq<int> {
    v.map_values(|x: VarInt| x@)
}

/// The bytes of each name in `v`.
pub open spec fn name_bytes(v: Seq<String>) -> Seq<Seq<u8>> {
    v.map_values(|name: String| encode_utf8(name@))
}

/// The values of `v` as mathematical integers.
pub open spec fn widened(v: Seq<u8>) -> Seq<int> {
    v.map_values(|x: u8| x as int)
}

/// Reads `n` integers written without tag bits.
pub fn read_plain(parser: &mut Parser, n: u64) -> (r: Result<Vec<VarInt>, DiffError>)
    ensures
        match spec_repeat(plain_item(), old(parser).bytes(), old(parser).offset(), n as nat) {
            Ok((items, end)) => r matches Ok(v) && values(v@) == items && final(parser).moved(
                *old(parser),
                end,
            ) && forall|i: int| 0 <= i < items.len() ==> 0 <= #[trigger] items[i] <= i64::MAX,
            Err(e) => r == Err::<Vec<VarInt>, DiffError>(e) && *final(parser) == *old(parser),
        },
{
    let ghost s = parser.bytes();
    let ghost start = parser.offset();
    let mut fork = *parser;
    let mut out: Vec<VarInt> = Vec::new();
    let mut i: u64 = 0;
    assert(values(out@) =~= Seq::<int>::empty());
    while i < n
        invariant
            i <= n,
            *parser == *old(parser),
            s == parser.bytes(),
            start == parser.offset(),
            fork.bytes() == s,
            fork.label() == parser.label(),
            spec_repeat(plain_item(), s, start, i as nat) == Ok::<(Seq<int>, int), DiffError>(
                (values(out@), fork.offset()),
            ),
            forall|j: int| 0 <= j < out@.len() ==> 0 <= #[trigger] values(out@)[j] <= i64::MAX,
        decreases n - i,
    {
        match fork.read_varint(0) {
            Err(e) => {
                proof {
                    assert(spec_repeat(plain_item(), s, start, (i + 1) as nat) is Err);
                    lemma_repeat_failure(plain_item(), s, start, (i + 1) as nat, n as nat);
                }
                return Err(e);
            },
            Ok(x) => {
                assert(values(out@.push(x)) =~= values(out@).push(x@));
                out.push(x);
            },
        }
        i = i + 1;
    }
    *parser = fork;
    Ok(out)
}

/// Reads `n` reference indices.
pub fn read_indices(parser: &mut Parser, n: u64) -> (r: Result<Vec<u8>, DiffError>)
    ensures
        match spec_repeat(index_item(), old(parser).bytes(), old(parser).offset(), n as nat) {
            Ok((items, end)) => r matches Ok(v) && widened(v@) == items && final(parser).moved(
                *old(parser),
                end,
            ) && forall|i: int| 0 <= i < v@.len() ==> #[trigger] v@[i] < 128,
            Err(e) => r == Err::<Vec<u8>, DiffError>(e) && *final(parser) == *old(parser),
        },
{
    let ghost s = parser.bytes();
    let ghost start = parser.offset();
    let mut fork = *parser;
    let mut out: Vec<u8> = Vec::new();
    let mut i: u64 = 0;
    assert(widened(out@) =~= Seq::<int>::empty());
    while i < n
        invariant
            i <= n,
            *parser == *old(parser),
            s == parser.bytes(),
            start == parser.offset(),
            fork.bytes() == s,
            fork.label() == parser.label(),
            spec_repeat(index_item(), s, start, i as nat) == Ok::<(Seq<int>, int), DiffError>(
                (widened(out@), fork.offset()),
            ),
            forall|j: int| 0 <= j < out@.len() ==> #[trigger] out@[j] < 128,
        decreases n - i,
    {
        match fork.read_varint(0) {
            Err(e) => {
                proof {
                    assert(spec_repeat(index_item(), s, start, (i + 1) as nat) is Err);
                    lemma_repeat_failure(index_item(), s, start, (i + 1) as nat, n as nat);
                }
                return Err(e);
            },
            Ok(x) => {
                if x.0 >= 128 {
                    proof {
                        lemma_repeat_failure(index_item(), s, start, (i + 1) as nat, n as nat);
                    }
                    return Err(DiffError::ReferenceIndex);
                }
                let index: u8 = x.0 as u8;
                assert(widened(out@.push(index)) =~= widened(out@).push(x@));
                out.push(index);
            },
        }
        i = i + 1;
    }
    *parser = fork;
    Ok(out)
}

/// Reads `n` zero-terminated names.
pub fn read_names(parser: &mut Parser, n: u64) -> (r: Result<Vec<String>, DiffError>)
    ensures
        match spec_repeat(name_item(), old(parser).bytes(), old(parser).offset(), n as nat) {
            Ok((items, end)) => r matches Ok(v) && name_bytes(v@) == items
                && final(parser).moved(*old(parser), end),
            Err(e) => r == Err::<Vec<String>, DiffError>(e) && *final(parser) == *old(parser),
        },
{
    let ghost s = parser.bytes();
    let ghost start = parser.offset();
    let mut fork = *parser;
    let mut out: Vec<String> = Vec::new();
    let mut i: u64 = 0;
    assert(name_bytes(out@) =~= Seq::<Seq<u8>>::empty());
    while i < n
        invariant
            i <= n,
            *parser == *old(parser),
            s == parser.bytes(),
            start == parser.offset(),
            fork.bytes() == s,
            fork.label() == parser.label(),
            spec_repeat(name_item(), s, start, i as nat) == Ok::<(Seq<Seq<u8>>, int), DiffError>(
                (name_bytes(out@), fork.offset()),
            ),
        decreases n - i,
    {
        match fork.read_string() {
            Err(e) => {
                proof {
                    assert(spec_repeat(name_item(), s, start, (i + 1) as nat) is Err);
                    lemma_repeat_failure(name_item(), s, start, (i + 1) as nat, n as nat);
                }
                return Err(e);
            },
            Ok(name) => {
                assert(name_bytes(out@.push(name)) =~= name_bytes(out@).push(encode_utf8(name@)));
                out.push(name);
            },
        }
        i = i + 1;
    }
    *parser = fork;
    Ok(out)
}

} // verus!
