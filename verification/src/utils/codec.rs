//! Unpacking of the container's compressed sections.
use vstd::prelude::*;

verus! {

/// `std::io::Error`, the error of `zstd::stream::decode_all`. Nothing is
/// claimed of its values; it is matched away where the call returns.
#[verifier::external_type_specification]
#[verifier::external_body]
pub struct ExIoError(std::io::Error);

/// What `zstd::stream::decode_all` makes of the bytes `source`: the bytes that
/// the compressed frames in them unpack to, or `None` where it reports an
/// error. The outcome depends on the bytes alone; what it is for given bytes
/// is not stated anywhere.
pub uninterp spec fn zstd_decoded(source: Seq<u8>) -> Option<Seq<u8>>;

/// Calls `zstd::stream::decode_all` on `source`. The contract only names the
/// outcome: the unpacked bytes are `zstd_decoded` of the input, and an error
/// comes exactly where that is `None`. Nothing here is proved; in particular
/// not that unpacking undoes any packing.
#[verifier::external_body]
pub(crate) fn zstd_decode_all(source: &[u8]) -> (r: Result<Vec<u8>, std::io::Error>)
    ensures
        match r {
            Ok(v) => zstd_decoded(source@) == Some(v@),
            Err(_) => zstd_decoded(source@) is None,
        },
{
    zstd::stream::decode_all(source)
}

} // verus!
