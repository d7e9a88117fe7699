//! The single-file patch.
use vstd::prelude::*;
use crate::patchers::HDiff;

verus! {

impl HDiff {
    /// A patch of `source_path` by `diff_path` into `dest_path`, with no cache.
    pub fn new(source_path: String, diff_path: String, dest_path: String) -> (h: Self)
        ensures
            h.source_path == source_path,
            h.diff_path == diff_path,
            h.dest_path == dest_path,
            h.cache_size == 0,
    {
        HDiff { source_path, diff_path, dest_path, cache_size: 0 }
    }

    /// Sets the size of the cache and nothing else.
    pub fn set_cache_size(&mut self, cache_size: usize)
        ensures
            final(self).cache_size == cache_size,
            final(self).source_path == old(self).source_path,
            final(self).diff_path == old(self).diff_path,
            final(self).dest_path == old(self).dest_path,
    {
        self.cache_size = cache_size;
    }

    /// Reports success and changes nothing. The single-file format is decoded
    /// by a native patching library that is not part of this crate; whoever
    /// links it applies the patch with the three paths held here.
    pub fn apply(&mut self) -> (ok: bool)
        ensures
            ok,
            *final(self) == *old(self),
    {
        true
    }
}

} // verus!
