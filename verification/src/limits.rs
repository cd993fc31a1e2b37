//! Resource ceilings: the "never OOM / never hang" guard threaded through
//! every decoder.

use vstd::prelude::*;

verus! {

/// Resource ceilings for parsing and decoding. Plain data.
#[derive(Copy, Clone, PartialEq, Eq, Debug)]
pub struct Limits {
    /// Largest accepted source file, in bytes (default 4 GiB).
    pub max_file_size: u64,
    /// Largest accepted object count (default 2^23).
    pub max_objects: u64,
    /// Maximum dict/array/XObject nesting depth (default 256).
    pub max_recursion_depth: u32,
    /// Largest decoded size of a single stream, in bytes (default 1 GiB).
    pub max_decompressed_stream: usize,
    /// Whole-document decompression budget, in bytes (default 4 GiB).
    pub max_total_decompressed: u64,
    /// Per-object-stream member cap (default 1,048,576).
    pub max_objstm_objects: u64,
    /// Incremental decode-ratio trip for zip bombs, output : input (default 200).
    pub max_decode_ratio: u64,
}

impl Limits {
    /// The pinned default ceilings.
    pub open spec fn spec_default() -> Limits {
        Limits {
            max_file_size: 4294967296,
            max_objects: 8388608,
            max_recursion_depth: 256,
            max_decompressed_stream: 1073741824,
            max_total_decompressed: 4294967296,
            max_objstm_objects: 1048576,
            max_decode_ratio: 200,
        }
    }

    /// A permissive instance for trusted inputs: the single-stream cap is
    /// `usize::MAX` and the ratio guard is disabled; every other ceiling keeps
    /// its default.
    pub fn unbounded_decode() -> (r: Limits)
        ensures
            r == (Limits {
                max_decompressed_stream: usize::MAX,
                max_decode_ratio: u64::MAX,
                ..Limits::spec_default()
            }),
    {
        let d = Limits::default();
        Limits { max_decompressed_stream: usize::MAX, max_decode_ratio: u64::MAX, ..d }
    }

    /// Returns a copy with `max_recursion_depth` overridden.
    pub fn with_max_recursion_depth(self, v: u32) -> (r: Self)
        ensures
            r == (Limits { max_recursion_depth: v, ..self }),
    {
        let mut s = self;
        s.max_recursion_depth = v;
        s
    }

    /// Returns a copy with `max_objstm_objects` overridden.
    pub fn with_max_objstm_objects(self, v: u64) -> (r: Self)
        ensures
            r == (Limits { max_objstm_objects: v, ..self }),
    {
        let mut s = self;
        s.max_objstm_objects = v;
        s
    }

    /// Returns a copy with `max_objects` overridden.
    pub fn with_max_objects(self, v: u64) -> (r: Self)
        ensures
            r == (Limits { max_objects: v, ..self }),
    {
        let mut s = self;
        s.max_objects = v;
        s
    }
}

impl Default for Limits {
    fn default() -> (r: Self)
        ensures
            r == Limits::spec_default(),
    {
        Limits {
            max_file_size: 4294967296,
            max_objects: 8388608,
            max_recursion_depth: 256,
            max_decompressed_stream: 1073741824,
            max_total_decompressed: 4294967296,
            max_objstm_objects: 1048576,
            max_decode_ratio: 200,
        }
    }
}

} // verus!
