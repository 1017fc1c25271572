//! Compressor selection for closed-chunk data.

use crate::compaction::{stream_bits, valid_stream_bytes};
use crate::gorilla::{fold_step_bits, GorillaCompactor};
use crate::time_point::TimePoint;
use vstd::prelude::*;

verus! {

/// Compresses the timestamps and values of a chunk when it closes.
pub enum Compressor {
    /// Bit-level delta-of-delta and XOR coding.
    Gorilla,
    /// Byte-aligned variant; compresses to nothing yet.
    Simple,
}

impl Compressor {
    /// Compress a stream of time points. The Gorilla form is the coded bit
    /// stream serialized with its tail counter; the byte-aligned variant is
    /// not wired and yields nothing.
    pub fn compress(&self, data: Vec<TimePoint>) -> (r: Vec<u8>)
        requires
            *self is Gorilla ==> 60 * data@.len() + 2 <= usize::MAX / 8 && data@.len()
                < usize::MAX,
        ensures
            *self is Simple ==> r@ == Seq::<u8>::empty(),
            *self is Gorilla ==> exists|g: GorillaCompactor|
                {
                    &&& g.t == 0 && g.v == 0 && g.leading == 0 && g.tailing == 0 && g.d == 0
                        && g.len == 0
                    &&& valid_stream_bytes(r@)
                    &&& stream_bits(r@.drop_last(), r@.last()) == #[trigger] fold_step_bits(
                        g,
                        data@,
                    )
                },
    {
        match self {
            Compressor::Simple => Vec::new(),
            Compressor::Gorilla => {
                let mut compactor = GorillaCompactor::new();
                let ghost g0 = compactor;
                let n = data.len();
                let mut i: usize = 0;
                while i < n
                    invariant
                        i <= n,
                        n == data@.len(),
                        compactor.bstream.wf(),
                        compactor.bstream.bits() == fold_step_bits(g0, data@.take(i as int)),
                        crate::gorilla::same_scalars(
                            compactor,
                            crate::gorilla::fold_step_state(g0, data@.take(i as int)),
                        ),
                        compactor.bstream.data@.len() + 60 * (n - i) + 2 <= usize::MAX / 8,
                        compactor.len + (n - i) < usize::MAX,
                        g0.t == 0 && g0.v == 0 && g0.leading == 0 && g0.tailing == 0 && g0.d == 0
                            && g0.len == 0,
                    decreases n - i,
                {
                    let tp = data[i];
                    compactor.compact(&tp);
                    proof {
                        assert(data@.take(i + 1).drop_last() =~= data@.take(i as int));
                        assert(data@.take(i + 1).last() == data@[i as int]);
                        crate::gorilla::lemma_fold_step_last(g0, data@.take(i + 1));
                        assert(compactor.bstream.bits() =~= fold_step_bits(g0, data@.take(i + 1)));
                    }
                    i = i + 1;
                }
                proof {
                    assert(data@.take(n as int) =~= data@);
                }
                let out = compactor.as_bytes_vec();
                proof {
                    assert(out@.drop_last() =~= compactor.bstream.data@);
                    assert(out@.last() == compactor.bstream.remaining);
                    if compactor.bstream.data@.len() > 0 {
                        assert(out@[out@.len() - 2] == compactor.bstream.data@.last());
                        assert(forall|k: int|
                            8 - out@.last() <= k < 8 ==> !(#[trigger] crate::compaction::bit_of_byte(
                                out@[out@.len() - 2],
                                k,
                            )));
                    }
                    assert(valid_stream_bytes(out@));
                    assert(stream_bits(out@.drop_last(), out@.last()) == fold_step_bits(g0, data@));
                }
                out
            },
        }
    }
}

} // verus!
