//! The codecs under which every in-range document encodes.

use vstd::prelude::*;

use crate::node::NodeView;

verus! {

/// The codecs that encode every document whose integers are in range:
/// DAG-CBOR (multicodec tag `0x71`) and DAG-JSON (multicodec tag `0x0129`).
#[derive(Clone, Copy, Debug, PartialEq, Eq, Structural)]
pub enum Total {
    DagCbor,
    DagJson,
}

/// A digest function usable in a content identifier.
#[derive(Clone, Copy, Debug, PartialEq, Eq, Structural)]
pub enum Digester {
    Sha2_256,
    Sha2_512,
    Sha3_256,
}

/// A content-identifier version.
#[derive(Clone, Copy, Debug, PartialEq, Eq, Structural)]
pub enum CidVersion {
    V0,
    V1,
}

impl Total {
    /// The multicodec tag of this codec.
    pub open spec fn tag(self) -> u64 {
        match self {
            Total::DagCbor => 0x71,
            Total::DagJson => 0x0129,
        }
    }
}

impl Digester {
    /// The multihash code of this digest function.
    pub open spec fn code(self) -> u64 {
        match self {
            Digester::Sha2_256 => 0x12,
            Digester::Sha2_512 => 0x13,
            Digester::Sha3_256 => 0x16,
        }
    }
}

/// DAG-CBOR encodes integers as 64-bit major types, so an integer must lie
/// in `[-2^64, 2^64 - 1]` to encode.
pub open spec fn cbor_in_range(i: int) -> bool {
    -(u64::MAX as int) - 1 <= i <= u64::MAX as int
}

/// Whether every integer in the tree is in the codec's range, so that
/// encoding the tree cannot fail.  DAG-JSON encodes every integer.
pub open spec fn encodable(n: NodeView, c: Total) -> bool
    decreases n,
{
    match n {
        NodeView::Integer(i) => c is DagJson || cbor_in_range(i),
        NodeView::List(xs) => forall|i: int| 0 <= i < xs.len() ==> encodable(#[trigger] xs[i], c),
        NodeView::Dict(es) => forall|i: int|
            0 <= i < es.len() ==> encodable(#[trigger] es[i].1, c),
        _ => true,
    }
}

} // verus!
