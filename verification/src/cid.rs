//! Content identifiers, and their computation through the outside codecs.

use vstd::prelude::*;

use crate::codec::{encodable, CidVersion, Digester, Total};
use crate::node::{
    entry_views_of, keys_sorted, lemma_entries_size_element, lemma_entry_views_of,
    lemma_seq_size_element, lemma_views_of, size, views_of, wf, Node, NodeView,
};

verus! {

/// A content identifier, kept as its binary representation.
///
/// The library never inspects the inside of an identifier: it only compares
/// identifiers for equality and hands them back to the caller.
#[derive(Debug)]
pub struct BlockId {
    bytes: Vec<u8>,
}

impl View for BlockId {
    type V = Seq<u8>;

    closed spec fn view(&self) -> Seq<u8> {
        self.bytes@
    }
}

impl BlockId {
    /// Wrap the binary form of a content identifier.
    pub fn from_bytes(bytes: Vec<u8>) -> (r: BlockId)
        ensures
            r@ == bytes@,
    {
        BlockId { bytes }
    }

    /// The binary form of this identifier.
    pub fn to_bytes(&self) -> (r: Vec<u8>)
        ensures
            r@ == self@,
    {
        let r = self.bytes.clone();
        proof {
            assert(r@ =~= self.bytes@);
        }
        r
    }

    /// A copy of this identifier.
    pub fn duplicate(&self) -> (r: BlockId)
        ensures
            r@ == self@,
    {
        BlockId { bytes: self.to_bytes() }
    }
}

impl PartialEq for BlockId {
    #[verifier::loop_isolation(false)]
    fn eq(&self, other: &BlockId) -> (r: bool) {
        let n = self.bytes.len();
        if n != other.bytes.len() {
            proof {
                assert(self@.len() != other@.len());
            }
            return false;
        }
        let mut i: usize = 0;
        while i < n
            invariant
                n == self.bytes.len() == other.bytes.len(),
                0 <= i <= n,
                forall|j: int| 0 <= j < i ==> self.bytes@[j] == other.bytes@[j],
            decreases n - i,
        {
            if self.bytes[i] != other.bytes[i] {
                proof {
                    assert(self@[i as int] != other@[i as int]);
                    assert(self@ != other@);
                }
                return false;
            }
            i = i + 1;
        }
        proof {
            assert(self.bytes@ =~= other.bytes@);
            assert(self@ == other@);
        }
        true
    }
}

impl Eq for BlockId {}

impl vstd::std_specs::cmp::PartialEqSpecImpl for BlockId {
    open spec fn obeys_eq_spec() -> bool {
        true
    }

    open spec fn eq_spec(&self, other: &BlockId) -> bool {
        self@ == other@
    }
}

#[verifier::external_type_specification]
#[verifier::external_body]
pub struct ExIpld(libipld::Ipld);

/// The document that an outside [`libipld::Ipld`] value holds.
pub uninterp spec fn ipld_model(v: libipld::Ipld) -> NodeView;

/// Whether a byte string is the binary form of a content identifier, as
/// `libipld::Cid::try_from` accepts it.
pub uninterp spec fn is_cid_bytes(b: Seq<u8>) -> bool;

/// The multicodec tag inside a content identifier, as `Cid::codec` reads
/// it from the binary form.
pub uninterp spec fn cid_codec_of(b: Seq<u8>) -> u64;

/// The DAG-CBOR encoding of a document, as `DagCborCodec` produces it.
pub uninterp spec fn cbor_encoding(n: NodeView) -> Seq<u8>;

/// The DAG-JSON encoding of a document, as `DagJsonCodec` produces it.
pub uninterp spec fn json_encoding(n: NodeView) -> Seq<u8>;

/// The binary version-1 content identifier assembled from a codec tag, a
/// multihash code, and the encoded payload, as `Cid::new` builds it after
/// the payload is digested.
pub uninterp spec fn cid_digest(codec_tag: u64, mh_code: u64, payload: Seq<u8>) -> Seq<u8>;

/// The models of a sequence of outside values.
pub open spec fn ipld_models_of(xs: Seq<libipld::Ipld>) -> Seq<NodeView> {
    Seq::new(xs.len(), |i: int| ipld_model(xs[i]))
}

/// The models of a sequence of outside map entries.
pub open spec fn ipld_entry_models_of(es: Seq<(String, libipld::Ipld)>) -> Seq<
    (Seq<char>, NodeView),
> {
    Seq::new(es.len(), |i: int| (es[i].0@, ipld_model(es[i].1)))
}

/// Whether every link in the tree carries the binary form of a content
/// identifier, so that handing the tree to the outside codecs cannot fail.
pub open spec fn links_valid(n: NodeView) -> bool
    decreases n,
{
    match n {
        NodeView::Link(id) => is_cid_bytes(id),
        NodeView::List(xs) => forall|i: int|
            0 <= i < xs.len() ==> links_valid(#[trigger] xs[i]),
        NodeView::Dict(es) => forall|i: int|
            0 <= i < es.len() ==> links_valid(#[trigger] es[i].1),
        _ => true,
    }
}

/// The byte encoding of a document under a codec.
pub open spec fn encoding(n: NodeView, c: Total) -> Seq<u8> {
    match c {
        Total::DagCbor => cbor_encoding(n),
        Total::DagJson => json_encoding(n),
    }
}

/// The canonical identifier of a document: its encoding, digested and
/// assembled into a version-1 identifier.
pub open spec fn cid_of(n: NodeView, codec: Total, digester: Digester) -> Seq<u8> {
    cid_digest(codec.tag(), digester.code(), encoding(n, codec))
}

/// Relies on `libipld::Ipld::Null`.
#[verifier::external_body]
fn ipld_null() -> (r: libipld::Ipld)
    ensures
        ipld_model(r) == NodeView::Null,
{
    libipld::Ipld::Null
}

/// Relies on `libipld::Ipld::Bool`.
#[verifier::external_body]
fn ipld_bool(b: bool) -> (r: libipld::Ipld)
    ensures
        ipld_model(r) == NodeView::Bool(b),
{
    libipld::Ipld::Bool(b)
}

/// Relies on `libipld::Ipld::Integer`.
#[verifier::external_body]
fn ipld_integer(i: i128) -> (r: libipld::Ipld)
    ensures
        ipld_model(r) == NodeView::Integer(i as int),
{
    libipld::Ipld::Integer(i)
}

/// Relies on `libipld::Ipld::Bytes`.
#[verifier::external_body]
fn ipld_bytes(bs: Vec<u8>) -> (r: libipld::Ipld)
    ensures
        ipld_model(r) == NodeView::Bytes(bs@),
{
    libipld::Ipld::Bytes(bs)
}

/// Relies on `libipld::Ipld::String`.
#[verifier::external_body]
fn ipld_text(s: String) -> (r: libipld::Ipld)
    ensures
        ipld_model(r) == NodeView::Text(s@),
{
    libipld::Ipld::String(s)
}

/// Relies on `libipld::Ipld::List`.
#[verifier::external_body]
fn ipld_list(items: Vec<libipld::Ipld>) -> (r: libipld::Ipld)
    ensures
        ipld_model(r) == NodeView::List(ipld_models_of(items@)),
{
    libipld::Ipld::List(items)
}

/// Relies on `libipld::Ipld::Map` over `std::collections::BTreeMap`, whose
/// `String` order is byte-lexicographic over UTF-8 and therefore agrees
/// with the entries' strictly increasing key order: collecting keeps every
/// entry in place.
#[verifier::external_body]
fn ipld_dict(entries: Vec<(String, libipld::Ipld)>) -> (r: libipld::Ipld)
    requires
        keys_sorted(ipld_entry_models_of(entries@)),
    ensures
        ipld_model(r) == NodeView::Dict(ipld_entry_models_of(entries@)),
{
    libipld::Ipld::Map(entries.into_iter().collect())
}

/// Relies on `libipld::Cid::try_from` over the binary form, accepted only
/// when the parsed identifier prints back to the same bytes: the byte
/// strings taken are exactly the canonical binary identifiers, so each
/// accepted byte string denotes one identifier value and conversely.
#[verifier::external_body]
fn ipld_link(id: &BlockId) -> (r: Option<libipld::Ipld>)
    ensures
        (r is Some) == is_cid_bytes(id@),
        r matches Some(v) ==> ipld_model(v) == NodeView::Link(id@),
{
    match libipld::Cid::try_from(id.bytes.as_slice()) {
        Ok(cid) if cid.to_bytes() == id.bytes => Some(libipld::Ipld::Link(cid)),
        _ => None,
    }
}

/// Relies on `libipld::Cid::try_from` over the binary form, with the same
/// canonical-form check as the link conversion, and on `Cid::codec`: the
/// multicodec tag read back out of an identifier.
#[verifier::external_body]
pub(crate) fn codec_tag_of(id: &BlockId) -> (r: Option<u64>)
    ensures
        (r is Some) == is_cid_bytes(id@),
        r matches Some(t) ==> t == cid_codec_of(id@),
{
    match libipld::Cid::try_from(id.bytes.as_slice()) {
        Ok(cid) if cid.to_bytes() == id.bytes => Some(cid.codec()),
        _ => None,
    }
}

/// Relies on `DagCborCodec`'s `Codec::encode`: writing to a vector cannot
/// fail, and the only error is an integer outside the 64-bit range.
#[verifier::external_body]
fn encode_cbor(v: &libipld::Ipld) -> (r: Option<Vec<u8>>)
    ensures
        (r is Some) == encodable(ipld_model(*v), Total::DagCbor),
        r matches Some(b) ==> b@ == cbor_encoding(ipld_model(*v)),
{
    libipld::codec::Codec::encode(&libipld::cbor::DagCborCodec, v).ok()
}

/// Relies on `DagJsonCodec`'s `Codec::encode` over `serde_json`: every
/// document value serialises, and writing to a vector cannot fail.
#[verifier::external_body]
fn encode_json(v: &libipld::Ipld) -> (r: Option<Vec<u8>>)
    ensures
        (r is Some) == encodable(ipld_model(*v), Total::DagJson),
        r matches Some(b) ==> b@ == json_encoding(ipld_model(*v)),
{
    libipld::codec::Codec::encode(&libipld::json::DagJsonCodec, v).ok()
}

/// Relies on `multihash::Code::digest` and `libipld::Cid::new` /
/// `Cid::to_bytes`: a version-1 identifier is assembled from the codec tag
/// and the digested payload, and a version-0 identifier is refused for
/// these codecs.
#[verifier::external_body]
fn make_cid(version: CidVersion, codec: Total, digester: Digester, payload: &Vec<u8>) -> (r: Option<
    BlockId,
>)
    ensures
        (r is Some) == (version is V1),
        r matches Some(b) ==> b@ == cid_digest(codec.tag(), digester.code(), payload@),
{
    let code = match digester {
        Digester::Sha2_256 => libipld::multihash::Code::Sha2_256,
        Digester::Sha2_512 => libipld::multihash::Code::Sha2_512,
        Digester::Sha3_256 => libipld::multihash::Code::Sha3_256,
    };
    let tag: u64 = if matches!(codec, Total::DagCbor) { 0x71 } else { 0x0129 };
    let ver = if matches!(version, CidVersion::V0) { libipld::cid::Version::V0 } else { libipld::cid::Version::V1 };
    let hash = libipld::multihash::MultihashDigest::digest(&code, payload.as_slice());
    match libipld::Cid::new(ver, tag, hash) {
        Ok(cid) => Some(BlockId { bytes: cid.to_bytes() }),
        Err(_) => None,
    }
}

/// Hand a document to the outside representation, bottom up.
#[verifier::loop_isolation(false)]
fn to_ipld(n: &Node) -> (r: Option<libipld::Ipld>)
    requires
        wf(n@),
    ensures
        (r is Some) == links_valid(n@),
        r matches Some(v) ==> ipld_model(v) == n@,
    decreases size(n@),
{
    match n {
        Node::Null => Some(ipld_null()),
        Node::Bool(b) => Some(ipld_bool(*b)),
        Node::Integer(i) => Some(ipld_integer(*i)),
        Node::Bytes(bs) => {
            let copy = bs.clone();
            proof {
                assert(copy@ =~= bs@);
            }
            Some(ipld_bytes(copy))
        },
        Node::Text(s) => Some(ipld_text(s.clone())),
        Node::Link(id) => ipld_link(id),
        Node::List(xs) => {
            let ghost s = views_of(xs@);
            proof {
                lemma_views_of(xs@);
            }
            let mut out: Vec<libipld::Ipld> = Vec::new();
            let count = xs.len();
            let mut i: usize = 0;
            while i < count
                invariant
                    i <= count == xs.len(),
                    out.len() == i,
                    forall|j: int| 0 <= j < i ==> links_valid(#[trigger] s[j]),
                    forall|j: int| 0 <= j < i ==> ipld_model(#[trigger] out@[j]) == s[j],
                decreases count - i,
            {
                proof {
                    lemma_seq_size_element(s, i as int);
                }
                match to_ipld(&xs[i]) {
                    Some(v) => {
                        out.push(v);
                    },
                    None => {
                        proof {
                            assert(!links_valid(s[i as int]));
                        }
                        return None;
                    },
                }
                i = i + 1;
            }
            let r = ipld_list(out);
            proof {
                assert(ipld_models_of(out@) =~= s);
            }
            Some(r)
        },
        Node::Dict(es) => {
            let ghost s = entry_views_of(es@);
            proof {
                lemma_entry_views_of(es@);
            }
            let mut out: Vec<(String, libipld::Ipld)> = Vec::new();
            let count = es.len();
            let mut i: usize = 0;
            while i < count
                invariant
                    i <= count == es.len(),
                    out.len() == i,
                    forall|j: int| 0 <= j < i ==> links_valid((#[trigger] s[j]).1),
                    forall|j: int| 0 <= j < i ==> (#[trigger] out@[j]).0@ == s[j].0 && ipld_model(
                        out@[j].1,
                    ) == s[j].1,
                decreases count - i,
            {
                proof {
                    lemma_entries_size_element(s, i as int);
                }
                let (k, v) = &es[i];
                match to_ipld(v) {
                    Some(converted) => {
                        out.push((k.clone(), converted));
                    },
                    None => {
                        proof {
                            assert(!links_valid(s[i as int].1));
                        }
                        return None;
                    },
                }
                i = i + 1;
            }
            proof {
                assert(ipld_entry_models_of(out@) =~= s);
            }
            let r = ipld_dict(out);
            Some(r)
        },
    }
}

/// Encode a document under a codec, through the outside representation.
pub(crate) fn encode_node(n: &Node, codec: Total) -> (r: Option<Vec<u8>>)
    requires
        wf(n@),
    ensures
        (r is Some) == (links_valid(n@) && encodable(n@, codec)),
        r matches Some(b) ==> b@ == encoding(n@, codec),
{
    match to_ipld(n) {
        None => None,
        Some(v) => match codec {
            Total::DagCbor => encode_cbor(&v),
            Total::DagJson => encode_json(&v),
        },
    }
}

/// Why an identifier could not be computed.
#[derive(Clone, Copy, Debug, PartialEq, Eq, Structural)]
pub enum Error {
    /// A link in the document does not hold a content identifier, or an
    /// integer lies outside the codec's range.
    EncodingError,
    /// The requested identifier version does not admit these codecs.
    ConstructionError,
}

/// The canonical identifier of a document under the given codec, digest
/// function and identifier version.
///
/// Succeeds exactly on version-1 requests over documents whose links hold
/// content identifiers and whose integers lie in the codec's range.
pub fn new(node: &Node, codec: Total, digester: Digester, version: CidVersion) -> (r: Result<
    BlockId,
    Error,
>)
    requires
        wf(node@),
    ensures
        match r {
            Ok(b) => version is V1 && links_valid(node@) && encodable(node@, codec) && b@ == cid_of(
                node@,
                codec,
                digester,
            ),
            Err(e) => {
                &&& (e is EncodingError) == (!links_valid(node@) || !encodable(node@, codec))
                &&& (e is ConstructionError) == (links_valid(node@) && encodable(node@, codec)
                    && version is V0)
            },
        },
{
    match encode_node(node, codec) {
        None => Err(Error::EncodingError),
        Some(bytes) => match make_cid(version, codec, digester, &bytes) {
            None => Err(Error::ConstructionError),
            Some(id) => Ok(id),
        },
    }
}

} // verus!
