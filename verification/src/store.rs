//! Content-addressed block stores.

use vstd::prelude::*;

use crate::cid;
use crate::cid::{cid_of, encode_node, encoding, is_cid_bytes, links_valid, BlockId, Error};
use crate::codec::{encodable, CidVersion, Digester, Total};
use crate::extractor::{
    emits, extraction, extraction_ok, lemma_emits_wf, lemma_rewrite_wf, rewrite, Extractor,
};
use crate::inline::InlineIpld;
use crate::node::{wf, Node, NodeView};

verus! {

/// A block was not in the store; carries the identifier that was asked for.
#[derive(Debug)]
pub struct NotFound(pub BlockId);

/// A content-addressed store: a mapping from identifiers to blocks.
///
/// `get` must be referentially transparent for fixed contents, and every
/// stored block is well-formed.
pub trait Store {
    /// The blocks the store holds, by identifier.
    spec fn contents(&self) -> Map<Seq<u8>, NodeView>;

    /// Retrieve a block by identifier.
    fn get(&self, id: &BlockId) -> (r: Result<&Node, NotFound>)
        ensures
            match r {
                Ok(node) => self.contents().contains_key(id@) && node@ == self.contents()[id@]
                    && wf(node@),
                Err(e) => !self.contents().contains_key(id@) && e.0@ == id@,
            },
    ;

    /// Insert a block under a caller-chosen identifier.
    ///
    /// Nothing checks that the identifier matches the content; prefer
    /// [`Store::put`] where possible.
    fn put_keyed(&mut self, id: BlockId, node: Node)
        requires
            wf(node@),
        ensures
            final(self).contents() == old(self).contents().insert(id@, node@),
    ;
}

/// Insert a block under its computed canonical identifier.
pub fn put<S: Store + ?Sized>(
    store: &mut S,
    ipld: Node,
    codec: Total,
    digester: Digester,
    version: CidVersion,
) -> (r: Result<BlockId, Error>)
    requires
        wf(ipld@),
    ensures
        match r {
            Ok(id) => {
                &&& version is V1 && links_valid(ipld@) && encodable(ipld@, codec)
                &&& id@ == cid_of(ipld@, codec, digester)
                &&& final(store).contents() == old(store).contents().insert(id@, ipld@)
            },
            Err(_) => {
                &&& !(version is V1 && links_valid(ipld@) && encodable(ipld@, codec))
                &&& final(store).contents() == old(store).contents()
            },
        },
{
    match cid::new(&ipld, codec, digester, version) {
        Ok(id) => {
            let keep = id.duplicate();
            store.put_keyed(id, ipld);
            Ok(keep)
        },
        Err(e) => Err(e),
    }
}

/// Why a block could not be handed out as raw bytes.
#[derive(Debug)]
pub enum GetRawError {
    /// The identifier is not in the store.
    NotFound(NotFound),
    /// The identifier does not name one of the codecs here, or does not
    /// parse; carries the unrecognised multicodec tag where there is one.
    UnknownCodec(u64),
    /// The stored block does not encode under the identifier's codec.
    EncodeFailed,
}

/// Retrieve a block by identifier as its raw byte encoding, under the
/// codec that the identifier itself names.
pub fn get_raw<S: Store + ?Sized>(store: &S, id: &BlockId) -> (r: Result<Vec<u8>, GetRawError>)
    ensures
        match r {
            Ok(bytes) => {
                &&& store.contents().contains_key(id@)
                &&& is_cid_bytes(id@)
                &&& {
                    let c = tag_codec(cid::cid_codec_of(id@));
                    c matches Some(codec) && encodable(store.contents()[id@], codec) && bytes@
                        == encoding(store.contents()[id@], codec)
                }
            },
            Err(e) => match e {
                GetRawError::NotFound(nf) => !store.contents().contains_key(id@) && nf.0@ == id@,
                GetRawError::UnknownCodec(_) => store.contents().contains_key(id@) && (
                !is_cid_bytes(id@) || tag_codec(cid::cid_codec_of(id@)) is None),
                GetRawError::EncodeFailed => {
                    &&& store.contents().contains_key(id@) && is_cid_bytes(id@)
                    &&& tag_codec(cid::cid_codec_of(id@)) matches Some(codec) && !(links_valid(
                        store.contents()[id@],
                    ) && encodable(store.contents()[id@], codec))
                },
            },
        },
{
    let node = match store.get(id) {
        Ok(node) => node,
        Err(nf) => {
            return Err(GetRawError::NotFound(nf));
        },
    };
    let tag = match cid::codec_tag_of(id) {
        Some(tag) => tag,
        None => {
            return Err(GetRawError::UnknownCodec(0));
        },
    };
    let codec = if tag == 0x71 {
        Total::DagCbor
    } else if tag == 0x0129 {
        Total::DagJson
    } else {
        return Err(GetRawError::UnknownCodec(tag));
    };
    proof {
        assert(tag_codec(cid::cid_codec_of(id@)) == Some(codec));
    }
    match encode_node(node, codec) {
        Some(bytes) => Ok(bytes),
        None => Err(GetRawError::EncodeFailed),
    }
}

/// The codec a multicodec tag names, where it is one of the codecs here.
pub open spec fn tag_codec(tag: u64) -> Option<Total> {
    if tag == 0x71 {
        Some(Total::DagCbor)
    } else if tag == 0x0129 {
        Some(Total::DagJson)
    } else {
        None
    }
}

/// The contents after storing a run of blocks, in order.
pub open spec fn insert_blocks(m: Map<Seq<u8>, NodeView>, bs: Seq<(Seq<u8>, NodeView)>) -> Map<
    Seq<u8>,
    NodeView,
>
    decreases bs,
{
    if bs.len() == 0 {
        m
    } else {
        insert_blocks(m, bs.drop_last()).insert(bs.last().0, bs.last().1)
    }
}

/// Extract every block of an inlined document and store each under its
/// identifier, children before the blocks that link to them, the root
/// block last.
pub fn extract<S: Store + ?Sized>(
    store: &mut S,
    ipld: InlineIpld,
    codec: Total,
    digester: Digester,
    version: CidVersion,
) -> (r: Result<(), Error>)
    requires
        wf(ipld@),
    ensures
        match r {
            Ok(_) => extraction_ok(ipld@, codec, digester, version) && final(store).contents()
                == insert_blocks(old(store).contents(), extraction(ipld@, codec, digester)),
            Err(_) => !extraction_ok(ipld@, codec, digester, version) && final(store).contents()
                == old(store).contents(),
        },
{
    let mut ext = match Extractor::new(&ipld, codec, digester, version) {
        Ok(e) => e,
        Err(e) => {
            return Err(e);
        },
    };
    let ghost blocks = ext.blocks();
    proof {
        lemma_emits_wf(ipld@, codec, digester);
        lemma_rewrite_wf(ipld@, codec, digester);
        let prefix = emits(ipld@, codec, digester);
        let pair = (
            cid_of(rewrite(ipld@, codec, digester), codec, digester),
            rewrite(ipld@, codec, digester),
        );
        assert(blocks == prefix.push(pair));
        assert forall|i: int| 0 <= i < blocks.len() implies wf((#[trigger] blocks[i]).1) by {
            if i < prefix.len() {
                assert(prefix.push(pair)[i] == prefix[i]);
                assert(wf(prefix[i].1));
            } else {
                assert(prefix.push(pair)[i] == pair);
            }
        }
        assert(blocks.take(0) =~= Seq::<(Seq<u8>, NodeView)>::empty());
    }
    loop
        invariant
            ext.inv(),
            ext.blocks() == blocks,
            0 <= ext.pos() <= blocks.len(),
            forall|i: int| 0 <= i < blocks.len() ==> wf((#[trigger] blocks[i]).1),
            store.contents() == insert_blocks(old(store).contents(), blocks.take(ext.pos())),
        ensures
            store.contents() == insert_blocks(old(store).contents(), blocks),
        decreases blocks.len() - ext.pos(),
    {
        let ghost pos = ext.pos();
        match ext.next() {
            Some((id, node)) => {
                proof {
                    assert((id@, node@) == blocks[pos]);
                    assert(wf(node@));
                }
                store.put_keyed(id, node);
                proof {
                    let t = blocks.take(pos + 1);
                    assert(t.drop_last() =~= blocks.take(pos));
                    assert(t.last() == blocks[pos]);
                }
            },
            None => {
                proof {
                    assert(blocks.take(blocks.len() as int) =~= blocks);
                }
                break ;
            },
        }
    }
    Ok(())
}

/// A basic in-memory block store.
///
/// Blocks are kept in insertion order; a later insertion under the same
/// identifier shadows the earlier one.
#[derive(Debug)]
pub struct MemoryStore {
    entries: Vec<(BlockId, Node)>,
}

/// The mapping that a sequence of keyed blocks holds: later entries
/// shadow earlier ones.
pub open spec fn entries_contents(s: Seq<(BlockId, Node)>) -> Map<Seq<u8>, NodeView>
    decreases s,
{
    if s.len() == 0 {
        Map::empty()
    } else {
        entries_contents(s.drop_last()).insert(s.last().0@, s.last().1@)
    }
}

impl MemoryStore {
    #[verifier::type_invariant]
    closed spec fn nodes_wf(self) -> bool {
        forall|i: int| 0 <= i < self.entries@.len() ==> wf(#[trigger] self.entries@[i].1@)
    }

    /// Initialise an empty store.
    pub fn new() -> (r: MemoryStore)
        ensures
            r.contents() == Map::<Seq<u8>, NodeView>::empty(),
    {
        MemoryStore { entries: Vec::new() }
    }
}

impl Store for MemoryStore {
    closed spec fn contents(&self) -> Map<Seq<u8>, NodeView> {
        entries_contents(self.entries@)
    }

    #[verifier::loop_isolation(false)]
    fn get(&self, id: &BlockId) -> (r: Result<&Node, NotFound>) {
        proof {
            use_type_invariant(self);
        }
        let ghost full = entries_contents(self.entries@);
        let mut idx = self.entries.len();
        proof {
            assert(self.entries@.take(idx as int) =~= self.entries@);
        }
        while idx > 0
            invariant
                idx <= self.entries.len(),
                full.contains_key(id@) == entries_contents(
                    self.entries@.take(idx as int),
                ).contains_key(id@),
                full.contains_key(id@) ==> full[id@] == entries_contents(
                    self.entries@.take(idx as int),
                )[id@],
            decreases idx,
        {
            let ghost t = self.entries@.take(idx as int);
            proof {
                assert(t.drop_last() =~= self.entries@.take(idx - 1));
                assert(t.last() == self.entries@[idx - 1]);
            }
            if self.entries[idx - 1].0 == *id {
                proof {
                    assert(entries_contents(t).contains_key(id@));
                    assert(entries_contents(t)[id@] == self.entries@[idx - 1].1@);
                    assert(wf(self.entries@[idx - 1].1@));
                }
                return Ok(&self.entries[idx - 1].1);
            }
            idx = idx - 1;
        }
        proof {
            assert(self.entries@.take(0) =~= Seq::<(BlockId, Node)>::empty());
        }
        Err(NotFound(id.duplicate()))
    }

    fn put_keyed(&mut self, id: BlockId, node: Node) {
        proof {
            use_type_invariant(&*self);
        }
        let ghost before = self.entries@;
        let mut entries: Vec<(BlockId, Node)> = Vec::new();
        core::mem::swap(&mut entries, &mut self.entries);
        entries.push((id, node));
        core::mem::swap(&mut entries, &mut self.entries);
        proof {
            assert(self.entries@.drop_last() =~= before);
        }
    }
}

} // verus!
