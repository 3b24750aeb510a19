//! A document attested or constructed to carry inline delimiters.

use vstd::prelude::*;

use crate::cid;
use crate::cid::{cid_of, links_valid, BlockId, Error};
use crate::codec::encodable;
use crate::codec::{CidVersion, Digester, Total};
use crate::node::{
    inherit_wrap_view, lemma_inherit_wrap_view_wf, lemma_wrap_view_wf, make_inherit_wrap,
    make_wrap, wf, wrap_view, Node, NodeView,
};

verus! {

/// A document in inlined form, with the identifier it was wrapped with,
/// where one was given or computed.
#[derive(Debug)]
pub struct InlineIpld {
    ipld: Node,
    cid: Option<BlockId>,
}

impl View for InlineIpld {
    type V = NodeView;

    closed spec fn view(&self) -> NodeView {
        self.ipld@
    }
}

impl InlineIpld {
    /// The identifier this document was wrapped with, if any.
    pub closed spec fn cid_view(&self) -> Option<Seq<u8>> {
        match self.cid {
            Some(c) => Some(c@),
            None => None,
        }
    }

    /// Tag already-inlined content without any conversion or check.
    pub fn attest(ipld: Node) -> (r: InlineIpld)
        ensures
            r@ == ipld@,
            r.cid_view() is None,
    {
        InlineIpld { ipld, cid: None }
    }

    /// Wrap `ipld` in an explicit-form delimiter carrying `cid`.
    ///
    /// The identifier is taken as given: nothing checks that it matches the
    /// wrapped content.
    pub fn new(cid: BlockId, ipld: Node) -> (r: InlineIpld)
        ensures
            r@ == wrap_view(cid@, ipld@),
            r.cid_view() == Some(cid@),
            wf(ipld@) ==> wf(r@),
    {
        proof {
            if wf(ipld@) {
                lemma_wrap_view_wf(cid@, ipld@);
            }
        }
        let keep = cid.duplicate();
        InlineIpld { ipld: make_wrap(cid, ipld), cid: Some(keep) }
    }

    /// Wrap `ipld` in an inherit-form delimiter, leaving the identifier to
    /// be computed by the extractor.
    pub fn new_inherit_link(ipld: Node) -> (r: InlineIpld)
        ensures
            r@ == inherit_wrap_view(ipld@),
            r.cid_view() is None,
            wf(ipld@) ==> wf(r@),
    {
        proof {
            if wf(ipld@) {
                lemma_inherit_wrap_view_wf(ipld@);
            }
        }
        InlineIpld { ipld: make_inherit_wrap(ipld), cid: None }
    }

    /// Wrap `ipld` in an explicit-form delimiter whose identifier is
    /// computed from the content under the given codec and digest.
    pub fn wrap_with_link(codec: Total, digester: Digester, ipld: Node) -> (r: Result<
        InlineIpld,
        Error,
    >)
        requires
            wf(ipld@),
        ensures
            match r {
                Ok(inline) => {
                    &&& links_valid(ipld@) && encodable(ipld@, codec)
                    &&& inline@ == wrap_view(cid_of(ipld@, codec, digester), ipld@)
                    &&& inline.cid_view() == Some(cid_of(ipld@, codec, digester))
                    &&& wf(inline@)
                },
                Err(_) => !links_valid(ipld@) || !encodable(ipld@, codec),
            },
    {
        match cid::new(&ipld, codec, digester, CidVersion::V1) {
            Ok(id) => Ok(InlineIpld::new(id, ipld)),
            Err(e) => Err(e),
        }
    }

    /// The identifier this document was wrapped with, if any.
    pub fn cid(&self) -> (r: Option<&BlockId>)
        ensures
            match r {
                Some(c) => self.cid_view() == Some(c@),
                None => self.cid_view() is None,
            },
    {
        match &self.cid {
            Some(c) => Some(c),
            None => None,
        }
    }

    /// The inlined document itself.
    pub fn node(&self) -> (r: &Node)
        ensures
            r@ == self@,
    {
        &self.ipld
    }

    /// Give the inlined document back.
    pub fn into_node(self) -> (r: Node)
        ensures
            r@ == self@,
    {
        self.ipld
    }
}

} // verus!
