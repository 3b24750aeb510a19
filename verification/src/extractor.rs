//! Decomposing an inlined document back into addressed blocks.

use vstd::prelude::*;

use crate::cid;
use crate::cid::{cid_of, links_valid, BlockId, Error};
use crate::codec::{encodable, CidVersion, Digester, Total};
use crate::inline::InlineIpld;
use crate::node::{
    delimiter_data, delimiter_link, entries_size, entry_views_of, is_delimiter, is_inner_explicit,
    is_inner_inherit, keys_sorted, lemma_delimiter_data_size, lemma_entries_size_element,
    lemma_entry_views_of, lemma_seq_size_element, lemma_views_of, seq_size, size, views_of, wf,
    Node, NodeView,
};

verus! {

broadcast use vstd::std_specs::vec::group_vec_axioms;

/// The document after extraction: every delimiter is collapsed into the
/// link it stands for, innermost delimiters first.
pub open spec fn rewrite(n: NodeView, c: Total, dg: Digester) -> NodeView
    decreases size(n), 0nat, 0nat,
    via rewrite_dec
{
    if is_delimiter(n) {
        if is_inner_explicit(n->Dict_0[0].1) {
            NodeView::Link(delimiter_link(n))
        } else {
            NodeView::Link(cid_of(rewrite(delimiter_data(n), c, dg), c, dg))
        }
    } else {
        match n {
            NodeView::List(xs) => NodeView::List(rewrite_seq(xs, c, dg)),
            NodeView::Dict(es) => NodeView::Dict(rewrite_entries(es, c, dg)),
            _ => n,
        }
    }
}

#[via_fn]
proof fn rewrite_dec(n: NodeView, c: Total, dg: Digester) {
    if is_delimiter(n) {
        lemma_delimiter_data_size(n);
    }
}

/// Rewrite each subtree of a sequence.
pub open spec fn rewrite_seq(xs: Seq<NodeView>, c: Total, dg: Digester) -> Seq<NodeView>
    decreases seq_size(xs), 1nat, xs.len(),
{
    if xs.len() == 0 {
        Seq::empty()
    } else {
        rewrite_seq(xs.drop_last(), c, dg).push(rewrite(xs.last(), c, dg))
    }
}

/// Rewrite the value of each map entry, keeping its key.
pub open spec fn rewrite_entries(es: Seq<(Seq<char>, NodeView)>, c: Total, dg: Digester) -> Seq<
    (Seq<char>, NodeView),
>
    decreases entries_size(es), 1nat, es.len(),
{
    if es.len() == 0 {
        Seq::empty()
    } else {
        rewrite_entries(es.drop_last(), c, dg).push(
            (es.last().0, rewrite(es.last().1, c, dg)),
        )
    }
}

/// The identifier a delimiter is collapsed into: the declared link of an
/// explicit form, or the computed identifier of the rewritten content.
pub open spec fn delimiter_id(n: NodeView, c: Total, dg: Digester) -> Seq<u8>
    recommends
        is_delimiter(n),
{
    if is_inner_explicit(n->Dict_0[0].1) {
        delimiter_link(n)
    } else {
        cid_of(rewrite(delimiter_data(n), c, dg), c, dg)
    }
}

/// The blocks extraction emits while walking `n`, in emission order:
/// one `(identifier, rewritten content)` pair per delimiter, children
/// before the delimiters that contain them.
pub open spec fn emits(n: NodeView, c: Total, dg: Digester) -> Seq<(Seq<u8>, NodeView)>
    decreases size(n), 0nat, 0nat,
    via emits_dec
{
    if is_delimiter(n) {
        emits(delimiter_data(n), c, dg).push(
            (delimiter_id(n, c, dg), rewrite(delimiter_data(n), c, dg)),
        )
    } else {
        match n {
            NodeView::List(xs) => emits_seq(xs, c, dg),
            NodeView::Dict(es) => emits_entries(es, c, dg),
            _ => Seq::empty(),
        }
    }
}

#[via_fn]
proof fn emits_dec(n: NodeView, c: Total, dg: Digester) {
    if is_delimiter(n) {
        lemma_delimiter_data_size(n);
    }
}

/// The blocks emitted for a sequence of subtrees, in order.
pub open spec fn emits_seq(xs: Seq<NodeView>, c: Total, dg: Digester) -> Seq<(Seq<u8>, NodeView)>
    decreases seq_size(xs), 1nat, xs.len(),
{
    if xs.len() == 0 {
        Seq::empty()
    } else {
        emits_seq(xs.drop_last(), c, dg) + emits(xs.last(), c, dg)
    }
}

/// The blocks emitted for the values of a sequence of map entries.
pub open spec fn emits_entries(es: Seq<(Seq<char>, NodeView)>, c: Total, dg: Digester) -> Seq<
    (Seq<u8>, NodeView),
>
    decreases entries_size(es), 1nat, es.len(),
{
    if es.len() == 0 {
        Seq::empty()
    } else {
        emits_entries(es.drop_last(), c, dg) + emits(es.last().1, c, dg)
    }
}

/// Whether every identifier the walk must compute can be computed: at each
/// inherit-form delimiter the version is 1, the rewritten content's links
/// hold content identifiers, and its integers are in the codec's range.
pub open spec fn emits_ok(n: NodeView, c: Total, dg: Digester, v: CidVersion) -> bool
    decreases size(n), 0nat, 0nat,
    via emits_ok_dec
{
    if is_delimiter(n) {
        emits_ok(delimiter_data(n), c, dg, v) && (is_inner_explicit(n->Dict_0[0].1) || (v is V1
            && links_valid(rewrite(delimiter_data(n), c, dg)) && encodable(
            rewrite(delimiter_data(n), c, dg),
            c,
        )))
    } else {
        match n {
            NodeView::List(xs) => forall|i: int|
                0 <= i < xs.len() ==> emits_ok(#[trigger] xs[i], c, dg, v),
            NodeView::Dict(es) => forall|i: int|
                0 <= i < es.len() ==> emits_ok(#[trigger] es[i].1, c, dg, v),
            _ => true,
        }
    }
}

#[via_fn]
proof fn emits_ok_dec(n: NodeView, c: Total, dg: Digester, v: CidVersion) {
    if is_delimiter(n) {
        lemma_delimiter_data_size(n);
    } else {
        match n {
            NodeView::List(xs) => {
                assert forall|i: int| 0 <= i < xs.len() implies size(xs[i]) <= seq_size(xs) by {
                    lemma_seq_size_element(xs, i);
                }
            },
            NodeView::Dict(es) => {
                assert forall|i: int|
                    0 <= i < es.len() implies size(es[i].1) <= entries_size(es) by {
                    lemma_entries_size_element(es, i);
                }
            },
            _ => {},
        }
    }
}

/// `rewrite_seq` rewrites each element in place.
pub proof fn lemma_rewrite_seq_index(xs: Seq<NodeView>, c: Total, dg: Digester)
    ensures
        rewrite_seq(xs, c, dg).len() == xs.len(),
        forall|i: int| 0 <= i < xs.len() ==> rewrite_seq(xs, c, dg)[i] == rewrite(
            #[trigger] xs[i],
            c,
            dg,
        ),
    decreases xs.len(),
{
    if xs.len() > 0 {
        lemma_rewrite_seq_index(xs.drop_last(), c, dg);
        assert forall|i: int| 0 <= i < xs.len() implies rewrite_seq(xs, c, dg)[i] == rewrite(
            #[trigger] xs[i],
            c,
            dg,
        ) by {
            if i < xs.len() - 1 {
                assert(xs.drop_last()[i] == xs[i]);
            }
        }
    }
}

/// `rewrite_entries` keeps each key and rewrites each value in place.
pub proof fn lemma_rewrite_entries_index(es: Seq<(Seq<char>, NodeView)>, c: Total, dg: Digester)
    ensures
        rewrite_entries(es, c, dg).len() == es.len(),
        forall|i: int| 0 <= i < es.len() ==> #[trigger] rewrite_entries(es, c, dg)[i] == (
            es[i].0,
            rewrite(es[i].1, c, dg),
        ),
    decreases es.len(),
{
    if es.len() > 0 {
        lemma_rewrite_entries_index(es.drop_last(), c, dg);
        assert forall|i: int|
            0 <= i < es.len() implies #[trigger] rewrite_entries(es, c, dg)[i] == (
            es[i].0,
            rewrite(es[i].1, c, dg),
        ) by {
            if i < es.len() - 1 {
                assert(es.drop_last()[i] == es[i]);
            }
        }
    }
}

/// The delimiter's inner map and embedded subgraph of a well-formed
/// delimiter are well-formed.
pub proof fn lemma_delimiter_data_wf(n: NodeView)
    requires
        wf(n),
        is_delimiter(n),
    ensures
        wf(delimiter_data(n)),
{
    let es = n->Dict_0;
    assert(wf(es[0].1));
    let inner = es[0].1->Dict_0;
    assert(wf(inner[0].1));
}

/// Rewriting keeps a document well-formed: keys are untouched and every
/// delimiter becomes a leaf.
pub proof fn lemma_rewrite_wf(n: NodeView, c: Total, dg: Digester)
    requires
        wf(n),
    ensures
        wf(rewrite(n, c, dg)),
    decreases size(n), 0nat, 0nat,
{
    if is_delimiter(n) {
    } else {
        match n {
            NodeView::List(xs) => {
                lemma_rewrite_seq_index(xs, c, dg);
                let rw = rewrite_seq(xs, c, dg);
                assert forall|j: int| 0 <= j < rw.len() implies wf(#[trigger] rw[j]) by {
                    lemma_seq_size_element(xs, j);
                    lemma_rewrite_wf(xs[j], c, dg);
                }
            },
            NodeView::Dict(es) => {
                lemma_rewrite_entries_index(es, c, dg);
                let rw = rewrite_entries(es, c, dg);
                assert forall|j: int| 0 <= j < rw.len() implies wf((#[trigger] rw[j]).1) by {
                    lemma_entries_size_element(es, j);
                    lemma_rewrite_wf(es[j].1, c, dg);
                }
                assert forall|j: int| 0 <= j < rw.len() - 1 implies crate::node::lex_lt(
                    (#[trigger] rw[j]).0,
                    rw[j + 1].0,
                ) by {
                    assert(rw[j].0 == es[j].0 && rw[j + 1].0 == es[j + 1].0);
                }
            },
            _ => {},
        }
    }
}

/// Every block the walk emits holds a well-formed node.
pub proof fn lemma_emits_wf(n: NodeView, c: Total, dg: Digester)
    requires
        wf(n),
    ensures
        forall|i: int| 0 <= i < emits(n, c, dg).len() ==> wf((#[trigger] emits(n, c, dg)[i]).1),
    decreases size(n), 0nat, 0nat,
{
    if is_delimiter(n) {
        lemma_delimiter_data_wf(n);
        lemma_delimiter_data_size(n);
        lemma_emits_wf(delimiter_data(n), c, dg);
        lemma_rewrite_wf(delimiter_data(n), c, dg);
        let prefix = emits(delimiter_data(n), c, dg);
        let pair = (delimiter_id(n, c, dg), rewrite(delimiter_data(n), c, dg));
        assert(emits(n, c, dg) == prefix.push(pair));
        assert forall|i: int|
            0 <= i < emits(n, c, dg).len() implies wf((#[trigger] emits(n, c, dg)[i]).1) by {
            if i < prefix.len() {
                assert(prefix.push(pair)[i] == prefix[i]);
                assert(wf(prefix[i].1));
            } else {
                assert(prefix.push(pair)[i] == pair);
            }
        }
    } else {
        match n {
            NodeView::List(xs) => {
                lemma_emits_seq_wf(xs, c, dg);
                assert forall|i: int|
                    0 <= i < emits(n, c, dg).len() implies wf(
                    (#[trigger] emits(n, c, dg)[i]).1,
                ) by {
                    assert(emits(n, c, dg)[i] == emits_seq(xs, c, dg)[i]);
                }
            },
            NodeView::Dict(es) => {
                lemma_emits_entries_wf(es, c, dg);
                assert forall|i: int|
                    0 <= i < emits(n, c, dg).len() implies wf(
                    (#[trigger] emits(n, c, dg)[i]).1,
                ) by {
                    assert(emits(n, c, dg)[i] == emits_entries(es, c, dg)[i]);
                }
            },
            _ => {},
        }
    }
}

proof fn lemma_emits_seq_wf(xs: Seq<NodeView>, c: Total, dg: Digester)
    requires
        forall|i: int| 0 <= i < xs.len() ==> wf(#[trigger] xs[i]),
    ensures
        forall|i: int|
            0 <= i < emits_seq(xs, c, dg).len() ==> wf((#[trigger] emits_seq(xs, c, dg)[i]).1),
    decreases seq_size(xs), 1nat, xs.len(),
{
    if xs.len() > 0 {
        assert forall|i: int| 0 <= i < xs.drop_last().len() implies wf(
            #[trigger] xs.drop_last()[i],
        ) by {
            assert(xs.drop_last()[i] == xs[i]);
        }
        lemma_emits_seq_wf(xs.drop_last(), c, dg);
        lemma_emits_wf(xs.last(), c, dg);
        let prefix = emits_seq(xs.drop_last(), c, dg);
        let tail = emits(xs.last(), c, dg);
        assert forall|i: int|
            0 <= i < emits_seq(xs, c, dg).len() implies wf(
            (#[trigger] emits_seq(xs, c, dg)[i]).1,
        ) by {
            if i < prefix.len() {
                assert(emits_seq(xs, c, dg)[i] == prefix[i]);
            } else {
                assert(emits_seq(xs, c, dg)[i] == tail[i - prefix.len()]);
            }
        }
    }
}

proof fn lemma_emits_entries_wf(es: Seq<(Seq<char>, NodeView)>, c: Total, dg: Digester)
    requires
        forall|i: int| 0 <= i < es.len() ==> wf((#[trigger] es[i]).1),
    ensures
        forall|i: int|
            0 <= i < emits_entries(es, c, dg).len() ==> wf(
                (#[trigger] emits_entries(es, c, dg)[i]).1,
            ),
    decreases entries_size(es), 1nat, es.len(),
{
    if es.len() > 0 {
        assert forall|i: int| 0 <= i < es.drop_last().len() implies wf(
            (#[trigger] es.drop_last()[i]).1,
        ) by {
            assert(es.drop_last()[i] == es[i]);
        }
        lemma_emits_entries_wf(es.drop_last(), c, dg);
        lemma_emits_wf(es.last().1, c, dg);
        let prefix = emits_entries(es.drop_last(), c, dg);
        let tail = emits(es.last().1, c, dg);
        assert forall|i: int|
            0 <= i < emits_entries(es, c, dg).len() implies wf(
            (#[trigger] emits_entries(es, c, dg)[i]).1,
        ) by {
            if i < prefix.len() {
                assert(emits_entries(es, c, dg)[i] == prefix[i]);
            } else {
                assert(emits_entries(es, c, dg)[i] == tail[i - prefix.len()]);
            }
        }
    }
}

/// The emitted blocks of a vector of identifier-node pairs, as views.
pub open spec fn block_views_of(bs: Seq<(BlockId, Node)>) -> Seq<(Seq<u8>, NodeView)>
    decreases bs,
{
    if bs.len() == 0 {
        Seq::empty()
    } else {
        block_views_of(bs.drop_last()).push((bs.last().0@, bs.last().1@))
    }
}

/// `block_views_of` maps each pair to its views.
pub proof fn lemma_block_views_of(bs: Seq<(BlockId, Node)>)
    ensures
        block_views_of(bs).len() == bs.len(),
        forall|i: int| 0 <= i < bs.len() ==> #[trigger] block_views_of(bs)[i] == (
            bs[i].0@,
            bs[i].1@,
        ),
    decreases bs,
{
    if bs.len() > 0 {
        lemma_block_views_of(bs.drop_last());
        assert forall|i: int|
            0 <= i < bs.len() implies #[trigger] block_views_of(bs)[i] == (bs[i].0@, bs[i].1@) by {
            if i < bs.len() - 1 {
                assert(bs.drop_last()[i] == bs[i]);
            }
        }
    }
}

/// The delimiter form of a node, told apart by its exact shape.
enum DelimForm {
    Not,
    Inherit,
    Explicit,
}

/// Classify a node by the delimiter shapes.
fn delimiter_form(n: &Node) -> (r: DelimForm)
    ensures
        (r is Not) == !is_delimiter(n@),
        (r is Inherit) == (is_delimiter(n@) && is_inner_inherit(n@->Dict_0[0].1)),
        (r is Explicit) == (is_delimiter(n@) && is_inner_explicit(n@->Dict_0[0].1)),
{
    match n {
        Node::Dict(es) => {
            proof {
                lemma_entry_views_of(es@);
            }
            if es.len() != 1 {
                return DelimForm::Not;
            }
            let slash = String::from_str("/");
            if !(es[0].0 == slash) {
                return DelimForm::Not;
            }
            match &es[0].1 {
                Node::Dict(ie) => {
                    proof {
                        lemma_entry_views_of(ie@);
                    }
                    let data_key = String::from_str("data");
                    if ie.len() == 1 {
                        if ie[0].0 == data_key {
                            DelimForm::Inherit
                        } else {
                            DelimForm::Not
                        }
                    } else if ie.len() == 2 {
                        let link_key = String::from_str("link");
                        if ie[0].0 == data_key && ie[1].0 == link_key {
                            match &ie[1].1 {
                                Node::Link(_) => DelimForm::Explicit,
                                _ => DelimForm::Not,
                            }
                        } else {
                            DelimForm::Not
                        }
                    } else {
                        DelimForm::Not
                    }
                },
                _ => DelimForm::Not,
            }
        },
        _ => DelimForm::Not,
    }
}

/// Walk `n` in post order, pushing one block per delimiter onto `out` and
/// returning the rewritten node.
#[verifier::loop_isolation(false)]
#[verifier::rlimit(100)]
fn extract_node(
    n: &Node,
    codec: Total,
    digester: Digester,
    version: CidVersion,
    out: &mut Vec<(BlockId, Node)>,
) -> (r: Result<Node, Error>)
    requires
        wf(n@),
    ensures
        (r is Ok) == emits_ok(n@, codec, digester, version),
        r matches Ok(m) ==> m@ == rewrite(n@, codec, digester) && wf(m@) && block_views_of(
            final(out)@,
        ) == block_views_of(old(out)@) + emits(n@, codec, digester),
    decreases size(n@),
{
    let form = delimiter_form(n);
    let is_delim = match form {
        DelimForm::Not => false,
        _ => true,
    };
    if is_delim {
        match n {
            Node::Dict(es) => {
                proof {
                    lemma_entry_views_of(es@);
                }
                match &es[0].1 {
                    Node::Dict(ie) => {
                        proof {
                            lemma_entry_views_of(ie@);
                            assert(ie@[0].1@ == delimiter_data(n@));
                            lemma_delimiter_data_size(n@);
                            assert(wf(entry_views_of(es@)[0].1));
                            assert(wf(entry_views_of(ie@)[0].1));
                        }
                        match extract_node(&ie[0].1, codec, digester, version, out) {
                            Err(e) => Err(e),
                            Ok(m) => {
                                let id_res: Result<BlockId, Error> = match form {
                                    DelimForm::Explicit => match &ie[1].1 {
                                        Node::Link(l) => Ok(l.duplicate()),
                                        _ => {
                                            proof {
                                                assert(false);
                                            }
                                            Err(Error::EncodingError)
                                        },
                                    },
                                    _ => cid::new(&m, codec, digester, version),
                                };
                                match id_res {
                                    Err(e) => Err(e),
                                    Ok(id) => {
                                        let ghost id_view = id@;
                                        let ghost m_view = m@;
                                        let id2 = id.duplicate();
                                        let ghost before_push = out@;
                                        out.push((id, m));
                                        proof {
                                            assert(out@.drop_last() =~= before_push);
                                            assert(block_views_of(out@) == block_views_of(
                                                before_push,
                                            ).push((id_view, m_view)));
                                            assert(id_view == delimiter_id(
                                                n@,
                                                codec,
                                                digester,
                                            ));
                                            assert(block_views_of(out@) =~= block_views_of(
                                                old(out)@,
                                            ) + emits(n@, codec, digester));
                                        }
                                        Ok(Node::Link(id2))
                                    },
                                }
                            },
                        }
                    },
                    _ => {
                        proof {
                            assert(false);
                        }
                        Err(Error::EncodingError)
                    },
                }
            },
            _ => {
                proof {
                    assert(false);
                }
                Err(Error::EncodingError)
            },
        }
    } else {
        match n {
            Node::List(xs) => {
                let ghost s = views_of(xs@);
                let ghost base = block_views_of(out@);
                proof {
                    lemma_views_of(xs@);
                }
                let mut rebuilt: Vec<Node> = Vec::new();
                let count = xs.len();
                let mut i: usize = 0;
                proof {
                    assert(s.take(0) =~= Seq::<NodeView>::empty());
                    assert(views_of(rebuilt@) =~= rewrite_seq(s.take(0), codec, digester));
                    assert(block_views_of(out@) =~= base + emits_seq(s.take(0), codec, digester));
                }
                while i < count
                    invariant
                        i <= count == xs.len(),
                        rebuilt.len() == i,
                        views_of(rebuilt@) == rewrite_seq(s.take(i as int), codec, digester),
                        block_views_of(out@) == base + emits_seq(s.take(i as int), codec, digester),
                        forall|j: int| 0 <= j < i ==> wf(rewrite(#[trigger] s[j], codec, digester)),
                        forall|j: int| 0 <= j < i ==> emits_ok(#[trigger] s[j], codec, digester, version),
                    decreases count - i,
                {
                    proof {
                        lemma_seq_size_element(s, i as int);
                    }
                    match extract_node(&xs[i], codec, digester, version, out) {
                        Err(e) => {
                            proof {
                                assert(!emits_ok(s[i as int], codec, digester, version));
                            }
                            return Err(e);
                        },
                        Ok(m) => {
                            let ghost before_push = rebuilt@;
                            rebuilt.push(m);
                            proof {
                                let t = s.take(i + 1);
                                assert(t.drop_last() =~= s.take(i as int));
                                assert(t.last() == s[i as int]);
                                assert(rebuilt@.drop_last() =~= before_push);
                                assert(views_of(rebuilt@) == views_of(before_push).push(
                                    rebuilt@.last()@,
                                ));
                                assert(views_of(rebuilt@) =~= rewrite_seq(t, codec, digester));
                                assert(block_views_of(out@) =~= base + emits_seq(
                                    t,
                                    codec,
                                    digester,
                                ));
                            }
                            i = i + 1;
                        },
                    }
                }
                proof {
                    assert(s.take(count as int) =~= s);
                    lemma_rewrite_seq_index(s, codec, digester);
                }
                let result = Node::List(rebuilt);
                proof {
                    assert(result@ == rewrite(n@, codec, digester));
                    assert forall|j: int|
                        0 <= j < rewrite_seq(s, codec, digester).len() implies wf(
                        #[trigger] rewrite_seq(s, codec, digester)[j],
                    ) by {
                        assert(rewrite_seq(s, codec, digester)[j] == rewrite(
                            s[j],
                            codec,
                            digester,
                        ));
                    }
                    assert(wf(result@));
                }
                Ok(result)
            },
            Node::Dict(es) => {
                let ghost s = entry_views_of(es@);
                let ghost base = block_views_of(out@);
                proof {
                    lemma_entry_views_of(es@);
                }
                let mut rebuilt: Vec<(String, Node)> = Vec::new();
                let count = es.len();
                let mut i: usize = 0;
                proof {
                    assert(s.take(0) =~= Seq::<(Seq<char>, NodeView)>::empty());
                    assert(entry_views_of(rebuilt@) =~= rewrite_entries(
                        s.take(0),
                        codec,
                        digester,
                    ));
                    assert(block_views_of(out@) =~= base + emits_entries(
                        s.take(0),
                        codec,
                        digester,
                    ));
                }
                while i < count
                    invariant
                        i <= count == es.len(),
                        rebuilt.len() == i,
                        entry_views_of(rebuilt@) == rewrite_entries(
                            s.take(i as int),
                            codec,
                            digester,
                        ),
                        block_views_of(out@) == base + emits_entries(
                            s.take(i as int),
                            codec,
                            digester,
                        ),
                        forall|j: int| 0 <= j < i ==> wf(
                            rewrite((#[trigger] s[j]).1, codec, digester),
                        ),
                        forall|j: int| 0 <= j < i ==> emits_ok(
                            (#[trigger] s[j]).1,
                            codec,
                            digester,
                            version,
                        ),
                    decreases count - i,
                {
                    proof {
                        lemma_entries_size_element(s, i as int);
                    }
                    let (k, v) = &es[i];
                    match extract_node(v, codec, digester, version, out) {
                        Err(e) => {
                            proof {
                                assert(!emits_ok(s[i as int].1, codec, digester, version));
                            }
                            return Err(e);
                        },
                        Ok(m) => {
                            let ghost before_push = rebuilt@;
                            rebuilt.push((k.clone(), m));
                            proof {
                                let t = s.take(i + 1);
                                assert(t.drop_last() =~= s.take(i as int));
                                assert(t.last() == s[i as int]);
                                assert(rebuilt@.drop_last() =~= before_push);
                                assert(entry_views_of(rebuilt@) == entry_views_of(
                                    before_push,
                                ).push((rebuilt@.last().0@, rebuilt@.last().1@)));
                                assert(entry_views_of(rebuilt@) =~= rewrite_entries(
                                    t,
                                    codec,
                                    digester,
                                ));
                                assert(block_views_of(out@) =~= base + emits_entries(
                                    t,
                                    codec,
                                    digester,
                                ));
                            }
                            i = i + 1;
                        },
                    }
                }
                proof {
                    assert(s.take(count as int) =~= s);
                    lemma_rewrite_entries_index(s, codec, digester);
                }
                let result = Node::Dict(rebuilt);
                proof {
                    let rw = rewrite_entries(s, codec, digester);
                    assert(result@ == rewrite(n@, codec, digester));
                    assert forall|j: int| 0 <= j < rw.len() implies wf((#[trigger] rw[j]).1) by {
                        assert(rw[j] == (s[j].0, rewrite(s[j].1, codec, digester)));
                    }
                    assert forall|j: int| 0 <= j < rw.len() - 1 implies crate::node::lex_lt(
                        (#[trigger] rw[j]).0,
                        rw[j + 1].0,
                    ) by {
                        assert(rw[j].0 == s[j].0 && rw[j + 1].0 == s[j + 1].0);
                    }
                    assert(keys_sorted(rw));
                    assert(wf(result@));
                }
                Ok(result)
            },
            _ => {
                let m = n.clone();
                proof {
                    assert(block_views_of(out@) =~= block_views_of(old(out)@) + emits(
                        n@,
                        codec,
                        digester,
                    ));
                }
                Ok(m)
            },
        }
    }
}

/// The full extraction of a document: every emitted block, then the root
/// block, identified under the defaults, last.
pub open spec fn extraction(n: NodeView, c: Total, dg: Digester) -> Seq<(Seq<u8>, NodeView)> {
    emits(n, c, dg).push((cid_of(rewrite(n, c, dg), c, dg), rewrite(n, c, dg)))
}

/// Whether a whole extraction run succeeds: every delimiter's identifier
/// and the root's identifier can be computed.
pub open spec fn extraction_ok(n: NodeView, c: Total, dg: Digester, v: CidVersion) -> bool {
    emits_ok(n, c, dg, v) && v is V1 && links_valid(rewrite(n, c, dg)) && encodable(
        rewrite(n, c, dg),
        c,
    )
}

/// The extraction always ends with the root block: the rewritten root,
/// identified under the defaults.
pub proof fn lemma_extraction_root_last(n: NodeView, c: Total, dg: Digester)
    ensures
        extraction(n, c, dg).len() > 0,
        extraction(n, c, dg).last() == (
            cid_of(rewrite(n, c, dg), c, dg),
            rewrite(n, c, dg),
        ),
{
}

/// A tree with no inline delimiter anywhere in it.
pub open spec fn delimiter_free(n: NodeView) -> bool
    decreases n,
{
    !is_delimiter(n) && match n {
        NodeView::List(xs) => forall|i: int|
            0 <= i < xs.len() ==> delimiter_free(#[trigger] xs[i]),
        NodeView::Dict(es) => forall|i: int|
            0 <= i < es.len() ==> delimiter_free((#[trigger] es[i]).1),
        _ => true,
    }
}

/// Extraction is the identity on a delimiter-free document: nothing is
/// emitted and the root is returned unchanged, so the whole extraction is
/// the single root block.
pub proof fn lemma_extract_identity(n: NodeView, c: Total, dg: Digester)
    requires
        delimiter_free(n),
    ensures
        rewrite(n, c, dg) == n,
        emits(n, c, dg) == Seq::<(Seq<u8>, NodeView)>::empty(),
        extraction(n, c, dg) == seq![(cid_of(n, c, dg), n)],
    decreases size(n), 0nat, 0nat,
{
    match n {
        NodeView::List(xs) => {
            lemma_rewrite_seq_index(xs, c, dg);
            assert forall|i: int| 0 <= i < xs.len() implies rewrite_seq(xs, c, dg)[i] == xs[i]
                && emits(#[trigger] xs[i], c, dg) == Seq::<(Seq<u8>, NodeView)>::empty() by {
                lemma_seq_size_element(xs, i);
                lemma_extract_identity(xs[i], c, dg);
            }
            assert(rewrite_seq(xs, c, dg) =~= xs);
            lemma_emits_seq_empty(xs, c, dg);
        },
        NodeView::Dict(es) => {
            lemma_rewrite_entries_index(es, c, dg);
            assert forall|i: int|
                0 <= i < es.len() implies rewrite_entries(es, c, dg)[i] == es[i] && emits(
                (#[trigger] es[i]).1,
                c,
                dg,
            ) == Seq::<(Seq<u8>, NodeView)>::empty() by {
                lemma_entries_size_element(es, i);
                lemma_extract_identity(es[i].1, c, dg);
            }
            assert(rewrite_entries(es, c, dg) =~= es);
            lemma_emits_entries_empty(es, c, dg);
        },
        _ => {},
    }
    assert(extraction(n, c, dg) =~= seq![(cid_of(n, c, dg), n)]);
}

proof fn lemma_emits_seq_empty(xs: Seq<NodeView>, c: Total, dg: Digester)
    requires
        forall|i: int|
            0 <= i < xs.len() ==> emits(#[trigger] xs[i], c, dg) == Seq::<
                (Seq<u8>, NodeView),
            >::empty(),
    ensures
        emits_seq(xs, c, dg) == Seq::<(Seq<u8>, NodeView)>::empty(),
    decreases xs.len(),
{
    if xs.len() > 0 {
        assert forall|i: int|
            0 <= i < xs.drop_last().len() implies emits(#[trigger] xs.drop_last()[i], c, dg)
            == Seq::<(Seq<u8>, NodeView)>::empty() by {
            assert(xs.drop_last()[i] == xs[i]);
        }
        lemma_emits_seq_empty(xs.drop_last(), c, dg);
        assert(emits(xs.last(), c, dg) == Seq::<(Seq<u8>, NodeView)>::empty());
        assert(emits_seq(xs, c, dg) =~= Seq::<(Seq<u8>, NodeView)>::empty());
    }
}

proof fn lemma_emits_entries_empty(es: Seq<(Seq<char>, NodeView)>, c: Total, dg: Digester)
    requires
        forall|i: int|
            0 <= i < es.len() ==> emits((#[trigger] es[i]).1, c, dg) == Seq::<
                (Seq<u8>, NodeView),
            >::empty(),
    ensures
        emits_entries(es, c, dg) == Seq::<(Seq<u8>, NodeView)>::empty(),
    decreases es.len(),
{
    if es.len() > 0 {
        assert forall|i: int|
            0 <= i < es.drop_last().len() implies emits((#[trigger] es.drop_last()[i]).1, c, dg)
            == Seq::<(Seq<u8>, NodeView)>::empty() by {
            assert(es.drop_last()[i] == es[i]);
        }
        lemma_emits_entries_empty(es.drop_last(), c, dg);
        assert(emits(es.last().1, c, dg) == Seq::<(Seq<u8>, NodeView)>::empty());
        assert(emits_entries(es, c, dg) =~= Seq::<(Seq<u8>, NodeView)>::empty());
    }
}

/// A tree whose delimiters are all in inherit form.
pub open spec fn inherit_only(n: NodeView) -> bool
    decreases size(n), 0nat, 0nat,
    via inherit_only_dec
{
    if is_delimiter(n) {
        !is_inner_explicit(n->Dict_0[0].1) && inherit_only(delimiter_data(n))
    } else {
        match n {
            NodeView::List(xs) => forall|i: int|
                0 <= i < xs.len() ==> inherit_only(#[trigger] xs[i]),
            NodeView::Dict(es) => forall|i: int|
                0 <= i < es.len() ==> inherit_only((#[trigger] es[i]).1),
            _ => true,
        }
    }
}

#[via_fn]
proof fn inherit_only_dec(n: NodeView) {
    if is_delimiter(n) {
        lemma_delimiter_data_size(n);
    } else {
        match n {
            NodeView::List(xs) => {
                assert forall|i: int| 0 <= i < xs.len() implies size(xs[i]) <= seq_size(xs) by {
                    lemma_seq_size_element(xs, i);
                }
            },
            NodeView::Dict(es) => {
                assert forall|i: int|
                    0 <= i < es.len() implies size(es[i].1) <= entries_size(es) by {
                    lemma_entries_size_element(es, i);
                }
            },
            _ => {},
        }
    }
}

/// Identifier correctness: when every delimiter is in inherit form, each
/// emitted pair's identifier is the canonical identifier of its node
/// under the defaults.  The root block's identifier is always canonical.
pub proof fn lemma_emitted_ids_inherit(n: NodeView, c: Total, dg: Digester)
    requires
        inherit_only(n),
    ensures
        forall|i: int|
            0 <= i < extraction(n, c, dg).len() ==> (#[trigger] extraction(n, c, dg)[i]).0
                == cid_of(extraction(n, c, dg)[i].1, c, dg),
{
    lemma_emits_ids_inherit(n, c, dg);
    let prefix = emits(n, c, dg);
    let pair = (cid_of(rewrite(n, c, dg), c, dg), rewrite(n, c, dg));
    assert(extraction(n, c, dg) == prefix.push(pair));
    assert forall|i: int|
        0 <= i < extraction(n, c, dg).len() implies (#[trigger] extraction(n, c, dg)[i]).0
        == cid_of(extraction(n, c, dg)[i].1, c, dg) by {
        if i < prefix.len() {
            assert(prefix.push(pair)[i] == prefix[i]);
        } else {
            assert(prefix.push(pair)[i] == pair);
        }
    }
}

proof fn lemma_emits_ids_inherit(n: NodeView, c: Total, dg: Digester)
    requires
        inherit_only(n),
    ensures
        forall|i: int|
            0 <= i < emits(n, c, dg).len() ==> (#[trigger] emits(n, c, dg)[i]).0 == cid_of(
                emits(n, c, dg)[i].1,
                c,
                dg,
            ),
    decreases size(n), 0nat, 0nat,
{
    if is_delimiter(n) {
        lemma_delimiter_data_size(n);
        lemma_emits_ids_inherit(delimiter_data(n), c, dg);
        let prefix = emits(delimiter_data(n), c, dg);
        let pair = (delimiter_id(n, c, dg), rewrite(delimiter_data(n), c, dg));
        assert(emits(n, c, dg) == prefix.push(pair));
        assert(pair.0 == cid_of(pair.1, c, dg));
        assert forall|i: int|
            0 <= i < emits(n, c, dg).len() implies (#[trigger] emits(n, c, dg)[i]).0 == cid_of(
            emits(n, c, dg)[i].1,
            c,
            dg,
        ) by {
            if i < prefix.len() {
                assert(prefix.push(pair)[i] == prefix[i]);
            } else {
                assert(prefix.push(pair)[i] == pair);
            }
        }
    } else {
        match n {
            NodeView::List(xs) => {
                lemma_emits_seq_ids_inherit(xs, c, dg);
                assert forall|i: int|
                    0 <= i < emits(n, c, dg).len() implies (#[trigger] emits(n, c, dg)[i]).0
                    == cid_of(emits(n, c, dg)[i].1, c, dg) by {
                    assert(emits(n, c, dg)[i] == emits_seq(xs, c, dg)[i]);
                }
            },
            NodeView::Dict(es) => {
                lemma_emits_entries_ids_inherit(es, c, dg);
                assert forall|i: int|
                    0 <= i < emits(n, c, dg).len() implies (#[trigger] emits(n, c, dg)[i]).0
                    == cid_of(emits(n, c, dg)[i].1, c, dg) by {
                    assert(emits(n, c, dg)[i] == emits_entries(es, c, dg)[i]);
                }
            },
            _ => {},
        }
    }
}

proof fn lemma_emits_seq_ids_inherit(xs: Seq<NodeView>, c: Total, dg: Digester)
    requires
        forall|i: int| 0 <= i < xs.len() ==> inherit_only(#[trigger] xs[i]),
    ensures
        forall|i: int|
            0 <= i < emits_seq(xs, c, dg).len() ==> (#[trigger] emits_seq(xs, c, dg)[i]).0
                == cid_of(emits_seq(xs, c, dg)[i].1, c, dg),
    decreases seq_size(xs), 1nat, xs.len(),
{
    if xs.len() > 0 {
        assert forall|i: int| 0 <= i < xs.drop_last().len() implies inherit_only(
            #[trigger] xs.drop_last()[i],
        ) by {
            assert(xs.drop_last()[i] == xs[i]);
        }
        lemma_emits_seq_ids_inherit(xs.drop_last(), c, dg);
        lemma_emits_ids_inherit(xs.last(), c, dg);
        let prefix = emits_seq(xs.drop_last(), c, dg);
        let tail = emits(xs.last(), c, dg);
        assert forall|i: int|
            0 <= i < emits_seq(xs, c, dg).len() implies (#[trigger] emits_seq(xs, c, dg)[i]).0
            == cid_of(emits_seq(xs, c, dg)[i].1, c, dg) by {
            if i < prefix.len() {
                assert(emits_seq(xs, c, dg)[i] == prefix[i]);
            } else {
                assert(emits_seq(xs, c, dg)[i] == tail[i - prefix.len()]);
            }
        }
    }
}

proof fn lemma_emits_entries_ids_inherit(es: Seq<(Seq<char>, NodeView)>, c: Total, dg: Digester)
    requires
        forall|i: int| 0 <= i < es.len() ==> inherit_only((#[trigger] es[i]).1),
    ensures
        forall|i: int|
            0 <= i < emits_entries(es, c, dg).len() ==> (#[trigger] emits_entries(
                es,
                c,
                dg,
            )[i]).0 == cid_of(emits_entries(es, c, dg)[i].1, c, dg),
    decreases entries_size(es), 1nat, es.len(),
{
    if es.len() > 0 {
        assert forall|i: int| 0 <= i < es.drop_last().len() implies inherit_only(
            (#[trigger] es.drop_last()[i]).1,
        ) by {
            assert(es.drop_last()[i] == es[i]);
        }
        lemma_emits_entries_ids_inherit(es.drop_last(), c, dg);
        lemma_emits_ids_inherit(es.last().1, c, dg);
        let prefix = emits_entries(es.drop_last(), c, dg);
        let tail = emits(es.last().1, c, dg);
        assert forall|i: int|
            0 <= i < emits_entries(es, c, dg).len() implies (#[trigger] emits_entries(
            es,
            c,
            dg,
        )[i]).0 == cid_of(emits_entries(es, c, dg)[i].1, c, dg) by {
            if i < prefix.len() {
                assert(emits_entries(es, c, dg)[i] == prefix[i]);
            } else {
                assert(emits_entries(es, c, dg)[i] == tail[i - prefix.len()]);
            }
        }
    }
}

/// The extraction of an inlined document: its blocks in dependency order,
/// each child block before every block that links to it, the root last.
#[derive(Debug)]
pub struct Extractor {
    blocks: Vec<(BlockId, Node)>,
    pos: usize,
}

impl Extractor {
    /// All blocks of the extraction, in emission order.
    pub closed spec fn blocks(&self) -> Seq<(Seq<u8>, NodeView)> {
        block_views_of(self.blocks@)
    }

    /// How many blocks have been handed out already.
    pub closed spec fn pos(&self) -> int {
        self.pos as int
    }

    /// The position never runs past the end.
    pub closed spec fn inv(&self) -> bool {
        0 <= self.pos <= self.blocks@.len()
    }

    /// Extract every block of `inline` under the given defaults.
    ///
    /// Succeeds exactly when every delimiter's identifier and the root's
    /// identifier can be computed ([`extraction_ok`]).
    pub fn new(inline: &InlineIpld, codec: Total, digester: Digester, version: CidVersion) -> (r:
        Result<Extractor, Error>)
        requires
            wf(inline@),
        ensures
            match r {
                Ok(ext) => {
                    &&& extraction_ok(inline@, codec, digester, version)
                    &&& ext.blocks() == extraction(inline@, codec, digester)
                    &&& ext.pos() == 0
                    &&& ext.inv()
                },
                Err(_) => !extraction_ok(inline@, codec, digester, version),
            },
    {
        let mut blocks: Vec<(BlockId, Node)> = Vec::new();
        proof {
            assert(block_views_of(blocks@) =~= Seq::<(Seq<u8>, NodeView)>::empty());
        }
        match extract_node(inline.node(), codec, digester, version, &mut blocks) {
            Err(e) => Err(e),
            Ok(root) => {
                match cid::new(&root, codec, digester, version) {
                    Err(e) => Err(e),
                    Ok(id) => {
                        let ghost id_view = id@;
                        let ghost root_view = root@;
                        let ghost before_push = blocks@;
                        blocks.push((id, root));
                        proof {
                            assert(blocks@.drop_last() =~= before_push);
                            assert(block_views_of(blocks@) == block_views_of(before_push).push(
                                (id_view, root_view),
                            ));
                            assert(block_views_of(before_push) =~= emits(
                                inline@,
                                codec,
                                digester,
                            ));
                        }
                        Ok(Extractor { blocks, pos: 0 })
                    },
                }
            },
        }
    }

    /// The next block, or `None` when every block has been handed out.
    pub fn next(&mut self) -> (r: Option<(BlockId, Node)>)
        requires
            old(self).inv(),
        ensures
            final(self).inv(),
            final(self).blocks() == old(self).blocks(),
            match r {
                Some(pair) => {
                    &&& old(self).pos() < old(self).blocks().len()
                    &&& (pair.0@, pair.1@) == old(self).blocks()[old(self).pos()]
                    &&& final(self).pos() == old(self).pos() + 1
                },
                None => {
                    &&& old(self).pos() == old(self).blocks().len()
                    &&& final(self).pos() == old(self).pos()
                },
            },
    {
        proof {
            lemma_block_views_of(self.blocks@);
        }
        if self.pos < self.blocks.len() {
            let id = self.blocks[self.pos].0.duplicate();
            let node = self.blocks[self.pos].1.clone();
            self.pos = self.pos + 1;
            Some((id, node))
        } else {
            None
        }
    }
}

} // verus!
