//! How extraction and inlining relate.

use vstd::prelude::*;

use crate::codec::{Digester, Total};
use crate::extractor::{
    delimiter_free, emits, emits_entries, emits_seq, lemma_extract_identity, rewrite,
    rewrite_entries, rewrite_seq, lemma_rewrite_entries_index, lemma_rewrite_seq_index,
};
use crate::inliner::{
    inline_entries, inline_list, inline_run, inline_sub, Outcome, OutcomeEntries, OutcomeSeq,
    Policy, ResolutionView,
};
use crate::node::{
    is_delimiter, is_inner_explicit, is_inner_inherit, is_wrapper_map, lemma_entries_size_element,
    lemma_seq_size_element, lemma_wrap_view_shape, size, wrap_view, NodeView,
};

verus! {

/// Every block among `bs` is already in the store, under its identifier.
pub open spec fn blocks_in_store(
    contents: Map<Seq<u8>, NodeView>,
    bs: Seq<(Seq<u8>, NodeView)>,
) -> bool {
    forall|i: int|
        0 <= i < bs.len() ==> contents.contains_key((#[trigger] bs[i]).0) && bs[i].1
            == contents[bs[i].0]
}

/// How one naive inlining pass may change a node's outermost shape:
/// a link either stays or becomes a wrapper map, every other node keeps
/// its variant, and a map keeps its keys and never gains a link value.
pub open spec fn shape_preserved(n: NodeView, m: NodeView) -> bool {
    (m is Link ==> n is Link) && match n {
        NodeView::Link(_) => m == n || is_wrapper_map(m),
        NodeView::List(_) => m is List,
        NodeView::Dict(es) => m matches NodeView::Dict(es2) && es2.len() == es.len() && (forall|
            j: int,
        |
            0 <= j < es.len() ==> (#[trigger] es2[j]).0 == es[j].0 && ((es2[j].1 is Link) ==> (
            es[j].1 is Link))),
        _ => m == n,
    }
}

proof fn lemma_emits_seq_in_store(
    contents: Map<Seq<u8>, NodeView>,
    nodes: Seq<NodeView>,
    c: Total,
    dg: Digester,
)
    requires
        forall|j: int|
            0 <= j < nodes.len() ==> blocks_in_store(contents, emits(#[trigger] nodes[j], c, dg)),
    ensures
        blocks_in_store(contents, emits_seq(nodes, c, dg)),
    decreases nodes.len(),
{
    if nodes.len() > 0 {
        assert forall|j: int| 0 <= j < nodes.drop_last().len() implies blocks_in_store(
            contents,
            emits(#[trigger] nodes.drop_last()[j], c, dg),
        ) by {
            assert(nodes.drop_last()[j] == nodes[j]);
        }
        lemma_emits_seq_in_store(contents, nodes.drop_last(), c, dg);
        let prefix = emits_seq(nodes.drop_last(), c, dg);
        let tail = emits(nodes.last(), c, dg);
        assert forall|i: int|
            0 <= i < emits_seq(nodes, c, dg).len() implies contents.contains_key(
            (#[trigger] emits_seq(nodes, c, dg)[i]).0,
        ) && emits_seq(nodes, c, dg)[i].1 == contents[emits_seq(nodes, c, dg)[i].0] by {
            if i < prefix.len() {
                assert(emits_seq(nodes, c, dg)[i] == prefix[i]);
            } else {
                assert(emits_seq(nodes, c, dg)[i] == tail[i - prefix.len()]);
            }
        }
    }
}

proof fn lemma_emits_entries_in_store(
    contents: Map<Seq<u8>, NodeView>,
    entries: Seq<(Seq<char>, NodeView)>,
    c: Total,
    dg: Digester,
)
    requires
        forall|j: int|
            0 <= j < entries.len() ==> blocks_in_store(
                contents,
                emits((#[trigger] entries[j]).1, c, dg),
            ),
    ensures
        blocks_in_store(contents, emits_entries(entries, c, dg)),
    decreases entries.len(),
{
    if entries.len() > 0 {
        assert forall|j: int| 0 <= j < entries.drop_last().len() implies blocks_in_store(
            contents,
            emits((#[trigger] entries.drop_last()[j]).1, c, dg),
        ) by {
            assert(entries.drop_last()[j] == entries[j]);
        }
        lemma_emits_entries_in_store(contents, entries.drop_last(), c, dg);
        let prefix = emits_entries(entries.drop_last(), c, dg);
        let tail = emits(entries.last().1, c, dg);
        assert forall|i: int|
            0 <= i < emits_entries(entries, c, dg).len() implies contents.contains_key(
            (#[trigger] emits_entries(entries, c, dg)[i]).0,
        ) && emits_entries(entries, c, dg)[i].1 == contents[emits_entries(entries, c, dg)[i].0] by {
            if i < prefix.len() {
                assert(emits_entries(entries, c, dg)[i] == prefix[i]);
            } else {
                assert(emits_entries(entries, c, dg)[i] == tail[i - prefix.len()]);
            }
        }
    }
}

proof fn lemma_round_trip_sub(
    n: NodeView,
    contents: Map<Seq<u8>, NodeView>,
    c: Total,
    dg: Digester,
    path: Seq<usize>,
    seen: Set<Seq<u8>>,
)
    requires
        delimiter_free(n),
        forall|k: Seq<u8>| contents.contains_key(k) ==> delimiter_free(#[trigger] contents[k]),
    ensures
        inline_sub(n, contents, Policy::Naive, Seq::empty(), path, seen) matches Outcome::Done {
            node,
            ..
        } && rewrite(node, c, dg) == n && shape_preserved(n, node) && blocks_in_store(
            contents,
            emits(node, c, dg),
        ),
    decreases size(n), 0nat, 0nat,
{
    let empty_ds = Seq::<(Seq<usize>, ResolutionView)>::empty();
    match n {
        NodeView::Link(id) => {
            if contents.contains_key(id) {
                let data = contents[id];
                let m = wrap_view(id, data);
                lemma_wrap_view_shape(id, data);
                lemma_extract_identity(data, c, dg);
                assert(rewrite(m, c, dg) == NodeView::Link(id));
                let prefix = emits(data, c, dg);
                let pair = (id, rewrite(data, c, dg));
                assert(emits(m, c, dg) == prefix.push(pair));
                assert(emits(m, c, dg) =~= seq![(id, data)]);
                assert(blocks_in_store(contents, emits(m, c, dg)));
            } else {
                assert(emits(n, c, dg) =~= Seq::<(Seq<u8>, NodeView)>::empty());
            }
        },
        NodeView::List(xs) => {
            lemma_round_trip_list(xs, contents, c, dg, path, 0, seen);
            let o = inline_list(xs, contents, Policy::Naive, empty_ds, path, 0, seen);
            let nodes = o->Done_nodes;
            let m = NodeView::List(nodes);
            assert(!is_delimiter(m));
            lemma_rewrite_seq_index(nodes, c, dg);
            assert forall|j: int|
                0 <= j < nodes.len() implies rewrite_seq(nodes, c, dg)[j] == xs[j] by {
                assert(rewrite(nodes[j], c, dg) == xs[j]);
            }
            assert(rewrite_seq(nodes, c, dg) =~= xs);
            assert forall|j: int| 0 <= j < nodes.len() implies blocks_in_store(
                contents,
                emits(#[trigger] nodes[j], c, dg),
            ) by {
                assert(rewrite(nodes[j], c, dg) == xs[j]);
            }
            lemma_emits_seq_in_store(contents, nodes, c, dg);
            assert(emits(m, c, dg) == emits_seq(nodes, c, dg));
        },
        NodeView::Dict(es) => {
            lemma_round_trip_entries(es, contents, c, dg, path, 0, seen);
            let o = inline_entries(es, contents, Policy::Naive, empty_ds, path, 0, seen);
            let entries = o->Done_entries;
            let m = NodeView::Dict(entries);
            assert forall|j: int|
                0 <= j < entries.len() implies (#[trigger] entries[j]).0 == es[j].0 && rewrite(
                entries[j].1,
                c,
                dg,
            ) == es[j].1 && shape_preserved(es[j].1, entries[j].1) && blocks_in_store(
                contents,
                emits(entries[j].1, c, dg),
            ) by {}
            assert(!is_delimiter(m)) by {
                if is_delimiter(m) {
                    reveal_strlit("/");
                    reveal_strlit("data");
                    assert(es.len() == 1 && es[0].0 == "/"@);
                    let x = es[0].1;
                    let x2 = entries[0].1;
                    assert(shape_preserved(x, x2));
                    assert(is_inner_inherit(x2) || is_inner_explicit(x2));
                    assert(x2 is Dict);
                    match x {
                        NodeView::Link(_) => {
                            assert(is_wrapper_map(x2) || x2 == x);
                            assert(x2->Dict_0[0].0 == "/"@);
                            assert("/"@ != "data"@) by {
                                assert("/"@.len() == 1 && "data"@.len() == 4);
                            }
                        },
                        NodeView::Dict(inner) => {
                            let inner2 = x2->Dict_0;
                            assert(inner2.len() == inner.len());
                            if is_inner_inherit(x2) {
                                assert(inner[0].0 == "data"@);
                                assert(is_inner_inherit(x));
                                assert(is_delimiter(n));
                            } else {
                                assert(is_inner_explicit(x2));
                                assert(inner2[1].1 is Link);
                                assert(inner[1].1 is Link);
                                assert(inner[0].0 == "data"@ && inner[1].0 == "link"@);
                                assert(is_inner_explicit(x));
                                assert(is_delimiter(n));
                            }
                        },
                        _ => {
                            assert(x2 == x);
                        },
                    }
                }
            }
            lemma_rewrite_entries_index(entries, c, dg);
            assert forall|j: int|
                0 <= j < entries.len() implies rewrite_entries(entries, c, dg)[j] == es[j] by {
                assert(rewrite_entries(entries, c, dg)[j] == (
                    entries[j].0,
                    rewrite(entries[j].1, c, dg),
                ));
                assert((es[j].0, es[j].1) == es[j]);
            }
            assert(rewrite_entries(entries, c, dg) =~= es);
            lemma_emits_entries_in_store(contents, entries, c, dg);
            assert(emits(m, c, dg) == emits_entries(entries, c, dg));
        },
        _ => {
            assert(emits(n, c, dg) =~= Seq::<(Seq<u8>, NodeView)>::empty());
        },
    }
}

proof fn lemma_round_trip_list(
    xs: Seq<NodeView>,
    contents: Map<Seq<u8>, NodeView>,
    c: Total,
    dg: Digester,
    path: Seq<usize>,
    i: int,
    seen: Set<Seq<u8>>,
)
    requires
        0 <= i,
        forall|j: int| 0 <= j < xs.len() ==> delimiter_free(#[trigger] xs[j]),
        forall|k: Seq<u8>| contents.contains_key(k) ==> delimiter_free(#[trigger] contents[k]),
    ensures
        inline_list(xs, contents, Policy::Naive, Seq::empty(), path, i, seen)
            matches OutcomeSeq::Done { nodes, .. } && nodes.len() == (if i <= xs.len() {
            xs.len() - i
        } else {
            0
        }) && (forall|j: int|
            0 <= j < nodes.len() ==> rewrite(#[trigger] nodes[j], c, dg) == xs[i + j]
                && shape_preserved(xs[i + j], nodes[j]) && blocks_in_store(
                contents,
                emits(nodes[j], c, dg),
            )),
    decreases crate::node::seq_size(xs), 1nat, (if i < xs.len() {
        xs.len() - i
    } else {
        0
    }),
{
    let empty_ds = Seq::<(Seq<usize>, ResolutionView)>::empty();
    if i < xs.len() {
        lemma_seq_size_element(xs, i);
        lemma_round_trip_sub(xs[i], contents, c, dg, path.push(i as usize), seen, );
        let sub = inline_sub(xs[i], contents, Policy::Naive, empty_ds, path.push(i as usize), seen);
        let node = sub->Done_node;
        let seen2 = sub->Done_seen;
        lemma_round_trip_list(xs, contents, c, dg, path, i + 1, seen2);
        let rest = inline_list(xs, contents, Policy::Naive, empty_ds, path, i + 1, seen2);
        let nodes = seq![node] + rest->Done_nodes;
        assert forall|j: int|
            0 <= j < nodes.len() implies rewrite(#[trigger] nodes[j], c, dg) == xs[i + j]
            && shape_preserved(xs[i + j], nodes[j]) && blocks_in_store(
            contents,
            emits(nodes[j], c, dg),
        ) by {
            if j == 0 {
                assert(nodes[0] == node);
            } else {
                assert(nodes[j] == rest->Done_nodes[j - 1]);
            }
        }
    }
}

proof fn lemma_round_trip_entries(
    es: Seq<(Seq<char>, NodeView)>,
    contents: Map<Seq<u8>, NodeView>,
    c: Total,
    dg: Digester,
    path: Seq<usize>,
    i: int,
    seen: Set<Seq<u8>>,
)
    requires
        0 <= i,
        forall|j: int| 0 <= j < es.len() ==> delimiter_free((#[trigger] es[j]).1),
        forall|k: Seq<u8>| contents.contains_key(k) ==> delimiter_free(#[trigger] contents[k]),
    ensures
        inline_entries(es, contents, Policy::Naive, Seq::empty(), path, i, seen)
            matches OutcomeEntries::Done { entries, .. } && entries.len() == (if i <= es.len() {
            es.len() - i
        } else {
            0
        }) && (forall|j: int|
            0 <= j < entries.len() ==> (#[trigger] entries[j]).0 == es[i + j].0 && rewrite(
                entries[j].1,
                c,
                dg,
            ) == es[i + j].1 && shape_preserved(es[i + j].1, entries[j].1) && blocks_in_store(
                contents,
                emits(entries[j].1, c, dg),
            )),
    decreases crate::node::entries_size(es), 1nat, (if i < es.len() {
        es.len() - i
    } else {
        0
    }),
{
    let empty_ds = Seq::<(Seq<usize>, ResolutionView)>::empty();
    if i < es.len() {
        lemma_entries_size_element(es, i);
        lemma_round_trip_sub(es[i].1, contents, c, dg, path.push(i as usize), seen);
        let sub = inline_sub(
            es[i].1,
            contents,
            Policy::Naive,
            empty_ds,
            path.push(i as usize),
            seen,
        );
        let node = sub->Done_node;
        let seen2 = sub->Done_seen;
        lemma_round_trip_entries(es, contents, c, dg, path, i + 1, seen2);
        let rest = inline_entries(es, contents, Policy::Naive, empty_ds, path, i + 1, seen2);
        let entries = seq![(es[i].0, node)] + rest->Done_entries;
        assert forall|j: int|
            0 <= j < entries.len() implies (#[trigger] entries[j]).0 == es[i + j].0 && rewrite(
            entries[j].1,
            c,
            dg,
        ) == es[i + j].1 && shape_preserved(es[i + j].1, entries[j].1) && blocks_in_store(
            contents,
            emits(entries[j].1, c, dg),
        ) by {
            if j == 0 {
                assert(entries[0] == (es[i].0, node));
            } else {
                assert(entries[j] == rest->Done_entries[j - 1]);
            }
        }
    }
}

/// Round trip: over a delimiter-free document and a store of
/// delimiter-free blocks, a completed naive inlining pass extracts back to
/// where it started — rewriting the inlined document yields the original
/// document, and every block the extraction emits is already in the store,
/// under the very identifier it is emitted with.
pub proof fn lemma_extract_inline_round_trip(
    n: NodeView,
    contents: Map<Seq<u8>, NodeView>,
    c: Total,
    dg: Digester,
)
    requires
        delimiter_free(n),
        forall|k: Seq<u8>| contents.contains_key(k) ==> delimiter_free(#[trigger] contents[k]),
    ensures
        inline_run(n, contents, Policy::Naive, Seq::empty()) matches Outcome::Done { node, .. }
            && rewrite(node, c, dg) == n && blocks_in_store(contents, emits(node, c, dg)),
{
    lemma_round_trip_sub(n, contents, c, dg, Seq::empty(), Set::empty());
}

/// At-most-once idempotence on link-free documents: a pass that finds no
/// link at all gives the document back unchanged, whatever the policy, the
/// store, and the recorded answers, so running it twice is the identity.
/// (A document that still holds links is re-wrapped on a second pass, so
/// the unrestricted statement does not hold.)
pub proof fn lemma_inline_link_free_identity(
    n: NodeView,
    contents: Map<Seq<u8>, NodeView>,
    pol: Policy,
    ds: Seq<(Seq<usize>, ResolutionView)>,
    path: Seq<usize>,
    seen: Set<Seq<u8>>,
)
    requires
        link_free(n),
    ensures
        inline_sub(n, contents, pol, ds, path, seen) == (Outcome::Done { node: n, seen }),
    decreases size(n), 0nat, 0nat,
{
    match n {
        NodeView::List(xs) => {
            lemma_inline_link_free_identity_list(xs, contents, pol, ds, path, 0, seen);
            assert(xs.skip(0) =~= xs);
        },
        NodeView::Dict(es) => {
            lemma_inline_link_free_identity_entries(es, contents, pol, ds, path, 0, seen);
            assert(es.skip(0) =~= es);
        },
        _ => {},
    }
}

/// A tree with no link anywhere in it.
pub open spec fn link_free(n: NodeView) -> bool
    decreases n,
{
    match n {
        NodeView::Link(_) => false,
        NodeView::List(xs) => forall|i: int| 0 <= i < xs.len() ==> link_free(#[trigger] xs[i]),
        NodeView::Dict(es) => forall|i: int|
            0 <= i < es.len() ==> link_free((#[trigger] es[i]).1),
        _ => true,
    }
}

proof fn lemma_inline_link_free_identity_list(
    xs: Seq<NodeView>,
    contents: Map<Seq<u8>, NodeView>,
    pol: Policy,
    ds: Seq<(Seq<usize>, ResolutionView)>,
    path: Seq<usize>,
    i: int,
    seen: Set<Seq<u8>>,
)
    requires
        0 <= i,
        forall|j: int| 0 <= j < xs.len() ==> link_free(#[trigger] xs[j]),
    ensures
        inline_list(xs, contents, pol, ds, path, i, seen) == (OutcomeSeq::Done {
            nodes: xs.skip(if i <= xs.len() {
                i
            } else {
                xs.len() as int
            }),
            seen,
        }),
    decreases crate::node::seq_size(xs), 1nat, (if i < xs.len() {
        xs.len() - i
    } else {
        0
    }),
{
    if i < xs.len() {
        lemma_seq_size_element(xs, i);
        lemma_inline_link_free_identity(xs[i], contents, pol, ds, path.push(i as usize), seen);
        lemma_inline_link_free_identity_list(xs, contents, pol, ds, path, i + 1, seen);
        assert(seq![xs[i]] + xs.skip(i + 1) =~= xs.skip(i));
    } else {
        assert(xs.skip(xs.len() as int) =~= Seq::<NodeView>::empty());
    }
}

proof fn lemma_inline_link_free_identity_entries(
    es: Seq<(Seq<char>, NodeView)>,
    contents: Map<Seq<u8>, NodeView>,
    pol: Policy,
    ds: Seq<(Seq<usize>, ResolutionView)>,
    path: Seq<usize>,
    i: int,
    seen: Set<Seq<u8>>,
)
    requires
        0 <= i,
        forall|j: int| 0 <= j < es.len() ==> link_free((#[trigger] es[j]).1),
    ensures
        inline_entries(es, contents, pol, ds, path, i, seen) == (OutcomeEntries::Done {
            entries: es.skip(if i <= es.len() {
                i
            } else {
                es.len() as int
            }),
            seen,
        }),
    decreases crate::node::entries_size(es), 1nat, (if i < es.len() {
        es.len() - i
    } else {
        0
    }),
{
    if i < es.len() {
        lemma_entries_size_element(es, i);
        lemma_inline_link_free_identity(es[i].1, contents, pol, ds, path.push(i as usize), seen);
        lemma_inline_link_free_identity_entries(es, contents, pol, ds, path, i + 1, seen);
        assert(seq![(es[i].0, es[i].1)] + es.skip(i + 1) =~= es.skip(i));
        assert(seq![(es[i].0, es[i].1)] == seq![es[i]]);
    } else {
        assert(es.skip(es.len() as int) =~= Seq::<(Seq<char>, NodeView)>::empty());
    }
}

} // verus!
