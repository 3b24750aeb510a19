//! Expanding links into embedded subgraphs, with a suspend/resume protocol.

use vstd::prelude::*;

use crate::cid::BlockId;
use crate::inline::InlineIpld;
use crate::node::{
    entries_size, entry_views_of, lemma_entries_size_element, lemma_entry_views_of,
    lemma_seq_size_element, lemma_views_of, lemma_wrap_view_wf, make_wrap, seq_size, size,
    views_of, wf, wrap_view, Node, NodeView,
};
use crate::store::Store;

verus! {

broadcast use vstd::std_specs::vec::group_vec_axioms;

/// How an inliner treats a missing or repeated block.
#[derive(Clone, Copy, Debug, PartialEq, Eq, Structural)]
pub enum Policy {
    /// Expand where possible, keep missing links silently, expand repeats.
    Naive,
    /// Suspend on every missing block, expand repeats.
    AtLeastOnce,
    /// Suspend on the first occurrence of a missing block; keep repeated
    /// identifiers as links without re-expansion.
    AtMostOnce,
}

/// What a resumed run splices in at a suspension point: a supplied
/// subgraph, or the link kept as it stands.
pub enum ResolutionView {
    Stub(NodeView),
    Keep,
}

/// An externally supplied answer for one suspension point.
#[derive(Debug)]
enum Resolution {
    Stub(Node),
    Keep,
}

impl View for Resolution {
    type V = ResolutionView;

    closed spec fn view(&self) -> ResolutionView {
        match self {
            Resolution::Stub(n) => ResolutionView::Stub(n@),
            Resolution::Keep => ResolutionView::Keep,
        }
    }
}

/// The answer recorded for the link at `path`, if any.
pub open spec fn decision_at(ds: Seq<(Seq<usize>, ResolutionView)>, path: Seq<usize>) -> Option<
    ResolutionView,
>
    decreases ds,
{
    if ds.len() == 0 {
        None
    } else if ds[0].0 == path {
        Some(ds[0].1)
    } else {
        decision_at(ds.drop_first(), path)
    }
}

/// Every supplied subgraph among the recorded answers is well-formed.
pub open spec fn decisions_wf(ds: Seq<(Seq<usize>, ResolutionView)>) -> bool {
    forall|i: int|
        0 <= i < ds.len() ==> match (#[trigger] ds[i]).1 {
            ResolutionView::Stub(v) => wf(v),
            ResolutionView::Keep => true,
        }
}

/// What one inlining pass over a subtree produces: the expanded subtree
/// and the identifiers seen so far, or the position and identifier of the
/// first link it could not handle.
pub enum Outcome {
    Done { node: NodeView, seen: Set<Seq<u8>> },
    Stuck { path: Seq<usize>, needs: Seq<u8> },
}

/// The outcome over a sequence of sibling subtrees.
pub enum OutcomeSeq {
    Done { nodes: Seq<NodeView>, seen: Set<Seq<u8>> },
    Stuck { path: Seq<usize>, needs: Seq<u8> },
}

/// The outcome over the values of a sequence of map entries.
pub enum OutcomeEntries {
    Done { entries: Seq<(Seq<char>, NodeView)>, seen: Set<Seq<u8>> },
    Stuck { path: Seq<usize>, needs: Seq<u8> },
}

/// One inlining pass over `n`, at position `path`, with the store's
/// `contents`, the recorded answers `ds`, and the identifiers `seen` so
/// far.
///
/// Every link is replaced by the delimiter wrapping its stored block,
/// except that an at-most-once pass keeps an already-seen identifier as a
/// link, a recorded answer overrides the store at its position, a naive
/// pass keeps a missing link, and a suspending pass stops at the first
/// missing link without an answer.
pub open spec fn inline_sub(
    n: NodeView,
    contents: Map<Seq<u8>, NodeView>,
    pol: Policy,
    ds: Seq<(Seq<usize>, ResolutionView)>,
    path: Seq<usize>,
    seen: Set<Seq<u8>>,
) -> Outcome
    decreases size(n), 0nat, 0nat,
{
    match n {
        NodeView::Link(id) => {
            if pol is AtMostOnce && seen.contains(id) {
                Outcome::Done { node: n, seen }
            } else {
                match decision_at(ds, path) {
                    Some(ResolutionView::Stub(v)) => Outcome::Done {
                        node: wrap_view(id, v),
                        seen: seen.insert(id),
                    },
                    Some(ResolutionView::Keep) => Outcome::Done {
                        node: n,
                        seen: seen.insert(id),
                    },
                    None => if contents.contains_key(id) {
                        Outcome::Done {
                            node: wrap_view(id, contents[id]),
                            seen: seen.insert(id),
                        }
                    } else if pol is Naive {
                        Outcome::Done { node: n, seen }
                    } else {
                        Outcome::Stuck { path, needs: id }
                    },
                }
            }
        },
        NodeView::List(xs) => match inline_list(xs, contents, pol, ds, path, 0, seen) {
            OutcomeSeq::Done { nodes, seen } => Outcome::Done { node: NodeView::List(nodes), seen },
            OutcomeSeq::Stuck { path, needs } => Outcome::Stuck { path, needs },
        },
        NodeView::Dict(es) => match inline_entries(es, contents, pol, ds, path, 0, seen) {
            OutcomeEntries::Done { entries, seen } => Outcome::Done {
                node: NodeView::Dict(entries),
                seen,
            },
            OutcomeEntries::Stuck { path, needs } => Outcome::Stuck { path, needs },
        },
        _ => Outcome::Done { node: n, seen },
    }
}

/// One inlining pass over the subtrees of a list, from index `i` on,
/// each child at `path` extended with its index.
pub open spec fn inline_list(
    xs: Seq<NodeView>,
    contents: Map<Seq<u8>, NodeView>,
    pol: Policy,
    ds: Seq<(Seq<usize>, ResolutionView)>,
    path: Seq<usize>,
    i: int,
    seen: Set<Seq<u8>>,
) -> OutcomeSeq
    decreases seq_size(xs), 1nat, (if i < xs.len() {
        xs.len() - i
    } else {
        0
    }),
    via inline_list_dec
{
    if i < 0 || i >= xs.len() {
        OutcomeSeq::Done { nodes: Seq::empty(), seen }
    } else {
        match inline_sub(xs[i], contents, pol, ds, path.push(i as usize), seen) {
            Outcome::Done { node, seen: seen2 } => match inline_list(
                xs,
                contents,
                pol,
                ds,
                path,
                i + 1,
                seen2,
            ) {
                OutcomeSeq::Done { nodes, seen: seen3 } => OutcomeSeq::Done {
                    nodes: seq![node] + nodes,
                    seen: seen3,
                },
                OutcomeSeq::Stuck { path, needs } => OutcomeSeq::Stuck { path, needs },
            },
            Outcome::Stuck { path, needs } => OutcomeSeq::Stuck { path, needs },
        }
    }
}

#[via_fn]
proof fn inline_list_dec(
    xs: Seq<NodeView>,
    contents: Map<Seq<u8>, NodeView>,
    pol: Policy,
    ds: Seq<(Seq<usize>, ResolutionView)>,
    path: Seq<usize>,
    i: int,
    seen: Set<Seq<u8>>,
) {
    if 0 <= i < xs.len() {
        lemma_seq_size_element(xs, i);
    }
}

/// One inlining pass over the values of a map's entries, from index `i`
/// on, each value at `path` extended with its entry index.
pub open spec fn inline_entries(
    es: Seq<(Seq<char>, NodeView)>,
    contents: Map<Seq<u8>, NodeView>,
    pol: Policy,
    ds: Seq<(Seq<usize>, ResolutionView)>,
    path: Seq<usize>,
    i: int,
    seen: Set<Seq<u8>>,
) -> OutcomeEntries
    decreases entries_size(es), 1nat, (if i < es.len() {
        es.len() - i
    } else {
        0
    }),
    via inline_entries_dec
{
    if i < 0 || i >= es.len() {
        OutcomeEntries::Done { entries: Seq::empty(), seen }
    } else {
        match inline_sub(es[i].1, contents, pol, ds, path.push(i as usize), seen) {
            Outcome::Done { node, seen: seen2 } => match inline_entries(
                es,
                contents,
                pol,
                ds,
                path,
                i + 1,
                seen2,
            ) {
                OutcomeEntries::Done { entries, seen: seen3 } => OutcomeEntries::Done {
                    entries: seq![(es[i].0, node)] + entries,
                    seen: seen3,
                },
                OutcomeEntries::Stuck { path, needs } => OutcomeEntries::Stuck { path, needs },
            },
            Outcome::Stuck { path, needs } => OutcomeEntries::Stuck { path, needs },
        }
    }
}

#[via_fn]
proof fn inline_entries_dec(
    es: Seq<(Seq<char>, NodeView)>,
    contents: Map<Seq<u8>, NodeView>,
    pol: Policy,
    ds: Seq<(Seq<usize>, ResolutionView)>,
    path: Seq<usize>,
    i: int,
    seen: Set<Seq<u8>>,
) {
    if 0 <= i < es.len() {
        lemma_entries_size_element(es, i);
    }
}

/// The whole pass over a document: one inlining pass from the root, with
/// no identifier seen yet.
pub open spec fn inline_run(
    n: NodeView,
    contents: Map<Seq<u8>, NodeView>,
    pol: Policy,
    ds: Seq<(Seq<usize>, ResolutionView)>,
) -> Outcome {
    inline_sub(n, contents, pol, ds, Seq::empty(), Set::empty())
}

/// The recorded answers of a vector of decisions, as views.
spec fn decisions_view(s: Seq<(Vec<usize>, Resolution)>) -> Seq<
    (Seq<usize>, ResolutionView),
>
    decreases s,
{
    if s.len() == 0 {
        Seq::empty()
    } else {
        decisions_view(s.drop_last()).push((s.last().0@, s.last().1@))
    }
}

/// `decisions_view` maps each decision to its views.
proof fn lemma_decisions_view(s: Seq<(Vec<usize>, Resolution)>)
    ensures
        decisions_view(s).len() == s.len(),
        forall|i: int| 0 <= i < s.len() ==> #[trigger] decisions_view(s)[i] == (
            s[i].0@,
            s[i].1@,
        ),
    decreases s,
{
    if s.len() > 0 {
        lemma_decisions_view(s.drop_last());
        assert forall|i: int|
            0 <= i < s.len() implies #[trigger] decisions_view(s)[i] == (s[i].0@, s[i].1@) by {
            if i < s.len() - 1 {
                assert(s.drop_last()[i] == s[i]);
            }
        }
    }
}

/// A recorded answer found by `decision_at` is one of the entries.
proof fn lemma_decision_at_found(ds: Seq<(Seq<usize>, ResolutionView)>, path: Seq<usize>)
    requires
        decision_at(ds, path) is Some,
    ensures
        exists|i: int|
            0 <= i < ds.len() && (#[trigger] ds[i]).0 == path && ds[i].1 == decision_at(
                ds,
                path,
            )->0,
    decreases ds,
{
    if ds.len() > 0 {
        if ds[0].0 == path {
            assert(ds[0].0 == path);
        } else {
            lemma_decision_at_found(ds.drop_first(), path);
            let i = choose|i: int|
                0 <= i < ds.drop_first().len() && (#[trigger] ds.drop_first()[i]).0 == path
                    && ds.drop_first()[i].1 == decision_at(ds.drop_first(), path)->0;
            assert(ds[i + 1] == ds.drop_first()[i]);
        }
    }
}

/// If no entry among the first `i` matches `path`, the lookup result is
/// decided by the rest.
proof fn lemma_decision_at_skip(ds: Seq<(Seq<usize>, ResolutionView)>, path: Seq<usize>, i: int)
    requires
        0 <= i <= ds.len(),
        forall|j: int| 0 <= j < i ==> (#[trigger] ds[j]).0 != path,
    ensures
        decision_at(ds, path) == decision_at(ds.skip(i), path),
    decreases i,
{
    if i > 0 {
        assert(ds[0].0 != path);
        lemma_decision_at_skip(ds.drop_first(), path, i - 1);
        assert forall|j: int| 0 <= j < i - 1 implies (#[trigger] ds.drop_first()[j]).0 != path by {
            assert(ds.drop_first()[j] == ds[j + 1]);
        }
        assert(ds.drop_first().skip(i - 1) =~= ds.skip(i));
    } else {
        assert(ds.skip(0) =~= ds);
    }
}

/// Compare two positions in the tree.
fn path_eq(a: &Vec<usize>, b: &Vec<usize>) -> (r: bool)
    ensures
        r == (a@ == b@),
{
    if a.len() != b.len() {
        proof {
            assert(a@ != b@);
        }
        return false;
    }
    let n = a.len();
    let mut i: usize = 0;
    while i < n
        invariant
            n == a.len() == b.len(),
            0 <= i <= n,
            forall|j: int| 0 <= j < i ==> a@[j] == b@[j],
        decreases n - i,
    {
        if a[i] != b[i] {
            proof {
                assert(a@[i as int] != b@[i as int]);
            }
            return false;
        }
        i = i + 1;
    }
    proof {
        assert(a@ =~= b@);
    }
    true
}

/// Look up the recorded answer for the link at `path`, if any.
#[verifier::loop_isolation(false)]
fn find_decision<'a>(ds: &'a Vec<(Vec<usize>, Resolution)>, path: &Vec<usize>) -> (r: Option<
    &'a Resolution,
>)
    ensures
        match r {
            Some(res) => decision_at(decisions_view(ds@), path@) == Some(res@),
            None => decision_at(decisions_view(ds@), path@) is None,
        },
{
    proof {
        lemma_decisions_view(ds@);
    }
    let ghost dv = decisions_view(ds@);
    let n = ds.len();
    let mut i: usize = 0;
    while i < n
        invariant
            n == ds.len(),
            0 <= i <= n,
            forall|j: int| 0 <= j < i ==> (#[trigger] dv[j]).0 != path@,
        decreases n - i,
    {
        if path_eq(&ds[i].0, path) {
            proof {
                lemma_decision_at_skip(dv, path@, i as int);
                assert(dv.skip(i as int)[0] == dv[i as int]);
                assert(dv.skip(i as int).len() > 0);
            }
            return Some(&ds[i].1);
        }
        i = i + 1;
    }
    proof {
        lemma_decision_at_skip(dv, path@, n as int);
        assert(dv.skip(n as int) =~= Seq::<(Seq<usize>, ResolutionView)>::empty());
    }
    None
}

/// The identifiers a run has already seen.
pub open spec fn seen_set(s: Seq<BlockId>) -> Set<Seq<u8>> {
    Set::new(|b: Seq<u8>| exists|i: int| 0 <= i < s.len() && (#[trigger] s[i])@ == b)
}

/// Whether an identifier has been seen.
fn seen_contains(seen: &Vec<BlockId>, id: &BlockId) -> (r: bool)
    ensures
        r == seen_set(seen@).contains(id@),
{
    let n = seen.len();
    let mut i: usize = 0;
    while i < n
        invariant
            n == seen.len(),
            0 <= i <= n,
            forall|j: int| 0 <= j < i ==> (#[trigger] seen@[j])@ != id@,
        decreases n - i,
    {
        if &seen[i] == id {
            proof {
                assert((seen@[i as int])@ == id@);
            }
            return true;
        }
        i = i + 1;
    }
    proof {
        assert(!seen_set(seen@).contains(id@));
    }
    false
}

/// Mark an identifier as seen.
fn seen_insert(seen: &mut Vec<BlockId>, id: &BlockId)
    ensures
        seen_set(final(seen)@) == seen_set(old(seen)@).insert(id@),
{
    let ghost before = seen@;
    seen.push(id.duplicate());
    proof {
        assert forall|b: Seq<u8>|
            seen_set(seen@).contains(b) == seen_set(before).insert(id@).contains(b) by {
            if b == id@ {
                assert((seen@[before.len() as int])@ == b);
            } else {
                if seen_set(seen@).contains(b) {
                    let i = choose|i: int| 0 <= i < seen@.len() && (#[trigger] seen@[i])@ == b;
                    assert(i < before.len());
                    assert((before[i])@ == b);
                }
                if seen_set(before).contains(b) {
                    let i = choose|i: int| 0 <= i < before.len() && (#[trigger] before[i])@ == b;
                    assert((seen@[i])@ == b);
                }
            }
        }
        assert(seen_set(seen@) =~= seen_set(before).insert(id@));
    }
}

/// The position and identifier of a link the kernel could not handle.
struct Stumble {
    path: Vec<usize>,
    needs: BlockId,
}

/// One inlining pass over `n`: the executable kernel behind every policy.
#[verifier::loop_isolation(false)]
#[verifier::rlimit(80)]
fn inline_rec<S: Store + ?Sized>(
    n: &Node,
    store: &S,
    pol: Policy,
    ds: &Vec<(Vec<usize>, Resolution)>,
    path: &mut Vec<usize>,
    seen: &mut Vec<BlockId>,
) -> (r: Result<Node, Stumble>)
    requires
        wf(n@),
        decisions_wf(decisions_view(ds@)),
    ensures
        final(path)@ == old(path)@,
        match r {
            Ok(m) => inline_sub(
                n@,
                store.contents(),
                pol,
                decisions_view(ds@),
                old(path)@,
                seen_set(old(seen)@),
            ) == (Outcome::Done { node: m@, seen: seen_set(final(seen)@) }) && wf(m@),
            Err(st) => inline_sub(
                n@,
                store.contents(),
                pol,
                decisions_view(ds@),
                old(path)@,
                seen_set(old(seen)@),
            ) == (Outcome::Stuck { path: st.path@, needs: st.needs@ }),
        },
    decreases size(n@),
{
    let ghost contents = store.contents();
    let ghost dv = decisions_view(ds@);
    match n {
        Node::Link(id) => {
            let already = match pol {
                Policy::AtMostOnce => seen_contains(seen, id),
                _ => false,
            };
            if already {
                return Ok(Node::Link(id.duplicate()));
            }
            match find_decision(ds, path) {
                Some(res) => match res {
                    Resolution::Stub(v) => {
                        proof {
                            lemma_decision_at_found(dv, path@);
                            assert(wf(v@));
                            lemma_wrap_view_wf(id@, v@);
                        }
                        let m = make_wrap(id.duplicate(), v.clone());
                        seen_insert(seen, id);
                        Ok(m)
                    },
                    Resolution::Keep => {
                        seen_insert(seen, id);
                        Ok(Node::Link(id.duplicate()))
                    },
                },
                None => match store.get(id) {
                    Ok(block) => {
                        proof {
                            lemma_wrap_view_wf(id@, block@);
                        }
                        let m = make_wrap(id.duplicate(), block.clone());
                        seen_insert(seen, id);
                        Ok(m)
                    },
                    Err(_) => match pol {
                        Policy::Naive => Ok(Node::Link(id.duplicate())),
                        _ => Err(Stumble { path: path.clone(), needs: id.duplicate() }),
                    },
                },
            }
        },
        Node::List(xs) => {
            let ghost s = views_of(xs@);
            let ghost p0 = path@;
            let ghost seen0 = seen_set(seen@);
            proof {
                lemma_views_of(xs@);
            }
            let mut rebuilt: Vec<Node> = Vec::new();
            let count = xs.len();
            let mut i: usize = 0;
            proof {
                assert(views_of(rebuilt@) =~= Seq::<NodeView>::empty());
            }
            while i < count
                invariant
                    i <= count == xs.len(),
                    rebuilt.len() == i,
                    path@ == p0,
                    forall|j: int| 0 <= j < i ==> wf(#[trigger] rebuilt@[j]@),
                    inline_list(s, contents, pol, dv, p0, 0, seen0) == (match inline_list(
                        s,
                        contents,
                        pol,
                        dv,
                        p0,
                        i as int,
                        seen_set(seen@),
                    ) {
                        OutcomeSeq::Done { nodes, seen: sn } => OutcomeSeq::Done {
                            nodes: views_of(rebuilt@) + nodes,
                            seen: sn,
                        },
                        OutcomeSeq::Stuck { path, needs } => OutcomeSeq::Stuck { path, needs },
                    }),
                decreases count - i,
            {
                proof {
                    lemma_seq_size_element(s, i as int);
                }
                let ghost seen_before = seen_set(seen@);
                path.push(i);
                let res = inline_rec(&xs[i], store, pol, ds, path, seen);
                let _popped = path.pop();
                proof {
                    assert(path@ =~= p0);
                }
                match res {
                    Ok(m) => {
                        let ghost rebuilt_before = rebuilt@;
                        rebuilt.push(m);
                        proof {
                            assert(rebuilt@.drop_last() =~= rebuilt_before);
                            assert(views_of(rebuilt@) == views_of(rebuilt_before).push(
                                rebuilt@.last()@,
                            ));
                            let rest = inline_list(
                                s,
                                contents,
                                pol,
                                dv,
                                p0,
                                i + 1,
                                seen_set(seen@),
                            );
                            assert(s[i as int] == xs@[i as int]@);
                            if rest is Done {
                                assert(views_of(rebuilt@) + rest->Done_nodes =~= views_of(
                                    rebuilt_before,
                                ) + (seq![rebuilt@.last()@] + rest->Done_nodes));
                            }
                        }
                        i = i + 1;
                    },
                    Err(st) => {
                        return Err(st);
                    },
                }
            }
            let result = Node::List(rebuilt);
            proof {
                lemma_views_of(rebuilt@);
                let fin = inline_list(s, contents, pol, dv, p0, count as int, seen_set(seen@));
                assert(fin == OutcomeSeq::Done {
                    nodes: Seq::<NodeView>::empty(),
                    seen: seen_set(seen@),
                });
                assert(views_of(rebuilt@) + Seq::<NodeView>::empty() =~= views_of(rebuilt@));
                assert forall|j: int|
                    0 <= j < views_of(rebuilt@).len() implies wf(
                    #[trigger] views_of(rebuilt@)[j],
                ) by {
                    assert(views_of(rebuilt@)[j] == rebuilt@[j]@);
                }
                assert(wf(result@));
            }
            Ok(result)
        },
        Node::Dict(es) => {
            let ghost s = entry_views_of(es@);
            let ghost p0 = path@;
            let ghost seen0 = seen_set(seen@);
            proof {
                lemma_entry_views_of(es@);
            }
            let mut rebuilt: Vec<(String, Node)> = Vec::new();
            let count = es.len();
            let mut i: usize = 0;
            proof {
                assert(entry_views_of(rebuilt@) =~= Seq::<(Seq<char>, NodeView)>::empty());
            }
            while i < count
                invariant
                    i <= count == es.len(),
                    rebuilt.len() == i,
                    path@ == p0,
                    forall|j: int| 0 <= j < i ==> wf((#[trigger] rebuilt@[j]).1@),
                    forall|j: int| 0 <= j < i ==> (#[trigger] rebuilt@[j]).0@ == s[j].0,
                    inline_entries(s, contents, pol, dv, p0, 0, seen0) == (match inline_entries(
                        s,
                        contents,
                        pol,
                        dv,
                        p0,
                        i as int,
                        seen_set(seen@),
                    ) {
                        OutcomeEntries::Done { entries, seen: sn } => OutcomeEntries::Done {
                            entries: entry_views_of(rebuilt@) + entries,
                            seen: sn,
                        },
                        OutcomeEntries::Stuck { path, needs } => OutcomeEntries::Stuck {
                            path,
                            needs,
                        },
                    }),
                decreases count - i,
            {
                proof {
                    lemma_entries_size_element(s, i as int);
                }
                let ghost seen_before = seen_set(seen@);
                path.push(i);
                let (k, v) = &es[i];
                let res = inline_rec(v, store, pol, ds, path, seen);
                let _popped = path.pop();
                proof {
                    assert(path@ =~= p0);
                }
                match res {
                    Ok(m) => {
                        let ghost rebuilt_before = rebuilt@;
                        rebuilt.push((k.clone(), m));
                        proof {
                            assert(rebuilt@.drop_last() =~= rebuilt_before);
                            assert(entry_views_of(rebuilt@) == entry_views_of(
                                rebuilt_before,
                            ).push((rebuilt@.last().0@, rebuilt@.last().1@)));
                            let rest = inline_entries(
                                s,
                                contents,
                                pol,
                                dv,
                                p0,
                                i + 1,
                                seen_set(seen@),
                            );
                            if rest is Done {
                                assert(entry_views_of(rebuilt@) + rest->Done_entries
                                    =~= entry_views_of(rebuilt_before) + (seq![
                                    (s[i as int].0, rebuilt@.last().1@),
                                ] + rest->Done_entries));
                            }
                        }
                        i = i + 1;
                    },
                    Err(st) => {
                        return Err(st);
                    },
                }
            }
            let result = Node::Dict(rebuilt);
            proof {
                lemma_entry_views_of(rebuilt@);
                let fin = inline_entries(s, contents, pol, dv, p0, count as int, seen_set(seen@));
                assert(fin == OutcomeEntries::Done {
                    entries: Seq::<(Seq<char>, NodeView)>::empty(),
                    seen: seen_set(seen@),
                });
                assert(entry_views_of(rebuilt@) + Seq::<(Seq<char>, NodeView)>::empty()
                    =~= entry_views_of(rebuilt@));
                assert forall|j: int|
                    0 <= j < entry_views_of(rebuilt@).len() implies wf(
                    (#[trigger] entry_views_of(rebuilt@)[j]).1,
                ) by {
                    assert(entry_views_of(rebuilt@)[j].1 == rebuilt@[j].1@);
                }
                assert forall|j: int|
                    0 <= j < entry_views_of(rebuilt@).len() - 1 implies crate::node::lex_lt(
                    (#[trigger] entry_views_of(rebuilt@)[j]).0,
                    entry_views_of(rebuilt@)[j + 1].0,
                ) by {
                    assert(entry_views_of(rebuilt@)[j].0 == s[j].0);
                    assert(entry_views_of(rebuilt@)[j + 1].0 == s[j + 1].0);
                }
                assert(wf(result@));
            }
            Ok(result)
        },
        _ => {
            Ok(n.clone())
        },
    }
}

/// A naive pass never gets stuck.
pub proof fn lemma_naive_done(
    n: NodeView,
    contents: Map<Seq<u8>, NodeView>,
    ds: Seq<(Seq<usize>, ResolutionView)>,
    path: Seq<usize>,
    seen: Set<Seq<u8>>,
)
    ensures
        inline_sub(n, contents, Policy::Naive, ds, path, seen) is Done,
    decreases size(n), 0nat, 0nat,
{
    match n {
        NodeView::List(xs) => {
            lemma_naive_list_done(xs, contents, ds, path, 0, seen);
        },
        NodeView::Dict(es) => {
            lemma_naive_entries_done(es, contents, ds, path, 0, seen);
        },
        _ => {},
    }
}

proof fn lemma_naive_list_done(
    xs: Seq<NodeView>,
    contents: Map<Seq<u8>, NodeView>,
    ds: Seq<(Seq<usize>, ResolutionView)>,
    path: Seq<usize>,
    i: int,
    seen: Set<Seq<u8>>,
)
    ensures
        inline_list(xs, contents, Policy::Naive, ds, path, i, seen) is Done,
    decreases seq_size(xs), 1nat, (if i < xs.len() {
        xs.len() - i
    } else {
        0
    }),
{
    if 0 <= i < xs.len() {
        lemma_seq_size_element(xs, i);
        lemma_naive_done(xs[i], contents, ds, path.push(i as usize), seen);
        let sub = inline_sub(xs[i], contents, Policy::Naive, ds, path.push(i as usize), seen);
        lemma_naive_list_done(xs, contents, ds, path, i + 1, sub->Done_seen);
    }
}

proof fn lemma_naive_entries_done(
    es: Seq<(Seq<char>, NodeView)>,
    contents: Map<Seq<u8>, NodeView>,
    ds: Seq<(Seq<usize>, ResolutionView)>,
    path: Seq<usize>,
    i: int,
    seen: Set<Seq<u8>>,
)
    ensures
        inline_entries(es, contents, Policy::Naive, ds, path, i, seen) is Done,
    decreases entries_size(es), 1nat, (if i < es.len() {
        es.len() - i
    } else {
        0
    }),
{
    if 0 <= i < es.len() {
        lemma_entries_size_element(es, i);
        lemma_naive_done(es[i].1, contents, ds, path.push(i as usize), seen);
        let sub = inline_sub(es[i].1, contents, Policy::Naive, ds, path.push(i as usize), seen);
        lemma_naive_entries_done(es, contents, ds, path, i + 1, sub->Done_seen);
    }
}

/// Record one more answer.
fn append_decision(ds: &mut Vec<(Vec<usize>, Resolution)>, path: Vec<usize>, res: Resolution)
    requires
        decisions_wf(decisions_view(old(ds)@)),
        (res matches Resolution::Stub(v) ==> wf(v@)),
    ensures
        decisions_view(final(ds)@) == decisions_view(old(ds)@).push((path@, res@)),
        decisions_wf(decisions_view(final(ds)@)),
{
    let ghost before = ds@;
    let ghost res_view = res@;
    ds.push((path, res));
    proof {
        assert(ds@.drop_last() =~= before);
        lemma_decisions_view(ds@);
        let dv = decisions_view(ds@);
        assert forall|i: int|
            0 <= i < dv.len() implies match (#[trigger] dv[i]).1 {
            ResolutionView::Stub(v) => wf(v),
            ResolutionView::Keep => true,
        } by {
            if i < dv.len() - 1 {
                assert(dv[i] == decisions_view(before)[i]);
            } else {
                assert(dv[i].1 == res_view);
            }
        }
    }
}

/// Inline every link that the store can resolve, keep the missing ones as
/// links, and expand repeated identifiers every time.
#[derive(Debug)]
pub struct Naive {
    root: Node,
}

impl Naive {
    /// The document this inliner walks.
    pub closed spec fn root_view(&self) -> NodeView {
        self.root@
    }

    /// The walked document is well-formed.
    pub closed spec fn inv(&self) -> bool {
        wf(self.root@)
    }

    /// Initialise a naive inliner over `ipld`.
    pub fn new(ipld: Node) -> (r: Naive)
        requires
            wf(ipld@),
        ensures
            r.root_view() == ipld@,
            r.inv(),
    {
        Naive { root: ipld }
    }

    /// Run to completion: a naive pass never suspends.
    pub fn run<S: Store + ?Sized>(self, store: &S) -> (r: InlineIpld)
        requires
            self.inv(),
        ensures
            inline_run(self.root_view(), store.contents(), Policy::Naive, Seq::empty())
                == (Outcome::Done { node: r@, seen: naive_seen(self.root_view(), store.contents()) }),
            wf(r@),
            r.cid_view() is None,
    {
        let mut path: Vec<usize> = Vec::new();
        let mut seen: Vec<BlockId> = Vec::new();
        proof {
            assert(path@ =~= Seq::<usize>::empty());
            assert(seen_set(seen@) =~= Set::<Seq<u8>>::empty());
            assert(decisions_view(Seq::<(Vec<usize>, Resolution)>::empty())
                =~= Seq::<(Seq<usize>, ResolutionView)>::empty());
        }
        let ds: Vec<(Vec<usize>, Resolution)> = Vec::new();
        match inline_rec(&self.root, store, Policy::Naive, &ds, &mut path, &mut seen) {
            Ok(m) => InlineIpld::attest(m),
            Err(_) => {
                proof {
                    lemma_naive_done(
                        self.root@,
                        store.contents(),
                        Seq::empty(),
                        Seq::empty(),
                        Set::empty(),
                    );
                    assert(false);
                }
                InlineIpld::attest(Node::Null)
            },
        }
    }
}

/// The identifiers a completed naive pass has expanded.
pub open spec fn naive_seen(n: NodeView, contents: Map<Seq<u8>, NodeView>) -> Set<Seq<u8>> {
    inline_run(n, contents, Policy::Naive, Seq::empty())->Done_seen
}

/// Inline every link, suspending on each missing block so that the caller
/// can supply, substitute or skip it; repeated identifiers are expanded
/// every time.
#[derive(Debug)]
pub struct AtLeastOnce {
    root: Node,
    decisions: Vec<(Vec<usize>, Resolution)>,
}

/// Inline each block at most once: repeated identifiers stay links, and
/// only the first occurrence of a missing block suspends the walk.
#[derive(Debug)]
pub struct AtMostOnce {
    root: Node,
    decisions: Vec<(Vec<usize>, Resolution)>,
}

/// A suspended inliner: the walk stopped at a link whose block the store
/// does not hold.  Exactly one of [`Stuck::resolve`], [`Stuck::stub`] or
/// [`Stuck::ignore`] gives the inliner back, ready to run again.
#[derive(Debug)]
pub struct Stuck<I> {
    needs: BlockId,
    path: Vec<usize>,
    inliner: I,
}

impl AtLeastOnce {
    /// The document this inliner walks.
    pub closed spec fn root_view(&self) -> NodeView {
        self.root@
    }

    /// The answers recorded by earlier resumptions, in order.
    pub closed spec fn decisions(&self) -> Seq<(Seq<usize>, ResolutionView)> {
        decisions_view(self.decisions@)
    }

    /// The document and every recorded answer are well-formed.
    pub closed spec fn inv(&self) -> bool {
        wf(self.root@) && decisions_wf(decisions_view(self.decisions@))
    }

    /// Initialise an at-least-once inliner over `ipld`.
    pub fn new(ipld: Node) -> (r: AtLeastOnce)
        requires
            wf(ipld@),
        ensures
            r.root_view() == ipld@,
            r.decisions() == Seq::<(Seq<usize>, ResolutionView)>::empty(),
            r.inv(),
    {
        proof {
            assert(decisions_view(Seq::<(Vec<usize>, Resolution)>::empty())
                =~= Seq::<(Seq<usize>, ResolutionView)>::empty());
        }
        AtLeastOnce { root: ipld, decisions: Vec::new() }
    }

    /// Run until the document is inlined or a block is missing.
    ///
    /// A missing block suspends the walk: the returned [`Stuck`] carries
    /// the identifier that is needed and owns the paused state.
    pub fn run<S: Store + ?Sized>(self, store: &S) -> (r: Result<InlineIpld, Stuck<AtLeastOnce>>)
        requires
            self.inv(),
        ensures
            match r {
                Ok(inline) => {
                    &&& inline_run(
                        self.root_view(),
                        store.contents(),
                        Policy::AtLeastOnce,
                        self.decisions(),
                    ) matches Outcome::Done { node, .. } && node == inline@
                    &&& wf(inline@)
                    &&& inline.cid_view() is None
                },
                Err(stuck) => {
                    &&& inline_run(
                        self.root_view(),
                        store.contents(),
                        Policy::AtLeastOnce,
                        self.decisions(),
                    ) matches Outcome::Stuck { path, needs } && stuck.path_view() == path
                        && stuck.needs_view() == needs
                    &&& stuck.state().root_view() == self.root_view()
                    &&& stuck.state().decisions() == self.decisions()
                    &&& stuck.state().inv()
                },
            },
    {
        let mut path: Vec<usize> = Vec::new();
        let mut seen: Vec<BlockId> = Vec::new();
        proof {
            assert(path@ =~= Seq::<usize>::empty());
            assert(seen_set(seen@) =~= Set::<Seq<u8>>::empty());
        }
        match inline_rec(
            &self.root,
            store,
            Policy::AtLeastOnce,
            &self.decisions,
            &mut path,
            &mut seen,
        ) {
            Ok(m) => Ok(InlineIpld::attest(m)),
            Err(st) => Err(Stuck { needs: st.needs, path: st.path, inliner: self }),
        }
    }
}

impl AtMostOnce {
    /// The document this inliner walks.
    pub closed spec fn root_view(&self) -> NodeView {
        self.root@
    }

    /// The answers recorded by earlier resumptions, in order.
    pub closed spec fn decisions(&self) -> Seq<(Seq<usize>, ResolutionView)> {
        decisions_view(self.decisions@)
    }

    /// The document and every recorded answer are well-formed.
    pub closed spec fn inv(&self) -> bool {
        wf(self.root@) && decisions_wf(decisions_view(self.decisions@))
    }

    /// Initialise an at-most-once inliner over `ipld`.
    pub fn new(ipld: Node) -> (r: AtMostOnce)
        requires
            wf(ipld@),
        ensures
            r.root_view() == ipld@,
            r.decisions() == Seq::<(Seq<usize>, ResolutionView)>::empty(),
            r.inv(),
    {
        proof {
            assert(decisions_view(Seq::<(Vec<usize>, Resolution)>::empty())
                =~= Seq::<(Seq<usize>, ResolutionView)>::empty());
        }
        AtMostOnce { root: ipld, decisions: Vec::new() }
    }

    /// Run until the document is inlined or an unseen block is missing.
    pub fn run<S: Store + ?Sized>(self, store: &S) -> (r: Result<InlineIpld, Stuck<AtMostOnce>>)
        requires
            self.inv(),
        ensures
            match r {
                Ok(inline) => {
                    &&& inline_run(
                        self.root_view(),
                        store.contents(),
                        Policy::AtMostOnce,
                        self.decisions(),
                    ) matches Outcome::Done { node, .. } && node == inline@
                    &&& wf(inline@)
                    &&& inline.cid_view() is None
                },
                Err(stuck) => {
                    &&& inline_run(
                        self.root_view(),
                        store.contents(),
                        Policy::AtMostOnce,
                        self.decisions(),
                    ) matches Outcome::Stuck { path, needs } && stuck.path_view() == path
                        && stuck.needs_view() == needs
                    &&& stuck.state().root_view() == self.root_view()
                    &&& stuck.state().decisions() == self.decisions()
                    &&& stuck.state().inv()
                },
            },
    {
        let mut path: Vec<usize> = Vec::new();
        let mut seen: Vec<BlockId> = Vec::new();
        proof {
            assert(path@ =~= Seq::<usize>::empty());
            assert(seen_set(seen@) =~= Set::<Seq<u8>>::empty());
        }
        match inline_rec(
            &self.root,
            store,
            Policy::AtMostOnce,
            &self.decisions,
            &mut path,
            &mut seen,
        ) {
            Ok(m) => Ok(InlineIpld::attest(m)),
            Err(st) => Err(Stuck { needs: st.needs, path: st.path, inliner: self }),
        }
    }
}

impl<I> Stuck<I> {
    /// The identifier the suspended walk needs.
    pub closed spec fn needs_view(&self) -> Seq<u8> {
        self.needs@
    }

    /// The position of the link the walk stopped at.
    pub closed spec fn path_view(&self) -> Seq<usize> {
        self.path@
    }

    /// The paused inliner state.
    pub closed spec fn state(&self) -> I {
        self.inliner
    }

    /// The identifier required for the inliner to continue.
    pub fn needs(&self) -> (r: &BlockId)
        ensures
            r@ == self.needs_view(),
    {
        &self.needs
    }
}

impl Stuck<AtLeastOnce> {
    /// Supply the missing block: store it under the needed identifier and
    /// record it as the answer at the suspension point.
    pub fn resolve<S: Store + ?Sized>(self, ipld: Node, store: &mut S) -> (r: AtLeastOnce)
        requires
            self.state().inv(),
            wf(ipld@),
        ensures
            final(store).contents() == old(store).contents().insert(self.needs_view(), ipld@),
            r.root_view() == self.state().root_view(),
            r.decisions() == self.state().decisions().push(
                (self.path_view(), ResolutionView::Stub(ipld@)),
            ),
            r.inv(),
    {
        let Stuck { needs, path, inliner: mut state } = self;
        store.put_keyed(needs, ipld.clone());
        append_decision(&mut state.decisions, path, Resolution::Stub(ipld));
        state
    }

    /// Substitute a block for the missing one without storing it.
    pub fn stub(self, ipld: Node) -> (r: AtLeastOnce)
        requires
            self.state().inv(),
            wf(ipld@),
        ensures
            r.root_view() == self.state().root_view(),
            r.decisions() == self.state().decisions().push(
                (self.path_view(), ResolutionView::Stub(ipld@)),
            ),
            r.inv(),
    {
        let Stuck { needs: _, path, inliner: mut state } = self;
        append_decision(&mut state.decisions, path, Resolution::Stub(ipld));
        state
    }

    /// Skip the expansion: the link stays literal.
    pub fn ignore(self) -> (r: AtLeastOnce)
        requires
            self.state().inv(),
        ensures
            r.root_view() == self.state().root_view(),
            r.decisions() == self.state().decisions().push(
                (self.path_view(), ResolutionView::Keep),
            ),
            r.inv(),
    {
        let Stuck { needs: _, path, inliner: mut state } = self;
        append_decision(&mut state.decisions, path, Resolution::Keep);
        state
    }
}

impl Stuck<AtMostOnce> {
    /// Supply the missing block: store it under the needed identifier and
    /// record it as the answer at the suspension point.
    pub fn resolve<S: Store + ?Sized>(self, ipld: Node, store: &mut S) -> (r: AtMostOnce)
        requires
            self.state().inv(),
            wf(ipld@),
        ensures
            final(store).contents() == old(store).contents().insert(self.needs_view(), ipld@),
            r.root_view() == self.state().root_view(),
            r.decisions() == self.state().decisions().push(
                (self.path_view(), ResolutionView::Stub(ipld@)),
            ),
            r.inv(),
    {
        let Stuck { needs, path, inliner: mut state } = self;
        store.put_keyed(needs, ipld.clone());
        append_decision(&mut state.decisions, path, Resolution::Stub(ipld));
        state
    }

    /// Substitute a block for the missing one without storing it.
    pub fn stub(self, ipld: Node) -> (r: AtMostOnce)
        requires
            self.state().inv(),
            wf(ipld@),
        ensures
            r.root_view() == self.state().root_view(),
            r.decisions() == self.state().decisions().push(
                (self.path_view(), ResolutionView::Stub(ipld@)),
            ),
            r.inv(),
    {
        let Stuck { needs: _, path, inliner: mut state } = self;
        append_decision(&mut state.decisions, path, Resolution::Stub(ipld));
        state
    }

    /// Skip the expansion: the link stays literal.
    pub fn ignore(self) -> (r: AtMostOnce)
        requires
            self.state().inv(),
        ensures
            r.root_view() == self.state().root_view(),
            r.decisions() == self.state().decisions().push(
                (self.path_view(), ResolutionView::Keep),
            ),
            r.inv(),
    {
        let Stuck { needs: _, path, inliner: mut state } = self;
        append_decision(&mut state.decisions, path, Resolution::Keep);
        state
    }
}

} // verus!
