//! The document tree and its mathematical model.

use vstd::prelude::*;

use crate::cid::BlockId;

verus! {

broadcast use vstd::std_specs::vec::group_vec_axioms;

/// Mathematical model of a document tree.
///
/// A map is modelled as the sequence of its entries in key order; a link as
/// the binary form of its identifier.
pub enum NodeView {
    Null,
    Bool(bool),
    Integer(int),
    Bytes(Seq<u8>),
    Text(Seq<char>),
    List(Seq<NodeView>),
    Dict(Seq<(Seq<char>, NodeView)>),
    Link(Seq<u8>),
}

/// A document tree: a tagged value with lists, string-keyed maps, and links
/// to other blocks by content identifier.
///
/// A well-formed ([`wf`]) map keeps its entries in strictly increasing key
/// order, so every iteration over a map is deterministic.
#[derive(Debug, PartialEq)]
pub enum Node {
    Null,
    Bool(bool),
    Integer(i128),
    Bytes(Vec<u8>),
    Text(String),
    List(Vec<Node>),
    Dict(Vec<(String, Node)>),
    Link(BlockId),
}

impl View for Node {
    type V = NodeView;

    open spec fn view(&self) -> NodeView
        decreases self,
    {
        match self {
            Node::Null => NodeView::Null,
            Node::Bool(b) => NodeView::Bool(*b),
            Node::Integer(i) => NodeView::Integer(*i as int),
            Node::Bytes(bs) => NodeView::Bytes(bs@),
            Node::Text(s) => NodeView::Text(s@),
            Node::List(xs) => NodeView::List(views_of(xs@)),
            Node::Dict(es) => NodeView::Dict(entry_views_of(es@)),
            Node::Link(id) => NodeView::Link(id@),
        }
    }
}

/// The views of a sequence of child nodes, in order.
pub open spec fn views_of(xs: Seq<Node>) -> Seq<NodeView>
    decreases xs,
{
    if xs.len() == 0 {
        Seq::empty()
    } else {
        views_of(xs.drop_last()).push(xs.last()@)
    }
}

/// The views of a sequence of map entries, in order.
pub open spec fn entry_views_of(es: Seq<(String, Node)>) -> Seq<(Seq<char>, NodeView)>
    decreases es,
{
    if es.len() == 0 {
        Seq::empty()
    } else {
        entry_views_of(es.drop_last()).push((es.last().0@, es.last().1@))
    }
}

/// `views_of` maps each element to its view.
pub proof fn lemma_views_of(xs: Seq<Node>)
    ensures
        views_of(xs).len() == xs.len(),
        forall|i: int| 0 <= i < xs.len() ==> views_of(xs)[i] == #[trigger] xs[i]@,
    decreases xs,
{
    if xs.len() > 0 {
        lemma_views_of(xs.drop_last());
        assert(views_of(xs) == views_of(xs.drop_last()).push(xs.last()@));
        assert(xs.drop_last().len() == xs.len() - 1);
        assert forall|i: int| 0 <= i < xs.len() implies views_of(xs)[i] == #[trigger] xs[i]@ by {
            if i < xs.len() - 1 {
                assert(xs.drop_last()[i] == xs[i]);
            }
        }
    }
}

/// `entry_views_of` maps each entry to its view.
pub proof fn lemma_entry_views_of(es: Seq<(String, Node)>)
    ensures
        entry_views_of(es).len() == es.len(),
        forall|i: int| 0 <= i < es.len() ==> #[trigger] entry_views_of(es)[i] == (es[i].0@, es[i].1@),
    decreases es,
{
    if es.len() > 0 {
        lemma_entry_views_of(es.drop_last());
        assert(entry_views_of(es) == entry_views_of(es.drop_last()).push(
            (es.last().0@, es.last().1@),
        ));
        assert(es.drop_last().len() == es.len() - 1);
        assert forall|i: int|
            0 <= i < es.len() implies #[trigger] entry_views_of(es)[i] == (es[i].0@, es[i].1@) by {
            if i < es.len() - 1 {
                assert(es.drop_last()[i] == es[i]);
            }
        }
    }
}

/// The number of nodes in the tree: a termination measure for walks.
pub open spec fn size(n: NodeView) -> nat
    decreases n,
{
    match n {
        NodeView::List(xs) => 1 + seq_size(xs),
        NodeView::Dict(es) => 1 + entries_size(es),
        _ => 1,
    }
}

/// The total size of a sequence of subtrees.
pub open spec fn seq_size(xs: Seq<NodeView>) -> nat
    decreases xs,
{
    if xs.len() == 0 {
        0
    } else {
        seq_size(xs.drop_last()) + size(xs.last())
    }
}

/// The total size of the values of a sequence of map entries.
pub open spec fn entries_size(es: Seq<(Seq<char>, NodeView)>) -> nat
    decreases es,
{
    if es.len() == 0 {
        0
    } else {
        entries_size(es.drop_last()) + size(es.last().1)
    }
}

/// Each element of a sequence of subtrees counts toward its total size.
pub proof fn lemma_seq_size_element(xs: Seq<NodeView>, i: int)
    requires
        0 <= i < xs.len(),
    ensures
        size(xs[i]) <= seq_size(xs),
    decreases xs,
{
    if i < xs.len() - 1 {
        lemma_seq_size_element(xs.drop_last(), i);
        assert(xs.drop_last()[i] == xs[i]);
    }
}

/// Each entry value of a map counts toward the entries' total size.
pub proof fn lemma_entries_size_element(es: Seq<(Seq<char>, NodeView)>, i: int)
    requires
        0 <= i < es.len(),
    ensures
        size(es[i].1) <= entries_size(es),
    decreases es,
{
    if i < es.len() - 1 {
        lemma_entries_size_element(es.drop_last(), i);
        assert(es.drop_last()[i] == es[i]);
    }
}

impl Clone for Node {
    /// A deep copy with the same view.
    #[verifier::loop_isolation(false)]
    fn clone(&self) -> (r: Node)
        ensures
            r@ == self@,
        decreases size(self@),
    {
        match self {
            Node::Null => Node::Null,
            Node::Bool(b) => Node::Bool(*b),
            Node::Integer(i) => Node::Integer(*i),
            Node::Bytes(bs) => {
                let r = bs.clone();
                proof {
                    assert(r@ =~= bs@);
                }
                Node::Bytes(r)
            },
            Node::Text(s) => Node::Text(s.clone()),
            Node::List(xs) => {
                let mut out: Vec<Node> = Vec::new();
                let n = xs.len();
                let mut i: usize = 0;
                while i < n
                    invariant
                        n == xs.len(),
                        0 <= i <= n,
                        out.len() == i,
                        forall|j: int| 0 <= j < i ==> out@[j]@ == #[trigger] xs@[j]@,
                    decreases n - i,
                {
                    proof {
                        lemma_views_of(xs@);
                        lemma_seq_size_element(views_of(xs@), i as int);
                    }
                    out.push(xs[i].clone());
                    i = i + 1;
                }
                proof {
                    lemma_views_of(out@);
                    lemma_views_of(xs@);
                    assert forall|j: int|
                        0 <= j < out@.len() implies views_of(out@)[j] == views_of(xs@)[j] by {
                        assert(out@[j]@ == xs@[j]@);
                    }
                    assert(views_of(out@) =~= views_of(xs@));
                }
                Node::List(out)
            },
            Node::Dict(es) => {
                let mut out: Vec<(String, Node)> = Vec::new();
                let n = es.len();
                let mut i: usize = 0;
                while i < n
                    invariant
                        n == es.len(),
                        0 <= i <= n,
                        out.len() == i,
                        forall|j: int| 0 <= j < i ==> (#[trigger] out@[j]).0@ == es@[j].0@
                            && out@[j].1@ == es@[j].1@,
                    decreases n - i,
                {
                    proof {
                        lemma_entry_views_of(es@);
                        lemma_entries_size_element(entry_views_of(es@), i as int);
                    }
                    let (k, v) = &es[i];
                    out.push((k.clone(), v.clone()));
                    i = i + 1;
                }
                proof {
                    lemma_entry_views_of(out@);
                    lemma_entry_views_of(es@);
                    assert forall|j: int|
                        0 <= j < out@.len() implies entry_views_of(out@)[j] == entry_views_of(
                            es@,
                        )[j] by {
                        assert(out@[j].0@ == es@[j].0@ && out@[j].1@ == es@[j].1@);
                    }
                    assert(entry_views_of(out@) =~= entry_views_of(es@));
                }
                Node::Dict(out)
            },
            Node::Link(id) => Node::Link(id.duplicate()),
        }
    }
}

/// Strict lexicographic order on key sequences, by code point.
///
/// For keys this coincides with byte-lexicographic order over their UTF-8
/// encodings, since UTF-8 preserves code-point order.
pub open spec fn lex_lt(a: Seq<char>, b: Seq<char>) -> bool
    decreases a.len(),
{
    if b.len() == 0 {
        false
    } else if a.len() == 0 {
        true
    } else if a[0] == b[0] {
        lex_lt(a.drop_first(), b.drop_first())
    } else {
        (a[0] as int) < (b[0] as int)
    }
}

/// The order is asymmetric: a key is never below itself.
pub proof fn lemma_lex_lt_asym(a: Seq<char>, b: Seq<char>)
    requires
        lex_lt(a, b),
    ensures
        !lex_lt(b, a),
        a != b,
    decreases a.len(),
{
    if a.len() > 0 && b.len() > 0 && a[0] == b[0] {
        lemma_lex_lt_asym(a.drop_first(), b.drop_first());
        assert(a != b) by {
            if a == b {
                assert(a.drop_first() == b.drop_first());
            }
        }
    } else if a.len() == 0 {
        assert(a != b);
    }
}

/// Any two keys are ordered or equal.
pub proof fn lemma_lex_lt_total(a: Seq<char>, b: Seq<char>)
    ensures
        lex_lt(a, b) || lex_lt(b, a) || a == b,
    decreases a.len(),
{
    if a.len() > 0 && b.len() > 0 && a[0] == b[0] {
        lemma_lex_lt_total(a.drop_first(), b.drop_first());
        if a.drop_first() == b.drop_first() {
            assert(a.drop_first().len() == a.len() - 1);
            assert(b.drop_first().len() == b.len() - 1);
            assert forall|k: int| 0 <= k < a.len() implies a[k] == b[k] by {
                if k > 0 {
                    assert(a[k] == a.drop_first()[k - 1]);
                    assert(b[k] == b.drop_first()[k - 1]);
                    assert(a.drop_first()[k - 1] == b.drop_first()[k - 1]);
                }
            }
            assert(a.len() == b.len());
            assert(a =~= b);
        }
    } else if a.len() == 0 && b.len() == 0 {
        assert(a =~= b);
    } else if a.len() > 0 && b.len() > 0 {
        assert((a[0] as int) != (b[0] as int));
    }
}

/// A shared prefix does not affect the order of what follows it.
pub proof fn lemma_lex_lt_common_prefix(a: Seq<char>, b: Seq<char>, i: int)
    requires
        0 <= i <= a.len(),
        i <= b.len(),
        forall|k: int| 0 <= k < i ==> a[k] == b[k],
    ensures
        lex_lt(a, b) == lex_lt(a.skip(i), b.skip(i)),
    decreases i,
{
    if i > 0 {
        assert(a.len() > 0 && b.len() > 0 && a[0] == b[0]);
        lemma_lex_lt_common_prefix(a.drop_first(), b.drop_first(), i - 1);
        assert(a.drop_first().skip(i - 1) =~= a.skip(i));
        assert(b.drop_first().skip(i - 1) =~= b.skip(i));
    } else {
        assert(a.skip(0) =~= a);
        assert(b.skip(0) =~= b);
    }
}

/// Compare two keys in the order of [`lex_lt`].
pub fn str_lt(a: &str, b: &str) -> (r: bool)
    ensures
        r == lex_lt(a@, b@),
{
    let alen = a.unicode_len();
    let blen = b.unicode_len();
    let mut i: usize = 0;
    loop
        invariant
            alen == a@.len(),
            blen == b@.len(),
            0 <= i <= alen,
            i <= blen,
            forall|k: int| 0 <= k < i ==> a@[k] == b@[k],
        decreases alen - i,
    {
        proof {
            lemma_lex_lt_common_prefix(a@, b@, i as int);
        }
        if i >= alen {
            return i < blen;
        }
        if i >= blen {
            return false;
        }
        let ca = a.get_char(i);
        let cb = b.get_char(i);
        proof {
            assert(a@.skip(i as int)[0] == a@[i as int]);
            assert(b@.skip(i as int)[0] == b@[i as int]);
        }
        if ca != cb {
            return (ca as u32) < (cb as u32);
        }
        i = i + 1;
    }
}

/// Map entries stand in strictly increasing key order.
pub open spec fn keys_sorted(es: Seq<(Seq<char>, NodeView)>) -> bool {
    forall|i: int| 0 <= i < es.len() - 1 ==> lex_lt(#[trigger] es[i].0, es[i + 1].0)
}

/// Every map in the tree keeps its entries in strictly increasing key order.
pub open spec fn wf(n: NodeView) -> bool
    decreases n,
{
    match n {
        NodeView::List(xs) => forall|i: int| 0 <= i < xs.len() ==> wf(#[trigger] xs[i]),
        NodeView::Dict(es) => keys_sorted(es) && forall|i: int|
            0 <= i < es.len() ==> wf(#[trigger] es[i].1),
        _ => true,
    }
}

/// A map with the single key `"/"`, whatever stands under it.
pub open spec fn is_wrapper_map(n: NodeView) -> bool {
    n matches NodeView::Dict(es) && es.len() == 1 && es[0].0 == "/"@
}

/// The inner map of an inherit-form delimiter: exactly `{"data": _}`.
pub open spec fn is_inner_inherit(n: NodeView) -> bool {
    n matches NodeView::Dict(es) && es.len() == 1 && es[0].0 == "data"@
}

/// The inner map of an explicit-form delimiter: exactly
/// `{"data": _, "link": <link>}`, in key order, with a link value.
pub open spec fn is_inner_explicit(n: NodeView) -> bool {
    n matches NodeView::Dict(es) && es.len() == 2 && es[0].0 == "data"@ && es[1].0 == "link"@
        && es[1].1 is Link
}

/// An inline delimiter: a single-key `"/"` map whose inner map has one of
/// the two exact delimiter shapes.  Anything else is ordinary data.
pub open spec fn is_delimiter(n: NodeView) -> bool {
    &&& n matches NodeView::Dict(es)
    &&& es.len() == 1
    &&& es[0].0 == "/"@
    &&& (is_inner_inherit(es[0].1) || is_inner_explicit(es[0].1))
}

/// The embedded subgraph of a delimiter.
pub open spec fn delimiter_data(n: NodeView) -> NodeView
    recommends
        is_delimiter(n),
{
    n->Dict_0[0].1->Dict_0[0].1
}

/// The declared identifier of an explicit-form delimiter.
pub open spec fn delimiter_link(n: NodeView) -> Seq<u8>
    recommends
        is_delimiter(n),
        is_inner_explicit(n->Dict_0[0].1),
{
    n->Dict_0[0].1->Dict_0[1].1->Link_0
}

/// The delimiter wrapping `data` with the identifier `id`:
/// `{"/": {"data": data, "link": Link(id)}}`.
pub open spec fn wrap_view(id: Seq<u8>, data: NodeView) -> NodeView {
    NodeView::Dict(
        seq![
            (
                "/"@,
                NodeView::Dict(seq![("data"@, data), ("link"@, NodeView::Link(id))]),
            ),
        ],
    )
}

/// `"data"` sorts before `"link"`, so a wrapper is well-formed whenever its
/// payload is.
pub proof fn lemma_wrap_view_wf(id: Seq<u8>, data: NodeView)
    requires
        wf(data),
    ensures
        wf(wrap_view(id, data)),
        is_delimiter(wrap_view(id, data)),
        delimiter_data(wrap_view(id, data)) == data,
        delimiter_link(wrap_view(id, data)) == id,
{
    reveal_strlit("data");
    reveal_strlit("link");
    reveal_strlit("/");
    assert(lex_lt("data"@, "link"@));
    let inner: Seq<(Seq<char>, NodeView)> = seq![("data"@, data), ("link"@, NodeView::Link(id))];
    assert forall|i: int| 0 <= i < inner.len() - 1 implies lex_lt(
        #[trigger] inner[i].0,
        inner[i + 1].0,
    ) by {
        assert(i == 0);
        assert(inner[0].0 == "data"@ && inner[1].0 == "link"@);
    }
    assert(keys_sorted(inner));
    assert(wf(inner[0].1) && wf(inner[1].1));
    assert forall|i: int| 0 <= i < inner.len() implies wf(#[trigger] inner[i].1) by {
        assert(i == 0 || i == 1);
    }
    assert(wf(NodeView::Dict(inner)));
    let outer: Seq<(Seq<char>, NodeView)> = seq![("/"@, NodeView::Dict(inner))];
    assert(keys_sorted(outer));
    assert forall|i: int| 0 <= i < outer.len() implies wf(#[trigger] outer[i].1) by {
        assert(i == 0);
    }
    assert(wf(NodeView::Dict(outer)));
    assert(wrap_view(id, data) == NodeView::Dict(outer));
}

/// The embedded subgraph of a delimiter is a proper subtree.
pub proof fn lemma_delimiter_data_size(n: NodeView)
    requires
        is_delimiter(n),
    ensures
        size(delimiter_data(n)) < size(n),
{
    let es = n->Dict_0;
    lemma_entries_size_element(es, 0);
    let inner = es[0].1->Dict_0;
    lemma_entries_size_element(inner, 0);
}

/// Insert an entry into a key-ordered entry list, replacing an entry with
/// an equal key.
pub open spec fn dict_insert(es: Seq<(Seq<char>, NodeView)>, k: Seq<char>, v: NodeView) -> Seq<
    (Seq<char>, NodeView),
>
    decreases es,
{
    if es.len() == 0 {
        seq![(k, v)]
    } else if lex_lt(k, es[0].0) {
        seq![(k, v)] + es
    } else if k == es[0].0 {
        seq![(k, v)] + es.drop_first()
    } else {
        seq![es[0]] + dict_insert(es.drop_first(), k, v)
    }
}

/// Entries collected into key order, a later binding shadowing an earlier
/// one with the same key.
pub open spec fn dict_of(entries: Seq<(Seq<char>, NodeView)>) -> Seq<(Seq<char>, NodeView)>
    decreases entries,
{
    if entries.len() == 0 {
        Seq::empty()
    } else {
        dict_insert(dict_of(entries.drop_last()), entries.last().0, entries.last().1)
    }
}

/// Skipping entries that sort strictly before the key leaves the
/// insertion point unchanged.
proof fn lemma_dict_insert_skip(es: Seq<(Seq<char>, NodeView)>, k: Seq<char>, v: NodeView, i: int)
    requires
        0 <= i <= es.len(),
        forall|j: int| 0 <= j < i ==> !lex_lt(k, (#[trigger] es[j]).0) && es[j].0 != k,
    ensures
        dict_insert(es, k, v) == es.take(i) + dict_insert(es.skip(i), k, v),
    decreases i,
{
    if i == 0 {
        assert(es.skip(0) =~= es);
        assert(es.take(0) + dict_insert(es, k, v) =~= dict_insert(es, k, v));
    } else {
        assert(!lex_lt(k, es[0].0) && es[0].0 != k);
        assert forall|j: int|
            0 <= j < i - 1 implies !lex_lt(k, (#[trigger] es.drop_first()[j]).0)
            && es.drop_first()[j].0 != k by {
            assert(es.drop_first()[j] == es[j + 1]);
        }
        lemma_dict_insert_skip(es.drop_first(), k, v, i - 1);
        assert(es.drop_first().take(i - 1) =~= es.take(i).drop_first());
        assert(es.drop_first().skip(i - 1) =~= es.skip(i));
        assert(dict_insert(es, k, v) == seq![es[0]] + dict_insert(es.drop_first(), k, v));
        assert(seq![es[0]] + (es.drop_first().take(i - 1) + dict_insert(es.skip(i), k, v))
            =~= es.take(i) + dict_insert(es.skip(i), k, v));
    }
}

/// Inserting keeps the entries in strictly increasing key order and every
/// value well-formed.
pub proof fn lemma_dict_insert_wf(es: Seq<(Seq<char>, NodeView)>, k: Seq<char>, v: NodeView)
    requires
        keys_sorted(es),
        forall|i: int| 0 <= i < es.len() ==> wf((#[trigger] es[i]).1),
        wf(v),
    ensures
        keys_sorted(dict_insert(es, k, v)),
        forall|i: int| 0 <= i < dict_insert(es, k, v).len() ==> wf(
            (#[trigger] dict_insert(es, k, v)[i]).1,
        ),
    decreases es,
{
    let r = dict_insert(es, k, v);
    if es.len() == 0 {
        assert(r =~= seq![(k, v)]);
    } else if lex_lt(k, es[0].0) {
        assert forall|i: int| 0 <= i < r.len() - 1 implies lex_lt(
            (#[trigger] r[i]).0,
            r[i + 1].0,
        ) by {
            if i > 0 {
                assert(r[i] == es[i - 1] && r[i + 1] == es[i]);
            }
        }
        assert forall|i: int| 0 <= i < r.len() implies wf((#[trigger] r[i]).1) by {
            if i > 0 {
                assert(r[i] == es[i - 1]);
            }
        }
    } else if k == es[0].0 {
        assert forall|i: int| 0 <= i < r.len() - 1 implies lex_lt(
            (#[trigger] r[i]).0,
            r[i + 1].0,
        ) by {
            if i == 0 {
                assert(r[1] == es.drop_first()[0] && es.drop_first()[0] == es[1]);
            } else {
                assert(r[i] == es[i] && r[i + 1] == es[i + 1]);
            }
        }
        assert forall|i: int| 0 <= i < r.len() implies wf((#[trigger] r[i]).1) by {
            if i > 0 {
                assert(r[i] == es[i]);
            }
        }
    } else {
        lemma_lex_lt_total(k, es[0].0);
        assert(lex_lt(es[0].0, k));
        assert forall|j: int| 0 <= j < es.drop_first().len() - 1 implies lex_lt(
            (#[trigger] es.drop_first()[j]).0,
            es.drop_first()[j + 1].0,
        ) by {
            assert(es.drop_first()[j] == es[j + 1]);
            assert(es.drop_first()[j + 1] == es[j + 2]);
        }
        assert forall|j: int| 0 <= j < es.drop_first().len() implies wf(
            (#[trigger] es.drop_first()[j]).1,
        ) by {
            assert(es.drop_first()[j] == es[j + 1]);
        }
        lemma_dict_insert_wf(es.drop_first(), k, v);
        let rest = dict_insert(es.drop_first(), k, v);
        assert(r == seq![es[0]] + rest);
        assert(rest.len() > 0) by {
            if es.drop_first().len() == 0 {
            } else if lex_lt(k, es.drop_first()[0].0) {
            } else if k == es.drop_first()[0].0 {
            }
        }
        assert(lex_lt(es[0].0, rest[0].0)) by {
            if es.drop_first().len() == 0 {
                assert(rest[0] == (k, v));
            } else if lex_lt(k, es.drop_first()[0].0) {
                assert(rest[0] == (k, v));
            } else if k == es.drop_first()[0].0 {
                assert(rest[0] == (k, v));
            } else {
                assert(rest[0] == es.drop_first()[0]);
                assert(es.drop_first()[0] == es[1]);
            }
        }
        assert forall|i: int| 0 <= i < r.len() - 1 implies lex_lt(
            (#[trigger] r[i]).0,
            r[i + 1].0,
        ) by {
            if i == 0 {
                assert(r[0] == es[0] && r[1] == rest[0]);
            } else {
                assert(r[i] == rest[i - 1] && r[i + 1] == rest[i]);
            }
        }
        assert forall|i: int| 0 <= i < r.len() implies wf((#[trigger] r[i]).1) by {
            if i == 0 {
                assert(r[0] == es[0]);
            } else {
                assert(r[i] == rest[i - 1]);
            }
        }
    }
}

/// Collecting entries keeps every key in strictly increasing order and
/// every value well-formed.
pub proof fn lemma_dict_of_wf(entries: Seq<(Seq<char>, NodeView)>)
    requires
        forall|i: int| 0 <= i < entries.len() ==> wf((#[trigger] entries[i]).1),
    ensures
        keys_sorted(dict_of(entries)),
        wf(NodeView::Dict(dict_of(entries))),
    decreases entries,
{
    if entries.len() == 0 {
    } else {
        assert forall|i: int| 0 <= i < entries.drop_last().len() implies wf(
            (#[trigger] entries.drop_last()[i]).1,
        ) by {
            assert(entries.drop_last()[i] == entries[i]);
        }
        lemma_dict_of_wf(entries.drop_last());
        lemma_dict_insert_wf(dict_of(entries.drop_last()), entries.last().0, entries.last().1);
    }
}

/// Insert one entry into a key-ordered entry vector.
#[verifier::loop_isolation(false)]
fn insert_entry(out: &mut Vec<(String, Node)>, k: String, v: Node)
    ensures
        entry_views_of(final(out)@) == dict_insert(entry_views_of(old(out)@), k@, v@),
{
    proof {
        lemma_entry_views_of(out@);
    }
    let ghost es = entry_views_of(out@);
    let n = out.len();
    let mut i: usize = 0;
    while i < n && !str_lt(k.as_str(), out[i].0.as_str()) && !(out[i].0 == k)
        invariant
            0 <= i <= n == out.len(),
            forall|j: int| 0 <= j < i ==> !lex_lt(k@, (#[trigger] es[j]).0) && es[j].0 != k@,
        decreases n - i,
    {
        i = i + 1;
    }
    proof {
        lemma_dict_insert_skip(es, k@, v@, i as int);
    }
    let ghost k_view = k@;
    let ghost v_view = v@;
    if i == n {
        out.push((k, v));
        proof {
            assert(es.skip(n as int) =~= Seq::<(Seq<char>, NodeView)>::empty());
            assert(out@.drop_last() =~= old(out)@);
            lemma_entry_views_of(out@);
            lemma_entry_views_of(old(out)@);
            assert(entry_views_of(out@) =~= es.take(n as int) + seq![(k_view, v_view)]);
        }
    } else if out[i].0 == k {
        let _removed = out.remove(i);
        out.insert(i, (k, v));
        proof {
            lemma_entry_views_of(out@);
            assert(es.skip(i as int)[0] == es[i as int]);
            if lex_lt(k_view, k_view) {
                lemma_lex_lt_asym(k_view, k_view);
            }
            assert(es.skip(i as int).drop_first() =~= es.skip(i + 1));
            assert(dict_insert(es.skip(i as int), k_view, v_view) =~= seq![(k_view, v_view)]
                + es.skip(i + 1));
            assert forall|j: int|
                0 <= j < out@.len() implies #[trigger] entry_views_of(out@)[j] == (es.take(
                i as int,
            ) + (seq![(k_view, v_view)] + es.skip(i + 1)))[j] by {
                if j < i {
                    assert(out@[j] == old(out)@[j]);
                } else if j > i {
                    assert(out@[j] == old(out)@[j]);
                }
            }
            assert(entry_views_of(out@) =~= es.take(i as int) + (seq![(k_view, v_view)] + es.skip(
                i + 1,
            )));
        }
    } else {
        out.insert(i, (k, v));
        proof {
            lemma_entry_views_of(out@);
            assert(es.skip(i as int)[0] == es[i as int]);
            assert(lex_lt(k_view, es[i as int].0));
            assert(dict_insert(es.skip(i as int), k_view, v_view) =~= seq![(k_view, v_view)]
                + es.skip(i as int));
            assert forall|j: int|
                0 <= j < out@.len() implies #[trigger] entry_views_of(out@)[j] == (es.take(
                i as int,
            ) + (seq![(k_view, v_view)] + es.skip(i as int)))[j] by {
                if j < i {
                    assert(out@[j] == old(out)@[j]);
                } else if j > i {
                    assert(out@[j] == old(out)@[j - 1]);
                }
            }
            assert(entry_views_of(out@) =~= es.take(i as int) + (seq![(k_view, v_view)] + es.skip(
                i as int,
            )));
        }
    }
}

/// Collect entries into a map node, sorting them by key; a later binding
/// shadows an earlier one with the same key.
#[verifier::loop_isolation(false)]
pub fn from_entries(entries: Vec<(String, Node)>) -> (r: Node)
    ensures
        r@ == NodeView::Dict(dict_of(entry_views_of(entries@))),
        (forall|i: int| 0 <= i < entries@.len() ==> wf((#[trigger] entries@[i]).1@)) ==> wf(r@),
{
    let ghost s = entry_views_of(entries@);
    proof {
        lemma_entry_views_of(entries@);
    }
    let mut out: Vec<(String, Node)> = Vec::new();
    let count = entries.len();
    let mut i: usize = 0;
    proof {
        lemma_entry_views_of(out@);
        assert(entry_views_of(out@) =~= Seq::<(Seq<char>, NodeView)>::empty());
        assert(dict_of(s.take(0)) =~= Seq::<(Seq<char>, NodeView)>::empty());
    }
    while i < count
        invariant
            0 <= i <= count == entries.len(),
            entry_views_of(out@) == dict_of(s.take(i as int)),
        decreases count - i,
    {
        let (k, v) = (entries[i].0.clone(), entries[i].1.clone());
        insert_entry(&mut out, k, v);
        proof {
            let t = s.take(i + 1);
            assert(t.drop_last() =~= s.take(i as int));
            assert(t.last() == s[i as int]);
        }
        i = i + 1;
    }
    proof {
        assert(s.take(count as int) =~= s);
        if forall|i: int| 0 <= i < entries@.len() ==> wf((#[trigger] entries@[i]).1@) {
            assert forall|j: int| 0 <= j < s.len() implies wf((#[trigger] s[j]).1) by {
                assert(s[j].1 == entries@[j].1@);
            }
            lemma_dict_of_wf(s);
        }
    }
    Node::Dict(out)
}

/// The inherit-form delimiter wrapping `data`: `{"/": {"data": data}}`.
pub open spec fn inherit_wrap_view(data: NodeView) -> NodeView {
    NodeView::Dict(seq![("/"@, NodeView::Dict(seq![("data"@, data)]))])
}

/// A single-entry map is sorted, so an inherit wrapper is well-formed
/// whenever its payload is.
pub proof fn lemma_inherit_wrap_view_wf(data: NodeView)
    requires
        wf(data),
    ensures
        wf(inherit_wrap_view(data)),
        is_delimiter(inherit_wrap_view(data)),
        delimiter_data(inherit_wrap_view(data)) == data,
{
    reveal_strlit("data");
    reveal_strlit("/");
    let inner: Seq<(Seq<char>, NodeView)> = seq![("data"@, data)];
    assert(keys_sorted(inner));
    assert forall|i: int| 0 <= i < inner.len() implies wf(#[trigger] inner[i].1) by {
        assert(i == 0);
    }
    assert(wf(NodeView::Dict(inner)));
    let outer: Seq<(Seq<char>, NodeView)> = seq![("/"@, NodeView::Dict(inner))];
    assert(keys_sorted(outer));
    assert forall|i: int| 0 <= i < outer.len() implies wf(#[trigger] outer[i].1) by {
        assert(i == 0);
    }
    assert(wf(NodeView::Dict(outer)));
    assert(inherit_wrap_view(data) == NodeView::Dict(outer));
}

/// Build the explicit-form delimiter `{"/": {"data": data, "link": id}}`.
pub fn make_wrap(id: BlockId, data: Node) -> (r: Node)
    ensures
        r@ == wrap_view(id@, data@),
{
    let ghost id_view = id@;
    let ghost data_view = data@;
    let mut inner: Vec<(String, Node)> = Vec::new();
    inner.push((String::from_str("data"), data));
    inner.push((String::from_str("link"), Node::Link(id)));
    proof {
        lemma_entry_views_of(inner@);
        assert(entry_views_of(inner@) =~= seq![
            ("data"@, data_view),
            ("link"@, NodeView::Link(id_view)),
        ]);
    }
    let mut outer: Vec<(String, Node)> = Vec::new();
    outer.push((String::from_str("/"), Node::Dict(inner)));
    proof {
        lemma_entry_views_of(outer@);
        assert(entry_views_of(outer@) =~= seq![
            (
                "/"@,
                NodeView::Dict(seq![("data"@, data_view), ("link"@, NodeView::Link(id_view))]),
            ),
        ]);
    }
    Node::Dict(outer)
}

/// Build the inherit-form delimiter `{"/": {"data": data}}`.
pub fn make_inherit_wrap(data: Node) -> (r: Node)
    ensures
        r@ == inherit_wrap_view(data@),
{
    let ghost data_view = data@;
    let mut inner: Vec<(String, Node)> = Vec::new();
    inner.push((String::from_str("data"), data));
    proof {
        lemma_entry_views_of(inner@);
        assert(entry_views_of(inner@) =~= seq![("data"@, data_view)]);
    }
    let mut outer: Vec<(String, Node)> = Vec::new();
    outer.push((String::from_str("/"), Node::Dict(inner)));
    proof {
        lemma_entry_views_of(outer@);
        assert(entry_views_of(outer@) =~= seq![
            ("/"@, NodeView::Dict(seq![("data"@, data_view)])),
        ]);
    }
    Node::Dict(outer)
}

/// The shape of an explicit-form wrapper, independent of well-formedness.
pub proof fn lemma_wrap_view_shape(id: Seq<u8>, data: NodeView)
    ensures
        is_delimiter(wrap_view(id, data)),
        is_wrapper_map(wrap_view(id, data)),
        is_inner_explicit(wrap_view(id, data)->Dict_0[0].1),
        delimiter_data(wrap_view(id, data)) == data,
        delimiter_link(wrap_view(id, data)) == id,
        !is_inner_inherit(wrap_view(id, data)->Dict_0[0].1),
{
    reveal_strlit("data");
    reveal_strlit("link");
    reveal_strlit("/");
    assert("data"@ != "link"@ && "/"@ != "data"@) by {
        assert("data"@.len() == 4 && "link"@.len() == 4 && "/"@.len() == 1);
        assert("data"@[0] == 'd' && "link"@[0] == 'l');
    }
}

/// The nodes of the tree in post order: for every composite node, each
/// child is listed before the node itself; siblings keep their order.
pub open spec fn post_order(n: NodeView) -> Seq<NodeView>
    decreases n,
{
    match n {
        NodeView::List(xs) => post_order_seq(xs) + seq![n],
        NodeView::Dict(es) => post_order_entries(es) + seq![n],
        _ => seq![n],
    }
}

/// The concatenated post orders of a sequence of subtrees.
pub open spec fn post_order_seq(xs: Seq<NodeView>) -> Seq<NodeView>
    decreases xs,
{
    if xs.len() == 0 {
        Seq::empty()
    } else {
        post_order_seq(xs.drop_last()) + post_order(xs.last())
    }
}

/// The concatenated post orders of the values of a sequence of map entries.
pub open spec fn post_order_entries(es: Seq<(Seq<char>, NodeView)>) -> Seq<NodeView>
    decreases es,
{
    if es.len() == 0 {
        Seq::empty()
    } else {
        post_order_entries(es.drop_last()) + post_order(es.last().1)
    }
}

/// A post order is never empty, and its last element is the root.
pub proof fn lemma_post_order_last(n: NodeView)
    ensures
        post_order(n).len() > 0,
        post_order(n).last() == n,
{
}

/// Whether `d` stands somewhere in the tree `n`, the root included.
pub open spec fn occurs_in(d: NodeView, n: NodeView) -> bool
    decreases n,
{
    d == n || match n {
        NodeView::List(xs) => exists|i: int| 0 <= i < xs.len() && occurs_in(d, #[trigger] xs[i]),
        NodeView::Dict(es) => exists|i: int|
            0 <= i < es.len() && occurs_in(d, (#[trigger] es[i]).1),
        _ => false,
    }
}

proof fn lemma_post_order_seq_contains(xs: Seq<NodeView>, i: int, d: NodeView)
    requires
        0 <= i < xs.len(),
        post_order(xs[i]).contains(d),
    ensures
        post_order_seq(xs).contains(d),
    decreases xs,
{
    let sub = post_order(xs[i]);
    let j = choose|j: int| 0 <= j < sub.len() && sub[j] == d;
    if i == xs.len() - 1 {
        assert(post_order_seq(xs)[post_order_seq(xs.drop_last()).len() + j] == d);
    } else {
        assert(xs.drop_last()[i] == xs[i]);
        lemma_post_order_seq_contains(xs.drop_last(), i, d);
        let k = choose|k: int|
            0 <= k < post_order_seq(xs.drop_last()).len() && post_order_seq(xs.drop_last())[k]
                == d;
        assert(post_order_seq(xs)[k] == d);
    }
}

proof fn lemma_post_order_entries_contains(es: Seq<(Seq<char>, NodeView)>, i: int, d: NodeView)
    requires
        0 <= i < es.len(),
        post_order(es[i].1).contains(d),
    ensures
        post_order_entries(es).contains(d),
    decreases es,
{
    let sub = post_order(es[i].1);
    let j = choose|j: int| 0 <= j < sub.len() && sub[j] == d;
    if i == es.len() - 1 {
        assert(post_order_entries(es)[post_order_entries(es.drop_last()).len() + j] == d);
    } else {
        assert(es.drop_last()[i] == es[i]);
        lemma_post_order_entries_contains(es.drop_last(), i, d);
        let k = choose|k: int|
            0 <= k < post_order_entries(es.drop_last()).len() && post_order_entries(
                es.drop_last(),
            )[k] == d;
        assert(post_order_entries(es)[k] == d);
    }
}

/// The post order of a tree lists everything that occurs in the tree.
pub proof fn lemma_post_order_occurs(n: NodeView, d: NodeView)
    requires
        occurs_in(d, n),
    ensures
        post_order(n).contains(d),
    decreases n,
{
    if d == n {
        assert(post_order(n).last() == n);
    } else {
        match n {
            NodeView::List(xs) => {
                let i = choose|i: int| 0 <= i < xs.len() && occurs_in(d, #[trigger] xs[i]);
                lemma_post_order_occurs(xs[i], d);
                lemma_post_order_seq_contains(xs, i, d);
                let k = choose|k: int|
                    0 <= k < post_order_seq(xs).len() && post_order_seq(xs)[k] == d;
                assert(post_order(n)[k] == d);
            },
            NodeView::Dict(es) => {
                let i = choose|i: int| 0 <= i < es.len() && occurs_in(d, (#[trigger] es[i]).1);
                lemma_post_order_occurs(es[i].1, d);
                lemma_post_order_entries_contains(es, i, d);
                let k = choose|k: int|
                    0 <= k < post_order_entries(es).len() && post_order_entries(es)[k] == d;
                assert(post_order(n)[k] == d);
            },
            _ => {},
        }
    }
}

/// The post-order invariant: every proper descendant of the root is
/// listed somewhere before the root, which comes last.  With
/// [`lemma_post_order_embedding`], the same holds at every subtree: each
/// descendant comes before its ancestor.
pub proof fn lemma_descendant_before_ancestor(n: NodeView, d: NodeView)
    requires
        occurs_in(d, n),
        d != n,
    ensures
        exists|i: int| 0 <= i < post_order(n).len() - 1 && post_order(n)[i] == d,
        post_order(n).last() == n,
{
    lemma_post_order_occurs(n, d);
    let i = choose|i: int| 0 <= i < post_order(n).len() && post_order(n)[i] == d;
    assert(post_order(n).last() == n);
    assert(i < post_order(n).len() - 1);
}

proof fn lemma_post_order_seq_embedding(xs: Seq<NodeView>, i: int)
    requires
        0 <= i < xs.len(),
    ensures
        exists|off: int|
            0 <= off && off + post_order(xs[i]).len() <= post_order_seq(xs).len()
                && #[trigger] post_order_seq(xs).subrange(off, off + post_order(xs[i]).len())
                == post_order(xs[i]),
    decreases xs,
{
    let sub = post_order(xs[i]);
    if i == xs.len() - 1 {
        let off = post_order_seq(xs.drop_last()).len() as int;
        assert(post_order_seq(xs).subrange(off, off + sub.len()) =~= sub);
    } else {
        assert(xs.drop_last()[i] == xs[i]);
        lemma_post_order_seq_embedding(xs.drop_last(), i);
        let off = choose|off: int|
            0 <= off && off + sub.len() <= post_order_seq(xs.drop_last()).len()
                && #[trigger] post_order_seq(xs.drop_last()).subrange(off, off + sub.len())
                == sub;
        assert(post_order_seq(xs).subrange(off, off + sub.len()) =~= sub);
    }
}

proof fn lemma_post_order_entries_embedding(es: Seq<(Seq<char>, NodeView)>, i: int)
    requires
        0 <= i < es.len(),
    ensures
        exists|off: int|
            0 <= off && off + post_order(es[i].1).len() <= post_order_entries(es).len()
                && #[trigger] post_order_entries(es).subrange(off, off + post_order(es[i].1).len())
                == post_order(es[i].1),
    decreases es,
{
    let sub = post_order(es[i].1);
    if i == es.len() - 1 {
        let off = post_order_entries(es.drop_last()).len() as int;
        assert(post_order_entries(es).subrange(off, off + sub.len()) =~= sub);
    } else {
        assert(es.drop_last()[i] == es[i]);
        lemma_post_order_entries_embedding(es.drop_last(), i);
        let off = choose|off: int|
            0 <= off && off + sub.len() <= post_order_entries(es.drop_last()).len()
                && #[trigger] post_order_entries(es.drop_last()).subrange(off, off + sub.len())
                == sub;
        assert(post_order_entries(es).subrange(off, off + sub.len()) =~= sub);
    }
}

/// The walk of any subtree is a contiguous run of the whole walk: the
/// order within a subtree, descendants before their ancestor, is kept
/// wherever the subtree stands.
pub proof fn lemma_post_order_embedding(n: NodeView, a: NodeView)
    requires
        occurs_in(a, n),
    ensures
        exists|off: int|
            0 <= off && off + post_order(a).len() <= post_order(n).len()
                && #[trigger] post_order(n).subrange(off, off + post_order(a).len())
                == post_order(a),
    decreases n,
{
    let sub = post_order(a);
    if a == n {
        assert(post_order(n).subrange(0, sub.len() as int) =~= sub);
        assert(post_order(n).subrange(0, 0 + post_order(a).len() as int) == post_order(a));
    } else {
        match n {
            NodeView::List(xs) => {
                let i = choose|i: int| 0 <= i < xs.len() && occurs_in(a, #[trigger] xs[i]);
                lemma_post_order_embedding(xs[i], a);
                let o1 = choose|o1: int|
                    0 <= o1 && o1 + sub.len() <= post_order(xs[i]).len()
                        && #[trigger] post_order(xs[i]).subrange(o1, o1 + sub.len()) == sub;
                lemma_post_order_seq_embedding(xs, i);
                let o2 = choose|o2: int|
                    0 <= o2 && o2 + post_order(xs[i]).len() <= post_order_seq(xs).len()
                        && #[trigger] post_order_seq(xs).subrange(
                        o2,
                        o2 + post_order(xs[i]).len(),
                    ) == post_order(xs[i]);
                assert(post_order(n).subrange(o2 + o1, o2 + o1 + sub.len()) =~= sub) by {
                    assert forall|k: int| 0 <= k < sub.len() implies post_order(n)[o2 + o1 + k]
                        == sub[k] by {
                        assert(post_order(n)[o2 + o1 + k] == post_order_seq(xs)[o2 + o1 + k]);
                        assert(post_order_seq(xs)[o2 + o1 + k] == post_order_seq(xs).subrange(
                            o2,
                            o2 + post_order(xs[i]).len(),
                        )[o1 + k]);
                        assert(post_order(xs[i])[o1 + k] == post_order(xs[i]).subrange(
                            o1,
                            o1 + sub.len(),
                        )[k]);
                    }
                }
                assert(post_order(n).subrange(o2 + o1, (o2 + o1) + post_order(a).len() as int)
                    == post_order(a));
            },
            NodeView::Dict(es) => {
                let i = choose|i: int| 0 <= i < es.len() && occurs_in(a, (#[trigger] es[i]).1);
                lemma_post_order_embedding(es[i].1, a);
                let o1 = choose|o1: int|
                    0 <= o1 && o1 + sub.len() <= post_order(es[i].1).len()
                        && #[trigger] post_order(es[i].1).subrange(o1, o1 + sub.len()) == sub;
                lemma_post_order_entries_embedding(es, i);
                let o2 = choose|o2: int|
                    0 <= o2 && o2 + post_order(es[i].1).len() <= post_order_entries(es).len()
                        && #[trigger] post_order_entries(es).subrange(
                        o2,
                        o2 + post_order(es[i].1).len(),
                    ) == post_order(es[i].1);
                assert(post_order(n).subrange(o2 + o1, o2 + o1 + sub.len()) =~= sub) by {
                    assert forall|k: int| 0 <= k < sub.len() implies post_order(n)[o2 + o1 + k]
                        == sub[k] by {
                        assert(post_order(n)[o2 + o1 + k] == post_order_entries(es)[o2 + o1
                            + k]);
                        assert(post_order_entries(es)[o2 + o1 + k] == post_order_entries(
                            es,
                        ).subrange(o2, o2 + post_order(es[i].1).len())[o1 + k]);
                        assert(post_order(es[i].1)[o1 + k] == post_order(es[i].1).subrange(
                            o1,
                            o1 + sub.len(),
                        )[k]);
                    }
                }
                assert(post_order(n).subrange(o2 + o1, (o2 + o1) + post_order(a).len() as int)
                    == post_order(a));
            },
            _ => {},
        }
    }
}

} // verus!
