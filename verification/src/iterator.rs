//! Post-order traversal of a document tree.

use vstd::prelude::*;

use crate::node::{
    is_wrapper_map, lemma_entries_size_element, lemma_entry_views_of, lemma_seq_size_element,
    lemma_views_of, post_order, post_order_entries, post_order_seq, size, entry_views_of, views_of,
    Node, NodeView,
};

verus! {

broadcast use vstd::std_specs::vec::group_vec_axioms;

/// Append the post order of `n` to `out`.
#[verifier::loop_isolation(false)]
fn push_post_order(n: &Node, out: &mut Vec<Node>)
    ensures
        views_of(final(out)@) == views_of(old(out)@) + post_order(n@),
    decreases size(n@),
{
    match n {
        Node::List(xs) => {
            let ghost base = views_of(out@);
            let ghost s = views_of(xs@);
            proof {
                lemma_views_of(xs@);
            }
            let count = xs.len();
            let mut i: usize = 0;
            proof {
                assert(s.take(0) =~= Seq::<NodeView>::empty());
                assert(views_of(out@) =~= base + post_order_seq(s.take(0)));
            }
            while i < count
                invariant
                    i <= count == xs.len(),
                    views_of(out@) == base + post_order_seq(s.take(i as int)),
                decreases count - i,
            {
                proof {
                    lemma_seq_size_element(s, i as int);
                }
                push_post_order(&xs[i], out);
                proof {
                    let t = s.take(i + 1);
                    assert(t.drop_last() =~= s.take(i as int));
                    assert(t.last() == s[i as int]);
                    assert(post_order_seq(t) == post_order_seq(s.take(i as int)) + post_order(
                        s[i as int],
                    ));
                    assert(views_of(out@) =~= base + post_order_seq(t));
                }
                i = i + 1;
            }
            proof {
                assert(s.take(count as int) =~= s);
            }
            let ghost before_push = out@;
            out.push(n.clone());
            proof {
                assert(out@.drop_last() =~= before_push);
                assert(out@.last()@ == n@);
                assert(views_of(out@) == views_of(before_push).push(out@.last()@));
                assert(views_of(out@) =~= base + (post_order_seq(s) + seq![n@]));
            }
        },
        Node::Dict(es) => {
            let ghost base = views_of(out@);
            let ghost s = entry_views_of(es@);
            proof {
                lemma_entry_views_of(es@);
            }
            let count = es.len();
            let mut i: usize = 0;
            proof {
                assert(s.take(0) =~= Seq::<(Seq<char>, NodeView)>::empty());
                assert(views_of(out@) =~= base + post_order_entries(s.take(0)));
            }
            while i < count
                invariant
                    i <= count == es.len(),
                    views_of(out@) == base + post_order_entries(s.take(i as int)),
                decreases count - i,
            {
                proof {
                    lemma_entries_size_element(s, i as int);
                }
                push_post_order(&es[i].1, out);
                proof {
                    let t = s.take(i + 1);
                    assert(t.drop_last() =~= s.take(i as int));
                    assert(t.last() == s[i as int]);
                    assert(post_order_entries(t) == post_order_entries(s.take(i as int))
                        + post_order(s[i as int].1));
                    assert(views_of(out@) =~= base + post_order_entries(t));
                }
                i = i + 1;
            }
            proof {
                assert(s.take(count as int) =~= s);
            }
            let ghost before_push = out@;
            out.push(n.clone());
            proof {
                assert(out@.drop_last() =~= before_push);
                assert(out@.last()@ == n@);
                assert(views_of(out@) == views_of(before_push).push(out@.last()@));
                assert(views_of(out@) =~= base + (post_order_entries(s) + seq![n@]));
            }
        },
        _ => {
            let ghost before_push = out@;
            out.push(n.clone());
            proof {
                assert(out@.drop_last() =~= before_push);
                assert(out@.last()@ == n@);
                assert(views_of(out@) == views_of(before_push).push(out@.last()@));
                assert(post_order(n@) =~= seq![n@]);
                assert(views_of(out@) =~= views_of(before_push) + seq![n@]);
            }
        },
    }
}

/// A post-order iterator over a document tree.
///
/// The whole order is fixed on construction; [`Self::next`] hands the nodes
/// out one by one, and [`is_delimiter_next`] looks at the node that would
/// come next without consuming it.
#[derive(Debug)]
pub struct PostOrderIpldIter {
    items: Vec<Node>,
    pos: usize,
}

impl PostOrderIpldIter {
    /// The full traversal order this iterator was built with.
    pub closed spec fn items(&self) -> Seq<NodeView> {
        views_of(self.items@)
    }

    /// How many nodes have been handed out already.
    pub closed spec fn pos(&self) -> int {
        self.pos as int
    }

    /// The position never runs past the end.
    pub closed spec fn inv(&self) -> bool {
        0 <= self.pos <= self.items@.len()
    }

    /// Build the post order of `node`.
    pub fn new(node: &Node) -> (r: PostOrderIpldIter)
        ensures
            r.items() == post_order(node@),
            r.pos() == 0,
            r.inv(),
    {
        let mut items: Vec<Node> = Vec::new();
        proof {
            assert(views_of(items@) =~= Seq::<NodeView>::empty());
        }
        push_post_order(node, &mut items);
        proof {
            assert(views_of(items@) =~= post_order(node@));
            lemma_views_of(items@);
        }
        PostOrderIpldIter { items, pos: 0 }
    }

    /// The next node in post order, or `None` when the walk is done.
    pub fn next(&mut self) -> (r: Option<Node>)
        requires
            old(self).inv(),
        ensures
            final(self).inv(),
            final(self).items() == old(self).items(),
            match r {
                Some(node) => {
                    &&& old(self).pos() < old(self).items().len()
                    &&& node@ == old(self).items()[old(self).pos()]
                    &&& final(self).pos() == old(self).pos() + 1
                },
                None => {
                    &&& old(self).pos() == old(self).items().len()
                    &&& final(self).pos() == old(self).pos()
                },
            },
    {
        proof {
            lemma_views_of(self.items@);
        }
        if self.pos < self.items.len() {
            let node = self.items[self.pos].clone();
            self.pos = self.pos + 1;
            Some(node)
        } else {
            None
        }
    }

    /// The node that [`Self::next`] would return, without consuming it.
    pub fn peek(&self) -> (r: Option<&Node>)
        requires
            self.inv(),
        ensures
            match r {
                Some(node) => self.pos() < self.items().len() && node@
                    == self.items()[self.pos()],
                None => self.pos() == self.items().len(),
            },
    {
        proof {
            lemma_views_of(self.items@);
        }
        if self.pos < self.items.len() {
            Some(&self.items[self.pos])
        } else {
            None
        }
    }
}

/// Whether the next node of the walk is a map whose single key is `"/"`:
/// the shape of an inline-delimiter wrapper.
pub fn is_delimiter_next(iter: &PostOrderIpldIter) -> (r: bool)
    requires
        iter.inv(),
    ensures
        r == (iter.pos() < iter.items().len() && is_wrapper_map(iter.items()[iter.pos()])),
{
    match iter.peek() {
        Some(node) => match node {
            Node::Dict(es) => {
                proof {
                    lemma_entry_views_of(es@);
                }
                if es.len() != 1 {
                    false
                } else {
                    let slash = String::from_str("/");
                    let r = es[0].0 == slash;
                    r
                }
            },
            _ => false,
        },
        None => false,
    }
}

} // verus!
