//! Query engine: first-match searches over a node tree.
//!
//! A search walks the tree depth first in document (pre-)order, tests each
//! node against a caller-supplied predicate, and returns a borrow of the
//! first node that satisfies it, or nothing. Queries never change the tree.

use vstd::prelude::*;
use crate::parser::Node;

verus! {

broadcast use vstd::std_specs::vec::group_vec_axioms, vstd::seq::group_seq_axioms;

/// The nodes of the subtree rooted at `n`, in document order: the node
/// itself, then the subtrees of its children, left to right.
pub open spec fn preorder(n: Node) -> Seq<Node>
    decreases n,
{
    match n {
        Node::Text(_) => seq![n],
        Node::Element { children, .. } => seq![n] + preorder_all(children@),
    }
}

/// The concatenated document-order sequences of a list of subtrees.
pub open spec fn preorder_all(cs: Seq<Node>) -> Seq<Node>
    decreases cs,
{
    if cs.len() == 0 {
        Seq::empty()
    } else {
        preorder(cs[0]) + preorder_all(cs.drop_first())
    }
}

/// A subtree's document order begins with its root.
pub proof fn lemma_preorder_first(n: Node)
    ensures
        preorder(n).len() >= 1,
        preorder(n)[0] == n,
{
    match n {
        Node::Text(_) => {},
        Node::Element { .. } => {},
    }
}

/// Document order of a child list splits at any point.
pub proof fn lemma_preorder_all_split(cs: Seq<Node>, k: int)
    requires
        0 <= k <= cs.len(),
    ensures
        preorder_all(cs) == preorder_all(cs.take(k)) + preorder_all(cs.skip(k)),
    decreases k,
{
    if k == 0 {
        assert(cs.take(0) =~= Seq::<Node>::empty());
        assert(cs.skip(0) =~= cs);
        assert(preorder_all(cs.take(0)) + preorder_all(cs.skip(0)) =~= preorder_all(cs));
    } else {
        let d = cs.drop_first();
        lemma_preorder_all_split(d, k - 1);
        assert(cs.take(k)[0] == cs[0]);
        assert(cs.take(k).drop_first() =~= d.take(k - 1));
        assert(cs.skip(k) =~= d.skip(k - 1));
        assert(preorder_all(cs) =~= preorder_all(cs.take(k)) + preorder_all(cs.skip(k)));
    }
}

/// Extending the prefix by one child appends that child's document order.
pub proof fn lemma_preorder_all_snoc(cs: Seq<Node>, k: int)
    requires
        0 <= k < cs.len(),
    ensures
        preorder_all(cs.take(k + 1)) == preorder_all(cs.take(k)) + preorder(cs[k]),
{
    let t = cs.take(k + 1);
    lemma_preorder_all_split(t, k);
    assert(t.take(k) =~= cs.take(k));
    let single = t.skip(k);
    assert(single.len() == 1);
    assert(single[0] == cs[k]);
    assert(single.drop_first() =~= Seq::<Node>::empty());
    assert(preorder_all(Seq::<Node>::empty()) == Seq::<Node>::empty());
    assert(preorder_all(single) == preorder(single[0]) + preorder_all(single.drop_first()));
    assert(preorder_all(single) =~= preorder(cs[k]));
    assert(preorder_all(cs.take(k)) + preorder_all(single) =~= preorder_all(cs.take(k)) + preorder(
        cs[k],
    ));
}

/// Index of the first node in `s` satisfying `p`, or `s.len()` if none does.
pub open spec fn first_match_idx(s: Seq<Node>, p: spec_fn(Node) -> bool) -> int
    decreases s.len(),
{
    if s.len() == 0 {
        0
    } else if p(s[0]) {
        0
    } else {
        1 + first_match_idx(s.drop_first(), p)
    }
}

/// The first node of `s` satisfying `p`, in order, if any.
pub open spec fn first_match(s: Seq<Node>, p: spec_fn(Node) -> bool) -> Option<Node> {
    let k = first_match_idx(s, p);
    if k < s.len() {
        Some(s[k])
    } else {
        None
    }
}

/// The first-match index is in range, satisfies the predicate when in range,
/// and nothing before it does.
pub proof fn lemma_first_match_idx(s: Seq<Node>, p: spec_fn(Node) -> bool)
    ensures
        ({
            let k = first_match_idx(s, p);
            &&& 0 <= k <= s.len()
            &&& (k < s.len() ==> p(s[k]))
            &&& forall|j: int| 0 <= j < k ==> !p(#[trigger] s[j])
        }),
    decreases s.len(),
{
    if s.len() > 0 && !p(s[0]) {
        let d = s.drop_first();
        lemma_first_match_idx(d, p);
        let k = first_match_idx(s, p);
        if k < s.len() {
            assert(s[k] == d[k - 1]);
        }
        assert forall|j: int| 0 <= j < k implies !p(#[trigger] s[j]) by {
            if j > 0 {
                assert(s[j] == d[j - 1]);
            }
        }
    }
}

/// A position that satisfies the predicate, with none before it, is the
/// first-match index.
pub proof fn lemma_first_match_at(s: Seq<Node>, p: spec_fn(Node) -> bool, i: int)
    requires
        0 <= i < s.len(),
        p(s[i]),
        forall|j: int| 0 <= j < i ==> !p(#[trigger] s[j]),
    ensures
        first_match_idx(s, p) == i,
    decreases s.len(),
{
    if i > 0 {
        let d = s.drop_first();
        assert(!p(s[0]));
        assert(d[i - 1] == s[i]);
        assert forall|j: int| 0 <= j < i - 1 implies !p(#[trigger] d[j]) by {
            assert(d[j] == s[j + 1]);
        }
        lemma_first_match_at(d, p, i - 1);
    }
}

/// Repeated queries agree: the result a query contract admits is a function
/// of the tree and the predicate alone, so two results of the same search on
/// the same tree are the same node.
pub proof fn lemma_find_first_idempotent(
    s: Seq<Node>,
    p: spec_fn(Node) -> bool,
    r1: Option<Node>,
    r2: Option<Node>,
)
    requires
        r1 == first_match(s, p),
        r2 == first_match(s, p),
    ensures
        r1 == r2,
{
}

/// Whether `n` is an element whose tag name is exactly `name`.
pub open spec fn tag_matches(n: Node, name: Seq<char>) -> bool {
    n matches Node::Element { tag_name, .. } && tag_name@ == name
}

/// Whether `n` is an element whose attributes hold exactly `name -> value`.
pub open spec fn attr_matches(n: Node, name: Seq<char>, value: Seq<char>) -> bool {
    n matches Node::Element { attributes, .. } && attributes@.contains_key(name)
        && attributes@[name] == value
}

/// Whether `n` is a text node holding exactly `text`.
pub open spec fn text_matches(n: Node, text: Seq<char>) -> bool {
    n matches Node::Text(t) && t@ == text
}

/// Depth-first, document-order search: returns a borrow of the first node of
/// the subtree at `node` for which `predicate` returned true, after the
/// predicate returned false on every node before it, or nothing after it
/// returned false on the whole subtree.
pub fn find_node<'a, F: Fn(&Node) -> bool>(node: &'a Node, predicate: &F) -> (r: Option<&'a Node>)
    requires
        forall|m: &Node| #[trigger] call_requires(*predicate, (m,)),
    ensures
        ({
            let order = preorder(*node);
            match r {
                Some(found) => exists|i: int|
                    {
                        &&& 0 <= i < order.len()
                        &&& order[i] == *found
                        &&& call_ensures(*predicate, (&order[i],), true)
                        &&& forall|j: int|
                            0 <= j < i ==> call_ensures(*predicate, (&#[trigger] order[j],), false)
                    },
                None => forall|j: int|
                    0 <= j < order.len() ==> call_ensures(
                        *predicate,
                        (&#[trigger] order[j],),
                        false,
                    ),
            }
        }),
    decreases preorder(*node).len(),
{
    let ghost order = preorder(*node);
    proof {
        lemma_preorder_first(*node);
    }
    if predicate(node) {
        proof {
            assert(order[0] == *node);
            assert(call_ensures(*predicate, (&order[0],), true));
        }
        return Some(node);
    }
    match node {
        Node::Element { children, .. } => {
            proof {
                assert(order == seq![*node] + preorder_all(children@));
                assert(children@.take(0) =~= Seq::<Node>::empty());
                assert(preorder_all(Seq::<Node>::empty()) == Seq::<Node>::empty());
                assert(call_ensures(*predicate, (&order[0],), false));
            }
            let mut k: usize = 0;
            while k < children.len()
                invariant
                    k <= children@.len(),
                    order == preorder(*node),
                    order == seq![*node] + preorder_all(children@),
                    forall|m: &Node| #[trigger] call_requires(*predicate, (m,)),
                    forall|j: int|
                        0 <= j < 1 + preorder_all(children@.take(k as int)).len()
                            ==> call_ensures(*predicate, (&#[trigger] order[j],), false),
                decreases children@.len() - k,
            {
                let ghost base = 1 + preorder_all(children@.take(k as int)).len();
                let ghost oc = preorder(children@[k as int]);
                proof {
                    lemma_preorder_all_split(children@, k as int);
                    lemma_preorder_all_snoc(children@, k as int);
                    assert(children@.skip(k as int)[0] == children@[k as int]);
                    assert(children@.skip(k as int).drop_first() =~= children@.skip(k as int + 1));
                    assert(preorder_all(children@.skip(k as int)) == oc + preorder_all(
                        children@.skip(k as int + 1),
                    ));
                    assert forall|t: int| 0 <= t < oc.len() implies order[base + t] == oc[t] by {
                        assert(preorder_all(children@)[base - 1 + t] == oc[t]);
                    }
                    assert(preorder_all(children@).len() >= base - 1 + oc.len());
                    assert(oc.len() < order.len());
                }
                let found = find_node(&children[k], predicate);
                match found {
                    Some(f) => {
                        proof {
                            let i_c = choose|i: int|
                                {
                                    &&& 0 <= i < oc.len()
                                    &&& oc[i] == *f
                                    &&& call_ensures(*predicate, (&oc[i],), true)
                                    &&& forall|j: int|
                                        0 <= j < i ==> call_ensures(
                                            *predicate,
                                            (&#[trigger] oc[j],),
                                            false,
                                        )
                                };
                            assert(order[base + i_c] == oc[i_c]);
                            assert(call_ensures(*predicate, (&order[base + i_c],), true));
                            assert forall|j: int| 0 <= j < base + i_c implies call_ensures(
                                *predicate,
                                (&#[trigger] order[j],),
                                false,
                            ) by {
                                if j >= base {
                                    assert(order[j] == oc[j - base]);
                                }
                            }
                        }
                        return found;
                    },
                    None => {
                        proof {
                            assert forall|j: int|
                                0 <= j < 1 + preorder_all(
                                    children@.take(k as int + 1),
                                ).len() implies call_ensures(
                                *predicate,
                                (&#[trigger] order[j],),
                                false,
                            ) by {
                                if j >= base {
                                    assert(order[j] == oc[j - base]);
                                }
                            }
                        }
                    },
                }
                k = k + 1;
            }
            proof {
                assert(children@.take(children@.len() as int) =~= children@);
            }
            None
        },
        Node::Text(_) => {
            proof {
                assert(order.len() == 1);
            }
            None
        },
    }
}

/// From the search contract of `find_node`, with a predicate whose answer is
/// pinned to the spec predicate `p`, conclude that the result is exactly the
/// first match in document order.
proof fn lemma_find_exact<F: Fn(&Node) -> bool>(
    pred: F,
    p: spec_fn(Node) -> bool,
    root: Node,
    r: Option<Node>,
)
    requires
        forall|m: &Node, b: bool| #[trigger] call_ensures(pred, (m,), b) ==> b == p(*m),
        ({
            let order = preorder(root);
            match r {
                Some(found) => exists|i: int|
                    {
                        &&& 0 <= i < order.len()
                        &&& order[i] == found
                        &&& call_ensures(pred, (&order[i],), true)
                        &&& forall|j: int|
                            0 <= j < i ==> call_ensures(pred, (&#[trigger] order[j],), false)
                    },
                None => forall|j: int|
                    0 <= j < order.len() ==> call_ensures(pred, (&#[trigger] order[j],), false),
            }
        }),
    ensures
        r == first_match(preorder(root), p),
{
    let order = preorder(root);
    lemma_first_match_idx(order, p);
    match r {
        Some(found) => {
            let i = choose|i: int|
                {
                    &&& 0 <= i < order.len()
                    &&& order[i] == found
                    &&& call_ensures(pred, (&order[i],), true)
                    &&& forall|j: int|
                        0 <= j < i ==> call_ensures(pred, (&#[trigger] order[j],), false)
                };
            assert(p(order[i]));
            assert forall|j: int| 0 <= j < i implies !p(#[trigger] order[j]) by {
                assert(call_ensures(pred, (&order[j],), false));
            }
            lemma_first_match_at(order, p, i);
        },
        None => {
            let k = first_match_idx(order, p);
            if k < order.len() {
                assert(call_ensures(pred, (&order[k],), false));
                assert(false);
            }
        },
    }
}

/// First element of the tree, in document order, whose tag name is exactly
/// `tag_name` (case-sensitive), if any.
pub fn find_by_tag_name<'a>(tag_name: &'a str, root_node: &'a Node) -> (r: Option<&'a Node>)
    ensures
        ({
            let m = first_match(preorder(*root_node), |n: Node| tag_matches(n, tag_name@));
            match r {
                Some(found) => m == Some(*found),
                None => m is None,
            }
        }),
{
    let pred = |n: &Node| -> (b: bool)
        ensures
            b == tag_matches(*n, tag_name@),
        {
            match n {
                Node::Element { tag_name: node_tag_name, .. } => crate::tokenizer::str_eq(
                    node_tag_name.as_str(),
                    tag_name,
                ),
                _ => false,
            }
        };
    let r = find_node(root_node, &pred);
    proof {
        lemma_find_exact(
            pred,
            |n: Node| tag_matches(n, tag_name@),
            *root_node,
            match r {
                Some(found) => Some(*found),
                None => None,
            },
        );
    }
    r
}

/// First element of the tree, in document order, whose attribute mapping
/// holds exactly `attribute_name -> attribute_value`, if any.
pub fn find_by_attribute<'a>(
    attribute_name: &'a str,
    attribute_value: &'a str,
    root_node: &'a Node,
) -> (r: Option<&'a Node>)
    ensures
        ({
            let m = first_match(
                preorder(*root_node),
                |n: Node| attr_matches(n, attribute_name@, attribute_value@),
            );
            match r {
                Some(found) => m == Some(*found),
                None => m is None,
            }
        }),
{
    let pred = |n: &Node| -> (b: bool)
        ensures
            b == attr_matches(*n, attribute_name@, attribute_value@),
        {
            match n {
                Node::Element { attributes, .. } => match attributes.get(attribute_name) {
                    Some(v) => crate::tokenizer::str_eq(v.as_str(), attribute_value),
                    None => false,
                },
                _ => false,
            }
        };
    let r = find_node(root_node, &pred);
    proof {
        lemma_find_exact(
            pred,
            |n: Node| attr_matches(n, attribute_name@, attribute_value@),
            *root_node,
            match r {
                Some(found) => Some(*found),
                None => None,
            },
        );
    }
    r
}

/// First text node of the tree, in document order, whose content is exactly
/// `text` (no trimming or normalization), if any.
pub fn find_by_text<'a>(text: &'a str, root_node: &'a Node) -> (r: Option<&'a Node>)
    ensures
        ({
            let m = first_match(preorder(*root_node), |n: Node| text_matches(n, text@));
            match r {
                Some(found) => m == Some(*found),
                None => m is None,
            }
        }),
{
    let pred = |n: &Node| -> (b: bool)
        ensures
            b == text_matches(*n, text@),
        {
            match n {
                Node::Text(node_text) => crate::tokenizer::str_eq(node_text.as_str(), text),
                _ => false,
            }
        };
    let r = find_node(root_node, &pred);
    proof {
        lemma_find_exact(
            pred,
            |n: Node| text_matches(n, text@),
            *root_node,
            match r {
                Some(found) => Some(*found),
                None => None,
            },
        );
    }
    r
}

} // verus!
