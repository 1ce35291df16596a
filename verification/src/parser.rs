//! Tree builder: an ordered token sequence to a rooted node tree.

use vstd::prelude::*;
use std::collections::VecDeque;
use crate::tokenizer::Tokens;
use crate::tokenizer::TokView;
use crate::tokenizer::toks_view;

verus! {

broadcast use vstd::std_specs::vec::group_vec_axioms, vstd::seq::group_seq_axioms;

/// An element's attributes: a name-to-value mapping with unique keys where
/// the last write to a name wins.
#[derive(Debug)]
pub struct Attributes {
    pairs: Vec<(String, String)>,
}

/// The mapping a pair list denotes: pairs applied first to last, so a later
/// pair with the same name overwrites an earlier one.
pub open spec fn pairs_map(s: Seq<(String, String)>) -> Map<Seq<char>, Seq<char>>
    decreases s.len(),
{
    if s.len() == 0 {
        Map::empty()
    } else {
        pairs_map(s.drop_last()).insert(s.last().0@, s.last().1@)
    }
}

impl View for Attributes {
    type V = Map<Seq<char>, Seq<char>>;

    closed spec fn view(&self) -> Map<Seq<char>, Seq<char>> {
        pairs_map(self.pairs@)
    }
}

impl Attributes {
    /// The empty mapping.
    pub fn new() -> (r: Attributes)
        ensures
            r@ == Map::<Seq<char>, Seq<char>>::empty(),
    {
        Attributes { pairs: Vec::new() }
    }

    /// Insert or overwrite `name -> value`: the last write to a name wins.
    pub fn insert(&mut self, name: String, value: String)
        ensures
            final(self)@ == old(self)@.insert(name@, value@),
    {
        self.pairs.push((name, value));
        proof {
            assert(self.pairs@.drop_last() == old(self).pairs@);
        }
    }

    /// The value the mapping holds for `name`, if any.
    pub fn get<'a>(&'a self, name: &str) -> (r: Option<&'a String>)
        ensures
            match r {
                Some(v) => self@.contains_key(name@) && v@ == self@[name@],
                None => !self@.contains_key(name@),
            },
    {
        proof {
            lemma_last_key(self.pairs@, name@);
        }
        let mut k = self.pairs.len();
        while k > 0
            invariant
                k <= self.pairs@.len(),
                forall|j: int| k <= j < self.pairs@.len() ==> self.pairs@[j].0@ != name@,
            decreases k,
        {
            k = k - 1;
            if crate::tokenizer::str_eq(self.pairs[k].0.as_str(), name) {
                proof {
                    lemma_last_key(self.pairs@, name@);
                    assert(last_key_idx(self.pairs@, name@) == k as int);
                }
                return Some(&self.pairs[k].1);
            }
        }
        proof {
            lemma_last_key(self.pairs@, name@);
        }
        None
    }

    /// Whether the two mappings hold the same names with the same values.
    pub fn same_attributes(&self, other: &Attributes) -> (r: bool)
        ensures
            r == (self@ =~= other@),
    {
        let mut k: usize = 0;
        while k < self.pairs.len()
            invariant
                k <= self.pairs@.len(),
                forall|j: int|
                    0 <= j < k ==> other@.contains_key(#[trigger] self.pairs@[j].0@)
                        && other@[self.pairs@[j].0@] == self@[self.pairs@[j].0@],
            decreases self.pairs@.len() - k,
        {
            proof {
                lemma_last_key(self.pairs@, self.pairs@[k as int].0@);
            }
            let mine = self.get(self.pairs[k].0.as_str());
            let theirs = other.get(self.pairs[k].0.as_str());
            match (mine, theirs) {
                (Some(a), Some(b)) => {
                    if !crate::tokenizer::str_eq(a.as_str(), b.as_str()) {
                        proof {
                            assert(!(self@ =~= other@));
                        }
                        return false;
                    }
                },
                _ => {
                    proof {
                        assert(self@.contains_key(self.pairs@[k as int].0@));
                        assert(!(self@ =~= other@));
                    }
                    return false;
                },
            }
            k = k + 1;
        }
        let mut m: usize = 0;
        while m < other.pairs.len()
            invariant
                m <= other.pairs@.len(),
                forall|j: int|
                    0 <= j < self.pairs@.len() ==> other@.contains_key(
                        #[trigger] self.pairs@[j].0@,
                    ) && other@[self.pairs@[j].0@] == self@[self.pairs@[j].0@],
                forall|j: int| 0 <= j < m ==> self@.contains_key(#[trigger] other.pairs@[j].0@),
            decreases other.pairs@.len() - m,
        {
            proof {
                lemma_last_key(other.pairs@, other.pairs@[m as int].0@);
            }
            match self.get(other.pairs[m].0.as_str()) {
                Some(_) => {},
                None => {
                    proof {
                        assert(other@.contains_key(other.pairs@[m as int].0@));
                        assert(!(self@ =~= other@));
                    }
                    return false;
                },
            }
            m = m + 1;
        }
        proof {
            assert forall|key: Seq<char>| #[trigger] self@.dom().contains(key) implies
                other@.dom().contains(key) && other@[key] == self@[key] by {
                assert(self@.contains_key(key));
                lemma_last_key(self.pairs@, key);
                assert(other@.contains_key(key));
            }
            assert forall|key: Seq<char>| #[trigger] other@.dom().contains(key) implies
                self@.dom().contains(key) by {
                assert(other@.contains_key(key));
                lemma_last_key(other.pairs@, key);
                assert(self@.contains_key(key));
            }
            assert(self@.dom() =~= other@.dom());
            assert(self@ =~= other@);
        }
        true
    }
}

/// Index of the last pair holding `key`, or -1 if none does: the pair that
/// decides what the mapping holds for `key`.
pub open spec fn last_key_idx(s: Seq<(String, String)>, key: Seq<char>) -> int
    decreases s.len(),
{
    if s.len() == 0 {
        -1
    } else if s.last().0@ == key {
        s.len() - 1
    } else {
        last_key_idx(s.drop_last(), key)
    }
}

/// What the last pair holding a key decides: the mapping holds that pair's
/// value, and holds nothing for a key no pair has.
pub proof fn lemma_last_key(s: Seq<(String, String)>, key: Seq<char>)
    ensures
        ({
            let i = last_key_idx(s, key);
            &&& -1 <= i < s.len()
            &&& (i >= 0 ==> s[i].0@ == key && pairs_map(s).contains_key(key) && pairs_map(s)[key]
                == s[i].1@ && (forall|j: int| i < j < s.len() ==> s[j].0@ != key))
            &&& (i == -1 ==> !pairs_map(s).contains_key(key) && (forall|j: int|
                0 <= j < s.len() ==> s[j].0@ != key))
        }),
    decreases s.len(),
{
    if s.len() > 0 {
        let d = s.drop_last();
        lemma_last_key(d, key);
        assert(pairs_map(s) == pairs_map(d).insert(s.last().0@, s.last().1@));
        assert(s.last() == s[s.len() - 1]);
        if s.last().0@ != key {
            let i = last_key_idx(d, key);
            assert(last_key_idx(s, key) == i);
            if i >= 0 {
                assert(s[i] == d[i]);
                assert(pairs_map(s).contains_key(key));
                assert(pairs_map(s)[key] == d[i].1@);
                assert forall|j: int| i < j < s.len() implies s[j].0@ != key by {
                    if j < s.len() - 1 {
                        assert(s[j] == d[j]);
                    }
                }
            } else {
                assert(!pairs_map(s).contains_key(key));
                assert forall|j: int| 0 <= j < s.len() implies s[j].0@ != key by {
                    if j < s.len() - 1 {
                        assert(s[j] == d[j]);
                    }
                }
            }
        }
    }
}

/// A node of the tree: an element with its attributes and its children in
/// document order, or a run of literal text.
#[derive(Debug)]
pub enum Node {
    Element { tag_name: String, attributes: Attributes, children: Vec<Node> },
    Text(String),
}

/// Mathematical image of a node: text as character sequences, attributes as
/// a mapping, children as a sequence of images.
pub enum NodeView {
    Element { tag: Seq<char>, attrs: Map<Seq<char>, Seq<char>>, children: Seq<NodeView> },
    Text(Seq<char>),
}

/// The image of a node, children included.
pub open spec fn node_view(n: Node) -> NodeView
    decreases n,
{
    match n {
        Node::Text(t) => NodeView::Text(t@),
        Node::Element { tag_name, attributes, children } => NodeView::Element {
            tag: tag_name@,
            attrs: attributes@,
            children: nodes_view(children@),
        },
    }
}

/// The images of a sequence of nodes, element by element.
pub open spec fn nodes_view(s: Seq<Node>) -> Seq<NodeView>
    decreases s,
{
    if s.len() == 0 {
        Seq::empty()
    } else {
        seq![node_view(s[0])] + nodes_view(s.drop_first())
    }
}

impl View for Node {
    type V = NodeView;

    open spec fn view(&self) -> NodeView {
        node_view(*self)
    }
}

/// Whether every close marker in the stream is immediately followed by a tag
/// name, the one condition `graph_creator` puts on its input. A caller that
/// cannot establish it otherwise checks with this and treats a `false` as
/// the fatal malformed-markup case.
pub fn closing_tags_named(tokens: &VecDeque<Tokens>) -> (r: bool)
    ensures
        r == closers_named(toks_view(tokens@)),
{
    let ghost cur = toks_view(tokens@);
    let n = tokens.len();
    let mut i: usize = 0;
    while i < n
        invariant
            i <= n,
            n == tokens@.len(),
            cur == toks_view(tokens@),
            cur.len() == n,
            forall|k: int|
                0 <= k < i && (#[trigger] cur[k]) is ClosingTag ==> k + 1 < cur.len() && cur[k
                    + 1] is Identifier,
        decreases n - i,
    {
        let is_closer = match &tokens[i] {
            Tokens::ClosingTag => true,
            _ => false,
        };
        if is_closer {
            proof {
                assert(cur[i as int] is ClosingTag);
            }
            if i + 1 >= n {
                proof {
                    assert(!closers_named(cur));
                }
                return false;
            }
            let named = match &tokens[i + 1] {
                Tokens::Identifier(_) => true,
                _ => false,
            };
            if !named {
                proof {
                    assert(!(cur[i + 1] is Identifier));
                    assert(!closers_named(cur));
                }
                return false;
            }
        }
        i = i + 1;
    }
    true
}

/// Tree builder: drains the token stream, front to back, into one node.
///
/// One call builds one element: its tag name from the opening identifier,
/// its attributes from `name = "value"` groups (the last write to a name
/// wins), its children from text runs and from nested elements, built
/// recursively, until a close marker, a self-close marker or the exhaustion
/// of the stream ends it. A truncated or malformed stream yields the
/// partially built element rather than an error. The input must be
/// well-closed (`closers_named`, checked by [`closing_tags_named`]): a close
/// marker without a tag name after it is the one fatal case, which this
/// library surfaces as a precondition rather than a panic.
pub fn graph_creator(tokens: &mut VecDeque<Tokens>) -> (r: Node)
    requires
        closers_named(toks_view(old(tokens)@)),
    ensures
        spec_build(toks_view(old(tokens)@)) == Some(
            (node_view(r), toks_view(final(tokens)@)),
        ),
        final(tokens)@.len() <= old(tokens)@.len(),
        old(tokens)@.len() > 0 ==> final(tokens)@.len() < old(tokens)@.len(),
    decreases old(tokens)@.len(),
{
    let ghost pre0 = toks_view(old(tokens)@);
    let mut tag_name: String = String::new();
    let mut attributes: Attributes = Attributes::new();
    let mut children: Vec<Node> = Vec::new();
    proof {
        assert(nodes_view(children@) =~= Seq::<NodeView>::empty());
        assert(pre0 == toks_view(tokens@));
    }
    while tokens.len() > 0
        invariant
            closers_named(toks_view(tokens@)),
            spec_build(pre0) == build_from(
                toks_view(tokens@),
                tag_name@,
                attributes@,
                nodes_view(children@),
            ),
            pre0 == toks_view(old(tokens)@),
            tokens@.len() <= old(tokens)@.len(),
            tag_name@.len() > 0 ==> tokens@.len() + 2 <= old(tokens)@.len(),
        decreases tokens@.len(),
    {
        let ghost cur = toks_view(tokens@);
        let ghost g = build_fuel(cur);
        let ghost tagv = tag_name@;
        let ghost attrsv = attributes@;
        let ghost chv = nodes_view(children@);
        proof {
            assert(cur.len() == tokens@.len());
        }
        let token = tokens.pop_front();
        proof {
            assert(toks_view(tokens@) =~= cur.skip(1));
        }
        match token {
            Some(Tokens::ClosingTag) => {
                proof {
                    assert(cur[0] is ClosingTag);
                    assert(cur.len() >= 2 && cur[1] is Identifier);
                }
                let _name = tokens.pop_front();
                let _gt = tokens.pop_front();
                proof {
                    if cur.len() >= 3 {
                        assert(toks_view(tokens@) =~= cur.skip(3));
                    } else {
                        assert(toks_view(tokens@) =~= Seq::<TokView>::empty());
                    }
                }
                return Node::Element { tag_name, attributes, children };
            },
            Some(Tokens::GreaterThan) => {
                proof {
                    assert(cur[0] is GreaterThan);
                    lemma_build_props((g - 1) as nat, cur.skip(1), tagv, attrsv, chv);
                    lemma_closers_skip(cur, 1);
                }
            },
            Some(Tokens::LessThan) => {
                proof {
                    assert(cur[0] is LessThan);
                }
                if tag_name.as_str().is_empty() {
                    proof {
                        if cur.len() >= 2 {
                            let tag2 = match cur[1] {
                                TokView::Identifier(nm) => nm,
                                _ => tagv,
                            };
                            lemma_build_props((g - 1) as nat, cur.skip(2), tag2, attrsv, chv);
                            lemma_closers_skip(cur, 2);
                        } else {
                            lemma_build_props((g - 1) as nat, cur.skip(1), tagv, attrsv, chv);
                            lemma_closers_skip(cur, 1);
                        }
                    }
                    match tokens.pop_front() {
                        Some(Tokens::Identifier(name)) => {
                            tag_name = name;
                        },
                        _ => {},
                    }
                    proof {
                        if cur.len() >= 2 {
                            assert(toks_view(tokens@) =~= cur.skip(2));
                        } else {
                            assert(toks_view(tokens@) =~= cur.skip(1));
                        }
                    }
                } else {
                    tokens.push_front(Tokens::LessThan);
                    proof {
                        assert(toks_view(tokens@) =~= cur);
                    }
                    let child = graph_creator(tokens);
                    proof {
                        let mid = toks_view(tokens@);
                        if cur.len() >= 2 {
                            let ctag = match cur[1] {
                                TokView::Identifier(nm) => nm,
                                _ => Seq::<char>::empty(),
                            };
                            lemma_build_props(
                                (g - 1) as nat,
                                cur.skip(2),
                                ctag,
                                Map::empty(),
                                Seq::empty(),
                            );
                            lemma_build_props(
                                (g - 1) as nat,
                                mid,
                                tagv,
                                attrsv,
                                chv.push(node_view(child)),
                            );
                        } else {
                            lemma_build_props(
                                (g - 1) as nat,
                                cur.skip(1),
                                tagv,
                                attrsv,
                                chv.push(node_view(child)),
                            );
                            lemma_build_props(
                                (build_fuel(cur) - 1) as nat,
                                cur.skip(1),
                                Seq::empty(),
                                Map::empty(),
                                Seq::empty(),
                            );
                        }
                        lemma_nodes_view_push(children@, child);
                    }
                    children.push(child);
                }
            },
            Some(Tokens::Attribute(name)) => {
                proof {
                    assert(cur[0] == TokView::Attribute(name@));
                    if cur.len() >= 3 {
                        let attrs2 = match cur[2] {
                            TokView::StringLiteral(v) => attrsv.insert(name@, v),
                            _ => attrsv,
                        };
                        lemma_build_props((g - 1) as nat, cur.skip(3), tagv, attrs2, chv);
                        lemma_closers_skip(cur, 3);
                    } else {
                        lemma_build_props(
                            (g - 1) as nat,
                            cur.skip(cur.len() as int),
                            tagv,
                            attrsv,
                            chv,
                        );
                        lemma_closers_skip(cur, cur.len() as int);
                    }
                }
                let _eq = tokens.pop_front();
                let val = tokens.pop_front();
                match val {
                    Some(Tokens::StringLiteral(value)) => {
                        attributes.insert(name, value);
                    },
                    _ => {},
                }
                proof {
                    if cur.len() >= 3 {
                        assert(toks_view(tokens@) =~= cur.skip(3));
                    } else {
                        assert(toks_view(tokens@) =~= cur.skip(cur.len() as int));
                    }
                }
            },
            Some(Tokens::SelfClosingTagEnd) => {
                proof {
                    assert(cur[0] is SelfClosingTagEnd);
                }
                return Node::Element { tag_name, attributes, children };
            },
            Some(Tokens::EOF) => {
                proof {
                    assert(cur[0] is EOF);
                }
                return Node::Element { tag_name, attributes, children };
            },
            Some(Tokens::Text(text)) => {
                proof {
                    assert(cur[0] == TokView::Text(text@));
                    lemma_build_props(
                        (g - 1) as nat,
                        cur.skip(1),
                        tagv,
                        attrsv,
                        chv.push(NodeView::Text(text@)),
                    );
                    lemma_closers_skip(cur, 1);
                    lemma_nodes_view_push(children@, Node::Text(text));
                }
                children.push(Node::Text(text));
            },
            _ => {
                proof {
                    assert(!(token is None));
                    assert(cur[0] is Identifier || cur[0] is Equals || cur[0] is StringLiteral);
                }
                return Node::Element { tag_name, attributes, children };
            },
        }
    }
    proof {
        assert(toks_view(tokens@) =~= Seq::<TokView>::empty());
    }
    Node::Element { tag_name, attributes, children }
}

/// Whether every close marker is immediately followed by a tag name. The
/// builder treats a close marker without one as fatal and aborts, so this is
/// the one condition a token sequence must meet before it is built.
pub open spec fn closers_named(toks: Seq<TokView>) -> bool {
    forall|i: int|
        0 <= i < toks.len() && (#[trigger] toks[i]) is ClosingTag ==> i + 1 < toks.len()
            && toks[i + 1] is Identifier
}

/// A suffix of a well-closed sequence is well-closed: cutting tokens off the
/// front never separates a close marker from the tag name after it.
pub proof fn lemma_closers_skip(toks: Seq<TokView>, k: int)
    requires
        0 <= k <= toks.len(),
        closers_named(toks),
    ensures
        closers_named(toks.skip(k)),
{
    assert forall|i: int|
        0 <= i < toks.skip(k).len() && (#[trigger] toks.skip(k)[i]) is ClosingTag implies i + 1
        < toks.skip(k).len() && toks.skip(k)[i + 1] is Identifier by {
        assert(toks.skip(k)[i] == toks[i + k]);
        assert(toks[i + k + 1] is Identifier);
        assert(toks.skip(k)[i + 1] == toks[i + k + 1]);
    }
}

/// One builder call, as a function of the tokens still in the stream and of
/// the accumulators of the element being built: the node returned and the
/// tokens left over, or nothing for the one fatal case (a close marker not
/// followed by a tag name). `fuel` only bounds the recursion; any value of
/// at least `build_fuel(toks)` gives the same answer.
pub open spec fn build_loop(
    fuel: nat,
    toks: Seq<TokView>,
    tag: Seq<char>,
    attrs: Map<Seq<char>, Seq<char>>,
    children: Seq<NodeView>,
) -> Option<(NodeView, Seq<TokView>)>
    decreases fuel,
{
    if fuel == 0 {
        None
    } else if toks.len() == 0 {
        Some((NodeView::Element { tag, attrs, children }, toks))
    } else {
        match toks[0] {
            TokView::ClosingTag => {
                if toks.len() >= 2 && toks[1] is Identifier {
                    Some(
                        (
                            NodeView::Element { tag, attrs, children },
                            if toks.len() >= 3 {
                                toks.skip(3)
                            } else {
                                Seq::empty()
                            },
                        ),
                    )
                } else {
                    None
                }
            },
            TokView::GreaterThan => build_loop((fuel - 1) as nat, toks.skip(1), tag, attrs, children),
            TokView::LessThan => {
                if tag.len() == 0 {
                    if toks.len() >= 2 {
                        let tag2 = match toks[1] {
                            TokView::Identifier(nm) => nm,
                            _ => tag,
                        };
                        build_loop((fuel - 1) as nat, toks.skip(2), tag2, attrs, children)
                    } else {
                        build_loop((fuel - 1) as nat, toks.skip(1), tag, attrs, children)
                    }
                } else {
                    if toks.len() >= 2 {
                        let ctag = match toks[1] {
                            TokView::Identifier(nm) => nm,
                            _ => Seq::empty(),
                        };
                        match build_loop(
                            (fuel - 1) as nat,
                            toks.skip(2),
                            ctag,
                            Map::empty(),
                            Seq::empty(),
                        ) {
                            None => None,
                            Some(cm) => build_loop(
                                (fuel - 1) as nat,
                                cm.1,
                                tag,
                                attrs,
                                children.push(cm.0),
                            ),
                        }
                    } else {
                        build_loop(
                            (fuel - 1) as nat,
                            toks.skip(1),
                            tag,
                            attrs,
                            children.push(
                                NodeView::Element {
                                    tag: Seq::empty(),
                                    attrs: Map::empty(),
                                    children: Seq::empty(),
                                },
                            ),
                        )
                    }
                }
            },
            TokView::Attribute(name) => {
                if toks.len() >= 3 {
                    let attrs2 = match toks[2] {
                        TokView::StringLiteral(v) => attrs.insert(name, v),
                        _ => attrs,
                    };
                    build_loop((fuel - 1) as nat, toks.skip(3), tag, attrs2, children)
                } else {
                    build_loop((fuel - 1) as nat, toks.skip(toks.len() as int), tag, attrs, children)
                }
            },
            TokView::SelfClosingTagEnd => Some(
                (NodeView::Element { tag, attrs, children }, toks.skip(1)),
            ),
            TokView::EOF => Some((NodeView::Element { tag, attrs, children }, toks.skip(1))),
            TokView::Text(t) => build_loop(
                (fuel - 1) as nat,
                toks.skip(1),
                tag,
                attrs,
                children.push(NodeView::Text(t)),
            ),
            _ => Some((NodeView::Element { tag, attrs, children }, toks.skip(1))),
        }
    }
}

/// Enough fuel for `build_loop` on `toks`: between two recursive calls at
/// the same stream length one token is always consumed, so twice the length
/// and one more always suffices.
pub open spec fn build_fuel(toks: Seq<TokView>) -> nat {
    (2 * toks.len() + 1) as nat
}

/// `build_loop` with its canonical fuel.
pub open spec fn build_from(
    toks: Seq<TokView>,
    tag: Seq<char>,
    attrs: Map<Seq<char>, Seq<char>>,
    children: Seq<NodeView>,
) -> Option<(NodeView, Seq<TokView>)> {
    build_loop(build_fuel(toks), toks, tag, attrs, children)
}

/// What one builder call over `toks` returns, starting with no tag name, no
/// attributes and no children.
pub open spec fn spec_build(toks: Seq<TokView>) -> Option<(NodeView, Seq<TokView>)> {
    build_from(toks, Seq::empty(), Map::empty(), Seq::empty())
}

/// The facts the builder proof leans on: any fuel of at least
/// `build_fuel(toks)` gives the canonical answer; the leftover tokens never
/// outnumber the input, and are strictly fewer when there was any input; and
/// on a well-closed sequence the build never hits the fatal case and leaves
/// a well-closed remainder.
pub proof fn lemma_build_props(
    fuel: nat,
    toks: Seq<TokView>,
    tag: Seq<char>,
    attrs: Map<Seq<char>, Seq<char>>,
    children: Seq<NodeView>,
)
    requires
        fuel >= build_fuel(toks),
    ensures
        ({
            let r = build_loop(fuel, toks, tag, attrs, children);
            &&& r == build_from(toks, tag, attrs, children)
            &&& (r is Some ==> r.unwrap().1.len() <= toks.len())
            &&& (r is Some && toks.len() > 0 ==> r.unwrap().1.len() < toks.len())
            &&& (closers_named(toks) ==> r is Some && closers_named(r.unwrap().1))
        }),
    decreases toks.len(),
{
    let g = build_fuel(toks);
    if toks.len() == 0 {
    } else {
        match toks[0] {
            TokView::ClosingTag => {
                if closers_named(toks) {
                    assert(toks[0] is ClosingTag);
                    assert(toks.len() >= 2 && toks[1] is Identifier);
                    if toks.len() >= 3 {
                        lemma_closers_skip(toks, 3);
                    } else {
                        assert(closers_named(Seq::<TokView>::empty()));
                    }
                }
            },
            TokView::GreaterThan => {
                lemma_build_props((fuel - 1) as nat, toks.skip(1), tag, attrs, children);
                lemma_build_props((g - 1) as nat, toks.skip(1), tag, attrs, children);
                if closers_named(toks) {
                    lemma_closers_skip(toks, 1);
                }
            },
            TokView::LessThan => {
                if tag.len() == 0 {
                    if toks.len() >= 2 {
                        let tag2 = match toks[1] {
                            TokView::Identifier(nm) => nm,
                            _ => tag,
                        };
                        lemma_build_props((fuel - 1) as nat, toks.skip(2), tag2, attrs, children);
                        lemma_build_props((g - 1) as nat, toks.skip(2), tag2, attrs, children);
                        if closers_named(toks) {
                            lemma_closers_skip(toks, 2);
                        }
                    } else {
                        lemma_build_props((fuel - 1) as nat, toks.skip(1), tag, attrs, children);
                        lemma_build_props((g - 1) as nat, toks.skip(1), tag, attrs, children);
                        if closers_named(toks) {
                            lemma_closers_skip(toks, 1);
                        }
                    }
                } else {
                    if toks.len() >= 2 {
                        let ctag = match toks[1] {
                            TokView::Identifier(nm) => nm,
                            _ => Seq::empty(),
                        };
                        lemma_build_props(
                            (fuel - 1) as nat,
                            toks.skip(2),
                            ctag,
                            Map::empty(),
                            Seq::empty(),
                        );
                        lemma_build_props(
                            (g - 1) as nat,
                            toks.skip(2),
                            ctag,
                            Map::empty(),
                            Seq::empty(),
                        );
                        if closers_named(toks) {
                            lemma_closers_skip(toks, 2);
                        }
                        let rc = build_from(toks.skip(2), ctag, Map::empty(), Seq::empty());
                        if rc is Some {
                            let child = rc.unwrap().0;
                            let mid = rc.unwrap().1;
                            lemma_build_props(
                                (fuel - 1) as nat,
                                mid,
                                tag,
                                attrs,
                                children.push(child),
                            );
                            lemma_build_props(
                                (g - 1) as nat,
                                mid,
                                tag,
                                attrs,
                                children.push(child),
                            );
                        }
                    } else {
                        let kid = NodeView::Element {
                            tag: Seq::empty(),
                            attrs: Map::empty(),
                            children: Seq::empty(),
                        };
                        lemma_build_props(
                            (fuel - 1) as nat,
                            toks.skip(1),
                            tag,
                            attrs,
                            children.push(kid),
                        );
                        lemma_build_props(
                            (g - 1) as nat,
                            toks.skip(1),
                            tag,
                            attrs,
                            children.push(kid),
                        );
                        if closers_named(toks) {
                            lemma_closers_skip(toks, 1);
                        }
                    }
                }
            },
            TokView::Attribute(name) => {
                if toks.len() >= 3 {
                    let attrs2 = match toks[2] {
                        TokView::StringLiteral(v) => attrs.insert(name, v),
                        _ => attrs,
                    };
                    lemma_build_props((fuel - 1) as nat, toks.skip(3), tag, attrs2, children);
                    lemma_build_props((g - 1) as nat, toks.skip(3), tag, attrs2, children);
                    if closers_named(toks) {
                        lemma_closers_skip(toks, 3);
                    }
                } else {
                    lemma_build_props(
                        (fuel - 1) as nat,
                        toks.skip(toks.len() as int),
                        tag,
                        attrs,
                        children,
                    );
                    lemma_build_props(
                        (g - 1) as nat,
                        toks.skip(toks.len() as int),
                        tag,
                        attrs,
                        children,
                    );
                    if closers_named(toks) {
                        lemma_closers_skip(toks, toks.len() as int);
                    }
                }
            },
            TokView::SelfClosingTagEnd => {
                if closers_named(toks) {
                    lemma_closers_skip(toks, 1);
                }
            },
            TokView::EOF => {
                if closers_named(toks) {
                    lemma_closers_skip(toks, 1);
                }
            },
            TokView::Text(t) => {
                lemma_build_props(
                    (fuel - 1) as nat,
                    toks.skip(1),
                    tag,
                    attrs,
                    children.push(NodeView::Text(t)),
                );
                lemma_build_props(
                    (g - 1) as nat,
                    toks.skip(1),
                    tag,
                    attrs,
                    children.push(NodeView::Text(t)),
                );
                if closers_named(toks) {
                    lemma_closers_skip(toks, 1);
                }
            },
            _ => {
                if closers_named(toks) {
                    lemma_closers_skip(toks, 1);
                }
            },
        }
    }
}

/// `nodes_view` is pointwise `node_view`.
pub proof fn lemma_nodes_view(s: Seq<Node>)
    ensures
        nodes_view(s).len() == s.len(),
        forall|i: int| 0 <= i < s.len() ==> nodes_view(s)[i] == node_view(s[i]),
    decreases s.len(),
{
    if s.len() > 0 {
        lemma_nodes_view(s.drop_first());
    }
}

/// Appending a node to a sequence appends its image.
pub proof fn lemma_nodes_view_push(s: Seq<Node>, n: Node)
    ensures
        nodes_view(s.push(n)) == nodes_view(s).push(node_view(n)),
    decreases s.len(),
{
    lemma_nodes_view(s.push(n));
    lemma_nodes_view(s);
    assert(nodes_view(s.push(n)) =~= nodes_view(s).push(node_view(n)));
}

} // verus!
