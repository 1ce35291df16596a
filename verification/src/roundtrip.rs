//! Preservation: scanning and building a well-formed document reproduces
//! its tree exactly.
//!
//! A well-formed document is one where every element is explicitly closed
//! or void. The token form writes a closed element as `<` name, its
//! attribute groups, `>`, its children, then `</` name `>`, and a void
//! element as `<` name, its attribute groups, then the self-close marker;
//! building that token sequence yields exactly the document's tree — tag
//! names, attribute mappings, text content and nesting order are all
//! preserved — and consumes exactly the document's tokens
//! ([`lemma_build_preserves_doc`]). For a document whose source form the
//! scanner reads back whole (plain tag and attribute names, quote-free
//! values, void names exactly on the void elements, no adjacent text runs),
//! the same holds from the raw source text on: the scan yields exactly the
//! document's tokens ([`lemma_tokenize_doc`]), so scanning and then
//! building yields exactly the document's tree ([`lemma_roundtrip_doc`]).

use vstd::prelude::*;
use crate::tokenizer::LastToken;
use crate::tokenizer::TokView;
use crate::tokenizer::is_run_break;
use crate::tokenizer::is_space;
use crate::tokenizer::is_void_tag;
use crate::tokenizer::run_end;
use crate::tokenizer::scan;
use crate::tokenizer::spec_tokenize;
use crate::parser::NodeView;
use crate::parser::build_from;
use crate::parser::build_fuel;
use crate::parser::build_loop;
use crate::parser::lemma_build_props;
use crate::parser::spec_build;

verus! {

broadcast use vstd::std_specs::vec::group_vec_axioms, vstd::seq::group_seq_axioms;

/// A document where every element is explicitly closed or void, as written
/// in source order: attributes are an ordered list of name-value pairs, as
/// they appear. A void element (`<img src="x">`) closes itself and never
/// has children.
pub enum DocView {
    Element { tag: Seq<char>, attrs: Seq<(Seq<char>, Seq<char>)>, children: Seq<DocView> },
    Void { tag: Seq<char>, attrs: Seq<(Seq<char>, Seq<char>)> },
    Text(Seq<char>),
}

/// Well-formed: every element has a nonempty tag name, all the way down.
pub open spec fn wf_doc(d: DocView) -> bool
    decreases d,
{
    match d {
        DocView::Text(_) => true,
        DocView::Void { tag, .. } => tag.len() > 0,
        DocView::Element { tag, children, .. } => tag.len() > 0 && wf_docs(children),
    }
}

/// Well-formedness of a list of documents.
pub open spec fn wf_docs(ds: Seq<DocView>) -> bool
    decreases ds,
{
    if ds.len() == 0 {
        true
    } else {
        wf_doc(ds[0]) && wf_docs(ds.drop_first())
    }
}

/// The applied attribute list: pairs applied first to last onto `m`, so a
/// later pair with the same name overwrites an earlier one.
pub open spec fn attrs_map_fold(
    m: Map<Seq<char>, Seq<char>>,
    al: Seq<(Seq<char>, Seq<char>)>,
) -> Map<Seq<char>, Seq<char>>
    decreases al.len(),
{
    if al.len() == 0 {
        m
    } else {
        attrs_map_fold(m.insert(al[0].0, al[0].1), al.drop_first())
    }
}

/// The tree a document denotes.
pub open spec fn doc_node(d: DocView) -> NodeView
    decreases d,
{
    match d {
        DocView::Text(t) => NodeView::Text(t),
        DocView::Void { tag, attrs } => NodeView::Element {
            tag,
            attrs: attrs_map_fold(Map::empty(), attrs),
            children: Seq::empty(),
        },
        DocView::Element { tag, attrs, children } => NodeView::Element {
            tag,
            attrs: attrs_map_fold(Map::empty(), attrs),
            children: doc_nodes(children),
        },
    }
}

/// The trees a list of documents denotes.
pub open spec fn doc_nodes(ds: Seq<DocView>) -> Seq<NodeView>
    decreases ds,
{
    if ds.len() == 0 {
        Seq::empty()
    } else {
        seq![doc_node(ds[0])] + doc_nodes(ds.drop_first())
    }
}

/// The tokens of an attribute list: a name, an equals sign and a quoted
/// value for each pair, in source order.
pub open spec fn attr_tokens(al: Seq<(Seq<char>, Seq<char>)>) -> Seq<TokView>
    decreases al.len(),
{
    if al.len() == 0 {
        Seq::empty()
    } else {
        seq![
            TokView::Attribute(al[0].0),
            TokView::Equals,
            TokView::StringLiteral(al[0].1),
        ] + attr_tokens(al.drop_first())
    }
}

/// The tokens of a document: an element as `<` name, attributes, `>`,
/// children, `</` name `>`; a text node as one text run.
pub open spec fn doc_tokens(d: DocView) -> Seq<TokView>
    decreases d,
{
    match d {
        DocView::Text(t) => seq![TokView::Text(t)],
        DocView::Void { tag, attrs } => seq![TokView::LessThan, TokView::Identifier(tag)]
            + attr_tokens(attrs) + seq![TokView::SelfClosingTagEnd],
        DocView::Element { tag, attrs, children } => seq![
            TokView::LessThan,
            TokView::Identifier(tag),
        ] + attr_tokens(attrs) + seq![TokView::GreaterThan] + docs_tokens(children) + seq![
            TokView::ClosingTag,
            TokView::Identifier(tag),
            TokView::GreaterThan,
        ],
    }
}

/// The concatenated tokens of a list of documents.
pub open spec fn docs_tokens(ds: Seq<DocView>) -> Seq<TokView>
    decreases ds,
{
    if ds.len() == 0 {
        Seq::empty()
    } else {
        doc_tokens(ds[0]) + docs_tokens(ds.drop_first())
    }
}

/// Consuming an attribute list from the front of the stream applies exactly
/// those pairs to the accumulated attributes, in order.
proof fn lemma_build_attrs(
    al: Seq<(Seq<char>, Seq<char>)>,
    tail: Seq<TokView>,
    tag: Seq<char>,
    attrs: Map<Seq<char>, Seq<char>>,
    acc: Seq<NodeView>,
)
    ensures
        build_from(attr_tokens(al) + tail, tag, attrs, acc) == build_from(
            tail,
            tag,
            attrs_map_fold(attrs, al),
            acc,
        ),
    decreases al.len(),
{
    if al.len() == 0 {
        assert(attr_tokens(al) + tail =~= tail);
    } else {
        let toks = attr_tokens(al) + tail;
        let al2 = al.drop_first();
        assert(toks.len() >= 3);
        assert(toks[0] == TokView::Attribute(al[0].0));
        assert(toks[2] == TokView::StringLiteral(al[0].1));
        assert(toks.skip(3) =~= attr_tokens(al2) + tail);
        let attrs2 = attrs.insert(al[0].0, al[0].1);
        lemma_build_props((build_fuel(toks) - 1) as nat, toks.skip(3), tag, attrs2, acc);
        assert(build_loop(build_fuel(toks), toks, tag, attrs, acc) == build_loop(
            (build_fuel(toks) - 1) as nat,
            toks.skip(3),
            tag,
            attrs2,
            acc,
        ));
        lemma_build_attrs(al2, tail, tag, attrs2, acc);
    }
}

/// Consuming the children of an open element, then its close tag, finishes
/// that element: the children's trees are appended to the accumulated ones
/// and the stream past the close tag is left untouched. The close tag's
/// name is popped but never compared to the open tag.
proof fn lemma_build_children(
    ds: Seq<DocView>,
    tag: Seq<char>,
    attrs: Map<Seq<char>, Seq<char>>,
    acc: Seq<NodeView>,
    closer: Seq<char>,
    rest: Seq<TokView>,
)
    requires
        tag.len() > 0,
        wf_docs(ds),
    ensures
        build_from(
            docs_tokens(ds) + seq![
                TokView::ClosingTag,
                TokView::Identifier(closer),
                TokView::GreaterThan,
            ] + rest,
            tag,
            attrs,
            acc,
        ) == Some((NodeView::Element { tag, attrs, children: acc + doc_nodes(ds) }, rest)),
    decreases ds,
{
    let close = seq![TokView::ClosingTag, TokView::Identifier(closer), TokView::GreaterThan];
    let toks = docs_tokens(ds) + close + rest;
    if ds.len() == 0 {
        assert(toks =~= close + rest);
        assert(toks[0] is ClosingTag);
        assert(toks[1] is Identifier);
        assert(toks.len() >= 3);
        assert(toks.skip(3) =~= rest);
        assert(acc + doc_nodes(ds) =~= acc);
    } else {
        let d0 = ds[0];
        let ds2 = ds.drop_first();
        assert(wf_doc(d0));
        match d0 {
            DocView::Text(t) => {
                assert(docs_tokens(ds) == doc_tokens(d0) + docs_tokens(ds2));
                assert(doc_tokens(d0) == seq![TokView::Text(t)]);
                assert(toks[0] == TokView::Text(t));
                assert(toks.skip(1) =~= docs_tokens(ds2) + close + rest);
                lemma_build_props(
                    (build_fuel(toks) - 1) as nat,
                    toks.skip(1),
                    tag,
                    attrs,
                    acc.push(NodeView::Text(t)),
                );
                lemma_build_children(ds2, tag, attrs, acc.push(NodeView::Text(t)), closer, rest);
                assert(acc.push(NodeView::Text(t)) + doc_nodes(ds2) =~= acc + doc_nodes(ds));
            },
            DocView::Void { tag: ctag, attrs: cattrs } => {
                let tail = docs_tokens(ds2) + close + rest;
                assert(docs_tokens(ds) == doc_tokens(d0) + docs_tokens(ds2));
                assert(doc_tokens(d0) == seq![TokView::LessThan, TokView::Identifier(ctag)]
                    + attr_tokens(cattrs) + seq![TokView::SelfClosingTagEnd]);
                assert(toks =~= doc_tokens(d0) + tail);
                assert(toks[0] is LessThan);
                assert(toks[1] == TokView::Identifier(ctag));
                assert(toks.len() >= 2);
                let body = attr_tokens(cattrs) + seq![TokView::SelfClosingTagEnd];
                assert(toks.skip(2) =~= body + tail);
                assert(attr_tokens(cattrs) + (seq![TokView::SelfClosingTagEnd] + tail) =~= body
                    + tail);
                lemma_build_attrs(
                    cattrs,
                    seq![TokView::SelfClosingTagEnd] + tail,
                    ctag,
                    Map::empty(),
                    Seq::empty(),
                );
                let sc_toks = seq![TokView::SelfClosingTagEnd] + tail;
                assert(sc_toks[0] is SelfClosingTagEnd);
                assert(sc_toks.skip(1) =~= tail);
                assert(build_from(toks.skip(2), ctag, Map::empty(), Seq::empty()) == Some(
                    (doc_node(d0), tail),
                ));
                lemma_build_props(
                    (build_fuel(toks) - 1) as nat,
                    toks.skip(2),
                    ctag,
                    Map::empty(),
                    Seq::empty(),
                );
                lemma_build_props((build_fuel(toks) - 1) as nat, tail, tag, attrs, acc.push(
                    doc_node(d0),
                ));
                lemma_build_children(ds2, tag, attrs, acc.push(doc_node(d0)), closer, rest);
                assert(acc.push(doc_node(d0)) + doc_nodes(ds2) =~= acc + doc_nodes(ds));
            },
            DocView::Element { tag: ctag, attrs: cattrs, children: cchildren } => {
                let tail = docs_tokens(ds2) + close + rest;
                assert(docs_tokens(ds) == doc_tokens(d0) + docs_tokens(ds2));
                assert(doc_tokens(d0) == seq![TokView::LessThan, TokView::Identifier(ctag)]
                    + attr_tokens(cattrs) + seq![TokView::GreaterThan] + docs_tokens(cchildren)
                    + seq![
                    TokView::ClosingTag,
                    TokView::Identifier(ctag),
                    TokView::GreaterThan,
                ]);
                assert(toks =~= doc_tokens(d0) + tail);
                assert(toks[0] is LessThan);
                assert(toks[1] == TokView::Identifier(ctag));
                assert(toks.len() >= 2);
                let body = attr_tokens(cattrs) + seq![TokView::GreaterThan] + docs_tokens(
                    cchildren,
                ) + seq![
                    TokView::ClosingTag,
                    TokView::Identifier(ctag),
                    TokView::GreaterThan,
                ];
                assert(toks.skip(2) =~= body + tail);
                // the child call: attributes first, ...
                assert(attr_tokens(cattrs) + (seq![TokView::GreaterThan] + docs_tokens(cchildren)
                    + seq![
                    TokView::ClosingTag,
                    TokView::Identifier(ctag),
                    TokView::GreaterThan,
                ] + tail) =~= body + tail);
                lemma_build_attrs(
                    cattrs,
                    seq![TokView::GreaterThan] + docs_tokens(cchildren) + seq![
                        TokView::ClosingTag,
                        TokView::Identifier(ctag),
                        TokView::GreaterThan,
                    ] + tail,
                    ctag,
                    Map::empty(),
                    Seq::empty(),
                );
                // ... then the `>` that ends the open tag, ...
                let after_gt = docs_tokens(cchildren) + seq![
                    TokView::ClosingTag,
                    TokView::Identifier(ctag),
                    TokView::GreaterThan,
                ] + tail;
                let gt_toks = seq![TokView::GreaterThan] + docs_tokens(cchildren) + seq![
                    TokView::ClosingTag,
                    TokView::Identifier(ctag),
                    TokView::GreaterThan,
                ] + tail;
                assert(gt_toks[0] is GreaterThan);
                assert(gt_toks.skip(1) =~= after_gt);
                lemma_build_props(
                    (build_fuel(gt_toks) - 1) as nat,
                    gt_toks.skip(1),
                    ctag,
                    attrs_map_fold(Map::empty(), cattrs),
                    Seq::empty(),
                );
                // ... then the child's own children and close tag,
                lemma_build_children(
                    cchildren,
                    ctag,
                    attrs_map_fold(Map::empty(), cattrs),
                    Seq::empty(),
                    ctag,
                    tail,
                );
                assert(Seq::<NodeView>::empty() + doc_nodes(cchildren) =~= doc_nodes(cchildren));
                assert(build_from(toks.skip(2), ctag, Map::empty(), Seq::empty()) == Some(
                    (doc_node(d0), tail),
                ));
                // back in the parent: unfold its step and continue the loop.
                lemma_build_props(
                    (build_fuel(toks) - 1) as nat,
                    toks.skip(2),
                    ctag,
                    Map::empty(),
                    Seq::empty(),
                );
                lemma_build_props((build_fuel(toks) - 1) as nat, tail, tag, attrs, acc.push(
                    doc_node(d0),
                ));
                lemma_build_children(ds2, tag, attrs, acc.push(doc_node(d0)), closer, rest);
                assert(acc.push(doc_node(d0)) + doc_nodes(ds2) =~= acc + doc_nodes(ds));
            },
        }
    }
}

/// A character that may appear in a tag name: neither whitespace nor one of
/// the delimiters the scanner breaks a run on.
pub open spec fn plain_char(c: char) -> bool {
    !is_run_break(c, true)
}

/// A usable tag name: nonempty and made of plain characters.
pub open spec fn plain_name(t: Seq<char>) -> bool {
    t.len() > 0 && (forall|i: int| 0 <= i < t.len() ==> plain_char(#[trigger] t[i]))
}

/// A text run the scanner reads back whole: nonempty, not opening with
/// whitespace (which the scanner would skip), and free of the delimiters
/// that end a run.
pub open spec fn plain_text_run(t: Seq<char>) -> bool {
    t.len() > 0 && !is_space(t[0]) && (forall|i: int|
        0 <= i < t.len() ==> !is_run_break(#[trigger] t[i], false))
}

/// A document source the scanner reads back token for token: plain tag and
/// attribute names, quote-free attribute values, void names exactly on the
/// void elements, and never two adjacent text children (the scanner would
/// merge them into one run).
pub open spec fn scan_ok_doc(d: DocView) -> bool
    decreases d,
{
    match d {
        DocView::Text(t) => plain_text_run(t),
        DocView::Void { tag, attrs } => plain_name(tag) && tag[0] != '!' && is_void_tag(tag) && (
        forall|i: int| 0 <= i < attrs.len() ==> scan_ok_attr(#[trigger] attrs[i])),
        DocView::Element { tag, attrs, children } => plain_name(tag) && tag[0] != '!'
            && !is_void_tag(tag) && (forall|i: int|
            0 <= i < attrs.len() ==> scan_ok_attr(#[trigger] attrs[i])) && scan_ok_docs(children),
    }
}

/// A source-form attribute: a plain name, and a value free of the quote
/// that would end it early.
pub open spec fn scan_ok_attr(a: (Seq<char>, Seq<char>)) -> bool {
    plain_name(a.0) && (forall|i: int| 0 <= i < a.1.len() ==> #[trigger] a.1[i] != '"')
}

/// Source form of a list of documents, with no two adjacent text children.
pub open spec fn scan_ok_docs(ds: Seq<DocView>) -> bool
    decreases ds,
{
    if ds.len() == 0 {
        true
    } else {
        scan_ok_doc(ds[0]) && scan_ok_docs(ds.drop_first()) && (ds[0] is Text && ds.len() > 1
            ==> !(ds[1] is Text))
    }
}

/// The source text of an attribute list: a space, the name, `=` and the
/// quoted value for each pair.
pub open spec fn attrs_text(al: Seq<(Seq<char>, Seq<char>)>) -> Seq<char>
    decreases al.len(),
{
    if al.len() == 0 {
        Seq::empty()
    } else {
        seq![' '] + al[0].0 + seq!['='] + seq!['"'] + al[0].1 + seq!['"'] + attrs_text(
            al.drop_first(),
        )
    }
}

/// The source text of a document: an element as `<` name, attributes, `>`,
/// children, `</` name `>`; a text node as its content.
pub open spec fn doc_text(d: DocView) -> Seq<char>
    decreases d,
{
    match d {
        DocView::Text(t) => t,
        DocView::Void { tag, attrs } => seq!['<'] + tag + attrs_text(attrs) + seq!['>'],
        DocView::Element { tag, attrs, children } => seq!['<'] + tag + attrs_text(attrs)
            + seq!['>'] + docs_text(children) + seq!['<', '/'] + tag + seq!['>'],
    }
}

/// The concatenated source text of a list of documents.
pub open spec fn docs_text(ds: Seq<DocView>) -> Seq<char>
    decreases ds,
{
    if ds.len() == 0 {
        Seq::empty()
    } else {
        doc_text(ds[0]) + docs_text(ds.drop_first())
    }
}

/// Where a run ends, given where its characters stop being plain.
proof fn lemma_run_end_at(s: Seq<char>, i: int, e: int, after_open: bool)
    requires
        0 <= i <= e <= s.len(),
        forall|t: int| i <= t < e ==> !is_run_break(#[trigger] s[t], after_open),
        e == s.len() || is_run_break(s[e], after_open),
    ensures
        run_end(s, i, after_open) == e,
    decreases e - i,
{
    if i < e {
        lemma_run_end_at(s, i + 1, e, after_open);
    }
}

/// Where a quoted literal ends, given where its characters stop being
/// quote-free.
proof fn lemma_quote_end_at(s: Seq<char>, i: int, e: int)
    requires
        0 <= i <= e <= s.len(),
        forall|t: int| i <= t < e ==> #[trigger] s[t] != '"',
        e < s.len() && s[e] == '"',
    ensures
        crate::tokenizer::quote_end(s, i) == e,
    decreases e - i,
{
    if i < e {
        lemma_quote_end_at(s, i + 1, e);
    }
}

/// A source form implies well-formedness.
proof fn lemma_scan_ok_wf(d: DocView)
    requires
        scan_ok_doc(d),
    ensures
        wf_doc(d),
    decreases d,
{
    match d {
        DocView::Text(_) => {},
        DocView::Void { .. } => {},
        DocView::Element { children, .. } => {
            lemma_scan_ok_wf_docs(children);
        },
    }
}

proof fn lemma_scan_ok_wf_docs(ds: Seq<DocView>)
    requires
        scan_ok_docs(ds),
    ensures
        wf_docs(ds),
    decreases ds,
{
    if ds.len() > 0 {
        lemma_scan_ok_wf(ds[0]);
        lemma_scan_ok_wf_docs(ds.drop_first());
    }
}

/// Preservation, stated over the builder: building the token form of any
/// well-formed document yields exactly that document's tree — tag names,
/// attribute mappings (last write winning), text content and nesting order
/// preserved — and consumes exactly the document's tokens, leaving `rest`.
pub proof fn lemma_build_preserves_doc(d: DocView, rest: Seq<TokView>)
    requires
        wf_doc(d),
        !(d is Text),
    ensures
        spec_build(doc_tokens(d) + rest) == Some((doc_node(d), rest)),
{
    match d {
        DocView::Element { tag, attrs, children } => {
            let toks = doc_tokens(d) + rest;
            assert(doc_tokens(d) == seq![TokView::LessThan, TokView::Identifier(tag)]
                + attr_tokens(attrs) + seq![TokView::GreaterThan] + docs_tokens(children) + seq![
                TokView::ClosingTag,
                TokView::Identifier(tag),
                TokView::GreaterThan,
            ]);
            assert(toks[0] is LessThan);
            assert(toks[1] == TokView::Identifier(tag));
            assert(toks.len() >= 2);
            let body = attr_tokens(attrs) + seq![TokView::GreaterThan] + docs_tokens(children)
                + seq![
                TokView::ClosingTag,
                TokView::Identifier(tag),
                TokView::GreaterThan,
            ];
            assert(toks.skip(2) =~= body + rest);
            assert(attr_tokens(attrs) + (seq![TokView::GreaterThan] + docs_tokens(children)
                + seq![
                TokView::ClosingTag,
                TokView::Identifier(tag),
                TokView::GreaterThan,
            ] + rest) =~= body + rest);
            lemma_build_attrs(
                attrs,
                seq![TokView::GreaterThan] + docs_tokens(children) + seq![
                    TokView::ClosingTag,
                    TokView::Identifier(tag),
                    TokView::GreaterThan,
                ] + rest,
                tag,
                Map::empty(),
                Seq::empty(),
            );
            let after_gt = docs_tokens(children) + seq![
                TokView::ClosingTag,
                TokView::Identifier(tag),
                TokView::GreaterThan,
            ] + rest;
            let gt_toks = seq![TokView::GreaterThan] + docs_tokens(children) + seq![
                TokView::ClosingTag,
                TokView::Identifier(tag),
                TokView::GreaterThan,
            ] + rest;
            assert(gt_toks[0] is GreaterThan);
            assert(gt_toks.skip(1) =~= after_gt);
            lemma_build_props(
                (build_fuel(gt_toks) - 1) as nat,
                gt_toks.skip(1),
                tag,
                attrs_map_fold(Map::empty(), attrs),
                Seq::empty(),
            );
            lemma_build_children(
                children,
                tag,
                attrs_map_fold(Map::empty(), attrs),
                Seq::empty(),
                tag,
                rest,
            );
            assert(Seq::<NodeView>::empty() + doc_nodes(children) =~= doc_nodes(children));
            lemma_build_props((build_fuel(toks) - 1) as nat, toks.skip(2), tag, Map::empty(),
                Seq::empty());
        },
        DocView::Void { tag, attrs } => {
            let toks = doc_tokens(d) + rest;
            assert(doc_tokens(d) == seq![TokView::LessThan, TokView::Identifier(tag)]
                + attr_tokens(attrs) + seq![TokView::SelfClosingTagEnd]);
            assert(toks[0] is LessThan);
            assert(toks[1] == TokView::Identifier(tag));
            assert(toks.len() >= 2);
            let body = attr_tokens(attrs) + seq![TokView::SelfClosingTagEnd];
            assert(toks.skip(2) =~= body + rest);
            assert(attr_tokens(attrs) + (seq![TokView::SelfClosingTagEnd] + rest) =~= body + rest);
            lemma_build_attrs(
                attrs,
                seq![TokView::SelfClosingTagEnd] + rest,
                tag,
                Map::empty(),
                Seq::empty(),
            );
            let sc_toks = seq![TokView::SelfClosingTagEnd] + rest;
            assert(sc_toks[0] is SelfClosingTagEnd);
            assert(sc_toks.skip(1) =~= rest);
            lemma_build_props((build_fuel(toks) - 1) as nat, toks.skip(2), tag, Map::empty(),
                Seq::empty());
        },
        DocView::Text(_) => {},
    }
}

/// Scanning an attribute list's source reads back exactly its tokens: for
/// each pair, an attribute name, an equals sign and a quoted value.
#[verifier::rlimit(100)]
proof fn lemma_scan_attrs(
    al: Seq<(Seq<char>, Seq<char>)>,
    s: Seq<char>,
    i: int,
    pending: bool,
    last: LastToken,
)
    requires
        forall|t: int| 0 <= t < al.len() ==> scan_ok_attr(#[trigger] al[t]),
        last != LastToken::Lt,
        last != LastToken::CloseTag,
        0 <= i,
        i + attrs_text(al).len() <= s.len(),
        s.subrange(i, i + attrs_text(al).len()) == attrs_text(al),
    ensures
        scan(s, i, pending, last) == attr_tokens(al) + scan(
            s,
            i + attrs_text(al).len(),
            pending,
            if al.len() == 0 {
                last
            } else {
                LastToken::Other
            },
        ),
    decreases al.len(),
{
    let an = attrs_text(al).len() as int;
    let je = i + an;
    if al.len() == 0 {
        assert(attr_tokens(al) + scan(s, je, pending, last) =~= scan(s, je, pending, last));
    } else {
        let k = al[0].0;
        let v = al[0].1;
        let al2 = al.drop_first();
        let kn = k.len() as int;
        let vn = v.len() as int;
        let atext = attrs_text(al);
        assert(scan_ok_attr(al[0]));
        assert(atext == seq![' '] + k + seq!['='] + seq!['"'] + v + seq!['"'] + attrs_text(al2));
        assert forall|u: int| i <= u < je implies #[trigger] s[u] == atext[u - i] by {
            assert(s.subrange(i, je)[u - i] == s[i + (u - i)]);
        }
        let pn = i + 1;
        let pe = i + 1 + kn;
        let pq = i + 2 + kn;
        let pv = i + 3 + kn;
        let pq2 = i + 3 + kn + vn;
        let nx = i + 4 + kn + vn;
        assert(s[i] == ' ');
        assert forall|t: int| 0 <= t < kn implies s[pn + t] == k[t] by {
            assert(s[pn + t] == atext[pn + t - i]);
            assert(atext[1 + t] == k[t]);
        }
        assert(s[pe] == '=');
        assert(s[pq] == '"');
        assert forall|t: int| 0 <= t < vn implies s[pv + t] == v[t] by {
            assert(s[pv + t] == atext[pv + t - i]);
            assert(atext[3 + kn + t] == v[t]);
        }
        assert(s[pq2] == '"');
        // the space before the name is skipped
        assert(is_space(' '));
        assert(scan(s, i, pending, last) == scan(s, pn, pending, last));
        // the attribute name run, ended by the `=` after it
        assert(!is_run_break(k[0], false));
        assert forall|u: int| pn + 1 <= u < pe implies !is_run_break(#[trigger] s[u], false) by {
            assert(s[u] == k[u - pn]);
            assert(!is_run_break(k[u - pn], true));
        }
        assert(is_run_break(s[pe], false));
        lemma_run_end_at(s, pn + 1, pe, false);
        assert(s.subrange(pn, pe) =~= k);
        assert(scan(s, pn, pending, last) == seq![TokView::Attribute(k)] + scan(
            s,
            pe,
            pending,
            LastToken::Other,
        ));
        // the equals sign
        assert(scan(s, pe, pending, LastToken::Other) == seq![TokView::Equals] + scan(
            s,
            pq,
            pending,
            LastToken::Other,
        ));
        // the quoted value, ended by its closing quote
        assert forall|u: int| pv <= u < pq2 implies #[trigger] s[u] != '"' by {
            assert(s[u] == v[u - pv]);
        }
        lemma_quote_end_at(s, pv, pq2);
        assert(s.subrange(pv, pq2) =~= v);
        assert(scan(s, pq, pending, LastToken::Other) == seq![TokView::StringLiteral(v)] + scan(
            s,
            nx,
            pending,
            LastToken::Other,
        ));
        // the attributes after this one
        assert forall|t: int| 0 <= t < al2.len() implies scan_ok_attr(#[trigger] al2[t]) by {
            assert(al2[t] == al[t + 1]);
        }
        assert(s.subrange(nx, nx + attrs_text(al2).len()) =~= attrs_text(al2));
        lemma_scan_attrs(al2, s, nx, pending, LastToken::Other);
        assert(seq![TokView::Attribute(k)] + (seq![TokView::Equals] + (seq![TokView::StringLiteral(
            v,
        )] + (attr_tokens(al2) + scan(s, je, pending, LastToken::Other)))) =~= attr_tokens(al)
            + scan(s, je, pending, LastToken::Other));
    }
}

/// Scanning a void element's source from its `<` reads back exactly its
/// tokens: recognizing the void name arms the pending self-close flag, and
/// the `>` becomes the self-close marker.
#[verifier::rlimit(100)]
proof fn lemma_scan_velem(d: DocView, s: Seq<char>, i: int, last: LastToken)
    requires
        d is Void,
        scan_ok_doc(d),
        0 <= i,
        i + doc_text(d).len() <= s.len(),
        s.subrange(i, i + doc_text(d).len()) == doc_text(d),
    ensures
        scan(s, i, false, last) == doc_tokens(d) + scan(
            s,
            i + doc_text(d).len(),
            false,
            LastToken::Other,
        ),
{
    match d {
        DocView::Text(_) => {},
        DocView::Element { .. } => {},
        DocView::Void { tag, attrs } => {
            let r = doc_text(d);
            let l = r.len();
            assert(r == seq!['<'] + tag + attrs_text(attrs) + seq!['>']);
            let tn = tag.len() as int;
            let an = attrs_text(attrs).len() as int;
            assert(l == tn + an + 2);
            assert forall|u: int| i <= u < i + l implies #[trigger] s[u] == r[u - i] by {
                assert(s.subrange(i, i + l)[u - i] == s[i + (u - i)]);
            }
            let p1 = i + 1;
            let p2 = i + 1 + tn;
            let pg = p2 + an;
            let pe = i + l;
            assert(s[i] == '<');
            assert forall|t: int| 0 <= t < tn implies s[p1 + t] == tag[t] by {
                assert(s[p1 + t] == r[p1 + t - i]);
                assert(r[1 + t] == tag[t]);
            }
            assert forall|t: int| 0 <= t < an implies s[p2 + t] == attrs_text(attrs)[t] by {
                assert(s[p2 + t] == r[p2 + t - i]);
                assert(r[1 + tn + t] == attrs_text(attrs)[t]);
            }
            assert(s[pg] == '>');
            // `<`: the next character is a plain tag character, so this is a
            // plain open marker.
            assert(!is_run_break(tag[0], true));
            assert(scan(s, i, false, last) == seq![TokView::LessThan] + scan(
                s,
                p1,
                false,
                LastToken::Lt,
            ));
            // the void tag name run arms the pending self-close flag
            assert forall|t: int| p1 + 1 <= t < p2 implies !is_run_break(#[trigger] s[t], true) by {
                assert(s[t] == tag[t - p1]);
            }
            if an > 0 {
                assert(attrs.len() > 0);
                assert(attrs_text(attrs)[0] == ' ');
                assert(s[p2] == ' ');
            }
            assert(is_run_break(s[p2], true));
            lemma_run_end_at(s, p1 + 1, p2, true);
            assert(s.subrange(p1, p2) =~= tag);
            assert(is_void_tag(s.subrange(p1, p2)));
            assert(scan(s, p1, false, LastToken::Lt) == seq![TokView::Identifier(tag)] + scan(
                s,
                p2,
                true,
                LastToken::Ident,
            ));
            // the attributes, with the flag still armed
            assert(s.subrange(p2, pg) =~= attrs_text(attrs));
            lemma_scan_attrs(attrs, s, p2, true, LastToken::Ident);
            let ghost la = if attrs.len() == 0 {
                LastToken::Ident
            } else {
                LastToken::Other
            };
            // the armed flag turns the `>` into the self-close marker
            assert(scan(s, pg, true, la) == seq![TokView::SelfClosingTagEnd] + scan(
                s,
                pe,
                false,
                LastToken::Other,
            ));
            // assemble the element's tokens
            assert(seq![TokView::LessThan] + (seq![TokView::Identifier(tag)] + (attr_tokens(attrs)
                + (seq![TokView::SelfClosingTagEnd] + scan(s, pe, false, LastToken::Other))))
                =~= doc_tokens(d) + scan(s, pe, false, LastToken::Other));
        },
    }
}

/// Scanning an element's source from its `<` reads back exactly its tokens
/// and leaves the scanner just past its close tag, with the flag clear.
#[verifier::rlimit(100)]
proof fn lemma_scan_elem(d: DocView, s: Seq<char>, i: int, last: LastToken)
    requires
        d is Element,
        scan_ok_doc(d),
        0 <= i,
        i + doc_text(d).len() <= s.len(),
        s.subrange(i, i + doc_text(d).len()) == doc_text(d),
    ensures
        scan(s, i, false, last) == doc_tokens(d) + scan(
            s,
            i + doc_text(d).len(),
            false,
            LastToken::Other,
        ),
    decreases d,
{
    match d {
        DocView::Text(_) => {},
        DocView::Void { .. } => {},
        DocView::Element { tag, attrs, children } => {
            let r = doc_text(d);
            let l = r.len();
            assert(r == seq!['<'] + tag + attrs_text(attrs) + seq!['>'] + docs_text(children)
                + seq!['<', '/'] + tag + seq!['>']);
            let tn = tag.len() as int;
            let an = attrs_text(attrs).len() as int;
            let cn = docs_text(children).len() as int;
            assert(l == 2 * tn + an + cn + 5);
            assert forall|u: int| i <= u < i + l implies #[trigger] s[u] == r[u - i] by {
                assert(s.subrange(i, i + l)[u - i] == s[i + (u - i)]);
            }
            let p1 = i + 1;
            let p2 = i + 1 + tn;
            let pg = p2 + an;
            let p3 = pg + 1;
            let p4 = p3 + cn;
            let p5 = p4 + 2;
            let p6 = p5 + tn;
            let pe = i + l;
            assert(s[i] == '<');
            assert forall|t: int| 0 <= t < tn implies s[p1 + t] == tag[t] by {
                assert(s[p1 + t] == r[p1 + t - i]);
                assert(r[1 + t] == tag[t]);
            }
            assert forall|t: int| 0 <= t < an implies s[p2 + t] == attrs_text(attrs)[t] by {
                assert(s[p2 + t] == r[p2 + t - i]);
                assert(r[1 + tn + t] == attrs_text(attrs)[t]);
            }
            assert(s[pg] == '>');
            assert forall|t: int| 0 <= t < cn implies s[p3 + t] == docs_text(children)[t] by {
                assert(s[p3 + t] == r[p3 + t - i]);
                assert(r[2 + tn + an + t] == docs_text(children)[t]);
            }
            assert(s[p4] == '<');
            assert(s[p4 + 1] == '/');
            assert forall|t: int| 0 <= t < tn implies s[p5 + t] == tag[t] by {
                assert(s[p5 + t] == r[p5 + t - i]);
                assert(r[4 + tn + an + cn + t] == tag[t]);
            }
            assert(s[p6] == '>');
            // `<`: the next character is a plain tag character, so this is a
            // plain open marker.
            assert(!is_run_break(tag[0], true));
            assert(scan(s, i, false, last) == seq![TokView::LessThan] + scan(
                s,
                p1,
                false,
                LastToken::Lt,
            ));
            // the tag name run, ended by the space before the first
            // attribute, or by the `>` of the open tag
            assert forall|t: int| p1 + 1 <= t < p2 implies !is_run_break(#[trigger] s[t], true) by {
                assert(s[t] == tag[t - p1]);
            }
            if an > 0 {
                assert(attrs.len() > 0);
                assert(attrs_text(attrs)[0] == ' ');
                assert(s[p2] == ' ');
            }
            assert(is_run_break(s[p2], true));
            lemma_run_end_at(s, p1 + 1, p2, true);
            assert(s.subrange(p1, p2) =~= tag);
            assert(!is_void_tag(s.subrange(p1, p2)));
            assert(scan(s, p1, false, LastToken::Lt) == seq![TokView::Identifier(tag)] + scan(
                s,
                p2,
                false,
                LastToken::Ident,
            ));
            // the attributes
            assert(s.subrange(p2, pg) =~= attrs_text(attrs));
            lemma_scan_attrs(attrs, s, p2, false, LastToken::Ident);
            let ghost la = if attrs.len() == 0 {
                LastToken::Ident
            } else {
                LastToken::Other
            };
            // the `>` that ends the open tag; the flag is clear, so it stays
            // a plain close of the open tag
            assert(scan(s, pg, false, la) == seq![TokView::GreaterThan] + scan(
                s,
                p3,
                false,
                LastToken::Other,
            ));
            // the children
            assert(s.subrange(p3, p4) =~= docs_text(children));
            lemma_scan_docs(children, s, p3);
            // `</` of the close tag
            assert(scan(s, p4, false, LastToken::Other) == seq![TokView::ClosingTag] + scan(
                s,
                p5,
                false,
                LastToken::CloseTag,
            ));
            // the closing name run, ended by the final `>`
            assert forall|t: int| p5 + 1 <= t < p6 implies !is_run_break(#[trigger] s[t], false) by {
                assert(s[t] == tag[t - p5]);
                assert(!is_run_break(tag[t - p5], true));
            }
            assert(!is_run_break(tag[0], false));
            assert(is_run_break(s[p6], false));
            lemma_run_end_at(s, p5 + 1, p6, false);
            assert(s.subrange(p5, p6) =~= tag);
            assert(!is_void_tag(s.subrange(p5, p6)));
            assert(scan(s, p5, false, LastToken::CloseTag) == seq![TokView::Identifier(tag)] + scan(
                s,
                p6,
                false,
                LastToken::Ident,
            ));
            // the final `>`
            assert(scan(s, p6, false, LastToken::Ident) == seq![TokView::GreaterThan] + scan(
                s,
                pe,
                false,
                LastToken::Other,
            ));
            // assemble the element's tokens
            assert(seq![TokView::LessThan] + (seq![TokView::Identifier(tag)] + (attr_tokens(attrs)
                + (seq![TokView::GreaterThan] + (docs_tokens(children) + (seq![TokView::ClosingTag]
                + (seq![TokView::Identifier(tag)] + (seq![TokView::GreaterThan] + scan(
                s,
                pe,
                false,
                LastToken::Other,
            )))))))) =~= doc_tokens(d) + scan(s, pe, false, LastToken::Other));
        },
    }
}

/// Scanning a child list's source reads back exactly its tokens; the `<` of
/// the close tag that must follow keeps the last text run from running on.
proof fn lemma_scan_docs(ds: Seq<DocView>, s: Seq<char>, i: int)
    requires
        scan_ok_docs(ds),
        0 <= i,
        i + docs_text(ds).len() < s.len(),
        s.subrange(i, i + docs_text(ds).len()) == docs_text(ds),
        s[i + docs_text(ds).len()] == '<',
    ensures
        scan(s, i, false, LastToken::Other) == docs_tokens(ds) + scan(
            s,
            i + docs_text(ds).len(),
            false,
            LastToken::Other,
        ),
    decreases ds,
{
    let j = i + docs_text(ds).len();
    if ds.len() == 0 {
        assert(docs_tokens(ds) + scan(s, j, false, LastToken::Other) =~= scan(
            s,
            j,
            false,
            LastToken::Other,
        ));
    } else {
        let d0 = ds[0];
        let ds2 = ds.drop_first();
        assert(docs_text(ds) == doc_text(d0) + docs_text(ds2));
        assert(docs_tokens(ds) == doc_tokens(d0) + docs_tokens(ds2));
        let m = i + doc_text(d0).len();
        assert forall|u: int| i <= u < j implies #[trigger] s[u] == docs_text(ds)[u - i] by {
            assert(s.subrange(i, j)[u - i] == s[i + (u - i)]);
        }
        assert(s.subrange(i, m) =~= doc_text(d0));
        assert(s.subrange(m, j) =~= docs_text(ds2));
        match d0 {
            DocView::Void { .. } => {
                lemma_scan_velem(d0, s, i, LastToken::Other);
                lemma_scan_docs(ds2, s, m);
                assert(doc_tokens(d0) + (docs_tokens(ds2) + scan(s, j, false, LastToken::Other))
                    =~= docs_tokens(ds) + scan(s, j, false, LastToken::Other));
            },
            DocView::Element { .. } => {
                lemma_scan_elem(d0, s, i, LastToken::Other);
                lemma_scan_docs(ds2, s, m);
                assert(doc_tokens(d0) + (docs_tokens(ds2) + scan(s, j, false, LastToken::Other))
                    =~= docs_tokens(ds) + scan(s, j, false, LastToken::Other));
            },
            DocView::Text(t) => {
                let tn = t.len() as int;
                assert(scan_ok_doc(d0));
                assert(plain_text_run(t));
                assert(doc_text(d0) == t);
                assert forall|u: int| i <= u < m implies #[trigger] s[u] == t[u - i] by {
                    assert(docs_text(ds)[u - i] == t[u - i]);
                }
                // the run ends at the `<` that follows it: the next child's
                // own `<`, or the close tag's
                if ds2.len() > 0 {
                    assert(!(ds[1] is Text));
                    assert(ds2[0] == ds[1]);
                    assert(docs_text(ds2) == doc_text(ds2[0]) + docs_text(ds2.drop_first()));
                    match ds2[0] {
                        DocView::Element { .. } | DocView::Void { .. } => {
                            assert(doc_text(ds2[0])[0] == '<');
                        },
                        DocView::Text(_) => {},
                    }
                    assert(s[m] == '<');
                } else {
                    assert(m == j);
                }
                assert(s[m] == '<');
                assert(!is_space(t[0]));
                assert(!is_run_break(t[0], false));
                assert(s[i] == t[0]);
                assert forall|u: int| i + 1 <= u < m implies !is_run_break(
                    #[trigger] s[u],
                    false,
                ) by {
                    assert(s[u] == t[u - i]);
                }
                assert(is_run_break(s[m], false));
                lemma_run_end_at(s, i + 1, m, false);
                assert(s.subrange(i, m) =~= t);
                assert(scan(s, i, false, LastToken::Other) == seq![TokView::Text(t)] + scan(
                    s,
                    m,
                    false,
                    LastToken::Other,
                ));
                lemma_scan_docs(ds2, s, m);
                assert(seq![TokView::Text(t)] + (docs_tokens(ds2) + scan(
                    s,
                    j,
                    false,
                    LastToken::Other,
                )) =~= docs_tokens(ds) + scan(s, j, false, LastToken::Other));
            },
        }
    }
}

/// The scanner reads a document source back token for token, with the
/// end-of-input marker after the document's own tokens.
pub proof fn lemma_tokenize_doc(d: DocView)
    requires
        !(d is Text),
        scan_ok_doc(d),
    ensures
        spec_tokenize(doc_text(d)) == doc_tokens(d) + seq![TokView::EOF],
{
    let s = doc_text(d);
    assert(s.subrange(0, s.len() as int) =~= s);
    if d is Element {
        lemma_scan_elem(d, s, 0, LastToken::Start);
    } else {
        lemma_scan_velem(d, s, 0, LastToken::Start);
    }
    assert(scan(s, s.len() as int, false, LastToken::Other) == seq![TokView::EOF]);
}

/// The round trip: scanning a well-formed document source and building the
/// resulting tokens yields exactly the document's tree — tag names, text
/// content and nesting order preserved — with only the end-of-input marker
/// left over.
pub proof fn lemma_roundtrip_doc(d: DocView)
    requires
        !(d is Text),
        scan_ok_doc(d),
    ensures
        spec_build(spec_tokenize(doc_text(d))) == Some((doc_node(d), seq![TokView::EOF])),
{
    lemma_tokenize_doc(d);
    lemma_scan_ok_wf(d);
    lemma_build_preserves_doc(d, seq![TokView::EOF]);
}

} // verus!
