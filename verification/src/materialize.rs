//! The materializers: read-only algorithms over a frozen arena that
//! produce the two output representations, a flat id-indexed form and a
//! nested recursive form.
//!
//! Attribute encoding is configurable: either the ordered attribute pairs
//! are kept as they are, or they are folded into an associative mapping in
//! which a later entry with an equal name overwrites an earlier one (an
//! output-encoding choice distinct from the sink's first-write-wins merge).

use vstd::prelude::*;

use crate::common::Attribute;
use crate::flat_dom::FlatSink;
use crate::flat_dom::NodeData;
use crate::flat_dom::NodeHandle;

verus! {

/// One encoded attribute: the local part of its name, and its value.
pub struct FlatAttr {
    pub name: String,
    pub value: String,
}

/// The pair of character sequences an encoded attribute stands for.
pub open spec fn attr_pair_view(a: FlatAttr) -> (Seq<char>, Seq<char>) {
    (a.name@, a.value@)
}

/// The pairs a whole encoded attribute list stands for.
pub open spec fn attr_pairs_view(s: Seq<FlatAttr>) -> Seq<(Seq<char>, Seq<char>)> {
    s.map_values(|a: FlatAttr| attr_pair_view(a))
}

/// The (local name, value) pairs of an element's attributes, in order.
pub open spec fn source_pairs(attrs: Seq<Attribute>) -> Seq<(Seq<char>, Seq<char>)> {
    attrs.map_values(|a: Attribute| (a.name.local@, a.value@))
}

/// Whether the mapping already has an entry under `key`.
pub open spec fn assoc_has_key(m: Seq<(Seq<char>, Seq<char>)>, key: Seq<char>) -> bool {
    exists|j: int| 0 <= j < m.len() && (#[trigger] m[j]).0 == key
}

/// Overwrites the value stored under `key`.
pub open spec fn assoc_set(
    m: Seq<(Seq<char>, Seq<char>)>,
    key: Seq<char>,
    val: Seq<char>,
) -> Seq<(Seq<char>, Seq<char>)> {
    m.map_values(|p: (Seq<char>, Seq<char>)| if p.0 == key { (key, val) } else { p })
}

/// Folds ordered pairs into an associative mapping: entries keep the order
/// in which their key first occurred, and a later pair with an equal key
/// overwrites the stored value.
pub open spec fn assoc_of(ps: Seq<(Seq<char>, Seq<char>)>) -> Seq<(Seq<char>, Seq<char>)>
    decreases ps.len(),
{
    if ps.len() == 0 {
        Seq::empty()
    } else {
        let m = assoc_of(ps.drop_last());
        let p = ps.last();
        if assoc_has_key(m, p.0) {
            assoc_set(m, p.0, p.1)
        } else {
            m.push(p)
        }
    }
}

/// What an element's attributes look like in the chosen encoding.
pub open spec fn encoded_attrs(attrs: Seq<Attribute>, attributes_as_maps: bool) -> Seq<
    (Seq<char>, Seq<char>),
> {
    if attributes_as_maps {
        assoc_of(source_pairs(attrs))
    } else {
        source_pairs(attrs)
    }
}

/// Encodes an element's attributes for output.
fn encode_attrs(attrs: &Vec<Attribute>, attributes_as_maps: bool) -> (r: Vec<FlatAttr>)
    ensures
        attr_pairs_view(r@) == encoded_attrs(attrs@, attributes_as_maps),
{
    let mut r: Vec<FlatAttr> = Vec::new();
    if !attributes_as_maps {
        let mut i: usize = 0;
        while i < attrs.len()
            invariant
                0 <= i <= attrs@.len(),
                r@.len() == i,
                attr_pairs_view(r@) == source_pairs(attrs@.take(i as int)),
            decreases attrs@.len() - i,
        {
            let ghost r_before = r@;
            r.push(FlatAttr { name: attrs[i].name.local.clone(), value: attrs[i].value.clone() });
            i = i + 1;
            proof {
                let ps = source_pairs(attrs@.take(i as int));
                assert forall|k: int| 0 <= k < i implies attr_pairs_view(r@)[k] == ps[k] by {
                    assert(attr_pairs_view(r@)[k] == attr_pair_view(r@[k]));
                    assert(ps[k] == (attrs@.take(i as int)[k].name.local@, attrs@.take(
                        i as int,
                    )[k].value@));
                    if k < i - 1 {
                        assert(r@[k] == r_before[k]);
                        assert(attr_pairs_view(r_before)[k] == attr_pair_view(r_before[k]));
                        assert(attr_pairs_view(r_before)[k] == source_pairs(
                            attrs@.take(i - 1),
                        )[k]);
                        assert(source_pairs(attrs@.take(i - 1))[k] == (
                            attrs@.take(i - 1)[k].name.local@,
                            attrs@.take(i - 1)[k].value@,
                        ));
                    }
                }
                assert(attr_pairs_view(r@) =~= ps);
            }
        }
        proof {
            assert(attrs@.take(attrs@.len() as int) =~= attrs@);
        }
    } else {
        let mut i: usize = 0;
        while i < attrs.len()
            invariant
                0 <= i <= attrs@.len(),
                attr_pairs_view(r@) == assoc_of(source_pairs(attrs@.take(i as int))),
                forall|j1: int, j2: int|
                    0 <= j1 < j2 < r@.len() ==> (#[trigger] r@[j1]).name@ != (
                    #[trigger] r@[j2]).name@,
            decreases attrs@.len() - i,
        {
            let ghost m = attr_pairs_view(r@);
            proof {
                assert(m.len() == r@.len());
            }
            let key = &attrs[i].name.local;
            // scan for an existing entry under this key
            let mut j: usize = 0;
            let mut found = false;
            while j < r.len() && !found
                invariant
                    0 <= j <= r@.len(),
                    !found ==> forall|j0: int| 0 <= j0 < j ==> (#[trigger] r@[j0]).name@ != key@,
                    found ==> j < r@.len() && r@[j as int].name@ == key@,
                decreases r@.len() - j, if found { 0int } else { 1int },
            {
                if r[j].name == *key {
                    found = true;
                } else {
                    j = j + 1;
                }
            }
            if found {
                let ghost r_old = r@;
                let entry = vstd::std_specs::vec::vec_index_mut(&mut r, j);
                entry.value = attrs[i].value.clone();
                proof {
                    let val = attrs@[i as int].value@;
                    assert(m[j as int] == attr_pair_view(r_old[j as int]));
                    assert(m[j as int].0 == key@);
                    assert(assoc_has_key(m, key@));
                    assert forall|k: int|
                        0 <= k < m.len() implies attr_pairs_view(r@)[k] == assoc_set(
                        m,
                        key@,
                        val,
                    )[k] by {
                        assert(attr_pairs_view(r@)[k] == attr_pair_view(r@[k]));
                        assert(assoc_set(m, key@, val)[k] == (
                        if m[k].0 == key@ {
                            (key@, val)
                        } else {
                            m[k]
                        }));
                        if k != j {
                            assert(r@[k] == r_old[k]);
                            assert(m[k] == attr_pair_view(r_old[k]));
                            assert(r_old[k].name@ != key@);
                        }
                    }
                    assert(attr_pairs_view(r@) =~= assoc_set(m, key@, val));
                }
            } else {
                r.push(
                    FlatAttr { name: attrs[i].name.local.clone(), value: attrs[i].value.clone() },
                );
                proof {
                    if assoc_has_key(m, key@) {
                        let j0 = choose|j0: int| 0 <= j0 < m.len() && m[j0].0 == key@;
                        assert(r@[j0].name@ == key@);
                        assert(false);
                    }
                    assert(attr_pairs_view(r@) =~= m.push(
                        (attrs@[i as int].name.local@, attrs@[i as int].value@),
                    ));
                }
            }
            i = i + 1;
            proof {
                assert(source_pairs(attrs@.take(i as int)).drop_last() =~= source_pairs(
                    attrs@.take(i - 1),
                ));
                assert(source_pairs(attrs@.take(i as int)).last() == (
                    attrs@[i - 1].name.local@,
                    attrs@[i - 1].value@,
                ));
            }
        }
        proof {
            assert(attrs@.take(attrs@.len() as int) =~= attrs@);
        }
    }
    r
}

/// The per-variant payload of a flat node record.
pub enum FlatData {
    Document,
    DocType,
    Text { contents: String },
    Comment { contents: String },
    Element { name: String, attrs: Vec<FlatAttr> },
    ProcessingInstruction { target: String, contents: String },
}

/// One record of the flat representation: the node's own id, its parent id
/// (or none), its ordered child ids, and its variant payload.
pub struct FlatNode {
    pub id: NodeHandle,
    pub parent: Option<NodeHandle>,
    pub children: Vec<NodeHandle>,
    pub data: FlatData,
}

/// The flat representation: every node of the arena, indexed by id, plus
/// the root id.
pub struct FlatDoc {
    pub root: NodeHandle,
    pub nodes: Vec<FlatNode>,
}

/// The record payload that a node's payload must encode to.
pub open spec fn flat_data_matches(d: NodeData, f: FlatData, attributes_as_maps: bool) -> bool {
    match d {
        NodeData::Document => f is Document,
        NodeData::DocType { .. } => f is DocType,
        NodeData::Text { contents } => f matches FlatData::Text { contents: c } && c@
            == contents@,
        NodeData::Comment { contents } => f matches FlatData::Comment { contents: c } && c@
            == contents@,
        NodeData::Element { name, attrs, .. } => f matches FlatData::Element {
            name: n,
            attrs: a,
        } && n@ == name.local@ && attr_pairs_view(a@) == encoded_attrs(
            attrs@,
            attributes_as_maps,
        ),
        NodeData::ProcessingInstruction { target, contents } => f matches
            FlatData::ProcessingInstruction { target: t, contents: c } && t@ == target@ && c@
            == contents@,
    }
}

/// The record that node `i` of the arena must produce.
pub open spec fn flat_node_matches(
    sink: FlatSink,
    i: int,
    f: FlatNode,
    attributes_as_maps: bool,
) -> bool {
    &&& f.id == NodeHandle(i as usize)
    &&& f.parent == sink.nodes@[i].parent
    &&& f.children@ == sink.child_seq(i)
    &&& flat_data_matches(sink.nodes@[i].data, f.data, attributes_as_maps)
}

/// The whole flat representation mirrors the arena record for record.
pub open spec fn flat_doc_matches(sink: FlatSink, doc: FlatDoc, attributes_as_maps: bool) -> bool {
    &&& doc.root == sink.root
    &&& doc.nodes@.len() == sink.nodes@.len()
    &&& forall|i: int|
        0 <= i < sink.nodes@.len() ==> flat_node_matches(
            sink,
            i,
            #[trigger] doc.nodes@[i],
            attributes_as_maps,
        )
}

/// The flat materializer: walks the frozen arena once and produces the
/// id-indexed record of every node, comments and all.
pub fn flat_sink_to_flat_term(sink: &FlatSink, attributes_as_maps: bool) -> (r: FlatDoc)
    requires
        sink.wf(),
    ensures
        flat_doc_matches(*sink, r, attributes_as_maps),
{
    let mut records: Vec<FlatNode> = Vec::new();
    let n = sink.nodes.len();
    let mut i: usize = 0;
    while i < n
        invariant
            sink.wf(),
            n == sink.nodes@.len(),
            0 <= i <= n,
            records@.len() == i,
            forall|k: int|
                0 <= k < i ==> flat_node_matches(
                    *sink,
                    k,
                    #[trigger] records@[k],
                    attributes_as_maps,
                ),
        decreases n - i,
    {
        let node = &sink.nodes[i];
        let children: Vec<NodeHandle> = node.children.iter(&sink.pool);
        let data: FlatData = match &node.data {
            NodeData::Document => FlatData::Document,
            NodeData::DocType { .. } => FlatData::DocType,
            NodeData::Text { contents } => FlatData::Text { contents: contents.clone() },
            NodeData::Comment { contents } => FlatData::Comment { contents: contents.clone() },
            NodeData::Element { name, attrs, .. } => FlatData::Element {
                name: name.local.clone(),
                attrs: encode_attrs(attrs, attributes_as_maps),
            },
            NodeData::ProcessingInstruction { target, contents } => {
                FlatData::ProcessingInstruction {
                    target: target.clone(),
                    contents: contents.clone(),
                }
            },
        };
        records.push(FlatNode { id: NodeHandle(i), parent: node.parent, children, data });
        i = i + 1;
    }
    FlatDoc { root: sink.root(), nodes: records }
}


/// One value of the nested representation: an Element with its encoded
/// attributes and its children's values, a Text node's contents, or a
/// DocType record.  Comments (and processing instructions) are dropped
/// from the nested form, and the Document root is transparent: the whole
/// output is the sequence of the root's children's values.
pub enum RecTerm {
    Element { name: String, attrs: Vec<FlatAttr>, children: Vec<RecTerm> },
    Text { contents: String },
    DocType { name: String, public_id: String, system_id: String },
}

/// Node kinds that produce no value of their own in the nested form.
pub open spec fn skipped_in_nested(d: NodeData) -> bool {
    ||| d is Comment
    ||| d is ProcessingInstruction
    ||| d is Document
}

/// The nested term node `h` must produce, for node kinds that produce
/// one.
pub open spec fn rec_term_matches(
    sink: FlatSink,
    h: int,
    t: RecTerm,
    attributes_as_maps: bool,
) -> bool
    decreases t, 0int,
{
    match sink.nodes@[h].data {
        NodeData::Element { name, attrs, .. } => {
            &&& t is Element
            &&& t->Element_name@ == name.local@
            &&& attr_pairs_view(t->Element_attrs@) == encoded_attrs(attrs@, attributes_as_maps)
            &&& rec_terms_match(sink, sink.child_seq(h), t->Element_children@, attributes_as_maps)
        },
        NodeData::Text { contents } => t matches RecTerm::Text { contents: c } && c@
            == contents@,
        NodeData::DocType { name, public_id, system_id } => t matches RecTerm::DocType {
            name: n2,
            public_id: p2,
            system_id: s2,
        } && n2@ == name@ && p2@ == public_id@ && s2@ == system_id@,
        _ => false,
    }
}

/// The sequence of nested terms a sequence of sibling nodes produces, in
/// depth-first left-to-right order: each term-producing node contributes
/// its term, skipped kinds contribute nothing.
pub open spec fn rec_terms_match(
    sink: FlatSink,
    hs: Seq<NodeHandle>,
    ts: Seq<RecTerm>,
    attributes_as_maps: bool,
) -> bool
    decreases ts, hs.len(),
{
    if hs.len() == 0 {
        ts.len() == 0
    } else {
        let h = hs[0];
        if skipped_in_nested(sink.nodes@[h.0 as int].data) {
            rec_terms_match(sink, hs.drop_first(), ts, attributes_as_maps)
        } else {
            &&& ts.len() > 0
            &&& rec_term_matches(sink, h.0 as int, ts[0], attributes_as_maps)
            &&& rec_terms_match(sink, hs.drop_first(), ts.drop_first(), attributes_as_maps)
        }
    }
}

/// A matched run of siblings stays matched when a term-producing node and
/// its term are appended to both sides.
proof fn lemma_rec_terms_push_term(
    sink: FlatSink,
    hs: Seq<NodeHandle>,
    ts: Seq<RecTerm>,
    h: NodeHandle,
    t: RecTerm,
    attributes_as_maps: bool,
)
    requires
        rec_terms_match(sink, hs, ts, attributes_as_maps),
        !skipped_in_nested(sink.nodes@[h.0 as int].data),
        rec_term_matches(sink, h.0 as int, t, attributes_as_maps),
    ensures
        rec_terms_match(sink, hs.push(h), ts.push(t), attributes_as_maps),
    decreases hs.len(),
{
    if hs.len() == 0 {
        assert(ts.len() == 0);
        assert(hs.push(h)[0] == h);
        assert(ts.push(t)[0] == t);
        assert(hs.push(h).drop_first() =~= Seq::<NodeHandle>::empty());
        assert(ts.push(t).drop_first() =~= Seq::<RecTerm>::empty());
        assert(rec_terms_match(
            sink,
            Seq::<NodeHandle>::empty(),
            Seq::<RecTerm>::empty(),
            attributes_as_maps,
        ));
    } else {
        assert(hs.push(h)[0] == hs[0]);
        assert(hs.push(h).drop_first() =~= hs.drop_first().push(h));
        if skipped_in_nested(sink.nodes@[hs[0].0 as int].data) {
            lemma_rec_terms_push_term(sink, hs.drop_first(), ts, h, t, attributes_as_maps);
        } else {
            assert(ts.push(t)[0] == ts[0]);
            assert(ts.push(t).drop_first() =~= ts.drop_first().push(t));
            lemma_rec_terms_push_term(
                sink,
                hs.drop_first(),
                ts.drop_first(),
                h,
                t,
                attributes_as_maps,
            );
        }
    }
}

/// A matched run of siblings stays matched when a skipped node is
/// appended to the node side alone.
proof fn lemma_rec_terms_push_skipped(
    sink: FlatSink,
    hs: Seq<NodeHandle>,
    ts: Seq<RecTerm>,
    h: NodeHandle,
    attributes_as_maps: bool,
)
    requires
        rec_terms_match(sink, hs, ts, attributes_as_maps),
        skipped_in_nested(sink.nodes@[h.0 as int].data),
    ensures
        rec_terms_match(sink, hs.push(h), ts, attributes_as_maps),
    decreases hs.len(),
{
    if hs.len() == 0 {
        assert(hs.push(h)[0] == h);
        assert(hs.push(h).drop_first() =~= Seq::<NodeHandle>::empty());
        assert(rec_terms_match(sink, Seq::<NodeHandle>::empty(), ts, attributes_as_maps));
    } else {
        assert(hs.push(h)[0] == hs[0]);
        assert(hs.push(h).drop_first() =~= hs.drop_first().push(h));
        if skipped_in_nested(sink.nodes@[hs[0].0 as int].data) {
            lemma_rec_terms_push_skipped(sink, hs.drop_first(), ts, h, attributes_as_maps);
        } else {
            lemma_rec_terms_push_skipped(
                sink,
                hs.drop_first(),
                ts.drop_first(),
                h,
                attributes_as_maps,
            );
        }
    }
}


/// One frame of the explicit traversal stack: the node being walked, the
/// index of its next unvisited child, and where in the output stack the
/// terms of its finished children begin.
struct RecState {
    node: NodeHandle,
    child_n: usize,
    child_base: usize,
}

/// Control-shape invariant of the traversal stack: it is the path from the
/// Document root to the node currently being walked, each frame one child
/// step below the one before it.
spec fn stack_frames_ok(sink: FlatSink, stack: Seq<RecState>) -> bool {
    &&& stack.len() >= 1
    &&& stack[0].node == NodeHandle(0)
    &&& stack[0].child_base == 0
    &&& forall|q: int|
        0 <= q < stack.len() ==> (#[trigger] stack[q]).node.0 < sink.nodes@.len()
    &&& forall|q: int|
        0 <= q < stack.len() ==> (#[trigger] stack[q]).child_n <= sink.child_seq(
            stack[q].node.0 as int,
        ).len()
    &&& forall|q: int|
        0 <= q < stack.len() ==> ((sink.nodes@[(#[trigger] stack[q]).node.0 as int].data
            is Document) <==> q == 0)
    &&& forall|q1: int, q2: int|
        0 <= q1 < q2 < stack.len() ==> (#[trigger] stack[q1]).node != (
        #[trigger] stack[q2]).node
    &&& forall|q: int|
        0 <= q < stack.len() - 1 ==> {
            let fr = #[trigger] stack[q];
            &&& fr.child_n >= 1
            &&& fr.child_n - 1 < sink.child_seq(fr.node.0 as int).len()
            &&& sink.child_seq(fr.node.0 as int)[fr.child_n - 1] == stack[q + 1].node
        }
}

/// The claim a visited node holds: its parent was visited first, and every
/// stack frame standing on the parent has already scanned past it.  With
/// each node in at most one child list once, this means a node is pushed
/// at most once, which bounds the traversal.
spec fn visited_edge_ok(
    sink: FlatSink,
    stack: Seq<RecState>,
    visited: Set<int>,
    c: int,
) -> bool {
    &&& sink.nodes@[c].parent is Some
    &&& visited.contains((sink.nodes@[c].parent->0).0 as int)
    &&& forall|q: int, k: int|
        #![trigger stack[q], sink.child_seq((sink.nodes@[c].parent->0).0 as int)[k]]
        0 <= q < stack.len() && stack[q].node == sink.nodes@[c].parent->0 && 0 <= k
            < sink.child_seq((sink.nodes@[c].parent->0).0 as int).len() && sink.child_seq(
            (sink.nodes@[c].parent->0).0 as int,
        )[k] == NodeHandle(c as usize) ==> k < stack[q].child_n
}

/// Bookkeeping for termination: the set of nodes ever pushed.
spec fn visited_ok(sink: FlatSink, stack: Seq<RecState>, visited: Set<int>) -> bool {
    &&& visited.finite()
    &&& visited.subset_of(vstd::set_lib::set_int_range(0, sink.nodes@.len() as int))
    &&& visited.contains(0)
    &&& forall|q: int|
        0 <= q < stack.len() ==> visited.contains((#[trigger] stack[q]).node.0 as int)
    &&& forall|c: int|
        #[trigger] visited.contains(c) && c != 0 ==> visited_edge_ok(sink, stack, visited, c)
}

/// Output invariant: each stack frame owns a segment of the output stack
/// holding, in order, the terms of its already finished children.
spec fn segments_ok(
    sink: FlatSink,
    stack: Seq<RecState>,
    out: Seq<RecTerm>,
    attributes_as_maps: bool,
) -> bool {
    &&& forall|q: int| 0 <= q < stack.len() ==> (#[trigger] stack[q]).child_base <= out.len()
    &&& forall|q1: int, q2: int|
        0 <= q1 <= q2 < stack.len() ==> (#[trigger] stack[q1]).child_base <= (
        #[trigger] stack[q2]).child_base
    &&& forall|q: int|
        0 <= q < stack.len() - 1 ==> {
            let fr = #[trigger] stack[q];
            rec_terms_match(
                sink,
                sink.child_seq(fr.node.0 as int).take(fr.child_n - 1),
                out.subrange(fr.child_base as int, stack[q + 1].child_base as int),
                attributes_as_maps,
            )
        }
    &&& (stack.len() >= 1 ==> rec_terms_match(
        sink,
        sink.child_seq(stack.last().node.0 as int).take(stack.last().child_n as int),
        out.subrange(stack.last().child_base as int, out.len() as int),
        attributes_as_maps,
    ))
}

/// Popping the finished top frame keeps the control and bookkeeping
/// invariants.
proof fn lemma_pop_control(sink: FlatSink, stack0: Seq<RecState>, visited: Set<int>)
    requires
        stack_frames_ok(sink, stack0),
        visited_ok(sink, stack0, visited),
        stack0.len() >= 2,
    ensures
        stack_frames_ok(sink, stack0.drop_last()),
        visited_ok(sink, stack0.drop_last(), visited),
{
    let s = stack0.drop_last();
    assert forall|c: int|
        #[trigger] visited.contains(c) && c != 0 implies visited_edge_ok(
        sink,
        s,
        visited,
        c,
    ) by {
        assert(visited_edge_ok(sink, stack0, visited, c));
        let p = sink.nodes@[c].parent->0;
        assert forall|q: int, k: int|
            #![trigger s[q], sink.child_seq((sink.nodes@[c].parent->0).0 as int)[k]]
            0 <= q < s.len() && s[q].node == p && 0 <= k < sink.child_seq(p.0 as int).len()
                && sink.child_seq(p.0 as int)[k] == NodeHandle(c as usize) implies k
                < s[q].child_n by {
            assert(stack0[q] == s[q]);
        }
    }
}

/// Finishing a term-producing top frame: its term is appended to the
/// parent frame's segment, everything above its own base is cut away.
proof fn lemma_finalize_segments_term(
    sink: FlatSink,
    stack0: Seq<RecState>,
    out0: Seq<RecTerm>,
    t: RecTerm,
    attributes_as_maps: bool,
)
    requires
        stack_frames_ok(sink, stack0),
        segments_ok(sink, stack0, out0, attributes_as_maps),
        stack0.len() >= 2,
        stack0.last().child_n == sink.child_seq(stack0.last().node.0 as int).len(),
        !skipped_in_nested(sink.nodes@[stack0.last().node.0 as int].data),
        rec_term_matches(sink, stack0.last().node.0 as int, t, attributes_as_maps),
    ensures
        segments_ok(
            sink,
            stack0.drop_last(),
            out0.take(stack0.last().child_base as int).push(t),
            attributes_as_maps,
        ),
{
    let s = stack0.drop_last();
    let top = stack0.last();
    let out = out0.take(top.child_base as int).push(t);
    let parent = s.last();
    let plist = sink.child_seq(parent.node.0 as int);
    assert(parent == stack0[stack0.len() - 2]);
    assert(parent.child_n >= 1);
    assert(plist[parent.child_n - 1] == top.node);
    // the parent's old segment is untouched by the cut
    assert(parent.child_base <= top.child_base);
    assert(out.subrange(parent.child_base as int, top.child_base as int) =~= out0.subrange(
        parent.child_base as int,
        top.child_base as int,
    ));
    lemma_rec_terms_push_term(
        sink,
        plist.take(parent.child_n - 1),
        out0.subrange(parent.child_base as int, top.child_base as int),
        top.node,
        t,
        attributes_as_maps,
    );
    assert(plist.take(parent.child_n as int) =~= plist.take(parent.child_n - 1).push(top.node));
    assert(out.subrange(parent.child_base as int, out.len() as int) =~= out0.subrange(
        parent.child_base as int,
        top.child_base as int,
    ).push(t));
    assert(rec_terms_match(
        sink,
        plist.take(parent.child_n as int),
        out.subrange(parent.child_base as int, out.len() as int),
        attributes_as_maps,
    ));
    assert forall|q: int|
        0 <= q < s.len() - 1 implies {
        let fr = #[trigger] s[q];
        rec_terms_match(
            sink,
            sink.child_seq(fr.node.0 as int).take(fr.child_n - 1),
            out.subrange(fr.child_base as int, s[q + 1].child_base as int),
            attributes_as_maps,
        )
    } by {
        assert(s[q] == stack0[q]);
        assert(s[q + 1] == stack0[q + 1]);
        assert(s[q + 1].child_base <= top.child_base);
        assert(out.subrange(s[q].child_base as int, s[q + 1].child_base as int) =~= out0.subrange(
            stack0[q].child_base as int,
            stack0[q + 1].child_base as int,
        ));
    }
}

/// Finishing a skipped top frame: nothing is emitted; its empty segment
/// simply closes.
proof fn lemma_finalize_segments_skip(
    sink: FlatSink,
    stack0: Seq<RecState>,
    out0: Seq<RecTerm>,
    attributes_as_maps: bool,
)
    requires
        stack_frames_ok(sink, stack0),
        segments_ok(sink, stack0, out0, attributes_as_maps),
        stack0.len() >= 2,
        stack0.last().child_n == sink.child_seq(stack0.last().node.0 as int).len(),
        sink.child_seq(stack0.last().node.0 as int).len() == 0,
        stack0.last().child_base == out0.len(),
        skipped_in_nested(sink.nodes@[stack0.last().node.0 as int].data),
    ensures
        segments_ok(sink, stack0.drop_last(), out0, attributes_as_maps),
{
    let s = stack0.drop_last();
    let top = stack0.last();
    let parent = s.last();
    let plist = sink.child_seq(parent.node.0 as int);
    assert(parent == stack0[stack0.len() - 2]);
    assert(parent.child_n >= 1);
    assert(plist[parent.child_n - 1] == top.node);
    lemma_rec_terms_push_skipped(
        sink,
        plist.take(parent.child_n - 1),
        out0.subrange(parent.child_base as int, top.child_base as int),
        top.node,
        attributes_as_maps,
    );
    assert(plist.take(parent.child_n as int) =~= plist.take(parent.child_n - 1).push(top.node));
    assert(out0.subrange(parent.child_base as int, out0.len() as int) == out0.subrange(
        parent.child_base as int,
        top.child_base as int,
    ));
    assert(rec_terms_match(
        sink,
        plist.take(parent.child_n as int),
        out0.subrange(parent.child_base as int, out0.len() as int),
        attributes_as_maps,
    ));
    assert forall|q: int|
        0 <= q < s.len() - 1 implies {
        let fr = #[trigger] s[q];
        rec_terms_match(
            sink,
            sink.child_seq(fr.node.0 as int).take(fr.child_n - 1),
            out0.subrange(fr.child_base as int, s[q + 1].child_base as int),
            attributes_as_maps,
        )
    } by {
        assert(s[q] == stack0[q]);
        assert(s[q + 1] == stack0[q + 1]);
    }
}


/// The nested materializer: walks the frozen arena depth-first with an
/// explicit work stack (never native recursion) and produces the sequence
/// of the Document root's children's nested values.
pub fn flat_sink_to_rec_term(sink: &FlatSink, attributes_as_maps: bool) -> (r: Vec<RecTerm>)
    requires
        sink.wf(),
    ensures
        rec_terms_match(*sink, sink.child_seq(0), r@, attributes_as_maps),
{
    let n = sink.nodes.len();
    let mut child_stack: Vec<RecTerm> = Vec::new();
    let mut stack: Vec<RecState> = Vec::new();
    stack.push(RecState { node: sink.root(), child_base: 0, child_n: 0 });
    let ghost mut visited: Set<int> = Set::empty().insert(0);
    proof {
        vstd::set_lib::lemma_int_range(0, n as int);
        assert(visited.subset_of(vstd::set_lib::set_int_range(0, n as int)));
        vstd::set_lib::lemma_len_subset(visited, vstd::set_lib::set_int_range(0, n as int));
        assert(sink.child_seq(0).take(0) =~= Seq::<NodeHandle>::empty());
        assert(child_stack@.subrange(0, 0) =~= Seq::<RecTerm>::empty());
        assert(rec_terms_match(
            *sink,
            Seq::<NodeHandle>::empty(),
            Seq::<RecTerm>::empty(),
            attributes_as_maps,
        ));
    }
    loop
        invariant
            sink.wf(),
            n == sink.nodes@.len(),
            stack_frames_ok(*sink, stack@),
            visited_ok(*sink, stack@, visited),
            segments_ok(*sink, stack@, child_stack@, attributes_as_maps),
            visited.len() <= n,
        decreases n - visited.len(), stack@.len(),
    {
        let ghost stack0 = stack@;
        let ghost out0 = child_stack@;
        let mut top = stack.pop().unwrap();
        let top_node = &sink.nodes[top.node.0];
        // the list length, as a machine word, bounds the child index
        let child_count = top_node.children.len(&sink.pool);
        proof {
            assert(child_count == sink.child_seq(top.node.0 as int).len());
        }
        let c_opt = top_node.children.get(top.child_n, &sink.pool);
        match c_opt {
            Some(ch) => {
                // descend into the next unvisited child
                proof {
                    let clist = sink.child_seq(top.node.0 as int);
                    assert(clist[top.child_n as int] == ch);
                    assert(sink.child_ok(top.node.0 as int, top.child_n as int));
                    // ch was never pushed before: its only in-edge is the
                    // one we are following now, not yet scanned past
                    if visited.contains(ch.0 as int) {
                        assert(sink.nodes@[ch.0 as int].parent == Some(top.node));
                        assert(visited_edge_ok(*sink, stack0, visited, ch.0 as int));
                        assert(stack0[stack0.len() - 1].node == sink.nodes@[ch.0
                            as int].parent->0);
                        assert(false);
                    }
                }
                let child = RecState { node: ch, child_base: child_stack.len(), child_n: 0 };
                top.child_n = top.child_n + 1;
                stack.push(top);
                stack.push(child);
                proof {
                    let ghost old_visited = visited;
                    visited = visited.insert(ch.0 as int);
                    vstd::set_lib::lemma_int_range(0, n as int);
                    assert(visited.subset_of(vstd::set_lib::set_int_range(0, n as int)));
                    vstd::set_lib::lemma_len_subset(
                        visited,
                        vstd::set_lib::set_int_range(0, n as int),
                    );
                    let s = stack@;
                    let clist = sink.child_seq(top.node.0 as int);
                    assert(s =~= stack0.drop_last().push(top).push(child));
                    assert(s.len() == stack0.len() + 1);
                    assert forall|q: int| 0 <= q < s.len() - 2 implies s[q] == stack0[q] by {}
                    assert(s[s.len() - 2] == top);
                    assert(s[s.len() - 1] == child);
                    assert(s[0].node == NodeHandle(0));
                    // the fresh frame's node differs from every older one
                    assert forall|q: int| 0 <= q < s.len() - 1 implies s[q].node != ch by {
                        assert(old_visited.contains((stack0[if q < s.len() - 2 {
                            q
                        } else {
                            stack0.len() - 1
                        }]).node.0 as int));
                    }
                    // bookkeeping: every claim still holds
                    assert forall|c: int|
                        #[trigger] visited.contains(c) && c != 0 implies visited_edge_ok(
                        *sink,
                        s,
                        visited,
                        c,
                    ) by {
                        let p = sink.nodes@[c].parent->0;
                        if c == ch.0 as int {
                            assert(sink.nodes@[c].parent == Some(top.node));
                            assert forall|q: int, k: int|
                                #![trigger s[q], sink.child_seq((sink.nodes@[c].parent->0).0 as int)[k]]
                                0 <= q < s.len() && s[q].node == p && 0 <= k < sink.child_seq(
                                    p.0 as int,
                                ).len() && sink.child_seq(p.0 as int)[k] == NodeHandle(c as usize)
                                implies k < s[q].child_n by {
                                assert(sink.child_seq(p.0 as int)[k] == clist[k]);
                                assert(clist[top.child_n - 1] == NodeHandle(c as usize));
                                assert(k == top.child_n - 1);
                                if q < s.len() - 2 {
                                    assert(stack0[q].node == top.node);
                                    assert(stack0[stack0.len() - 1].node == top.node);
                                    assert(false);
                                } else if q == s.len() - 1 {
                                    assert(s[q].node == ch);
                                    assert(old_visited.contains(top.node.0 as int));
                                    assert(false);
                                }
                            }
                        } else {
                            assert(old_visited.contains(c));
                            assert(visited_edge_ok(*sink, stack0, visited, c));
                            assert forall|q: int, k: int|
                                #![trigger s[q], sink.child_seq((sink.nodes@[c].parent->0).0 as int)[k]]
                                0 <= q < s.len() && s[q].node == p && 0 <= k < sink.child_seq(
                                    p.0 as int,
                                ).len() && sink.child_seq(p.0 as int)[k] == NodeHandle(c as usize)
                                implies k < s[q].child_n by {
                                if q == s.len() - 1 {
                                    assert(s[q].node == ch);
                                    assert(old_visited.contains(p.0 as int));
                                    assert(false);
                                } else if q == s.len() - 2 {
                                    assert(stack0[stack0.len() - 1].node == p);
                                    assert(stack0[stack0.len() - 1].child_n <= s[q].child_n);
                                } else {
                                    assert(stack0[q] == s[q]);
                                }
                            }
                        }
                    }
                    // segments: the parent keeps its segment, the child
                    // opens an empty one at the top of the output stack
                    assert(sink.child_seq(ch.0 as int).take(0) =~= Seq::<NodeHandle>::empty());
                    assert(child_stack@.subrange(
                        child.child_base as int,
                        child_stack@.len() as int,
                    ) =~= Seq::<RecTerm>::empty());
                    assert(rec_terms_match(
                        *sink,
                        Seq::<NodeHandle>::empty(),
                        Seq::<RecTerm>::empty(),
                        attributes_as_maps,
                    ));
                    assert(clist.take(top.child_n - 1) =~= sink.child_seq(
                        top.node.0 as int,
                    ).take(stack0.last().child_n as int));
                    assert forall|q: int|
                        0 <= q < s.len() - 1 implies {
                        let fr = #[trigger] s[q];
                        rec_terms_match(
                            *sink,
                            sink.child_seq(fr.node.0 as int).take(fr.child_n - 1),
                            child_stack@.subrange(
                                fr.child_base as int,
                                s[q + 1].child_base as int,
                            ),
                            attributes_as_maps,
                        )
                    } by {
                        if q < s.len() - 2 {
                            assert(s[q] == stack0[q]);
                            if q + 1 < s.len() - 2 {
                                assert(s[q + 1] == stack0[q + 1]);
                            } else {
                                assert(s[q + 1].child_base == stack0[q + 1].child_base);
                            }
                        } else {
                            assert(q == s.len() - 2);
                            assert(s[q + 1].child_base == child_stack@.len());
                        }
                    }
                }
            },
            None => {
                proof {
                    assert(top.child_n == sink.child_seq(top.node.0 as int).len());
                }
                match &top_node.data {
                    NodeData::Document => {
                        // only the bottom frame is the Document root: the
                        // whole walk is over and the output stack holds
                        // exactly the root's children's terms
                        proof {
                            assert(stack0.len() == 1);
                            assert(top.child_base == 0);
                            assert(top.node == NodeHandle(0));
                            assert(sink.child_seq(0).take(top.child_n as int) =~= sink.child_seq(
                                0,
                            ));
                            assert(child_stack@.subrange(0, child_stack@.len() as int)
                                =~= child_stack@);
                        }
                        return child_stack;
                    },
                    NodeData::DocType { name, public_id, system_id } => {
                        let term = RecTerm::DocType {
                            name: name.clone(),
                            public_id: public_id.clone(),
                            system_id: system_id.clone(),
                        };
                        proof {
                            assert(stack0.len() >= 2);
                            assert(sink.child_seq(top.node.0 as int).len() == 0);
                            assert(sink.child_seq(top.node.0 as int).take(0) =~= Seq::<
                                NodeHandle,
                            >::empty());
                            assert(out0.subrange(top.child_base as int, out0.len() as int).len()
                                == 0);
                            assert(top.child_base == out0.len());
                            assert(rec_term_matches(
                                *sink,
                                top.node.0 as int,
                                term,
                                attributes_as_maps,
                            ));
                            lemma_pop_control(*sink, stack0, visited);
                            lemma_finalize_segments_term(
                                *sink,
                                stack0,
                                out0,
                                term,
                                attributes_as_maps,
                            );
                            assert(out0.take(top.child_base as int) =~= out0);
                        }
                        child_stack.push(term);
                    },
                    NodeData::Text { contents } => {
                        let term = RecTerm::Text { contents: contents.clone() };
                        proof {
                            assert(stack0.len() >= 2);
                            assert(sink.child_seq(top.node.0 as int).len() == 0);
                            assert(sink.child_seq(top.node.0 as int).take(0) =~= Seq::<
                                NodeHandle,
                            >::empty());
                            assert(out0.subrange(top.child_base as int, out0.len() as int).len()
                                == 0);
                            assert(top.child_base == out0.len());
                            assert(rec_term_matches(
                                *sink,
                                top.node.0 as int,
                                term,
                                attributes_as_maps,
                            ));
                            lemma_pop_control(*sink, stack0, visited);
                            lemma_finalize_segments_term(
                                *sink,
                                stack0,
                                out0,
                                term,
                                attributes_as_maps,
                            );
                            assert(out0.take(top.child_base as int) =~= out0);
                        }
                        child_stack.push(term);
                    },
                    NodeData::Element { name, attrs, .. } => {
                        let attrs_enc = encode_attrs(attrs, attributes_as_maps);
                        let seg = child_stack.split_off(top.child_base);
                        let term = RecTerm::Element {
                            name: name.local.clone(),
                            attrs: attrs_enc,
                            children: seg,
                        };
                        proof {
                            assert(stack0.len() >= 2);
                            assert(sink.child_seq(top.node.0 as int).take(top.child_n as int)
                                =~= sink.child_seq(top.node.0 as int));
                            assert(rec_term_matches(
                                *sink,
                                top.node.0 as int,
                                term,
                                attributes_as_maps,
                            ));
                            lemma_pop_control(*sink, stack0, visited);
                            lemma_finalize_segments_term(
                                *sink,
                                stack0,
                                out0,
                                term,
                                attributes_as_maps,
                            );
                        }
                        child_stack.push(term);
                    },
                    NodeData::Comment { .. } => {
                        proof {
                            assert(stack0.len() >= 2);
                            assert(sink.child_seq(top.node.0 as int).len() == 0);
                            assert(sink.child_seq(top.node.0 as int).take(0) =~= Seq::<
                                NodeHandle,
                            >::empty());
                            assert(out0.subrange(top.child_base as int, out0.len() as int).len()
                                == 0);
                            assert(top.child_base == out0.len());
                            lemma_pop_control(*sink, stack0, visited);
                            lemma_finalize_segments_skip(
                                *sink,
                                stack0,
                                out0,
                                attributes_as_maps,
                            );
                        }
                    },
                    NodeData::ProcessingInstruction { .. } => {
                        proof {
                            assert(stack0.len() >= 2);
                            assert(sink.child_seq(top.node.0 as int).len() == 0);
                            assert(sink.child_seq(top.node.0 as int).take(0) =~= Seq::<
                                NodeHandle,
                            >::empty());
                            assert(out0.subrange(top.child_base as int, out0.len() as int).len()
                                == 0);
                            assert(top.child_base == out0.len());
                            lemma_pop_control(*sink, stack0, visited);
                            lemma_finalize_segments_skip(
                                *sink,
                                stack0,
                                out0,
                                attributes_as_maps,
                            );
                        }
                    },
                }
            },
        }
    }
}

} // verus!
