//! The laws the library states of itself, proved once and for all: handle
//! stability, parent/child consistency, and the equivalence of the two
//! output representations.

use vstd::prelude::*;

use crate::flat_dom::FlatSink;
use crate::flat_dom::NodeHandle;
use crate::materialize::attr_pairs_view;
use crate::materialize::flat_doc_matches;
use crate::materialize::rec_term_matches;
use crate::materialize::rec_terms_match;
use crate::materialize::skipped_in_nested;
use crate::materialize::FlatData;
use crate::materialize::FlatDoc;
use crate::materialize::RecTerm;

verus! {

/// Handle stability: node ids equal arena positions, so they are assigned
/// in strictly increasing order starting at 0, and no id is ever reused
/// within one arena — a removed node keeps its slot and its id.
pub proof fn lemma_handle_stability(sink: FlatSink, i: int, j: int)
    requires
        sink.wf(),
        sink.nodes@.len() <= usize::MAX,
        0 <= i < j < sink.n_nodes(),
    ensures
        sink.nodes@[i].id == NodeHandle(i as usize),
        sink.nodes@[j].id == NodeHandle(j as usize),
        sink.nodes@[i].id.0 < sink.nodes@[j].id.0,
{
}

/// Parent/child consistency: whenever a node records a parent, that
/// parent's child list contains the node's handle at exactly one position;
/// and conversely every handle in a child list names a node that records
/// this parent.
pub proof fn lemma_parent_child_consistency(sink: FlatSink, c: int)
    requires
        sink.wf(),
        0 <= c < sink.n_nodes(),
        sink.nodes@[c].parent is Some,
    ensures
        (sink.nodes@[c].parent->0).0 < sink.n_nodes(),
        exists|k: int|
            {
                &&& 0 <= k < sink.child_seq((sink.nodes@[c].parent->0).0 as int).len()
                &&& #[trigger] sink.child_seq((sink.nodes@[c].parent->0).0 as int)[k]
                    == NodeHandle(c as usize)
                &&& forall|k2: int|
                    0 <= k2 < sink.child_seq((sink.nodes@[c].parent->0).0 as int).len()
                        && sink.child_seq((sink.nodes@[c].parent->0).0 as int)[k2] == NodeHandle(
                        c as usize,
                    ) ==> k2 == k
            },
{
    assert(sink.parent_ok(c));
    let p = (sink.nodes@[c].parent->0).0 as int;
    let k = choose|k: int|
        0 <= k < sink.child_seq(p).len() && sink.child_seq(p)[k] == NodeHandle(c as usize);
    assert forall|k2: int|
        0 <= k2 < sink.child_seq(p).len() && sink.child_seq(p)[k2] == NodeHandle(c as usize)
        implies k2 == k by {
        assert(sink.child_seq(p)[k2] == sink.child_seq(p)[k]);
    }
    assert({
        let p2 = (sink.nodes@[c].parent->0).0 as int;
        &&& 0 <= k < sink.child_seq(p2).len()
        &&& sink.child_seq(p2)[k] == NodeHandle(c as usize)
        &&& forall|k2: int|
            0 <= k2 < sink.child_seq(p2).len() && sink.child_seq(p2)[k2] == NodeHandle(
                c as usize,
            ) ==> k2 == k
    });
}

/// The converse direction of parent/child consistency: every handle in a
/// node's child list names a valid node whose recorded parent is that
/// node.
pub proof fn lemma_child_list_backlinks(sink: FlatSink, i: int, k: int)
    requires
        sink.wf(),
        0 <= i < sink.n_nodes(),
        0 <= k < sink.child_seq(i).len(),
    ensures
        sink.child_seq(i)[k].0 < sink.n_nodes(),
        sink.nodes@[sink.child_seq(i)[k].0 as int].parent == Some(NodeHandle(i as usize)),
{
    assert(sink.child_ok(i, k));
}

/// Flat-record kinds that the nested form drops.
pub open spec fn flat_skipped(f: FlatData) -> bool {
    ||| f is Comment
    ||| f is ProcessingInstruction
    ||| f is Document
}

/// A nested value and a flat record describe the same node: same variant,
/// same payload, and — for elements — children that correspond in order
/// when the flat walk follows the record's child ids.
pub open spec fn flat_rec_matches(doc: FlatDoc, h: int, t: RecTerm) -> bool
    decreases t, 0int,
{
    match doc.nodes@[h].data {
        FlatData::Element { name, attrs } => {
            &&& t is Element
            &&& t->Element_name@ == name@
            &&& attr_pairs_view(t->Element_attrs@) == attr_pairs_view(attrs@)
            &&& flat_rec_terms_match(doc, doc.nodes@[h].children@, t->Element_children@)
        },
        FlatData::Text { contents } => t matches RecTerm::Text { contents: c } && c@
            == contents@,
        FlatData::DocType => t is DocType,
        _ => false,
    }
}

/// Walking flat records by child ids yields the nested values in order;
/// comment, processing-instruction and document records yield none.
pub open spec fn flat_rec_terms_match(doc: FlatDoc, hs: Seq<NodeHandle>, ts: Seq<RecTerm>) -> bool
    decreases ts, hs.len(),
{
    if hs.len() == 0 {
        ts.len() == 0
    } else {
        let h = hs[0];
        if flat_skipped(doc.nodes@[h.0 as int].data) {
            flat_rec_terms_match(doc, hs.drop_first(), ts)
        } else {
            &&& ts.len() > 0
            &&& flat_rec_matches(doc, h.0 as int, ts[0])
            &&& flat_rec_terms_match(doc, hs.drop_first(), ts.drop_first())
        }
    }
}

/// One node's nested value matches its flat record.
proof fn lemma_term_equiv(
    sink: FlatSink,
    doc: FlatDoc,
    h: int,
    t: RecTerm,
    attributes_as_maps: bool,
)
    requires
        sink.wf(),
        flat_doc_matches(sink, doc, attributes_as_maps),
        0 <= h < sink.n_nodes(),
        rec_term_matches(sink, h, t, attributes_as_maps),
    ensures
        flat_rec_matches(doc, h, t),
    decreases t, 0int,
{
    match sink.nodes@[h].data {
        crate::flat_dom::NodeData::Element { .. } => {
            assert forall|k: int|
                0 <= k < sink.child_seq(h).len() implies (#[trigger] sink.child_seq(h)[k]).0
                < sink.n_nodes() by {
                assert(sink.child_ok(h, k));
            }
            lemma_terms_equiv(
                sink,
                doc,
                sink.child_seq(h),
                t->Element_children@,
                attributes_as_maps,
            );
        },
        _ => {},
    }
}

/// A run of siblings' nested values matches the flat walk over the same
/// handles.
proof fn lemma_terms_equiv(
    sink: FlatSink,
    doc: FlatDoc,
    hs: Seq<NodeHandle>,
    ts: Seq<RecTerm>,
    attributes_as_maps: bool,
)
    requires
        sink.wf(),
        flat_doc_matches(sink, doc, attributes_as_maps),
        forall|k: int| 0 <= k < hs.len() ==> (#[trigger] hs[k]).0 < sink.n_nodes(),
        rec_terms_match(sink, hs, ts, attributes_as_maps),
    ensures
        flat_rec_terms_match(doc, hs, ts),
    decreases ts, hs.len(),
{
    if hs.len() == 0 {
    } else {
        let h = hs[0];
        assert(skipped_in_nested(sink.nodes@[h.0 as int].data) <==> flat_skipped(
            doc.nodes@[h.0 as int].data,
        ));
        if skipped_in_nested(sink.nodes@[h.0 as int].data) {
            lemma_terms_equiv(sink, doc, hs.drop_first(), ts, attributes_as_maps);
        } else {
            lemma_term_equiv(sink, doc, h.0 as int, ts[0], attributes_as_maps);
            lemma_terms_equiv(
                sink,
                doc,
                hs.drop_first(),
                ts.drop_first(),
                attributes_as_maps,
            );
        }
    }
}

/// Flat/nested equivalence: for one frozen arena, walking the nested
/// output depth-first and walking the flat output by following child ids
/// from the root record visit structurally equivalent nodes in the same
/// order — except that comment and processing-instruction nodes are
/// present only in the flat form, which preserves every node.
pub proof fn lemma_flat_rec_equivalence(
    sink: FlatSink,
    doc: FlatDoc,
    ts: Seq<RecTerm>,
    attributes_as_maps: bool,
)
    requires
        sink.wf(),
        flat_doc_matches(sink, doc, attributes_as_maps),
        rec_terms_match(sink, sink.child_seq(0), ts, attributes_as_maps),
    ensures
        flat_rec_terms_match(doc, doc.nodes@[0].children@, ts),
{
    assert forall|k: int|
        0 <= k < sink.child_seq(0).len() implies (#[trigger] sink.child_seq(0)[k]).0
        < sink.n_nodes() by {
        assert(sink.child_ok(0, k));
    }
    lemma_terms_equiv(sink, doc, sink.child_seq(0), ts, attributes_as_maps);
    assert(doc.nodes@[0].children@ == sink.child_seq(0));
}

} // verus!
