//! The node arena and the tree-construction sink.
//!
//! Nodes live in one append-only arena and are addressed by stable integer
//! handles; handle 0 is the Document root, created exactly once when the
//! sink is made.  The sink answers the tree-building instruction stream of
//! an external parser, composing the arena with the hybrid child lists of
//! [`crate::pool`].

use vstd::prelude::*;

use crate::common::attrs_contain_name;
use crate::common::clone_attribute;
use crate::common::merge_attrs;
use crate::common::Attribute;
use crate::common::ElementFlags;
use crate::common::QualName;
use crate::pool::PoolOrVec;
use crate::Html5everExError;

verus! {

/// A stable opaque integer naming a node within one arena.
#[derive(Clone, Copy, Debug, PartialEq, Eq, Structural)]
pub struct NodeHandle(pub usize);

/// Either an existing node or raw text for which the sink creates a Text
/// node, as handed over by an append instruction.
pub enum NodeOrText {
    AppendNode(NodeHandle),
    AppendText(String),
}

/// The payload of one node.
pub enum NodeData {
    Document,
    DocType { name: String, public_id: String, system_id: String },
    Text { contents: String },
    Comment { contents: String },
    Element {
        name: QualName,
        attrs: Vec<Attribute>,
        template_contents: Option<NodeHandle>,
        mathml_annotation_xml_integration_point: bool,
    },
    ProcessingInstruction { target: String, contents: String },
}

/// One arena slot: id, back-references to parent and children, payload.
///
/// The arena is the sole owner of every node; `parent` and `children` are
/// lookups, never ownership.
pub struct Node {
    pub id: NodeHandle,
    pub children: PoolOrVec<NodeHandle>,
    pub parent: Option<NodeHandle>,
    pub data: NodeData,
}

/// The tree-construction sink: the arena of nodes plus the shared pool
/// backing the child lists.
pub struct FlatSink {
    pub root: NodeHandle,
    pub nodes: Vec<Node>,
    pub pool: Vec<NodeHandle>,
}

impl FlatSink {
    /// The number of nodes allocated so far.
    pub open spec fn n_nodes(self) -> int {
        self.nodes@.len() as int
    }

    /// A handle previously returned by this arena.
    pub open spec fn valid_handle(self, h: NodeHandle) -> bool {
        h.0 < self.nodes@.len()
    }

    /// The ordered child handles of node `i`.
    pub open spec fn child_seq(self, i: int) -> Seq<NodeHandle> {
        self.nodes@[i].children.view_in(self.pool@)
    }

    /// The `k`-th child of node `i` is a valid non-Document node whose
    /// recorded parent is `i`.
    pub open spec fn child_ok(self, i: int, k: int) -> bool {
        let c = self.child_seq(i)[k];
        &&& c.0 < self.nodes@.len()
        &&& !(self.nodes@[c.0 as int].data is Document)
        &&& self.nodes@[c.0 as int].parent == Some(NodeHandle(i as usize))
    }

    /// A node's recorded parent, if any, is valid and lists the node among
    /// its children.
    pub open spec fn parent_ok(self, c: int) -> bool {
        match self.nodes@[c].parent {
            Some(p) => {
                &&& p.0 < self.nodes@.len()
                &&& self.child_seq(p.0 as int).contains(NodeHandle(c as usize))
            },
            None => true,
        }
    }

    /// A template element's recorded contents handle names a Document node.
    pub open spec fn template_ok(self, i: int) -> bool {
        match self.nodes@[i].data {
            NodeData::Element { template_contents: Some(t), .. } => {
                &&& t.0 < self.nodes@.len()
                &&& self.nodes@[t.0 as int].data is Document
            },
            _ => true,
        }
    }

    /// Well-formedness of the whole arena.
    ///
    /// Handle 0 is the Document root and never changes variant; ids equal
    /// arena positions; every child list lies within the pool; child lists
    /// and parent back-references agree both ways; no handle occurs twice
    /// in a child list; only Element and Document nodes carry children.
    pub open spec fn wf(self) -> bool {
        &&& self.nodes@.len() >= 1
        &&& self.root == NodeHandle(0)
        &&& self.nodes@[0].data is Document
        &&& self.nodes@[0].parent is None
        &&& forall|i: int|
            0 <= i < self.n_nodes() ==> (#[trigger] self.nodes@[i]).id == NodeHandle(i as usize)
        &&& forall|i: int|
            0 <= i < self.n_nodes() ==> (#[trigger] self.nodes@[i]).children.wf(self.pool@)
        &&& forall|i: int, k: int|
            #![trigger self.child_seq(i)[k]]
            0 <= i < self.n_nodes() && 0 <= k < self.child_seq(i).len() ==> self.child_ok(i, k)
        &&& forall|i: int, k1: int, k2: int|
            #![trigger self.child_seq(i)[k1], self.child_seq(i)[k2]]
            0 <= i < self.n_nodes() && 0 <= k1 < self.child_seq(i).len() && 0 <= k2
                < self.child_seq(i).len() && self.child_seq(i)[k1] == self.child_seq(i)[k2]
                ==> k1 == k2
        &&& forall|c: int| 0 <= c < self.n_nodes() ==> #[trigger] self.parent_ok(c)
        &&& forall|c: int|
            0 <= c < self.n_nodes() ==> ((#[trigger] self.nodes@[c]).parent matches Some(p)
                ==> p.0 != c)
        &&& forall|i: int|
            0 <= i < self.n_nodes() && (#[trigger] self.child_seq(i)).len() > 0 ==> (
            self.nodes@[i].data is Element || self.nodes@[i].data is Document)
        &&& forall|i: int| 0 <= i < self.n_nodes() ==> #[trigger] self.template_ok(i)
    }

    /// A fresh sink holding only the Document root at handle 0.
    pub fn new() -> (r: FlatSink)
        ensures
            r.wf(),
            r.root == NodeHandle(0),
            r.nodes@.len() == 1,
            r.nodes@[0].parent is None,
            r.nodes@[0].data is Document,
            r.child_seq(0) == Seq::<NodeHandle>::empty(),
            r.pool@.len() == 0,
    {
        let pool: Vec<NodeHandle> = Vec::with_capacity(2000);
        let mut nodes: Vec<Node> = Vec::with_capacity(200);
        nodes.push(Node {
            id: NodeHandle(0),
            parent: None,
            children: PoolOrVec::new(&pool),
            data: NodeData::Document,
        });
        let r = FlatSink { root: NodeHandle(0), nodes, pool };
        proof {
            assert(r.child_seq(0) =~= Seq::<NodeHandle>::empty());
        }
        r
    }

    /// The handle of the Document root.
    pub fn root(&self) -> (r: NodeHandle)
        ensures
            r == self.root,
    {
        self.root
    }

    /// The root, as the instruction stream asks for it.
    pub fn get_document(&self) -> (r: NodeHandle)
        ensures
            r == (NodeHandle(0)),
    {
        NodeHandle(0)
    }

    /// Handle-to-node lookup; defined only for handles this arena returned.
    pub fn node(&self, handle: NodeHandle) -> (r: &Node)
        requires
            self.valid_handle(handle),
        ensures
            *r == self.nodes@[handle.0 as int],
    {
        &self.nodes[handle.0]
    }

    /// Mutable handle-to-node lookup; defined only for handles this arena
    /// returned.  What the caller writes through the reference is its own
    /// responsibility: the construction operations demand a well-formed
    /// arena and say what they keep of it.
    pub fn node_mut(&mut self, handle: NodeHandle) -> (r: &mut Node)
        requires
            old(self).valid_handle(handle),
        ensures
            *r == old(self).nodes@[handle.0 as int],
            final(self).nodes@ == old(self).nodes@.update(handle.0 as int, *final(r)),
            final(self).root == old(self).root,
            final(self).pool == old(self).pool,
    {
        vstd::std_specs::vec::vec_index_mut(&mut self.nodes, handle.0)
    }

    /// Allocates a fresh node with no parent and no children and returns
    /// its handle; handles are assigned in strictly increasing order and
    /// never reused.
    pub fn make_node(&mut self, data: NodeData) -> (h: NodeHandle)
        requires
            old(self).wf(),
            data matches NodeData::Element { template_contents: Some(t), .. } ==> t.0 < old(
                self,
            ).nodes@.len() && old(self).nodes@[t.0 as int].data is Document,
        ensures
            final(self).wf(),
            h.0 == old(self).nodes@.len(),
            final(self).nodes@.len() == old(self).nodes@.len() + 1,
            forall|i: int|
                0 <= i < old(self).n_nodes() ==> final(self).nodes@[i] == old(self).nodes@[i],
            forall|i: int|
                0 <= i < old(self).n_nodes() ==> final(self).child_seq(i) == old(self).child_seq(
                    i,
                ),
            final(self).nodes@[h.0 as int].id == h,
            final(self).nodes@[h.0 as int].parent is None,
            final(self).nodes@[h.0 as int].data == data,
            final(self).child_seq(h.0 as int) == Seq::<NodeHandle>::empty(),
            final(self).pool == old(self).pool,
            final(self).root == old(self).root,
    {
        let id = self.nodes.len();
        let node = Node {
            id: NodeHandle(id),
            parent: None,
            children: PoolOrVec::new(&self.pool),
            data,
        };
        self.nodes.push(node);
        proof {
            assert(self.child_seq(id as int) =~= Seq::<NodeHandle>::empty());
            assert forall|i: int|
                0 <= i < old(self).n_nodes() implies self.child_seq(i) == old(self).child_seq(
                i,
            ) by {
                assert(self.nodes@[i] == old(self).nodes@[i]);
            }
            assert forall|i: int, k: int|
                0 <= i < self.n_nodes() && 0 <= k < self.child_seq(i).len() implies self.child_ok(
                i,
                k,
            ) by {
                assert(old(self).child_ok(i, k));
            }
            assert forall|c: int| 0 <= c < self.n_nodes() implies self.parent_ok(c) by {
                if c < old(self).n_nodes() {
                    assert(old(self).parent_ok(c));
                }
            }
            assert forall|i: int| 0 <= i < self.n_nodes() implies self.template_ok(i) by {
                if i < old(self).n_nodes() {
                    assert(old(self).template_ok(i));
                    assert(self.nodes@[i] == old(self).nodes@[i]);
                } else {
                    assert(self.nodes@[i].data == data);
                }
            }
        }
        NodeHandle(id)
    }

    /// Structural handle equality.
    pub fn same_node(&self, x: &NodeHandle, y: &NodeHandle) -> (r: bool)
        ensures
            r == (x == y),
    {
        x.0 == y.0
    }

    /// The qualified name of an Element node; asking for the name of any
    /// other node is a programming error.
    pub fn elem_name(&self, target: &NodeHandle) -> (r: &QualName)
        requires
            self.valid_handle(*target),
            self.nodes@[target.0 as int].data is Element,
        ensures
            self.nodes@[target.0 as int].data matches NodeData::Element { name, .. } && *r
                == name,
    {
        let node = &self.nodes[target.0];
        match &node.data {
            NodeData::Element { name, .. } => name,
            _ => vstd::pervasive::unreached(),
        }
    }

    /// The nested-document handle recorded for a template element; calling
    /// this on a node that is not a template element is a programming
    /// error.
    pub fn get_template_contents(&self, target: &NodeHandle) -> (r: NodeHandle)
        requires
            self.valid_handle(*target),
            self.nodes@[target.0 as int].data matches NodeData::Element { template_contents, .. }
                && template_contents is Some,
        ensures
            self.nodes@[target.0 as int].data matches NodeData::Element { template_contents, .. }
                && Some(r) == template_contents,
            self.wf() ==> self.valid_handle(r) && self.nodes@[r.0 as int].data is Document,
    {
        proof {
            if self.wf() {
                assert(self.template_ok(target.0 as int));
            }
        }
        let node = &self.nodes[target.0];
        match &node.data {
            NodeData::Element { template_contents: Some(t), .. } => *t,
            _ => vstd::pervasive::unreached(),
        }
    }

    /// Script support is a declared non-goal of the host: marking a script
    /// as already started is a deliberately unsupported operation and fails
    /// the call.
    pub fn mark_script_already_started(&self, _elem: &NodeHandle) -> (r: Result<
        (),
        Html5everExError,
    >)
        ensures
            r == Err::<(), Html5everExError>(Html5everExError::UnsupportedOperation),
    {
        Err(Html5everExError::UnsupportedOperation)
    }

    /// A parse-error notification from the external tree builder is an
    /// informational event: the sink keeps building and never fails on it.
    pub fn parse_error(&self, _msg: &str) {
    }

    /// The quirks mode the external tree builder decided on; the sink
    /// records nothing for it.
    pub fn set_quirks_mode(&mut self, _mode: crate::common::QuirksMode)
        ensures
            *final(self) == *old(self),
    {
    }

    /// Creates an Element node; when the template flag is set, a nested
    /// Document node is allocated first and recorded as the element's
    /// template contents.
    pub fn create_element(&mut self, name: QualName, attrs: Vec<Attribute>, flags: ElementFlags)
        -> (h: NodeHandle)
        requires
            old(self).wf(),
        ensures
            final(self).wf(),
            final(self).root == old(self).root,
            final(self).pool == old(self).pool,
            forall|i: int|
                0 <= i < old(self).n_nodes() ==> final(self).nodes@[i] == old(self).nodes@[i],
            forall|i: int|
                0 <= i < old(self).n_nodes() ==> final(self).child_seq(i) == old(self).child_seq(
                    i,
                ),
            final(self).valid_handle(h),
            final(self).nodes@[h.0 as int].parent is None,
            final(self).child_seq(h.0 as int) == Seq::<NodeHandle>::empty(),
            !flags.template ==> {
                &&& h.0 == old(self).nodes@.len()
                &&& final(self).nodes@.len() == old(self).nodes@.len() + 1
                &&& final(self).nodes@[h.0 as int].data == (NodeData::Element {
                    name,
                    attrs,
                    template_contents: None,
                    mathml_annotation_xml_integration_point: flags.mathml_annotation_xml_integration_point,
                })
            },
            flags.template ==> {
                &&& h.0 == old(self).nodes@.len() + 1
                &&& final(self).nodes@.len() == old(self).nodes@.len() + 2
                &&& final(self).nodes@[h.0 as int].data == (NodeData::Element {
                    name,
                    attrs,
                    template_contents: Some(NodeHandle(old(self).nodes@.len() as usize)),
                    mathml_annotation_xml_integration_point: flags.mathml_annotation_xml_integration_point,
                })
                &&& final(self).nodes@[old(self).n_nodes()].data is Document
                &&& final(self).nodes@[old(self).n_nodes()].parent is None
                &&& final(self).child_seq(old(self).n_nodes()) == Seq::<NodeHandle>::empty()
            },
    {
        let template_contents: Option<NodeHandle> = if flags.template {
            Some(self.make_node(NodeData::Document))
        } else {
            None
        };
        self.make_node(NodeData::Element {
            name,
            attrs,
            template_contents,
            mathml_annotation_xml_integration_point: flags.mathml_annotation_xml_integration_point,
        })
    }

    /// Creates a Comment node holding the given text.
    pub fn create_comment(&mut self, text: String) -> (h: NodeHandle)
        requires
            old(self).wf(),
        ensures
            final(self).wf(),
            final(self).root == old(self).root,
            final(self).pool == old(self).pool,
            h.0 == old(self).nodes@.len(),
            final(self).nodes@.len() == old(self).nodes@.len() + 1,
            forall|i: int|
                0 <= i < old(self).n_nodes() ==> final(self).nodes@[i] == old(self).nodes@[i],
            forall|i: int|
                0 <= i < old(self).n_nodes() ==> final(self).child_seq(i) == old(self).child_seq(
                    i,
                ),
            final(self).nodes@[h.0 as int].data == (NodeData::Comment { contents: text }),
            final(self).nodes@[h.0 as int].parent is None,
            final(self).child_seq(h.0 as int) == Seq::<NodeHandle>::empty(),
    {
        self.make_node(NodeData::Comment { contents: text })
    }

    /// Creates a ProcessingInstruction node.
    pub fn create_pi(&mut self, target: String, data: String) -> (h: NodeHandle)
        requires
            old(self).wf(),
        ensures
            final(self).wf(),
            final(self).root == old(self).root,
            final(self).pool == old(self).pool,
            h.0 == old(self).nodes@.len(),
            final(self).nodes@.len() == old(self).nodes@.len() + 1,
            forall|i: int|
                0 <= i < old(self).n_nodes() ==> final(self).nodes@[i] == old(self).nodes@[i],
            forall|i: int|
                0 <= i < old(self).n_nodes() ==> final(self).child_seq(i) == old(self).child_seq(
                    i,
                ),
            final(self).nodes@[h.0 as int].data == (NodeData::ProcessingInstruction {
                target,
                contents: data,
            }),
            final(self).nodes@[h.0 as int].parent is None,
            final(self).child_seq(h.0 as int) == Seq::<NodeHandle>::empty(),
    {
        self.make_node(NodeData::ProcessingInstruction { target, contents: data })
    }

    /// Appends a node (or a fresh Text node for raw text) to the end of
    /// `parent_id`'s child list and records the parent back-reference.
    pub fn append(&mut self, parent_id: &NodeHandle, child: NodeOrText)
        requires
            old(self).wf(),
            old(self).valid_handle(*parent_id),
            old(self).nodes@[parent_id.0 as int].data is Element || old(self).nodes@[parent_id.0
                as int].data is Document,
            child matches NodeOrText::AppendNode(n) ==> {
                &&& old(self).valid_handle(n)
                &&& old(self).nodes@[n.0 as int].parent is None
                &&& n.0 != 0
                &&& n != *parent_id
                &&& !(old(self).nodes@[n.0 as int].data is Document)
            },
        ensures
            final(self).wf(),
            append_effect(*old(self), *final(self), *parent_id, child),
    {
        let handle = node_or_text_to_node(self, child);
        let ghost mid: FlatSink = *self;
        let parent_node = vstd::std_specs::vec::vec_index_mut(&mut self.nodes, parent_id.0);
        parent_node.children.push(handle, &mut self.pool);
        let child_node = vstd::std_specs::vec::vec_index_mut(&mut self.nodes, handle.0);
        child_node.parent = Some(*parent_id);
        proof {
            assert(mid.child_seq(parent_id.0 as int).insert(
                mid.child_seq(parent_id.0 as int).len() as int,
                handle,
            ) =~= mid.child_seq(parent_id.0 as int).push(handle));
            self.lemma_link_restores_wf(
                mid,
                *parent_id,
                handle,
                mid.child_seq(parent_id.0 as int).len() as int,
            );
        }
    }

    /// Creates a DocType node and appends it under the Document root.
    pub fn append_doctype_to_document(&mut self, name: String, public_id: String, system_id: String)
        requires
            old(self).wf(),
        ensures
            final(self).wf(),
            final(self).root == old(self).root,
            final(self).nodes@.len() == old(self).nodes@.len() + 1,
            final(self).nodes@[old(self).n_nodes()].data == (NodeData::DocType {
                name,
                public_id,
                system_id,
            }),
            final(self).nodes@[old(self).n_nodes()].parent == Some(NodeHandle(0)),
            final(self).child_seq(old(self).n_nodes()) == Seq::<NodeHandle>::empty(),
            final(self).child_seq(0) == old(self).child_seq(0).push(
                NodeHandle(old(self).nodes@.len() as usize),
            ),
            final(self).nodes@[0].data == old(self).nodes@[0].data,
            final(self).nodes@[0].parent == old(self).nodes@[0].parent,
            forall|i: int|
                0 < i < old(self).n_nodes() ==> (#[trigger] final(self).nodes@[i]).parent == old(
                    self,
                ).nodes@[i].parent && final(self).nodes@[i].data == old(self).nodes@[i].data
                    && final(self).child_seq(i) == old(self).child_seq(i),
    {
        let doctype = self.make_node(NodeData::DocType { name, public_id, system_id });
        let root = self.root;
        self.append(&root, NodeOrText::AppendNode(doctype));
    }

    /// Locates `target` within `parent`'s child list by linear scan.
    fn find_child_index(&self, parent: NodeHandle, target: NodeHandle) -> (k: usize)
        requires
            self.wf(),
            self.valid_handle(parent),
            self.child_seq(parent.0 as int).contains(target),
        ensures
            k < self.child_seq(parent.0 as int).len(),
            self.child_seq(parent.0 as int)[k as int] == target,
    {
        let n = self.nodes[parent.0].children.len(&self.pool);
        let mut k: usize = 0;
        loop
            invariant
                self.wf(),
                parent.0 < self.nodes@.len(),
                self.child_seq(parent.0 as int).contains(target),
                n == self.child_seq(parent.0 as int).len(),
                0 <= k <= self.child_seq(parent.0 as int).len(),
                forall|j: int|
                    0 <= j < k ==> #[trigger] self.child_seq(parent.0 as int)[j] != target,
            ensures
                k < self.child_seq(parent.0 as int).len(),
                self.child_seq(parent.0 as int)[k as int] == target,
            decreases self.child_seq(parent.0 as int).len() - k,
        {
            let c = self.nodes[parent.0].children.get(k, &self.pool);
            match c {
                Some(ch) => {
                    if ch.0 == target.0 {
                        break;
                    }
                    k = k + 1;
                },
                None => {
                    proof {
                        let j = choose|j: int|
                            0 <= j < self.child_seq(parent.0 as int).len() && self.child_seq(
                                parent.0 as int,
                            )[j] == target;
                        assert(self.child_seq(parent.0 as int)[j] != target);
                        assert(false);
                    }
                    break;
                },
            }
        }
        k
    }

    /// Inserts a node (or a fresh Text node) immediately before `sibling`
    /// in `sibling`'s parent's child list; the insertion forces that list
    /// to promote unless it happens to be a pool-tail append.
    pub fn append_before_sibling(&mut self, sibling: &NodeHandle, new_node: NodeOrText)
        requires
            old(self).wf(),
            old(self).valid_handle(*sibling),
            old(self).nodes@[sibling.0 as int].parent is Some,
            new_node matches NodeOrText::AppendNode(n) ==> {
                &&& old(self).valid_handle(n)
                &&& old(self).nodes@[n.0 as int].parent is None
                &&& n.0 != 0
                &&& !(old(self).nodes@[n.0 as int].data is Document)
                &&& Some(n) != old(self).nodes@[sibling.0 as int].parent
            },
        ensures
            final(self).wf(),
            append_before_effect(*old(self), *final(self), *sibling, new_node),
    {
        let new_node_handle = node_or_text_to_node(self, new_node);
        let ghost mid: FlatSink = *self;
        let parent = self.nodes[sibling.0].parent.unwrap();
        proof {
            assert(mid.parent_ok(sibling.0 as int));
        }
        let sibling_index = self.find_child_index(parent, *sibling);
        let parent_node = vstd::std_specs::vec::vec_index_mut(&mut self.nodes, parent.0);
        parent_node.children.insert(sibling_index, new_node_handle, &mut self.pool);
        let child_node = vstd::std_specs::vec::vec_index_mut(&mut self.nodes, new_node_handle.0);
        child_node.parent = Some(parent);
        proof {
            self.lemma_link_restores_wf(mid, parent, new_node_handle, sibling_index as int);
            assert(mid.child_seq(parent.0 as int)[sibling_index as int] == *sibling);
        }
    }

    /// Appends based on whether `element` is already in the tree: before
    /// `element` itself when it has a parent, else at the end of
    /// `prev_element`'s children (the foster-parenting fallback).
    pub fn append_based_on_parent_node(
        &mut self,
        element: &NodeHandle,
        prev_element: &NodeHandle,
        child: NodeOrText,
    )
        requires
            old(self).wf(),
            old(self).valid_handle(*element),
            old(self).valid_handle(*prev_element),
            old(self).nodes@[prev_element.0 as int].data is Element || old(self).nodes@[
                prev_element.0 as int].data is Document,
            child matches NodeOrText::AppendNode(n) ==> {
                &&& old(self).valid_handle(n)
                &&& old(self).nodes@[n.0 as int].parent is None
                &&& n.0 != 0
                &&& !(old(self).nodes@[n.0 as int].data is Document)
                &&& Some(n) != old(self).nodes@[element.0 as int].parent
                &&& n != *prev_element
            },
        ensures
            final(self).wf(),
            old(self).nodes@[element.0 as int].parent is Some ==> append_before_effect(
                *old(self),
                *final(self),
                *element,
                child,
            ),
            old(self).nodes@[element.0 as int].parent is None ==> append_effect(
                *old(self),
                *final(self),
                *prev_element,
                child,
            ),
    {
        let has_parent = self.nodes[element.0].parent.is_some();
        if has_parent {
            self.append_before_sibling(element, child);
        } else {
            self.append(prev_element, child);
        }
    }

    /// Removes `target` from its parent's child list and leaves it
    /// parentless; the node is not deallocated and stays addressable by its
    /// handle, merely unreachable from the root.
    pub fn remove_from_parent(&mut self, target: &NodeHandle)
        requires
            old(self).wf(),
            old(self).valid_handle(*target),
            old(self).nodes@[target.0 as int].parent is Some,
        ensures
            final(self).wf(),
            remove_effect(*old(self), *final(self), *target),
    {
        let ghost pre: FlatSink = *self;
        let n_total = self.nodes.len();
        proof {
            assert(pre.nodes@.len() == n_total);
            assert(pre.parent_ok(target.0 as int));
        }
        let parent = self.nodes[target.0].parent.unwrap();
        let sibling_index = self.find_child_index(parent, *target);
        let parent_node = vstd::std_specs::vec::vec_index_mut(&mut self.nodes, parent.0);
        parent_node.children.remove(sibling_index, &self.pool);
        let target_node = vstd::std_specs::vec::vec_index_mut(&mut self.nodes, target.0);
        target_node.parent = None;
        proof {
            self.lemma_unlink_restores_wf(pre, parent, *target, sibling_index as int);
        }
    }

    /// Adds each candidate attribute to the target Element only when no
    /// attribute of that name exists yet: first write wins, existing
    /// attributes keep their order, new ones are appended in argument
    /// order.
    pub fn add_attrs_if_missing(&mut self, target_handle: &NodeHandle, add_attrs: Vec<Attribute>)
        requires
            old(self).wf(),
            old(self).valid_handle(*target_handle),
            old(self).nodes@[target_handle.0 as int].data is Element,
        ensures
            final(self).wf(),
            add_attrs_effect(*old(self), *final(self), *target_handle, add_attrs@),
    {
        let ghost pre: FlatSink = *self;
        let target_node = vstd::std_specs::vec::vec_index_mut(&mut self.nodes, target_handle.0);
        let mut data: NodeData = NodeData::Document;
        core::mem::swap(&mut target_node.data, &mut data);
        match data {
            NodeData::Element {
                name,
                mut attrs,
                template_contents,
                mathml_annotation_xml_integration_point,
            } => {
                let ghost base = attrs@;
                let mut idx: usize = 0;
                while idx < add_attrs.len()
                    invariant
                        0 <= idx <= add_attrs@.len(),
                        attrs@ == merge_attrs(base, add_attrs@.take(idx as int)),
                    decreases add_attrs@.len() - idx,
                {
                    proof {
                        assert(add_attrs@.take(idx + 1).drop_last() =~= add_attrs@.take(
                            idx as int,
                        ));
                        assert(add_attrs@.take(idx + 1).last() == add_attrs@[idx as int]);
                    }
                    if !attrs_contain_name(&attrs, &add_attrs[idx].name) {
                        attrs.push(clone_attribute(&add_attrs[idx]));
                    }
                    idx = idx + 1;
                }
                proof {
                    assert(add_attrs@.take(add_attrs@.len() as int) =~= add_attrs@);
                }
                target_node.data = NodeData::Element {
                    name,
                    attrs,
                    template_contents,
                    mathml_annotation_xml_integration_point,
                };
            },
            _ => {
                proof {
                    assert(false);
                }
            },
        }
        proof {
            assert forall|i: int|
                #![trigger self.child_seq(i)]
                0 <= i < pre.nodes@.len() implies self.child_seq(i) == pre.child_seq(i) by {
                assert(self.nodes@[i].children == pre.nodes@[i].children);
            }
            assert forall|i: int, k: int|
                #![trigger self.child_seq(i)[k]]
                0 <= i < self.n_nodes() && 0 <= k < self.child_seq(i).len() implies self.child_ok(
                i,
                k,
            ) by {
                assert(pre.child_ok(i, k));
            }
            assert forall|d: int| 0 <= d < self.n_nodes() implies self.parent_ok(d) by {
                assert(pre.parent_ok(d));
            }
            assert forall|i: int| 0 <= i < self.n_nodes() implies self.template_ok(i) by {
                assert(pre.template_ok(i));
                if i != target_handle.0 {
                    assert(self.nodes@[i] == pre.nodes@[i]);
                }
            }
        }
    }

    /// Moves every child of `node` to the end of `new_parent`'s child
    /// list, in original order, updating each moved child's parent pointer;
    /// `node` ends with an empty child list.
    pub fn reparent_children(&mut self, node: &NodeHandle, new_parent: &NodeHandle)
        requires
            old(self).wf(),
            old(self).valid_handle(*node),
            old(self).valid_handle(*new_parent),
            node.0 != new_parent.0,
            old(self).nodes@[new_parent.0 as int].data is Element || old(self).nodes@[new_parent.0
                as int].data is Document,
            old(self).nodes@[new_parent.0 as int].parent != Some(*node),
        ensures
            final(self).wf(),
            reparent_effect(*old(self), *final(self), *node, *new_parent),
    {
        let ghost pre: FlatSink = *self;
        let n_total = self.nodes.len();
        proof {
            assert(pre.nodes@.len() == n_total);
        }
        let old_children: Vec<NodeHandle> = self.nodes[node.0].children.iter(&self.pool);
        let ghost moved = pre.child_seq(node.0 as int);
        proof {
            // node is in no child list of its own, and the new parent is
            // not one of the moved children
            assert forall|k: int| 0 <= k < moved.len() implies (#[trigger] moved[k]).0 != node.0
                && moved[k].0 != new_parent.0 && moved[k].0 < pre.nodes@.len() by {
                assert(pre.child_ok(node.0 as int, k));
            }
        }
        // first pass: point every moved child at its new parent
        let mut idx: usize = 0;
        while idx < old_children.len()
            invariant
                pre.wf(),
                node.0 < pre.nodes@.len(),
                new_parent.0 < pre.nodes@.len(),
                node.0 != new_parent.0,
                pre.nodes@.len() <= usize::MAX,
                moved == pre.child_seq(node.0 as int),
                old_children@ == moved,
                forall|k: int|
                    0 <= k < moved.len() ==> (#[trigger] moved[k]).0 != node.0 && moved[k].0
                        != new_parent.0 && moved[k].0 < pre.nodes@.len(),
                0 <= idx <= moved.len(),
                self.nodes@.len() == pre.nodes@.len(),
                self.root == pre.root,
                self.pool == pre.pool,
                forall|k: int|
                    0 <= k < idx ==> {
                        let c = (#[trigger] moved[k]).0 as int;
                        &&& self.nodes@[c].parent == Some(*new_parent)
                        &&& self.nodes@[c].id == pre.nodes@[c].id
                        &&& self.nodes@[c].data == pre.nodes@[c].data
                        &&& self.nodes@[c].children == pre.nodes@[c].children
                    },
                forall|k: int|
                    idx <= k < moved.len() ==> self.nodes@[(#[trigger] moved[k]).0 as int]
                        == pre.nodes@[moved[k].0 as int],
                forall|i: int|
                    0 <= i < pre.nodes@.len() && !moved.contains(NodeHandle(i as usize))
                        ==> #[trigger] self.nodes@[i] == pre.nodes@[i],
            decreases moved.len() - idx,
        {
            let ch = old_children[idx];
            proof {
                assert(moved[idx as int] == ch);
            }
            let chn = vstd::std_specs::vec::vec_index_mut(&mut self.nodes, ch.0);
            chn.parent = Some(*new_parent);
            proof {
                assert(moved.contains(NodeHandle(ch.0)));
                assert forall|k1: int, k2: int|
                    0 <= k1 < moved.len() && 0 <= k2 < moved.len() && moved[k1] == moved[k2]
                        implies k1 == k2 by {
                    assert(pre.child_seq(node.0 as int)[k1] == pre.child_seq(node.0 as int)[k2]);
                }
            }
            idx = idx + 1;
        }
        // the moved children are out of their old list
        let node_ref = vstd::std_specs::vec::vec_index_mut(&mut self.nodes, node.0);
        node_ref.children = PoolOrVec::Owned { vec: Vec::new() };
        proof {
            assert(self.child_seq(node.0 as int) =~= Seq::<NodeHandle>::empty());
            assert(moved.take(0) =~= Seq::<NodeHandle>::empty());
            assert(self.child_seq(new_parent.0 as int) =~= pre.child_seq(new_parent.0 as int)
                + moved.take(0));
        }
        // second pass: append them to the new parent's list
        let mut idx2: usize = 0;
        while idx2 < old_children.len()
            invariant
                pre.wf(),
                node.0 < pre.nodes@.len(),
                new_parent.0 < pre.nodes@.len(),
                node.0 != new_parent.0,
                pre.nodes@.len() <= usize::MAX,
                moved == pre.child_seq(node.0 as int),
                old_children@ == moved,
                forall|k: int|
                    0 <= k < moved.len() ==> (#[trigger] moved[k]).0 != node.0 && moved[k].0
                        != new_parent.0 && moved[k].0 < pre.nodes@.len(),
                0 <= idx2 <= moved.len(),
                self.nodes@.len() == pre.nodes@.len(),
                self.root == pre.root,
                forall|i: int|
                    0 <= i < self.n_nodes() ==> (#[trigger] self.nodes@[i]).children.wf(
                        self.pool@,
                    ),
                self.child_seq(new_parent.0 as int) == pre.child_seq(new_parent.0 as int)
                    + moved.take(idx2 as int),
                self.nodes@[new_parent.0 as int].id == pre.nodes@[new_parent.0 as int].id,
                self.nodes@[new_parent.0 as int].parent == pre.nodes@[new_parent.0 as int].parent,
                self.nodes@[new_parent.0 as int].data == pre.nodes@[new_parent.0 as int].data,
                self.child_seq(node.0 as int) == Seq::<NodeHandle>::empty(),
                self.nodes@[node.0 as int].id == pre.nodes@[node.0 as int].id,
                self.nodes@[node.0 as int].parent == pre.nodes@[node.0 as int].parent,
                self.nodes@[node.0 as int].data == pre.nodes@[node.0 as int].data,
                forall|k: int|
                    0 <= k < moved.len() ==> {
                        let c = (#[trigger] moved[k]).0 as int;
                        &&& self.nodes@[c].parent == Some(*new_parent)
                        &&& self.nodes@[c].id == pre.nodes@[c].id
                        &&& self.nodes@[c].data == pre.nodes@[c].data
                        &&& self.child_seq(c) == pre.child_seq(c)
                    },
                forall|i: int|
                    0 <= i < pre.nodes@.len() && i != node.0 && i != new_parent.0
                        && !moved.contains(NodeHandle(i as usize)) ==> (
                    #[trigger] self.nodes@[i]).id == pre.nodes@[i].id && self.nodes@[i].parent
                        == pre.nodes@[i].parent && self.nodes@[i].data == pre.nodes@[i].data
                        && self.child_seq(i) == pre.child_seq(i),
            decreases moved.len() - idx2,
        {
            let ch = old_children[idx2];
            let ghost snap: FlatSink = *self;
            let np = vstd::std_specs::vec::vec_index_mut(&mut self.nodes, new_parent.0);
            np.children.push(ch, &mut self.pool);
            proof {
                assert(self.pool@ == snap.pool@ || self.pool@ == snap.pool@.push(ch));
                assert forall|i: int|
                    0 <= i < self.n_nodes() && i != new_parent.0 implies (
                #[trigger] self.nodes@[i]).children.wf(self.pool@) && self.nodes@[i].children.view_in(
                    self.pool@,
                ) == snap.nodes@[i].children.view_in(snap.pool@) by {
                    assert(self.nodes@[i] == snap.nodes@[i]);
                    if self.pool@ == snap.pool@.push(ch) {
                        snap.nodes@[i].children.lemma_pool_grow_preserves_view(snap.pool@, ch);
                    }
                }
                assert(self.child_seq(new_parent.0 as int) =~= pre.child_seq(new_parent.0 as int)
                    + moved.take(idx2 + 1));
            }
            idx2 = idx2 + 1;
        }
        proof {
            assert(moved.take(moved.len() as int) =~= moved);
            self.lemma_reparent_restores_wf(pre, *node, *new_parent);
        }
    }

    /// After both reparenting passes the arena is well-formed again.
    proof fn lemma_reparent_restores_wf(self, pre: FlatSink, node: NodeHandle, new_parent: NodeHandle)
        requires
            pre.wf(),
            node.0 < pre.nodes@.len(),
            new_parent.0 < pre.nodes@.len(),
            node.0 != new_parent.0,
            pre.nodes@.len() <= usize::MAX,
            pre.nodes@[new_parent.0 as int].data is Element || pre.nodes@[new_parent.0
                as int].data is Document,
            pre.nodes@[new_parent.0 as int].parent != Some(node),
            // arena shape after the surgery:
            self.nodes@.len() == pre.nodes@.len(),
            self.root == pre.root,
            forall|i: int|
                0 <= i < self.n_nodes() ==> (#[trigger] self.nodes@[i]).children.wf(self.pool@),
            self.child_seq(new_parent.0 as int) == pre.child_seq(new_parent.0 as int)
                + pre.child_seq(node.0 as int),
            self.nodes@[new_parent.0 as int].id == pre.nodes@[new_parent.0 as int].id,
            self.nodes@[new_parent.0 as int].parent == pre.nodes@[new_parent.0 as int].parent,
            self.nodes@[new_parent.0 as int].data == pre.nodes@[new_parent.0 as int].data,
            self.child_seq(node.0 as int) == Seq::<NodeHandle>::empty(),
            self.nodes@[node.0 as int].id == pre.nodes@[node.0 as int].id,
            self.nodes@[node.0 as int].parent == pre.nodes@[node.0 as int].parent,
            self.nodes@[node.0 as int].data == pre.nodes@[node.0 as int].data,
            forall|k: int|
                0 <= k < pre.child_seq(node.0 as int).len() ==> {
                    let c = (#[trigger] pre.child_seq(node.0 as int)[k]).0 as int;
                    &&& self.nodes@[c].parent == Some(new_parent)
                    &&& self.nodes@[c].id == pre.nodes@[c].id
                    &&& self.nodes@[c].data == pre.nodes@[c].data
                    &&& self.child_seq(c) == pre.child_seq(c)
                },
            forall|i: int|
                0 <= i < pre.nodes@.len() && i != node.0 && i != new_parent.0 && !pre.child_seq(
                    node.0 as int,
                ).contains(NodeHandle(i as usize)) ==> (#[trigger] self.nodes@[i]).id
                    == pre.nodes@[i].id && self.nodes@[i].parent == pre.nodes@[i].parent
                    && self.nodes@[i].data == pre.nodes@[i].data && self.child_seq(i)
                    == pre.child_seq(i),
        ensures
            self.wf(),
            reparent_effect(pre, self, node, new_parent),
    {
        let moved = pre.child_seq(node.0 as int);
        let pre_np = pre.child_seq(new_parent.0 as int);
        let post_np = self.child_seq(new_parent.0 as int);
        assert forall|k: int| 0 <= k < moved.len() implies (#[trigger] moved[k]).0 != node.0
            && moved[k].0 != new_parent.0 && moved[k].0 < pre.nodes@.len() && !(pre.nodes@[
        moved[k].0 as int].data is Document) by {
            assert(pre.child_ok(node.0 as int, k));
        }
        // moved children and the new parent's old children are disjoint
        assert forall|k: int, j: int|
            0 <= k < moved.len() && 0 <= j < pre_np.len() implies #[trigger] moved[k]
                != #[trigger] pre_np[j] by {
            assert(pre.child_ok(node.0 as int, k));
            assert(pre.child_ok(new_parent.0 as int, j));
        }
        // a pre-existing member of any list other than node's is not moved
        assert forall|i: int, k: int|
            #![trigger pre.child_seq(i)[k]]
            0 <= i < pre.n_nodes() && i != node.0 && 0 <= k < pre.child_seq(i).len()
                implies !moved.contains(pre.child_seq(i)[k]) by {
            assert(pre.child_ok(i, k));
            if moved.contains(pre.child_seq(i)[k]) {
                let j = choose|j: int| 0 <= j < moved.len() && moved[j] == pre.child_seq(i)[k];
                assert(pre.child_ok(node.0 as int, j));
            }
        }
        // ids
        assert forall|i: int|
            0 <= i < self.n_nodes() implies (#[trigger] self.nodes@[i]).id == NodeHandle(
            i as usize,
        ) by {
            if moved.contains(NodeHandle(i as usize)) {
                let k = choose|k: int| 0 <= k < moved.len() && moved[k] == NodeHandle(i as usize);
                assert(self.nodes@[moved[k].0 as int].id == pre.nodes@[moved[k].0 as int].id);
            }
        }
        // parents of non-moved nodes are unchanged
        assert forall|i: int|
            0 <= i < self.n_nodes() && !moved.contains(NodeHandle(i as usize)) && i != node.0
                && i != new_parent.0 implies (#[trigger] self.nodes@[i]).parent == pre.nodes@[
        i].parent && self.nodes@[i].data == pre.nodes@[i].data && self.child_seq(i)
            == pre.child_seq(i) by {}
        assert forall|i: int, k: int|
            #![trigger self.child_seq(i)[k]]
            0 <= i < self.n_nodes() && 0 <= k < self.child_seq(i).len() implies self.child_ok(
            i,
            k,
        ) by {
            if i == new_parent.0 {
                if k < pre_np.len() {
                    let c = pre_np[k];
                    assert(post_np[k] == c);
                    assert(pre.child_ok(i, k));
                    assert(!moved.contains(c));
                    if c.0 == node.0 || c.0 == new_parent.0 {
                        assert(self.nodes@[c.0 as int].parent == pre.nodes@[c.0 as int].parent);
                    }
                    assert(self.nodes@[c.0 as int].parent == Some(NodeHandle(i as usize)));
                } else {
                    let c = moved[k - pre_np.len()];
                    assert(post_np[k] == c);
                    assert(self.nodes@[c.0 as int].parent == Some(new_parent));
                }
            } else if i == node.0 {
            } else {
                let c = self.child_seq(i)[k];
                if moved.contains(NodeHandle(i as usize)) {
                    let km = choose|km: int|
                        0 <= km < moved.len() && moved[km] == NodeHandle(i as usize);
                    assert(self.child_seq(moved[km].0 as int) == pre.child_seq(moved[km].0
                        as int));
                    assert(self.child_seq(i) == pre.child_seq(i));
                } else {
                    assert(self.child_seq(i) == pre.child_seq(i));
                }
                assert(pre.child_ok(i, k));
                assert(!moved.contains(c));
                if c.0 == node.0 || c.0 == new_parent.0 {
                    assert(self.nodes@[c.0 as int].parent == pre.nodes@[c.0 as int].parent);
                }
                assert(self.nodes@[c.0 as int].parent == Some(NodeHandle(i as usize)));
            }
        }
        assert forall|i: int, k1: int, k2: int|
            #![trigger self.child_seq(i)[k1], self.child_seq(i)[k2]]
            0 <= i < self.n_nodes() && 0 <= k1 < self.child_seq(i).len() && 0 <= k2
                < self.child_seq(i).len() && self.child_seq(i)[k1] == self.child_seq(i)[k2]
                implies k1 == k2 by {
            if i == new_parent.0 {
                if k1 != k2 {
                    if k1 < pre_np.len() && k2 < pre_np.len() {
                        assert(pre.child_seq(i)[k1] == pre.child_seq(i)[k2]);
                    } else if k1 >= pre_np.len() && k2 >= pre_np.len() {
                        assert(pre.child_seq(node.0 as int)[k1 - pre_np.len()]
                            == pre.child_seq(node.0 as int)[k2 - pre_np.len()]);
                    } else {
                        assert(false);
                    }
                }
            } else if i != node.0 {
                if moved.contains(NodeHandle(i as usize)) {
                    let km = choose|km: int|
                        0 <= km < moved.len() && moved[km] == NodeHandle(i as usize);
                    assert(self.child_seq(moved[km].0 as int) == pre.child_seq(moved[km].0
                        as int));
                }
                assert(self.child_seq(i) == pre.child_seq(i));
            }
        }
        assert forall|d: int| 0 <= d < self.n_nodes() implies self.parent_ok(d) by {
            assert(pre.parent_ok(d));
            let dh = NodeHandle(d as usize);
            if moved.contains(dh) {
                let k = choose|k: int| 0 <= k < moved.len() && moved[k] == dh;
                assert(self.nodes@[d].parent == Some(new_parent));
                assert(post_np[pre_np.len() + k] == dh);
                assert(post_np.contains(dh));
            } else {
                if d != node.0 && d != new_parent.0 {
                    assert(self.nodes@[d].parent == pre.nodes@[d].parent);
                }
                assert(self.nodes@[d].parent == pre.nodes@[d].parent);
                match pre.nodes@[d].parent {
                    Some(q) => {
                        let k = choose|k: int|
                            0 <= k < pre.child_seq(q.0 as int).len() && pre.child_seq(
                                q.0 as int,
                            )[k] == dh;
                        if q.0 == node.0 {
                            assert(moved[k] == dh);
                            assert(false);
                        } else if q.0 == new_parent.0 {
                            assert(post_np[k] == dh);
                            assert(post_np.contains(dh));
                        } else {
                            if moved.contains(NodeHandle(q.0 as int as usize)) {
                                let km = choose|km: int|
                                    0 <= km < moved.len() && moved[km] == NodeHandle(
                                        q.0 as int as usize,
                                    );
                                assert(self.child_seq(moved[km].0 as int) == pre.child_seq(
                                    moved[km].0 as int,
                                ));
                            }
                            assert(self.child_seq(q.0 as int) == pre.child_seq(q.0 as int));
                            assert(self.child_seq(q.0 as int)[k] == dh);
                            assert(self.child_seq(q.0 as int).contains(dh));
                        }
                    },
                    None => {},
                }
            }
        }
        assert forall|c: int|
            0 <= c < self.n_nodes() implies ((#[trigger] self.nodes@[c]).parent matches Some(p)
                ==> p.0 != c) by {
            let ch = NodeHandle(c as usize);
            if moved.contains(ch) {
                assert(self.nodes@[c].parent == Some(new_parent));
                let k = choose|k: int| 0 <= k < moved.len() && moved[k] == ch;
                assert(moved[k].0 != new_parent.0);
            } else {
                if c != node.0 && c != new_parent.0 {
                    assert(self.nodes@[c].parent == pre.nodes@[c].parent);
                }
            }
        }
        assert forall|i: int|
            0 <= i < self.n_nodes() && (#[trigger] self.child_seq(i)).len() > 0 implies (
        self.nodes@[i].data is Element || self.nodes@[i].data is Document) by {
            if i != new_parent.0 && i != node.0 {
                if moved.contains(NodeHandle(i as usize)) {
                    let km = choose|km: int|
                        0 <= km < moved.len() && moved[km] == NodeHandle(i as usize);
                    assert(self.child_seq(moved[km].0 as int) == pre.child_seq(moved[km].0
                        as int));
                    assert(self.nodes@[moved[km].0 as int].data == pre.nodes@[moved[km].0
                        as int].data);
                } else {
                    assert(self.child_seq(i) == pre.child_seq(i));
                }
            }
        }
        assert forall|i: int| 0 <= i < self.n_nodes() implies self.template_ok(i) by {
            assert(pre.template_ok(i));
            let ih = NodeHandle(i as usize);
            if moved.contains(ih) {
                let km = choose|km: int| 0 <= km < moved.len() && moved[km] == ih;
                assert(self.nodes@[moved[km].0 as int].data == pre.nodes@[moved[km].0
                    as int].data);
            } else if i != node.0 && i != new_parent.0 {
                assert(self.nodes@[i].data == pre.nodes@[i].data);
            }
            assert(self.nodes@[i].data == pre.nodes@[i].data);
            match pre.nodes@[i].data {
                NodeData::Element { template_contents: Some(t), .. } => {
                    assert(pre.template_ok(i));
                    let th = NodeHandle(t.0 as int as usize);
                    if moved.contains(t) {
                        let km = choose|km: int| 0 <= km < moved.len() && moved[km] == t;
                        assert(self.nodes@[moved[km].0 as int].data == pre.nodes@[moved[km].0
                            as int].data);
                    } else if t.0 != node.0 && t.0 != new_parent.0 {
                        assert(self.nodes@[t.0 as int].data == pre.nodes@[t.0 as int].data);
                    }
                },
                _ => {},
            }
        }
    }

    /// After unlink surgery (parent list lost `c` at index `at`, node `c`
    /// lost its parent pointer), the arena is well-formed again.
    proof fn lemma_unlink_restores_wf(self, pre: FlatSink, parent: NodeHandle, c: NodeHandle, at: int)
        requires
            pre.wf(),
            parent.0 < pre.nodes@.len(),
            c.0 < pre.nodes@.len(),
            pre.nodes@[c.0 as int].parent == Some(parent),
            pre.nodes@.len() <= usize::MAX,
            0 <= at < pre.child_seq(parent.0 as int).len(),
            pre.child_seq(parent.0 as int)[at] == c,
            // arena shape after the surgery:
            self.root == pre.root,
            self.nodes@.len() == pre.nodes@.len(),
            self.pool == pre.pool,
            self.nodes@[parent.0 as int].id == pre.nodes@[parent.0 as int].id,
            self.nodes@[parent.0 as int].parent == pre.nodes@[parent.0 as int].parent,
            self.nodes@[parent.0 as int].data == pre.nodes@[parent.0 as int].data,
            self.nodes@[parent.0 as int].children.wf(self.pool@),
            self.child_seq(parent.0 as int) == pre.child_seq(parent.0 as int).remove(at),
            self.nodes@[c.0 as int].id == pre.nodes@[c.0 as int].id,
            self.nodes@[c.0 as int].parent is None,
            self.nodes@[c.0 as int].data == pre.nodes@[c.0 as int].data,
            self.nodes@[c.0 as int].children == pre.nodes@[c.0 as int].children,
            forall|i: int|
                0 <= i < pre.nodes@.len() && i != parent.0 && i != c.0 ==> self.nodes@[i]
                    == pre.nodes@[i],
        ensures
            self.wf(),
            forall|i: int|
                #![trigger self.child_seq(i)]
                0 <= i < pre.nodes@.len() && i != parent.0 ==> self.child_seq(i) == pre.child_seq(
                    i,
                ),
    {
        assert(parent != c);
        assert forall|i: int|
            #![trigger self.child_seq(i)]
            0 <= i < pre.nodes@.len() && i != parent.0 implies self.child_seq(i) == pre.child_seq(
            i,
        ) by {
            assert(self.nodes@[i].children == pre.nodes@[i].children);
        }
        let post_list = self.child_seq(parent.0 as int);
        let pre_list = pre.child_seq(parent.0 as int);
        // c sits in no child list but its parent's, and there only at `at`.
        assert forall|i: int, k: int|
            #![trigger self.child_seq(i)[k]]
            0 <= i < self.n_nodes() && 0 <= k < self.child_seq(i).len() implies self.child_ok(
            i,
            k,
        ) by {
            if i == parent.0 {
                let j = if k < at { k } else { k + 1 };
                assert(post_list[k] == pre_list[j]);
                assert(pre.child_ok(i, j));
                assert(pre_list[j] != c);
                assert(self.nodes@[post_list[k].0 as int].parent == pre.nodes@[pre_list[j].0
                    as int].parent);
            } else {
                assert(pre.child_ok(i, k));
                assert(pre.child_seq(i)[k] != c);
            }
        }
        assert forall|i: int, k1: int, k2: int|
            #![trigger self.child_seq(i)[k1], self.child_seq(i)[k2]]
            0 <= i < self.n_nodes() && 0 <= k1 < self.child_seq(i).len() && 0 <= k2
                < self.child_seq(i).len() && self.child_seq(i)[k1] == self.child_seq(i)[k2]
                implies k1 == k2 by {
            if i == parent.0 {
                let j1 = if k1 < at { k1 } else { k1 + 1 };
                let j2 = if k2 < at { k2 } else { k2 + 1 };
                assert(post_list[k1] == pre_list[j1]);
                assert(post_list[k2] == pre_list[j2]);
            }
        }
        assert forall|d: int| 0 <= d < self.n_nodes() implies self.parent_ok(d) by {
            assert(pre.parent_ok(d));
            if d != c.0 {
                match self.nodes@[d].parent {
                    Some(q) => {
                        assert(self.nodes@[d].parent == pre.nodes@[d].parent);
                        let k = choose|k: int|
                            0 <= k < pre.child_seq(q.0 as int).len() && pre.child_seq(
                                q.0 as int,
                            )[k] == NodeHandle(d as usize);
                        if q.0 == parent.0 {
                            assert(pre_list[k] == NodeHandle(d as usize));
                            assert(pre_list[at] == c);
                            assert(k != at);
                            let k2 = if k < at { k } else { k - 1 };
                            assert(post_list[k2] == NodeHandle(d as usize));
                            assert(self.child_seq(q.0 as int).contains(NodeHandle(d as usize)));
                        } else {
                            assert(self.child_seq(q.0 as int)[k] == NodeHandle(d as usize));
                            assert(self.child_seq(q.0 as int).contains(NodeHandle(d as usize)));
                        }
                    },
                    None => {},
                }
            }
        }
        assert forall|i: int|
            0 <= i < self.n_nodes() && (#[trigger] self.child_seq(i)).len() > 0 implies (
        self.nodes@[i].data is Element || self.nodes@[i].data is Document) by {
            if i != parent.0 {
                assert(self.child_seq(i) == pre.child_seq(i));
            }
        }
        assert forall|i: int| 0 <= i < self.n_nodes() implies self.template_ok(i) by {
            assert(pre.template_ok(i));
            if i != parent.0 && i != c.0 {
                assert(self.nodes@[i] == pre.nodes@[i]);
            }
        }
    }

    /// After `link_child`-shaped surgery (parent list gained `c`, node `c`
    /// got its parent pointer), the arena is well-formed again and nothing
    /// else moved.
    proof fn lemma_link_restores_wf(self, pre: FlatSink, parent: NodeHandle, c: NodeHandle, at: int)
        requires
            pre.wf(),
            parent.0 < pre.nodes@.len(),
            c.0 < pre.nodes@.len(),
            c.0 != 0,
            c != parent,
            pre.nodes@[c.0 as int].parent is None,
            !(pre.nodes@[c.0 as int].data is Document),
            pre.nodes@[parent.0 as int].data is Element || pre.nodes@[parent.0 as int].data
                is Document,
            0 <= at <= pre.child_seq(parent.0 as int).len(),
            // arena shape after the surgery:
            self.root == pre.root,
            self.nodes@.len() == pre.nodes@.len(),
            self.pool@ == pre.pool@ || self.pool@ == pre.pool@.push(c),
            self.nodes@[parent.0 as int].id == pre.nodes@[parent.0 as int].id,
            self.nodes@[parent.0 as int].parent == pre.nodes@[parent.0 as int].parent,
            self.nodes@[parent.0 as int].data == pre.nodes@[parent.0 as int].data,
            self.nodes@[parent.0 as int].children.wf(self.pool@),
            self.child_seq(parent.0 as int) == pre.child_seq(parent.0 as int).insert(at, c),
            self.nodes@[c.0 as int].id == pre.nodes@[c.0 as int].id,
            self.nodes@[c.0 as int].parent == Some(parent),
            self.nodes@[c.0 as int].data == pre.nodes@[c.0 as int].data,
            self.nodes@[c.0 as int].children == pre.nodes@[c.0 as int].children,
            forall|i: int|
                0 <= i < pre.nodes@.len() && i != parent.0 && i != c.0 ==> self.nodes@[i]
                    == pre.nodes@[i],
        ensures
            self.wf(),
            forall|i: int|
                #![trigger self.child_seq(i)]
                0 <= i < pre.nodes@.len() && i != parent.0 ==> self.child_seq(i) == pre.child_seq(
                    i,
                ),
    {
        assert forall|i: int|
            0 <= i < self.n_nodes() implies (#[trigger] self.nodes@[i]).children.wf(
            self.pool@,
        ) by {
            if i != parent.0 {
                assert(self.nodes@[i].children == pre.nodes@[i].children);
                if self.pool@ == pre.pool@.push(c) {
                    pre.nodes@[i].children.lemma_pool_grow_preserves_view(pre.pool@, c);
                }
            }
        }
        assert forall|i: int|
            #![trigger self.child_seq(i)]
            0 <= i < pre.nodes@.len() && i != parent.0 implies self.child_seq(i) == pre.child_seq(
            i,
        ) by {
            assert(self.nodes@[i].children == pre.nodes@[i].children);
            if self.pool@ == pre.pool@.push(c) {
                pre.nodes@[i].children.lemma_pool_grow_preserves_view(pre.pool@, c);
            }
        }
        let post_parent_list = self.child_seq(parent.0 as int);
        let pre_parent_list = pre.child_seq(parent.0 as int);
        // c was in nobody's child list before: a listed child has a Some parent.
        assert forall|i: int, k: int|
            #![trigger pre.child_seq(i)[k]]
            0 <= i < pre.n_nodes() && 0 <= k < pre.child_seq(i).len() implies pre.child_seq(i)[k]
                != c by {
            assert(pre.child_ok(i, k));
        }
        assert forall|i: int, k: int|
            #![trigger self.child_seq(i)[k]]
            0 <= i < self.n_nodes() && 0 <= k < self.child_seq(i).len() implies self.child_ok(
            i,
            k,
        ) by {
            if i == parent.0 {
                if k < at {
                    assert(self.child_seq(i)[k] == pre_parent_list[k]);
                    assert(pre.child_ok(i, k));
                } else if k == at {
                    assert(self.child_seq(i)[k] == c);
                } else {
                    assert(self.child_seq(i)[k] == pre_parent_list[k - 1]);
                    assert(pre.child_ok(i, k - 1));
                }
            } else {
                assert(pre.child_ok(i, k));
                assert(pre.child_seq(i)[k] != c);
            }
        }
        assert forall|i: int, k1: int, k2: int|
            #![trigger self.child_seq(i)[k1], self.child_seq(i)[k2]]
            0 <= i < self.n_nodes() && 0 <= k1 < self.child_seq(i).len() && 0 <= k2
                < self.child_seq(i).len() && self.child_seq(i)[k1] == self.child_seq(i)[k2]
                implies k1 == k2 by {
            if i == parent.0 {
                let s = self.child_seq(i);
                if k1 != k2 {
                    let j1 = if k1 < at { k1 } else { k1 - 1 };
                    let j2 = if k2 < at { k2 } else { k2 - 1 };
                    if k1 == at {
                        assert(s[k2] == pre_parent_list[j2]);
                        assert(pre.child_seq(i)[j2] != c);
                    } else if k2 == at {
                        assert(s[k1] == pre_parent_list[j1]);
                        assert(pre.child_seq(i)[j1] != c);
                    } else {
                        assert(s[k1] == pre_parent_list[j1]);
                        assert(s[k2] == pre_parent_list[j2]);
                    }
                }
            }
        }
        assert forall|d: int| 0 <= d < self.n_nodes() implies self.parent_ok(d) by {
            assert(pre.parent_ok(d));
            if d == c.0 {
                assert(self.child_seq(parent.0 as int)[at] == c);
                assert(self.child_seq(parent.0 as int).contains(c));
            } else {
                match pre.nodes@[d].parent {
                    Some(q) => {
                        assert(self.nodes@[d].parent == Some(q));
                        let k = choose|k: int|
                            0 <= k < pre.child_seq(q.0 as int).len() && pre.child_seq(
                                q.0 as int,
                            )[k] == NodeHandle(d as usize);
                        if q.0 == parent.0 {
                            let k2 = if k < at { k } else { k + 1 };
                            assert(self.child_seq(q.0 as int)[k2] == NodeHandle(d as usize));
                            assert(self.child_seq(q.0 as int).contains(NodeHandle(d as usize)));
                        } else {
                            assert(self.child_seq(q.0 as int)[k] == NodeHandle(d as usize));
                            assert(self.child_seq(q.0 as int).contains(NodeHandle(d as usize)));
                        }
                    },
                    None => {},
                }
            }
        }
        assert forall|i: int|
            0 <= i < self.n_nodes() && (#[trigger] self.child_seq(i)).len() > 0 implies (
        self.nodes@[i].data is Element || self.nodes@[i].data is Document) by {
            if i != parent.0 {
                assert(self.child_seq(i) == pre.child_seq(i));
            }
        }
        assert forall|i: int| 0 <= i < self.n_nodes() implies self.template_ok(i) by {
            assert(pre.template_ok(i));
            if i != parent.0 && i != c.0 {
                assert(self.nodes@[i] == pre.nodes@[i]);
            }
        }
    }

    /// Freezes the sink: construction is over and the finished arena is
    /// handed to the materializers.
    pub fn finish(self) -> (r: FlatSink)
        ensures
            r == self,
    {
        self
    }
}


/// The handle an append-style instruction resolves to: the given node, or
/// the Text node the sink creates for raw text.
pub open spec fn resolved_handle(pre: FlatSink, child: NodeOrText) -> NodeHandle {
    match child {
        NodeOrText::AppendNode(n) => n,
        NodeOrText::AppendText(_) => NodeHandle(pre.nodes@.len() as usize),
    }
}

/// What an append instruction does to the arena: the resolved node is
/// appended at the end of the parent's child list, its parent pointer is
/// set, and nothing else changes.
pub open spec fn append_effect(
    pre: FlatSink,
    post: FlatSink,
    parent: NodeHandle,
    child: NodeOrText,
) -> bool {
    let h = resolved_handle(pre, child);
    &&& post.root == pre.root
    &&& match child {
        NodeOrText::AppendNode(n) => {
            &&& post.nodes@.len() == pre.nodes@.len()
            &&& post.nodes@[n.0 as int].data == pre.nodes@[n.0 as int].data
            &&& post.child_seq(n.0 as int) == pre.child_seq(n.0 as int)
        },
        NodeOrText::AppendText(t) => {
            &&& post.nodes@.len() == pre.nodes@.len() + 1
            &&& h.0 == pre.nodes@.len()
            &&& post.nodes@[h.0 as int].data matches NodeData::Text { contents } && contents@
                == t@
            &&& post.child_seq(h.0 as int) == Seq::<NodeHandle>::empty()
        },
    }
    &&& post.child_seq(parent.0 as int) == pre.child_seq(parent.0 as int).push(h)
    &&& post.nodes@[h.0 as int].parent == Some(parent)
    &&& post.nodes@[parent.0 as int].parent == pre.nodes@[parent.0 as int].parent
    &&& post.nodes@[parent.0 as int].data == pre.nodes@[parent.0 as int].data
    &&& forall|i: int|
        0 <= i < pre.nodes@.len() && i != parent.0 && i != h.0 ==> (#[trigger] post.nodes@[i]).parent
            == pre.nodes@[i].parent && post.nodes@[i].data == pre.nodes@[i].data
            && post.child_seq(i) == pre.child_seq(i)
}


/// What an append-before-sibling instruction does to the arena: the
/// resolved node is inserted immediately before `sibling` in its parent's
/// child list, its parent pointer is set, and nothing else changes.
pub open spec fn append_before_effect(
    pre: FlatSink,
    post: FlatSink,
    sibling: NodeHandle,
    child: NodeOrText,
) -> bool {
    let h = resolved_handle(pre, child);
    match pre.nodes@[sibling.0 as int].parent {
        Some(p) => {
            &&& post.root == pre.root
            &&& match child {
                NodeOrText::AppendNode(n) => {
                    &&& post.nodes@.len() == pre.nodes@.len()
                    &&& post.nodes@[n.0 as int].data == pre.nodes@[n.0 as int].data
                    &&& post.child_seq(n.0 as int) == pre.child_seq(n.0 as int)
                },
                NodeOrText::AppendText(t) => {
                    &&& post.nodes@.len() == pre.nodes@.len() + 1
                    &&& h.0 == pre.nodes@.len()
                    &&& post.nodes@[h.0 as int].data matches NodeData::Text { contents }
                        && contents@ == t@
                    &&& post.child_seq(h.0 as int) == Seq::<NodeHandle>::empty()
                },
            }
            &&& exists|k: int|
                {
                    &&& 0 <= k < pre.child_seq(p.0 as int).len()
                    &&& #[trigger] pre.child_seq(p.0 as int)[k] == sibling
                    &&& post.child_seq(p.0 as int) == pre.child_seq(p.0 as int).insert(k, h)
                }
            &&& post.nodes@[h.0 as int].parent == Some(p)
            &&& post.nodes@[p.0 as int].parent == pre.nodes@[p.0 as int].parent
            &&& post.nodes@[p.0 as int].data == pre.nodes@[p.0 as int].data
            &&& forall|i: int|
                0 <= i < pre.nodes@.len() && i != p.0 && i != h.0 ==> (
                #[trigger] post.nodes@[i]).parent == pre.nodes@[i].parent && post.nodes@[i].data
                    == pre.nodes@[i].data && post.child_seq(i) == pre.child_seq(i)
        },
        None => false,
    }
}


/// What a remove-from-parent instruction does to the arena: `target`
/// leaves its parent's child list and becomes parentless; nothing else
/// changes, and the node itself is kept.
pub open spec fn remove_effect(pre: FlatSink, post: FlatSink, target: NodeHandle) -> bool {
    match pre.nodes@[target.0 as int].parent {
        Some(p) => {
            &&& post.root == pre.root
            &&& post.nodes@.len() == pre.nodes@.len()
            &&& post.pool == pre.pool
            &&& exists|k: int|
                {
                    &&& 0 <= k < pre.child_seq(p.0 as int).len()
                    &&& #[trigger] pre.child_seq(p.0 as int)[k] == target
                    &&& post.child_seq(p.0 as int) == pre.child_seq(p.0 as int).remove(k)
                }
            &&& post.nodes@[target.0 as int].parent is None
            &&& post.nodes@[target.0 as int].data == pre.nodes@[target.0 as int].data
            &&& post.child_seq(target.0 as int) == pre.child_seq(target.0 as int)
            &&& post.nodes@[p.0 as int].parent == pre.nodes@[p.0 as int].parent
            &&& post.nodes@[p.0 as int].data == pre.nodes@[p.0 as int].data
            &&& forall|i: int|
                0 <= i < pre.nodes@.len() && i != p.0 && i != target.0 ==> (
                #[trigger] post.nodes@[i]).parent == pre.nodes@[i].parent && post.nodes@[i].data
                    == pre.nodes@[i].data && post.child_seq(i) == pre.child_seq(i)
        },
        None => false,
    }
}


/// What an add-attributes instruction does to the arena: only the target
/// Element's attribute list changes, to the first-write-wins merge of the
/// candidates into it.
pub open spec fn add_attrs_effect(
    pre: FlatSink,
    post: FlatSink,
    target: NodeHandle,
    add: Seq<Attribute>,
) -> bool {
    &&& post.root == pre.root
    &&& post.nodes@.len() == pre.nodes@.len()
    &&& post.pool == pre.pool
    &&& forall|i: int|
        0 <= i < pre.nodes@.len() && i != target.0 ==> #[trigger] post.nodes@[i] == pre.nodes@[i]
    &&& post.nodes@[target.0 as int].parent == pre.nodes@[target.0 as int].parent
    &&& post.nodes@[target.0 as int].children == pre.nodes@[target.0 as int].children
    &&& match (pre.nodes@[target.0 as int].data, post.nodes@[target.0 as int].data) {
        (
            NodeData::Element {
                name: n1,
                attrs: a1,
                template_contents: t1,
                mathml_annotation_xml_integration_point: m1,
            },
            NodeData::Element {
                name: n2,
                attrs: a2,
                template_contents: t2,
                mathml_annotation_xml_integration_point: m2,
            },
        ) => n2 == n1 && t2 == t1 && m2 == m1 && a2@ == merge_attrs(a1@, add),
        _ => false,
    }
}


/// What a reparent-children instruction does to the arena: every child of
/// `node` moves to the end of `new_parent`'s child list in original order,
/// each moved child's parent pointer now names `new_parent`, and `node` is
/// left with an empty child list.
pub open spec fn reparent_effect(
    pre: FlatSink,
    post: FlatSink,
    node: NodeHandle,
    new_parent: NodeHandle,
) -> bool {
    let moved = pre.child_seq(node.0 as int);
    &&& post.root == pre.root
    &&& post.nodes@.len() == pre.nodes@.len()
    &&& post.child_seq(node.0 as int) == Seq::<NodeHandle>::empty()
    &&& post.child_seq(new_parent.0 as int) == pre.child_seq(new_parent.0 as int) + moved
    &&& forall|k: int|
        0 <= k < moved.len() ==> post.nodes@[(#[trigger] moved[k]).0 as int].parent == Some(
            new_parent,
        ) && post.nodes@[moved[k].0 as int].data == pre.nodes@[moved[k].0 as int].data
            && post.child_seq(moved[k].0 as int) == pre.child_seq(moved[k].0 as int)
    &&& post.nodes@[node.0 as int].parent == pre.nodes@[node.0 as int].parent
    &&& post.nodes@[node.0 as int].data == pre.nodes@[node.0 as int].data
    &&& post.nodes@[new_parent.0 as int].parent == pre.nodes@[new_parent.0 as int].parent
    &&& post.nodes@[new_parent.0 as int].data == pre.nodes@[new_parent.0 as int].data
    &&& forall|i: int|
        0 <= i < pre.nodes@.len() && i != node.0 && i != new_parent.0 && !moved.contains(
            NodeHandle(i as usize),
        ) ==> (#[trigger] post.nodes@[i]).parent == pre.nodes@[i].parent && post.nodes@[i].data
            == pre.nodes@[i].data && post.child_seq(i) == pre.child_seq(i)
}

/// Resolves an append payload: an existing node passes through, raw text
/// becomes a fresh parentless Text node.
fn node_or_text_to_node(sink: &mut FlatSink, not: NodeOrText) -> (h: NodeHandle)
    requires
        old(sink).wf(),
    ensures
        final(sink).wf(),
        final(sink).root == old(sink).root,
        final(sink).pool == old(sink).pool,
        h == resolved_handle(*old(sink), not),
        not matches NodeOrText::AppendNode(n) ==> *final(sink) == *old(sink),
        not matches NodeOrText::AppendText(t) ==> {
            &&& h.0 == old(sink).nodes@.len()
            &&& final(sink).nodes@.len() == old(sink).nodes@.len() + 1
            &&& forall|i: int|
                0 <= i < old(sink).n_nodes() ==> final(sink).nodes@[i] == old(sink).nodes@[i]
            &&& forall|i: int|
                0 <= i < old(sink).n_nodes() ==> final(sink).child_seq(i) == old(sink).child_seq(i)
            &&& final(sink).nodes@[h.0 as int].data matches NodeData::Text { contents }
                && contents@ == t@
            &&& final(sink).nodes@[h.0 as int].parent is None
            &&& final(sink).child_seq(h.0 as int) == Seq::<NodeHandle>::empty()
        },
{
    match not {
        NodeOrText::AppendNode(handle) => handle,
        NodeOrText::AppendText(text) => sink.make_node(NodeData::Text { contents: text }),
    }
}

} // verus!
