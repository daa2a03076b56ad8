use html5ever_flat_dom::common::Attribute;
use html5ever_flat_dom::common::ElementFlags;
use html5ever_flat_dom::common::QualName;
use html5ever_flat_dom::flat_dom::FlatSink;
use html5ever_flat_dom::flat_dom::NodeData;
use html5ever_flat_dom::flat_dom::NodeHandle;
use html5ever_flat_dom::flat_dom::NodeOrText;
use html5ever_flat_dom::pool::PoolOrVec;
use html5ever_flat_dom::Html5everExError;

fn qn(local: &str) -> QualName {
    QualName { prefix: None, ns: String::new(), local: local.to_string() }
}

fn attr(local: &str, value: &str) -> Attribute {
    Attribute { name: qn(local), value: value.to_string() }
}

fn plain_flags() -> ElementFlags {
    ElementFlags { template: false, mathml_annotation_xml_integration_point: false }
}

fn new_element(sink: &mut FlatSink, local: &str) -> NodeHandle {
    sink.create_element(qn(local), Vec::new(), plain_flags())
}

fn children_of(sink: &FlatSink, h: NodeHandle) -> Vec<NodeHandle> {
    sink.node(h).children.iter(&sink.pool)
}

#[test]
fn document_root_is_handle_zero() {
    let sink = FlatSink::new();
    assert_eq!(sink.root(), NodeHandle(0));
    assert_eq!(sink.get_document(), NodeHandle(0));
    assert!(matches!(sink.node(NodeHandle(0)).data, NodeData::Document));
    assert!(sink.node(NodeHandle(0)).parent.is_none());
}

#[test]
fn handles_increase_and_are_never_reused() {
    let mut sink = FlatSink::new();
    let a = new_element(&mut sink, "a");
    let b = new_element(&mut sink, "b");
    let root = sink.root();
    sink.append(&root, NodeOrText::AppendNode(a));
    sink.append(&a, NodeOrText::AppendNode(b));
    assert_eq!(a, NodeHandle(1));
    assert_eq!(b, NodeHandle(2));
    // removal keeps the slot and the id occupied
    sink.remove_from_parent(&b);
    let c = new_element(&mut sink, "c");
    assert_eq!(c, NodeHandle(3));
    assert_eq!(sink.node(b).id, b);
    assert!(matches!(sink.node(b).data, NodeData::Element { .. }));
}

#[test]
fn parent_and_child_lists_agree() {
    let mut sink = FlatSink::new();
    let root = sink.root();
    let p = new_element(&mut sink, "p");
    let q = new_element(&mut sink, "q");
    sink.append(&root, NodeOrText::AppendNode(p));
    sink.append(&p, NodeOrText::AppendNode(q));
    assert_eq!(sink.node(p).parent, Some(root));
    assert_eq!(sink.node(q).parent, Some(p));
    assert_eq!(children_of(&sink, root), vec![p]);
    assert_eq!(children_of(&sink, p), vec![q]);
    let hits = children_of(&sink, p).iter().filter(|h| **h == q).count();
    assert_eq!(hits, 1);
}

#[test]
fn append_order_p_hello() {
    // the instruction stream a parse of `<p>Hello</p>` drives into the
    // sink for the paragraph itself
    let mut sink = FlatSink::new();
    let root = sink.root();
    let p = new_element(&mut sink, "p");
    sink.append(&root, NodeOrText::AppendNode(p));
    sink.append(&p, NodeOrText::AppendText("Hello".to_string()));
    assert_eq!(children_of(&sink, root), vec![p]);
    match &sink.node(p).data {
        NodeData::Element { name, .. } => assert_eq!(name.local, "p"),
        _ => panic!("p is not an element"),
    }
    let p_children = children_of(&sink, p);
    assert_eq!(p_children.len(), 1);
    let text = p_children[0];
    match &sink.node(text).data {
        NodeData::Text { contents } => assert_eq!(contents, "Hello"),
        _ => panic!("child of p is not text"),
    }
    assert_eq!(sink.node(text).parent, Some(p));
}

#[test]
fn add_attrs_first_write_wins() {
    let mut sink = FlatSink::new();
    let e = sink.create_element(qn("div"), vec![attr("class", "a")], plain_flags());
    sink.add_attrs_if_missing(&e, vec![attr("class", "b"), attr("id", "x")]);
    match &sink.node(e).data {
        NodeData::Element { attrs, .. } => {
            assert_eq!(attrs.len(), 2);
            assert_eq!(attrs[0].name.local, "class");
            assert_eq!(attrs[0].value, "a");
            assert_eq!(attrs[1].name.local, "id");
            assert_eq!(attrs[1].value, "x");
        }
        _ => panic!("not an element"),
    }
}

#[test]
fn add_attrs_candidate_blocks_later_duplicate() {
    let mut sink = FlatSink::new();
    let e = sink.create_element(qn("div"), Vec::new(), plain_flags());
    sink.add_attrs_if_missing(&e, vec![attr("id", "x"), attr("id", "y")]);
    match &sink.node(e).data {
        NodeData::Element { attrs, .. } => {
            assert_eq!(attrs.len(), 1);
            assert_eq!(attrs[0].name.local, "id");
            assert_eq!(attrs[0].value, "x");
        }
        _ => panic!("not an element"),
    }
}

#[test]
fn sibling_insertion_promotes_the_child_list() {
    let mut sink = FlatSink::new();
    let p = new_element(&mut sink, "p");
    let a = new_element(&mut sink, "a");
    let b = new_element(&mut sink, "b");
    let c = new_element(&mut sink, "c");
    sink.append(&p, NodeOrText::AppendNode(a));
    sink.append(&p, NodeOrText::AppendNode(b));
    sink.append(&p, NodeOrText::AppendNode(c));
    assert!(matches!(sink.node(p).children, PoolOrVec::Pool { .. }));
    let x = new_element(&mut sink, "x");
    sink.append_before_sibling(&b, NodeOrText::AppendNode(x));
    assert_eq!(children_of(&sink, p), vec![a, x, b, c]);
    assert!(matches!(sink.node(p).children, PoolOrVec::Owned { .. }));
    assert_eq!(sink.node(x).parent, Some(p));
}

#[test]
fn reparent_moves_children_in_order() {
    let mut sink = FlatSink::new();
    let node = new_element(&mut sink, "old");
    let a = new_element(&mut sink, "a");
    let b = new_element(&mut sink, "b");
    sink.append(&node, NodeOrText::AppendNode(a));
    sink.append(&node, NodeOrText::AppendNode(b));
    let new_parent = new_element(&mut sink, "new");
    let c = new_element(&mut sink, "c");
    sink.append(&new_parent, NodeOrText::AppendNode(c));
    sink.reparent_children(&node, &new_parent);
    assert_eq!(children_of(&sink, node), Vec::<NodeHandle>::new());
    assert_eq!(children_of(&sink, new_parent), vec![c, a, b]);
    assert_eq!(sink.node(a).parent, Some(new_parent));
    assert_eq!(sink.node(b).parent, Some(new_parent));
}

#[test]
fn append_based_on_parent_node_dispatches() {
    let mut sink = FlatSink::new();
    let root = sink.root();
    let fallback = new_element(&mut sink, "fallback");
    sink.append(&root, NodeOrText::AppendNode(fallback));
    // the element has no parent: the fallback parent receives the child
    let detached = new_element(&mut sink, "detached");
    let x = new_element(&mut sink, "x");
    sink.append_based_on_parent_node(&detached, &fallback, NodeOrText::AppendNode(x));
    assert_eq!(children_of(&sink, fallback), vec![x]);
    // the element has a parent: the child lands right before it
    let y = new_element(&mut sink, "y");
    sink.append_based_on_parent_node(&x, &fallback, NodeOrText::AppendNode(y));
    assert_eq!(children_of(&sink, fallback), vec![y, x]);
}

#[test]
fn doctype_is_appended_under_the_root() {
    let mut sink = FlatSink::new();
    sink.append_doctype_to_document(
        "html".to_string(),
        "pub".to_string(),
        "sys".to_string(),
    );
    let root = sink.root();
    let kids = children_of(&sink, root);
    assert_eq!(kids.len(), 1);
    match &sink.node(kids[0]).data {
        NodeData::DocType { name, public_id, system_id } => {
            assert_eq!(name, "html");
            assert_eq!(public_id, "pub");
            assert_eq!(system_id, "sys");
        }
        _ => panic!("not a doctype"),
    }
    assert_eq!(sink.node(kids[0]).parent, Some(root));
}

#[test]
fn template_element_records_nested_document() {
    let mut sink = FlatSink::new();
    let t = sink.create_element(
        qn("template"),
        Vec::new(),
        ElementFlags { template: true, mathml_annotation_xml_integration_point: false },
    );
    let contents = sink.get_template_contents(&t);
    assert!(matches!(sink.node(contents).data, NodeData::Document));
    assert!(sink.node(contents).parent.is_none());
    match &sink.node(t).data {
        NodeData::Element { template_contents, .. } => {
            assert_eq!(*template_contents, Some(contents));
        }
        _ => panic!("not an element"),
    }
}

#[test]
fn elem_name_and_same_node() {
    let mut sink = FlatSink::new();
    let e = sink.create_element(qn("span"), Vec::new(), plain_flags());
    assert_eq!(sink.elem_name(&e).local, "span");
    assert!(sink.same_node(&e, &e));
    let f = new_element(&mut sink, "div");
    assert!(!sink.same_node(&e, &f));
}

#[test]
fn mark_script_already_started_is_unsupported() {
    let mut sink = FlatSink::new();
    let e = new_element(&mut sink, "script");
    assert_eq!(
        sink.mark_script_already_started(&e),
        Err(Html5everExError::UnsupportedOperation)
    );
    // a parse-error notification is informational: building goes on
    sink.parse_error("unexpected token");
    let f = new_element(&mut sink, "p");
    assert_eq!(f, NodeHandle(2));
}

#[test]
fn finish_freezes_the_arena() {
    let mut sink = FlatSink::new();
    let p = new_element(&mut sink, "p");
    let root = sink.root();
    sink.append(&root, NodeOrText::AppendNode(p));
    let frozen = sink.finish();
    assert_eq!(frozen.node(p).parent, Some(root));
    assert_eq!(frozen.nodes.len(), 2);
}

#[test]
fn removed_node_can_be_appended_elsewhere() {
    let mut sink = FlatSink::new();
    let root = sink.root();
    let table = new_element(&mut sink, "table");
    let div = new_element(&mut sink, "div");
    sink.append(&root, NodeOrText::AppendNode(table));
    sink.append(&root, NodeOrText::AppendNode(div));
    let stray = new_element(&mut sink, "b");
    sink.append(&table, NodeOrText::AppendNode(stray));
    // the tree builder re-homes the node: detach, then append elsewhere
    sink.remove_from_parent(&stray);
    assert!(sink.node(stray).parent.is_none());
    assert_eq!(children_of(&sink, table), Vec::<NodeHandle>::new());
    sink.append(&div, NodeOrText::AppendNode(stray));
    assert_eq!(sink.node(stray).parent, Some(div));
    assert_eq!(children_of(&sink, div), vec![stray]);
}

#[test]
fn node_mut_gives_write_access_by_handle() {
    let mut sink = FlatSink::new();
    let p = new_element(&mut sink, "p");
    sink.append(&p, NodeOrText::AppendText("Hi".to_string()));
    let text = children_of(&sink, p)[0];
    match &mut sink.node_mut(text).data {
        NodeData::Text { contents } => contents.push_str(" there"),
        _ => panic!("not a text node"),
    }
    match &sink.node(text).data {
        NodeData::Text { contents } => assert_eq!(contents, "Hi there"),
        _ => panic!("not a text node"),
    }
}

#[test]
fn text_appends_do_not_coalesce_in_the_sink() {
    // adjacent text is coalesced by the external builder's instruction
    // stream, never by the sink itself
    let mut sink = FlatSink::new();
    let p = new_element(&mut sink, "p");
    sink.append(&p, NodeOrText::AppendText("a".to_string()));
    sink.append(&p, NodeOrText::AppendText("b".to_string()));
    assert_eq!(children_of(&sink, p).len(), 2);
}
