use html5ever_flat_dom::common::Attribute;
use html5ever_flat_dom::common::ElementFlags;
use html5ever_flat_dom::common::QualName;
use html5ever_flat_dom::flat_dom::FlatSink;
use html5ever_flat_dom::flat_dom::NodeHandle;
use html5ever_flat_dom::flat_dom::NodeOrText;
use html5ever_flat_dom::materialize::flat_sink_to_flat_term;
use html5ever_flat_dom::materialize::flat_sink_to_rec_term;
use html5ever_flat_dom::materialize::FlatData;
use html5ever_flat_dom::materialize::FlatDoc;
use html5ever_flat_dom::materialize::RecTerm;
use html5ever_flat_dom::validate_utf8;
use html5ever_flat_dom::Html5everExError;

fn qn(local: &str) -> QualName {
    QualName { prefix: None, ns: String::new(), local: local.to_string() }
}

fn attr(local: &str, value: &str) -> Attribute {
    Attribute { name: qn(local), value: value.to_string() }
}

fn plain_flags() -> ElementFlags {
    ElementFlags { template: false, mathml_annotation_xml_integration_point: false }
}

/// A parse of `<p class="x">Hello<!--note--></p>` as the sink sees it.
fn sample_sink() -> FlatSink {
    let mut sink = FlatSink::new();
    let root = sink.root();
    let p = sink.create_element(qn("p"), vec![attr("class", "x")], plain_flags());
    sink.append(&root, NodeOrText::AppendNode(p));
    sink.append(&p, NodeOrText::AppendText("Hello".to_string()));
    let comment = sink.create_comment("note".to_string());
    sink.append(&p, NodeOrText::AppendNode(comment));
    sink.finish()
}

#[test]
fn flat_form_keeps_every_node() {
    let sink = sample_sink();
    let doc = flat_sink_to_flat_term(&sink, false);
    assert_eq!(doc.root, NodeHandle(0));
    assert_eq!(doc.nodes.len(), 4);
    assert!(matches!(doc.nodes[0].data, FlatData::Document));
    assert_eq!(doc.nodes[0].children, vec![NodeHandle(1)]);
    match &doc.nodes[1].data {
        FlatData::Element { name, attrs } => {
            assert_eq!(name, "p");
            assert_eq!(attrs.len(), 1);
            assert_eq!(attrs[0].name, "class");
            assert_eq!(attrs[0].value, "x");
        }
        _ => panic!("node 1 is not an element record"),
    }
    assert_eq!(doc.nodes[1].parent, Some(NodeHandle(0)));
    assert_eq!(doc.nodes[1].children, vec![NodeHandle(2), NodeHandle(3)]);
    match &doc.nodes[2].data {
        FlatData::Text { contents } => assert_eq!(contents, "Hello"),
        _ => panic!("node 2 is not a text record"),
    }
    match &doc.nodes[3].data {
        FlatData::Comment { contents } => assert_eq!(contents, "note"),
        _ => panic!("node 3 is not a comment record"),
    }
}

#[test]
fn nested_form_drops_comments_and_unwraps_the_root() {
    let sink = sample_sink();
    let terms = flat_sink_to_rec_term(&sink, false);
    assert_eq!(terms.len(), 1);
    match &terms[0] {
        RecTerm::Element { name, attrs, children } => {
            assert_eq!(name, "p");
            assert_eq!(attrs.len(), 1);
            assert_eq!(attrs[0].name, "class");
            assert_eq!(attrs[0].value, "x");
            assert_eq!(children.len(), 1);
            match &children[0] {
                RecTerm::Text { contents } => assert_eq!(contents, "Hello"),
                _ => panic!("child is not text"),
            }
        }
        _ => panic!("term is not an element"),
    }
}

#[test]
fn nested_form_of_empty_document_is_empty() {
    let sink = FlatSink::new();
    let terms = flat_sink_to_rec_term(&sink, false);
    assert_eq!(terms.len(), 0);
    let doc = flat_sink_to_flat_term(&sink, false);
    assert_eq!(doc.nodes.len(), 1);
}

#[test]
fn nested_form_keeps_doctype() {
    let mut sink = FlatSink::new();
    sink.append_doctype_to_document("html".to_string(), "".to_string(), "".to_string());
    let terms = flat_sink_to_rec_term(&sink, false);
    assert_eq!(terms.len(), 1);
    match &terms[0] {
        RecTerm::DocType { name, public_id, system_id } => {
            assert_eq!(name, "html");
            assert_eq!(public_id, "");
            assert_eq!(system_id, "");
        }
        _ => panic!("term is not a doctype"),
    }
}

#[test]
fn attribute_pairs_keep_duplicates_in_order() {
    let mut sink = FlatSink::new();
    let e = sink.create_element(
        qn("div"),
        vec![attr("class", "a"), attr("id", "i"), attr("class", "b")],
        plain_flags(),
    );
    let root = sink.root();
    sink.append(&root, NodeOrText::AppendNode(e));
    let doc = flat_sink_to_flat_term(&sink, false);
    match &doc.nodes[1].data {
        FlatData::Element { attrs, .. } => {
            let pairs: Vec<(&str, &str)> =
                attrs.iter().map(|a| (a.name.as_str(), a.value.as_str())).collect();
            assert_eq!(pairs, vec![("class", "a"), ("id", "i"), ("class", "b")]);
        }
        _ => panic!("not an element record"),
    }
}

#[test]
fn attribute_map_lets_later_duplicates_overwrite() {
    let mut sink = FlatSink::new();
    let e = sink.create_element(
        qn("div"),
        vec![attr("class", "a"), attr("id", "i"), attr("class", "b")],
        plain_flags(),
    );
    let root = sink.root();
    sink.append(&root, NodeOrText::AppendNode(e));
    let doc = flat_sink_to_flat_term(&sink, true);
    match &doc.nodes[1].data {
        FlatData::Element { attrs, .. } => {
            let pairs: Vec<(&str, &str)> =
                attrs.iter().map(|a| (a.name.as_str(), a.value.as_str())).collect();
            assert_eq!(pairs, vec![("class", "b"), ("id", "i")]);
        }
        _ => panic!("not an element record"),
    }
}

/// Walks a run of flat child ids and the corresponding nested values side
/// by side, checking structural equivalence; comment and
/// processing-instruction records are present only in the flat form.
fn assert_walks_agree(doc: &FlatDoc, ids: &[NodeHandle], terms: &[RecTerm]) {
    let mut t: usize = 0;
    for id in ids {
        let record = &doc.nodes[id.0];
        match &record.data {
            FlatData::Comment { .. } | FlatData::ProcessingInstruction { .. } => {}
            FlatData::Element { name, attrs } => {
                match &terms[t] {
                    RecTerm::Element { name: n2, attrs: a2, children } => {
                        assert_eq!(n2, name);
                        assert_eq!(a2.len(), attrs.len());
                        for (x, y) in a2.iter().zip(attrs.iter()) {
                            assert_eq!(x.name, y.name);
                            assert_eq!(x.value, y.value);
                        }
                        assert_walks_agree(doc, &record.children, children);
                    }
                    _ => panic!("nested walk saw no element where the flat walk did"),
                }
                t += 1;
            }
            FlatData::Text { contents } => {
                match &terms[t] {
                    RecTerm::Text { contents: c2 } => assert_eq!(c2, contents),
                    _ => panic!("nested walk saw no text where the flat walk did"),
                }
                t += 1;
            }
            FlatData::DocType => {
                assert!(matches!(&terms[t], RecTerm::DocType { .. }));
                t += 1;
            }
            FlatData::Document => panic!("a document record inside the tree"),
        }
    }
    assert_eq!(t, terms.len());
}

#[test]
fn flat_and_nested_walks_visit_the_same_nodes() {
    let mut sink = FlatSink::new();
    let root = sink.root();
    sink.append_doctype_to_document("html".to_string(), "".to_string(), "".to_string());
    let html = sink.create_element(qn("html"), Vec::new(), plain_flags());
    sink.append(&root, NodeOrText::AppendNode(html));
    let body = sink.create_element(qn("body"), vec![attr("class", "c")], plain_flags());
    sink.append(&html, NodeOrText::AppendNode(body));
    let note = sink.create_comment("skip me".to_string());
    sink.append(&body, NodeOrText::AppendNode(note));
    sink.append(&body, NodeOrText::AppendText("one".to_string()));
    let em = sink.create_element(qn("em"), Vec::new(), plain_flags());
    sink.append(&body, NodeOrText::AppendNode(em));
    sink.append(&em, NodeOrText::AppendText("two".to_string()));
    let frozen = sink.finish();
    let doc = flat_sink_to_flat_term(&frozen, false);
    let terms = flat_sink_to_rec_term(&frozen, false);
    assert_walks_agree(&doc, &doc.nodes[0].children, &terms);
}

#[test]
fn invalid_bytes_are_fatal_before_construction() {
    let r = validate_utf8(&[0xff, 0xfe, 0x01]);
    assert_eq!(r, Err(Html5everExError::InvalidEncoding));
}

#[test]
fn valid_bytes_decode_to_their_text() {
    let r = validate_utf8(b"p\xC3\xA9re");
    assert_eq!(r.unwrap(), "p\u{e9}re");
    let empty = validate_utf8(&[]);
    assert_eq!(empty.unwrap(), "");
}
