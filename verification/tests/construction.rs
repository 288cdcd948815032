//! Element construction through the embedding chain: identity handed over
//! at construction time, leaf-type distinction, and tree attachment.

use dom_core::chain::ElementType;
use dom_core::chain::HTMLMediaElement;
use dom_core::chain::HTMLVideoElement;
use dom_core::document::Document;
use dom_core::heap::HeapSlot;

#[test]
fn video_element_scenario() {
    // A video-type element with local name "video", no prefix, under
    // document 7: owning document, name and absent prefix all match, and
    // the leaf type is distinguishable from an identically built media one.
    let mut doc = Document::new(7, 16);
    let gv = doc
        .create_element(ElementType::Video, String::from("video"), None)
        .unwrap();
    let hv = gv.handle();
    assert!(doc.heap.contains(hv));
    let v = doc.heap.get(hv);
    assert_eq!(v.local_name(), "video");
    assert!(v.prefix().is_none());
    assert_eq!(v.owning_document(), 7);
    assert_eq!(v.element_type(), ElementType::Video);

    let gm = doc
        .create_element(ElementType::Media, String::from("video"), None)
        .unwrap();
    let hm = gm.handle();
    let m = doc.heap.get(hm);
    assert_eq!(m.local_name(), "video");
    assert_eq!(m.owning_document(), 7);
    assert_eq!(m.element_type(), ElementType::Media);
    assert_ne!(
        doc.heap.get(hv).element_type(),
        doc.heap.get(hm).element_type()
    );
}

#[test]
fn owning_document_is_permanent() {
    let mut doc = Document::new(42, 8);
    let gp = doc
        .create_element(ElementType::Video, String::from("video"), None)
        .unwrap();
    let gc = doc
        .create_element(ElementType::Media, String::from("audio"), None)
        .unwrap();
    let hp = gp.handle();
    let hc = gc.handle();
    doc.heap.append_child(hp, hc);
    doc.collect();
    assert_eq!(doc.heap.get(hp).owning_document(), 42);
    assert_eq!(doc.heap.get(hc).owning_document(), 42);
}

#[test]
fn local_name_and_prefix_are_immutable() {
    let mut doc = Document::new(1, 8);
    let g = doc
        .create_element(
            ElementType::Video,
            String::from("video"),
            Some(String::from("html")),
        )
        .unwrap();
    let h = g.handle();
    assert_eq!(doc.heap.get(h).local_name(), "video");
    assert_eq!(
        doc.heap.get(h).prefix().as_deref(),
        Some("html")
    );
    // rooting, reflection bookkeeping and a full collection cycle leave
    // the identity untouched
    let g2 = doc.root(h);
    doc.collect();
    doc.unroot(g2);
    assert_eq!(doc.heap.get(h).local_name(), "video");
    assert_eq!(doc.heap.get(h).prefix().as_deref(), Some("html"));
    assert_eq!(doc.heap.get(h).owning_document(), 1);
}

#[test]
fn new_inherited_builds_detached_chain() {
    let v = HTMLVideoElement::new_inherited(String::from("video"), None, 3);
    assert_eq!(v.htmlmediaelement.element.node.local_name, "video");
    assert_eq!(v.htmlmediaelement.element.node.doc, 3);
    assert!(v.htmlmediaelement.element.node.parent.is_none());
    assert_eq!(v.htmlmediaelement.element.node.children.len(), 0);
    // the media level underneath carries the same identity
    let m = v.htmlmediaelement();
    assert_eq!(m.element().node().local_name, "video");

    let m2 = HTMLMediaElement::new_inherited(String::from("audio"), Some(String::from("p")), 3);
    assert_eq!(m2.element.node.prefix.as_deref(), Some("p"));
}

#[test]
fn html_video_element_new_returns_rooted_reflected_handle() {
    let mut doc = Document::new(9, 4);
    let g = HTMLVideoElement::new(String::from("video"), None, &mut doc).unwrap();
    let h = g.handle();
    assert!(doc.heap.contains(h));
    assert_eq!(doc.heap.root_count_of(h), 1);
    assert!(doc.script_object_of(h).is_some());
    assert_eq!(doc.heap.get(h).element_type(), ElementType::Video);
}

#[test]
fn append_child_links_both_directions() {
    let mut doc = Document::new(5, 8);
    let gp = doc
        .create_element(ElementType::Video, String::from("video"), None)
        .unwrap();
    let gc1 = doc
        .create_element(ElementType::Media, String::from("audio"), None)
        .unwrap();
    let gc2 = doc
        .create_element(ElementType::Media, String::from("track"), None)
        .unwrap();
    let hp = gp.handle();
    let hc1 = gc1.handle();
    let hc2 = gc2.handle();
    doc.heap.append_child(hp, hc1);
    doc.heap.append_child(hp, hc2);
    let parent_node = doc.heap.get(hp).node();
    assert_eq!(parent_node.children, vec![hc1.index, hc2.index]);
    assert!(parent_node.parent.is_none());
    let child_node = doc.heap.get(hc1).node();
    assert_eq!(child_node.parent, Some(hp.index));
    assert_eq!(child_node.depth, 1);
    // the same structure through the tree-layer accessors, in sibling order
    assert_eq!(doc.heap.parent_of(hp), None);
    assert_eq!(doc.heap.parent_of(hc1), Some(hp));
    assert_eq!(doc.heap.parent_of(hc2), Some(hp));
    assert_eq!(doc.heap.child_count(hp), 2);
    assert_eq!(doc.heap.child_at(hp, 0), hc1);
    assert_eq!(doc.heap.child_at(hp, 1), hc2);
    assert!(doc.heap.is_rooted(hp));
}

#[test]
fn trace_reports_owning_links_only() {
    let mut doc = Document::new(5, 8);
    let gp = doc
        .create_element(ElementType::Video, String::from("video"), None)
        .unwrap();
    let gc = doc
        .create_element(ElementType::Media, String::from("audio"), None)
        .unwrap();
    let hp = gp.handle();
    let hc = gc.handle();
    doc.heap.append_child(hp, hc);
    // the parent's enumeration holds exactly its owning child links
    assert_eq!(doc.heap.get(hp).trace(), vec![hc.index]);
    // the child's enumeration is empty: the upward link is weak and the
    // owning-document back-reference is not a heap reference
    assert_eq!(doc.heap.get(hc).trace(), Vec::<usize>::new());
}

#[test]
fn allocation_reuses_reclaimed_cells() {
    let mut doc = Document::new(2, 2);
    let g = doc
        .create_element(ElementType::Media, String::from("audio"), None)
        .unwrap();
    let h = g.handle();
    doc.unroot(g);
    doc.collect();
    assert!(!doc.heap.contains(HeapSlot { index: h.index }));
    // the freed cell is available again
    let g2 = doc
        .create_element(ElementType::Video, String::from("video"), None)
        .unwrap();
    assert!(doc.heap.contains(g2.handle()));
}
