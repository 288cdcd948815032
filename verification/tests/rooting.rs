//! The rooting discipline: reference-counted root guards, forced
//! collection cycles, and reclamation of unreachable slots.

use dom_core::chain::ElementType;
use dom_core::document::Document;

#[test]
fn root_counting_over_several_guards() {
    // N guards over one handle; dropping N-1 leaves the object reachable,
    // dropping the last makes it collectable.
    let mut doc = Document::new(1, 4);
    let g0 = doc
        .create_element(ElementType::Video, String::from("video"), None)
        .unwrap();
    let h = g0.handle();
    assert_eq!(doc.heap.root_count_of(h), 1);
    let g1 = doc.root(h);
    let g2 = doc.root(h);
    assert_eq!(doc.heap.root_count_of(h), 3);
    doc.unroot(g0);
    doc.unroot(g1);
    assert_eq!(doc.heap.root_count_of(h), 1);
    doc.collect();
    assert!(doc.heap.contains(h));
    doc.unroot(g2);
    assert_eq!(doc.heap.root_count_of(h), 0);
    doc.collect();
    assert!(!doc.heap.contains(h));
}

#[test]
fn forced_collection_while_rooted_keeps_state_intact() {
    // A collection cycle in the middle of setup: the rooted element and
    // its base-chain state survive untouched.
    let mut doc = Document::new(6, 4);
    let g = doc
        .create_element(
            ElementType::Video,
            String::from("video"),
            Some(String::from("html")),
        )
        .unwrap();
    let h = g.handle();
    let s = doc.script_object_of(h).unwrap();
    doc.collect();
    assert!(doc.heap.contains(h));
    assert_eq!(doc.heap.get(h).local_name(), "video");
    assert_eq!(doc.heap.get(h).prefix().as_deref(), Some("html"));
    assert_eq!(doc.heap.get(h).owning_document(), 6);
    assert_eq!(doc.heap.root_count_of(h), 1);
    assert_eq!(doc.script_object_of(h), Some(s));
    assert_eq!(doc.native_of(s), Some(h));
}

#[test]
fn collection_reclaims_unrooted_and_tears_down_wrapper() {
    let mut doc = Document::new(1, 4);
    let g = doc
        .create_element(ElementType::Media, String::from("audio"), None)
        .unwrap();
    let h = g.handle();
    let s = doc.script_object_of(h).unwrap();
    doc.unroot(g);
    doc.collect();
    assert!(!doc.heap.contains(h));
    // the wrapper side of the reflector link is torn down with the slot
    assert_eq!(doc.native_of(s), None);
}

#[test]
fn children_survive_through_a_rooted_ancestor() {
    let mut doc = Document::new(1, 8);
    let gp = doc
        .create_element(ElementType::Video, String::from("video"), None)
        .unwrap();
    let gc = doc
        .create_element(ElementType::Media, String::from("audio"), None)
        .unwrap();
    let hp = gp.handle();
    let hc = gc.handle();
    doc.append_child(hp, hc);
    // the child's own guard goes away; its rooted parent keeps it live
    doc.unroot(gc);
    doc.collect();
    assert!(doc.heap.contains(hp));
    assert!(doc.heap.contains(hc));
    assert_eq!(doc.heap.get(hc).node().parent, Some(hp.index));
}

#[test]
fn weak_parent_link_is_cleared_when_parent_is_reclaimed() {
    let mut doc = Document::new(1, 8);
    let gp = doc
        .create_element(ElementType::Video, String::from("video"), None)
        .unwrap();
    let gc = doc
        .create_element(ElementType::Media, String::from("audio"), None)
        .unwrap();
    let hp = gp.handle();
    let hc = gc.handle();
    doc.append_child(hp, hc);
    // the parent's guard goes away while the child stays rooted: the
    // parent is reclaimed (upward links are weak) and the child's stale
    // back-reference is cleared rather than left dangling
    doc.unroot(gp);
    doc.collect();
    assert!(!doc.heap.contains(hp));
    assert!(doc.heap.contains(hc));
    assert_eq!(doc.heap.get(hc).node().parent, None);
}

#[test]
fn removed_child_becomes_collectable() {
    let mut doc = Document::new(1, 8);
    let gp = doc
        .create_element(ElementType::Video, String::from("video"), None)
        .unwrap();
    let gc = doc
        .create_element(ElementType::Media, String::from("audio"), None)
        .unwrap();
    let hp = gp.handle();
    let hc = gc.handle();
    doc.append_child(hp, hc);
    doc.unroot(gc);
    // while owned by the rooted parent the child survives collection
    doc.collect();
    assert!(doc.heap.contains(hc));
    // detached and unrooted, it is reclaimed by the next cycle
    doc.remove_child(hp, hc);
    assert_eq!(doc.heap.child_count(hp), 0);
    assert_eq!(doc.heap.parent_of(hc), None);
    doc.collect();
    assert!(!doc.heap.contains(hc));
    assert!(doc.heap.contains(hp));
}

#[test]
fn exhaustion_is_fatal_and_reported() {
    let mut doc = Document::new(1, 1);
    let g = doc
        .create_element(ElementType::Video, String::from("video"), None)
        .unwrap();
    // every cell is live: even a forced collection cycle frees nothing
    let r = doc.create_element(ElementType::Media, String::from("audio"), None);
    assert!(matches!(r, Err(dom_core::heap::AllocError::Exhausted)));
    // releasing the only root makes the retry-after-collection succeed
    doc.unroot(g);
    let r2 = doc.create_element(ElementType::Media, String::from("audio"), None);
    assert!(r2.is_ok());
}
