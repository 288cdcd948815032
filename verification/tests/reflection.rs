//! The reflector protocol: exactly-once pairing of native slots with
//! scripting-runtime objects, and the round trip across the link.

use dom_core::chain::DomValue;
use dom_core::chain::ElementType;
use dom_core::chain::HTMLMediaElement;
use dom_core::document::Document;
use dom_core::document::ReflectError;
use dom_core::heap::AllocError;

#[test]
fn second_reflection_attempt_is_rejected() {
    let mut doc = Document::new(1, 4);
    let g = doc
        .create_element(ElementType::Video, String::from("video"), None)
        .unwrap();
    let h = g.handle();
    let s = doc.script_object_of(h).unwrap();
    // the element was reflected during construction; a second attempt is
    // rejected instead of silently creating a second wrapper
    let r = doc.reflect(h);
    assert!(matches!(r, Err(ReflectError::AlreadyReflected)));
    assert_eq!(doc.script_object_of(h), Some(s));
    assert_eq!(doc.objects.len(), 1);
}

#[test]
fn manual_reflection_happens_exactly_once() {
    let mut doc = Document::new(4, 4);
    let m = HTMLMediaElement::new_inherited(String::from("audio"), None, 4);
    let h = doc.heap.allocate(DomValue::Media(m)).unwrap();
    assert_eq!(doc.script_object_of(h), None);
    let g = doc.reflect(h).unwrap();
    assert_eq!(g.handle(), h);
    assert_eq!(doc.heap.root_count_of(h), 1);
    assert!(doc.script_object_of(h).is_some());
    let r = doc.reflect(h);
    assert!(matches!(r, Err(ReflectError::AlreadyReflected)));
}

#[test]
fn reflector_link_round_trips() {
    let mut doc = Document::new(1, 8);
    let gv = doc
        .create_element(ElementType::Video, String::from("video"), None)
        .unwrap();
    let gm = doc
        .create_element(ElementType::Media, String::from("audio"), None)
        .unwrap();
    let hv = gv.handle();
    let hm = gm.handle();
    let sv = doc.script_object_of(hv).unwrap();
    let sm = doc.script_object_of(hm).unwrap();
    assert_ne!(sv, sm);
    assert_eq!(doc.native_of(sv), Some(hv));
    assert_eq!(doc.native_of(sm), Some(hm));
}

#[test]
fn wrap_dispatch_records_the_leaf_class() {
    let mut doc = Document::new(1, 8);
    let gv = doc
        .create_element(ElementType::Video, String::from("video"), None)
        .unwrap();
    let gm = doc
        .create_element(ElementType::Media, String::from("audio"), None)
        .unwrap();
    let sv = doc.script_object_of(gv.handle()).unwrap();
    let sm = doc.script_object_of(gm.handle()).unwrap();
    let ov = doc.objects[sv.index].unwrap();
    let om = doc.objects[sm.index].unwrap();
    assert_eq!(ov.class, ElementType::Video);
    assert_eq!(om.class, ElementType::Media);
    assert_eq!(ov.native, gv.handle().index);
    assert_eq!(om.native, gm.handle().index);
}

#[test]
fn unbound_script_handles_resolve_to_nothing() {
    let doc = Document::new(1, 2);
    assert_eq!(
        doc.native_of(dom_core::document::ScriptHandle { index: 0 }),
        None
    );
}

#[test]
fn heap_exhaustion_reports_the_fatal_error() {
    let mut doc = Document::new(1, 1);
    let _g = doc
        .create_element(ElementType::Video, String::from("video"), None)
        .unwrap();
    let r = doc.create_element(ElementType::Video, String::from("video"), None);
    assert!(matches!(r, Err(AllocError::Exhausted)));
}
