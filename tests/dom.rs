use style_invalidation::dom::Dom;

#[test]
fn children_are_linked_in_order() {
    let mut dom = Dom::new();
    let root = dom.create_element(None);
    let a = dom.create_element(Some(root));
    let b = dom.create_element(Some(root));
    assert_eq!(dom.len(), 3);
    assert_eq!(dom.get(root).first_child, Some(a));
    assert_eq!(dom.get(root).last_child, Some(b));
    assert_eq!(dom.next_sibling_element(a), Some(b));
    assert_eq!(dom.prev_sibling_element(b), Some(a));
    assert_eq!(dom.next_sibling_element(b), None);
    assert_eq!(dom.get(a).parent, Some(root));
}

#[test]
fn classes_and_parts() {
    let mut dom = Dom::new();
    let e = dom.create_element(None);
    assert!(!dom.has_class(e, 1));
    dom.add_class(e, 1);
    assert!(dom.has_class(e, 1));
    assert!(!dom.has_part_attr(e));
    dom.add_part(e, 2);
    assert!(dom.has_part_attr(e));
    assert!(dom.has_part(e, 2));
    assert!(!dom.has_part(e, 3));
}

#[test]
fn shadow_roots_are_not_elements_and_are_kept() {
    let mut dom = Dom::new();
    let host = dom.create_element(None);
    let shadow = dom.attach_shadow(host);
    assert!(!dom.is_element(shadow));
    assert_eq!(dom.attach_shadow(host), shadow);
    assert_eq!(dom.get(host).shadow_root, Some(shadow));
}

#[test]
fn slot_assignment_must_point_forward() {
    let mut dom = Dom::new();
    let a = dom.create_element(None);
    let b = dom.create_element(None);
    assert!(!dom.assign_to_slot(b, a));
    assert!(!dom.assign_to_slot(a, 7));
    assert!(dom.assign_to_slot(a, b));
}
