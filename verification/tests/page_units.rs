use peripheral_ui::element::{Element, ElementKind};
use peripheral_ui::numfmt::u64_to_string;
use peripheral_ui::page::{DirtyKey, PageManager};
use peripheral_ui::path::UiPath;

#[test]
fn decimal_rendering_is_exact() {
    assert_eq!(u64_to_string(0), "0");
    assert_eq!(u64_to_string(7), "7");
    assert_eq!(u64_to_string(10), "10");
    assert_eq!(u64_to_string(35), "35");
    assert_eq!(u64_to_string(1000), "1000");
    assert_eq!(u64_to_string(u64::MAX), "18446744073709551615");
}

#[test]
fn fresh_manager_drains_empty_without_failure() {
    let mut m = PageManager::new("o".to_string(), "t".to_string());
    let batch = m.drain_changes();
    assert!(batch.is_empty());
}

#[test]
fn drain_twice_without_mutation_yields_empty_second_batch() {
    let mut m = PageManager::new("o".to_string(), "t".to_string());
    let root = UiPath::root();
    let mut labelled = Element::from_string("x");
    labelled.set_id("x");
    assert!(m.append_child_at(&root, labelled));
    assert!(m.set_text_by_id(&"x".to_string(), "y".to_string()));
    let first = m.drain_changes();
    assert_eq!(first.len(), 1);
    let second = m.drain_changes();
    assert!(second.is_empty());
}

#[test]
fn repeated_dirtying_collapses_into_latest_snapshot() {
    let mut m = PageManager::new("o".to_string(), "t".to_string());
    let root = UiPath::root();
    let mut labelled = Element::from_string("x");
    labelled.set_id("x");
    assert!(m.append_child_at(&root, labelled));
    let _ = m.drain_changes();
    assert!(m.set_text_by_id(&"x".to_string(), "first".to_string()));
    assert!(m.set_text_by_id(&"x".to_string(), "second".to_string()));
    let batch = m.drain_changes();
    assert_eq!(batch.len(), 1);
    match &batch[0].target {
        DirtyKey::ById(s) => assert_eq!(s, "x"),
        _ => panic!("the record must target the id"),
    }
    assert_eq!(batch[0].text, "second");
}

#[test]
fn out_of_range_paths_resolve_to_nothing() {
    let m = PageManager::new("o".to_string(), "t".to_string());
    let mut p = UiPath::root();
    p.push_step(0);
    assert!(m.resolve_by_path(&p).is_none());
    assert!(m.resolve_by_path(&UiPath::root()).is_some());
}

#[test]
fn absent_ids_fail_lookup_and_setters_recoverably() {
    let mut m = PageManager::new("o".to_string(), "t".to_string());
    assert!(m.resolve_by_id(&"ghost".to_string()).is_none());
    assert!(!m.set_text_by_id(&"ghost".to_string(), "v".to_string()));
    let batch = m.drain_changes();
    assert!(batch.is_empty());
}

#[test]
fn appended_children_keep_order_and_record_paths() {
    let mut m = PageManager::new("o".to_string(), "t".to_string());
    let root = UiPath::root();
    assert!(m.append_child_at(&root, Element::from_string("a")));
    let mut b = Element::from_string("b");
    b.set_id("b");
    assert!(m.append_child_at(&root, b));
    let mut p = UiPath::root();
    p.push_step(1);
    let el = m.resolve_by_path(&p).expect("second child must be at index 1");
    assert_eq!(el.text, "b");
    assert_eq!(el.id.as_deref(), Some("b"));
    let by_id = m.resolve_by_id(&"b".to_string()).expect("id must resolve");
    assert_eq!(by_id.text, "b");
}

#[test]
fn element_builders_set_each_attribute() {
    let mut e = Element::new(ElementKind::Columns);
    assert!(matches!(e.kind, ElementKind::Columns));
    e.set_kind(ElementKind::Button);
    assert!(matches!(e.kind, ElementKind::Button));
    e.set_text("label".to_string());
    assert_eq!(e.text, "label");
    e.set_selectable(true);
    assert!(e.selectable);
    e.set_id("k");
    assert_eq!(e.id.as_deref(), Some("k"));
    e.append_child(Element::from_string("child"));
    assert_eq!(e.children.len(), 1);
    assert_eq!(e.children[0].text, "child");
    let copy = e.duplicate();
    assert_eq!(copy.text, "label");
    assert_eq!(copy.children.len(), 1);
}

#[test]
fn setting_kind_at_root_marks_it_dirty_by_path() {
    let mut m = PageManager::new("o".to_string(), "t".to_string());
    let root = UiPath::root();
    assert!(m.set_kind_at(&root, ElementKind::Rows));
    let batch = m.drain_changes();
    assert_eq!(batch.len(), 1);
    match &batch[0].target {
        DirtyKey::ByPath(p) => assert!(p.steps.is_empty()),
        _ => panic!("the root has no id, so the record must target its path"),
    }
    assert!(matches!(batch[0].kind, ElementKind::Rows));
}
