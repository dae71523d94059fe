use ssim::components::{ComponentSet, ComponentSetId};

#[test]
fn component_set_checks_its_handle() {
    let id = ComponentSetId(2);
    let mut set: ComponentSet<f32> = ComponentSet::new(id);
    assert_eq!(set.len(), 0);
    assert_eq!(set.insert(4, 1.5), None);
    assert_eq!(set.insert(4, 2.5), Some(1.5));
    assert_eq!(set.insert(6, 3.5), None);
    assert_eq!(set.len(), 2);
    assert!(set.contains(id));
    assert!(!set.contains(ComponentSetId(3)));
    assert_eq!(set.id(), id);
    assert!(set.raw_set(ComponentSetId(3)).is_none());
    assert_eq!(set.raw_set(id).unwrap().get(4), Some(&2.5));
    assert_eq!(set.remove(4), Some(2.5));
    assert_eq!(set.remove(4), None);
    assert_eq!(set.len(), 1);
}
