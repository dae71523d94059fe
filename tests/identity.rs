use ssim::components::ComponentSetId;
use ssim::identity::{InternalTypeId, TypeRegistry};

#[test]
fn test_internal_type_ids() {
    struct A;
    struct B(usize);
    struct C<T>(T);

    let tida = InternalTypeId::of::<A>();
    let tidb = InternalTypeId::of::<B>();
    let tidc = InternalTypeId::of::<C<u32>>();
    let tidd = InternalTypeId::of::<C<f64>>();
    let tide = InternalTypeId::of::<C<A>>();
    let tidf = InternalTypeId::of::<C<B>>();
    let tidg = InternalTypeId::of::<C<C<A>>>();
    let tidh = InternalTypeId::of::<C<C<B>>>();

    let iteration_count: usize = 100;
    let mut iterations = 0;
    while iterations < iteration_count {
        let tid0 = InternalTypeId::of::<A>();
        let tid1 = InternalTypeId::of::<B>();
        let tid2 = InternalTypeId::of::<C<u32>>();
        let tid3 = InternalTypeId::of::<C<f64>>();
        let tid4 = InternalTypeId::of::<C<A>>();
        let tid5 = InternalTypeId::of::<C<B>>();
        let tid6 = InternalTypeId::of::<C<C<A>>>();
        let tid7 = InternalTypeId::of::<C<C<B>>>();

        assert!(tid0 != tid1 && tid1 != tid2 && tid2 != tid3 && tid3 != tid4 && tid4 != tid5 && tid5 != tid6 && tid6 != tid7 && tid7 != tid0);
        assert!(tid0 == tida && tid1 == tidb && tid2 == tidc && tid3 == tidd && tid4 == tide && tid5 == tidf && tid6 == tidg && tid7 == tidh);

        assert_eq!(tida, InternalTypeId::of::<A>());
        assert_eq!(tidb, InternalTypeId::of::<B>());
        assert_eq!(tidc, InternalTypeId::of::<C<u32>>());
        assert_eq!(tidd, InternalTypeId::of::<C<f64>>());
        assert_eq!(tide, InternalTypeId::of::<C<A>>());
        assert_eq!(tidf, InternalTypeId::of::<C<B>>());
        assert_eq!(tidg, InternalTypeId::of::<C<C<A>>>());
        assert_eq!(tidh, InternalTypeId::of::<C<C<B>>>());

        assert_ne!(tida, InternalTypeId::of::<B>());
        assert_ne!(tidb, InternalTypeId::of::<A>());

        assert_ne!(tidg, InternalTypeId::of::<C<C<B>>>());
        assert_ne!(tidh, InternalTypeId::of::<C<C<A>>>());

        iterations += 1;
    }
}

#[test]
fn same_compares_identities() {
    let a = InternalTypeId::of::<u8>();
    assert!(a.same(&InternalTypeId::of::<u8>()));
    assert!(!a.same(&InternalTypeId::of::<i8>()));
}

#[test]
fn registry_hands_out_sequential_handles_once() {
    let mut reg = TypeRegistry::new();
    assert_eq!(reg.len(), 0);
    assert_eq!(reg.handle_of::<u8>(), 0);
    assert_eq!(reg.handle_of::<String>(), 1);
    assert_eq!(reg.handle_of::<u8>(), 0);
    assert_eq!(reg.handle(InternalTypeId::of::<bool>()), 2);
    assert_eq!(reg.lookup(&InternalTypeId::of::<String>()), Some(1));
    assert_eq!(reg.lookup(&InternalTypeId::of::<i64>()), None);
    assert_eq!(reg.len(), 3);
}

#[test]
fn component_set_ids_are_registry_handles() {
    let mut reg = TypeRegistry::new();
    let a = ComponentSetId::of::<u32>(&mut reg);
    let b = ComponentSetId::of::<i32>(&mut reg);
    assert_eq!(a, ComponentSetId(0));
    assert_eq!(b.index(), 1);
    assert_eq!(ComponentSetId::of::<u32>(&mut reg), a);
    assert_eq!(reg.len(), 2);
}
