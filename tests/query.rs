use ssim::components::ComponentSetId;
use ssim::query::{driving_set_index, Query, QueryFilter, SpatialPoint};

#[test]
fn sort_filters_orders_by_precedence() {
    let x = ComponentSetId(0);
    let y = ComponentSetId(1);
    let p = SpatialPoint { x: 1.0f64.to_bits(), y: 2.0f64.to_bits(), z: 3.0f64.to_bits() };
    let builder = Query::new().with(x).closer_than(10.0f64.to_bits(), p).not(y).sort_filters();
    assert_eq!(
        builder.filters(),
        &vec![
            QueryFilter::SpatialCloserThan(10.0f64.to_bits(), p),
            QueryFilter::ComponentNot(y),
            QueryFilter::ComponentAccess(x),
        ]
    );
}

#[test]
fn sorting_keeps_the_order_of_equal_precedence() {
    let p = SpatialPoint { x: 0, y: 0, z: 0 };
    let builder = Query::new()
        .with(ComponentSetId(3))
        .not(ComponentSetId(1))
        .changed(ComponentSetId(2))
        .with(ComponentSetId(4))
        .not(ComponentSetId(5))
        .any_changed(ComponentSetId(6))
        .further_than(7, p)
        .sort_filters();
    assert_eq!(
        builder.filters(),
        &vec![
            QueryFilter::ComponentChanged(ComponentSetId(2)),
            QueryFilter::ComponentAnyChanged(ComponentSetId(6)),
            QueryFilter::SpatialFurtherThan(7, p),
            QueryFilter::ComponentNot(ComponentSetId(1)),
            QueryFilter::ComponentNot(ComponentSetId(5)),
            QueryFilter::ComponentAccess(ComponentSetId(3)),
            QueryFilter::ComponentAccess(ComponentSetId(4)),
        ]
    );
}

#[test]
fn make_drops_the_access_declarations() {
    let query = Query::new()
        .with(ComponentSetId(3))
        .not(ComponentSetId(1))
        .with(ComponentSetId(4))
        .make();
    assert_eq!(query.components(), &vec![ComponentSetId(3), ComponentSetId(4)]);
    assert_eq!(query.filters(), &vec![QueryFilter::ComponentNot(ComponentSetId(1))]);
    let empty = Query::new().make();
    assert!(empty.components().is_empty());
    assert!(empty.filters().is_empty());
}

#[test]
fn precedence_values() {
    let p = SpatialPoint { x: 0, y: 0, z: 0 };
    assert_eq!(QueryFilter::ComponentChanged(ComponentSetId(0)).precedence(), 10);
    assert_eq!(QueryFilter::SpatialCloserThan(0, p).precedence(), 10);
    assert_eq!(QueryFilter::ComponentNot(ComponentSetId(0)).precedence(), 20);
    assert_eq!(QueryFilter::ComponentWrite(ComponentSetId(0)).precedence(), 1000);
    assert!(QueryFilter::ComponentAccess(ComponentSetId(0)).is_access());
    assert!(!QueryFilter::ComponentNot(ComponentSetId(0)).is_access());
}

#[test]
fn driving_set_is_the_first_smallest() {
    assert_eq!(driving_set_index(&vec![]), None);
    assert_eq!(driving_set_index(&vec![5]), Some(0));
    assert_eq!(driving_set_index(&vec![5, 2, 9, 2]), Some(1));
    assert_eq!(driving_set_index(&vec![0, 0]), Some(0));
}
