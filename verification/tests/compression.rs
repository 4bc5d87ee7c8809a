use std::cell::RefCell;

use redstone_compiler::ir::routable::{RoutableDesign, RoutableInstance, RoutableModule, RoutableModuleBody};
use redstone_compiler::transform::place_and_route::compression::{
    compress, compression_intent, default_ladder, place_and_route_with_compression, volume, CompressionError,
    DesignCompressionError,
    PhysicalConstraint, PhysicalIntent,
};
use redstone_compiler::world::position::DimSize;

fn instance(name: &str) -> RoutableInstance {
    RoutableInstance { name: name.to_owned(), module: "inv".to_owned(), origin: None }
}

#[test]
fn default_ladder_shrinks_monotonically() {
    let ladder = default_ladder();
    for window in ladder.windows(2) {
        assert!(volume(window[1]) < volume(window[0]), "{window:?}");
    }
}

#[test]
fn first_successful_box_wins() {
    let ladder = vec![DimSize(64, 64, 16), DimSize(48, 48, 12), DimSize(32, 32, 8)];
    let tried = RefCell::new(Vec::new());

    let result = compress(&ladder, |box_size: DimSize| {
        tried.borrow_mut().push(box_size);
        if box_size == DimSize(48, 48, 12) {
            Ok("placed")
        } else {
            Err("does not fit".to_owned())
        }
    })
    .unwrap();

    assert_eq!(result.value, "placed");
    assert_eq!(result.box_size, DimSize(48, 48, 12));
    assert_eq!(tried.into_inner(), vec![ladder[0], ladder[1]]);
    assert_eq!(result.attempts.len(), 2);
    assert!(!result.attempts[0].accepted);
    assert!(result.attempts[1].accepted);
}

#[test]
fn all_boxes_failing_returns_the_last_error() {
    let ladder = vec![DimSize(64, 64, 16), DimSize(32, 32, 8)];
    let error = compress(&ladder, |box_size: DimSize| Err::<(), String>(format!("no fit at {:?}", box_size)))
        .err()
        .unwrap()
        .message();

    assert!(error.contains("32"), "{error}");
}

#[test]
fn non_monotonic_ladder_is_rejected() {
    let ladder = vec![DimSize(32, 32, 8), DimSize(64, 64, 16)];
    let error = compress(&ladder, |_: DimSize| Ok::<(), String>(())).err().unwrap().message();
    assert!(error.contains("shrink monotonically"), "{error}");

    assert!(compress(&vec![], |_: DimSize| Ok::<(), String>(())).is_err());
}

#[test]
fn compression_intent_covers_the_box_and_every_instance() {
    let instances = vec![instance("a"), instance("b")];

    let intent = compression_intent(&instances, DimSize(8, 4, 2), "top");

    assert_eq!(intent.design, "top");
    let region = &intent.regions.iter().find(|(name, _)| name == "compression-box").expect("region").1;
    assert_eq!(region.min, [0, 0, 0]);
    assert_eq!(region.max, [7, 3, 1]);
    assert_eq!(intent.constraints.len(), 2);
    assert!(matches!(
        &intent.constraints[0],
        PhysicalConstraint::Inside { instance, .. } if instance == "a"
    ));
    assert!(matches!(
        &intent.constraints[1],
        PhysicalConstraint::Inside { instance, .. } if instance == "b"
    ));
}

fn design(top: &str, body: RoutableModuleBody) -> RoutableDesign {
    RoutableDesign {
        version: 1,
        target: "redstone".to_owned(),
        top: "top".to_owned(),
        modules: vec![RoutableModule { name: top.to_owned(), ports: vec![], body }],
    }
}

#[test]
fn compressing_a_design_hands_its_instances_to_each_attempt() {
    let body = RoutableModuleBody::Composite { instances: vec![instance("a")], nets: vec![] };
    let ladder = vec![DimSize(4, 4, 4), DimSize(2, 2, 2)];
    let result = place_and_route_with_compression(&design("top", body), &ladder, "top", &|intent: &PhysicalIntent| {
        if intent.regions[0].1.max == [1, 1, 1] {
            Ok(intent.constraints.len())
        } else {
            Err("too large".to_owned())
        }
    })
    .unwrap();
    assert_eq!(result.value, 1);
    assert_eq!(result.box_size, DimSize(2, 2, 2));
}

#[test]
fn compressing_a_design_needs_a_composite_top() {
    let ladder = vec![DimSize(4, 4, 4)];
    let leaf = design("top", RoutableModuleBody::Leaf { nodes: vec![] });
    let attempt = |_: &PhysicalIntent| Ok::<(), String>(());
    assert!(matches!(
        place_and_route_with_compression(&leaf, &ladder, "top", &attempt),
        Err(DesignCompressionError::NotComposite)
    ));
    let absent = design("other", RoutableModuleBody::Leaf { nodes: vec![] });
    assert!(matches!(
        place_and_route_with_compression(&absent, &ladder, "top", &attempt),
        Err(DesignCompressionError::MissingTop(_))
    ));
}

#[test]
fn compressing_a_design_needs_a_ladder_that_shrinks() {
    let body = RoutableModuleBody::Composite { instances: vec![instance("a")], nets: vec![] };
    let whole = design("top", body);
    let attempt = |_: &PhysicalIntent| Ok::<(), String>(());
    let error = place_and_route_with_compression(&whole, &vec![], "top", &attempt).unwrap_err();
    assert!(matches!(error, DesignCompressionError::Ladder(CompressionError::EmptyLadder)));
    let growing = vec![DimSize(4, 4, 4), DimSize(2, 2, 2), DimSize(3, 3, 3)];
    let error = place_and_route_with_compression(&whole, &growing, "top", &attempt).unwrap_err();
    assert!(matches!(
        error,
        DesignCompressionError::Ladder(CompressionError::NotShrinking { from, to })
            if from == DimSize(2, 2, 2) && to == DimSize(3, 3, 3)
    ));
}
