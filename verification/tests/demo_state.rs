use meshbool::boolean_state::{
    hull_point_limit, plan_boolean, watertight_attempts, BooleanOp, BooleanOpState, BooleanPlan,
    OperationMode, PrimitiveShape, RepairAttempt, SolidSource,
};
use meshbool::mesh_stats::mesh_counts;

#[test]
fn operation_cycle() {
    let mut s = BooleanOpState::default();
    assert_eq!(s, BooleanOpState::NoOperation);
    let mut seen = Vec::new();
    for _ in 0..4 {
        seen.push(s.name());
        s = s.next();
    }
    assert_eq!(s, BooleanOpState::NoOperation);
    assert_eq!(seen, vec!["None", "Intersection", "Union", "Subtraction"]);
}

#[test]
fn operations_for_states() {
    assert_eq!(BooleanOpState::NoOperation.operation(), None);
    assert_eq!(BooleanOpState::Intersect.operation(), Some(BooleanOp::Intersection));
    assert_eq!(BooleanOpState::Union.operation(), Some(BooleanOp::Union));
    assert_eq!(BooleanOpState::Subtract.operation(), Some(BooleanOp::Difference));
}

#[test]
fn shape_cycle() {
    let mut s = PrimitiveShape::default();
    let mut names = Vec::new();
    for _ in 0..4 {
        names.push(s.name());
        s = s.next();
    }
    assert_eq!(s, PrimitiveShape::Cube);
    assert_eq!(names, vec!["Cube", "Sphere", "Cylinder", "Tetrahedron"]);
}

#[test]
fn mode_toggle() {
    let m = OperationMode::default();
    assert_eq!(m.name(), "Boolean");
    assert_eq!(m.next().name(), "Trim");
    assert_eq!(m.next().next(), m);
}

#[test]
fn repair_plans() {
    let (hull, bbox, cube) = (RepairAttempt::ConvexHull, RepairAttempt::BoundingBox, RepairAttempt::UnitCube);
    assert_eq!(watertight_attempts(0), vec![cube]);
    assert_eq!(watertight_attempts(3), vec![bbox, cube]);
    assert_eq!(watertight_attempts(4), vec![hull, bbox, cube]);
    assert_eq!(watertight_attempts(10000), vec![hull, bbox, cube]);
    assert_eq!(watertight_attempts(10001), vec![bbox, bbox, cube]);
    assert_eq!(hull_point_limit(10), 10);
    assert_eq!(hull_point_limit(5000), 1000);
}

#[test]
fn counts_of_a_cube_mesh() {
    // 8 vertices of 3 properties, 12 triangles
    assert_eq!(mesh_counts(24, 3, 36), (8, 12));
    // a trailing partial vertex or triangle is not counted
    assert_eq!(mesh_counts(26, 6, 7), (4, 2));
}

#[test]
fn boolean_plans() {
    let none = plan_boolean(BooleanOpState::NoOperation, true);
    assert_eq!(none, BooleanPlan::ShowInputs);
    assert!(none.shows_inputs());
    assert_eq!(
        plan_boolean(BooleanOpState::Union, true),
        BooleanPlan::Combine(BooleanOp::Union, SolidSource::ConvertedMeshes)
    );
    let fallback = plan_boolean(BooleanOpState::Subtract, false);
    assert_eq!(fallback, BooleanPlan::Combine(BooleanOp::Difference, SolidSource::FallbackPrimitives));
    assert!(!fallback.shows_inputs());
}
