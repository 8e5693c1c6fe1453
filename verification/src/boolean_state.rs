//! The choices of the interactive boolean-operation demo: which operation is
//! applied, which primitive shapes are used, how the keys cycle through them,
//! and in which order a mesh that is not a closed solid is repaired.
use vstd::prelude::*;

verus! {

/// The boolean operation selected for the two shapes.
#[derive(Clone, Copy, Debug, PartialEq, Eq, Structural)]
pub enum BooleanOpState {
    NoOperation,
    Intersect,
    Union,
    Subtract,
}

/// A boolean operation between two solids.
#[derive(Clone, Copy, Debug, PartialEq, Eq, Structural)]
pub enum BooleanOp {
    Intersection,
    Union,
    Difference,
}

/// The primitive shapes of the demo.
#[derive(Clone, Copy, Debug, PartialEq, Eq, Structural)]
pub enum PrimitiveShape {
    Cube,
    Sphere,
    Cylinder,
    Tetrahedron,
}

/// Whether the shapes are combined by a boolean operation or trimmed.
#[derive(Clone, Copy, Debug, PartialEq, Eq, Structural)]
pub enum OperationMode {
    Boolean,
    Trim,
}

/// One attempt at turning a mesh that is not a closed solid into one.
#[derive(Clone, Copy, Debug, PartialEq, Eq, Structural)]
pub enum RepairAttempt {
    /// The convex hull of (at most the first thousand) vertices.
    ConvexHull,
    /// The box that bounds all vertices.
    BoundingBox,
    /// A unit cube at the origin.
    UnitCube,
}

impl Default for BooleanOpState {
    fn default() -> (s: Self)
        ensures
            s == BooleanOpState::NoOperation,
    {
        BooleanOpState::NoOperation
    }
}

impl Default for PrimitiveShape {
    fn default() -> (s: Self)
        ensures
            s == PrimitiveShape::Cube,
    {
        PrimitiveShape::Cube
    }
}

impl Default for OperationMode {
    fn default() -> (s: Self)
        ensures
            s == OperationMode::Boolean,
    {
        OperationMode::Boolean
    }
}

impl BooleanOpState {
    /// The state that the cycle key selects after this one.
    pub open spec fn following(self) -> BooleanOpState {
        match self {
            BooleanOpState::NoOperation => BooleanOpState::Intersect,
            BooleanOpState::Intersect => BooleanOpState::Union,
            BooleanOpState::Union => BooleanOpState::Subtract,
            BooleanOpState::Subtract => BooleanOpState::NoOperation,
        }
    }

    /// Cycles through the boolean operations: none, intersection, union,
    /// subtraction, and back to none.
    pub fn next(self) -> (s: BooleanOpState)
        ensures
            s == self.following(),
    {
        match self {
            BooleanOpState::NoOperation => BooleanOpState::Intersect,
            BooleanOpState::Intersect => BooleanOpState::Union,
            BooleanOpState::Union => BooleanOpState::Subtract,
            BooleanOpState::Subtract => BooleanOpState::NoOperation,
        }
    }

    /// The operation that the state selects.
    pub open spec fn operation_spec(self) -> Option<BooleanOp> {
        match self {
            BooleanOpState::NoOperation => None,
            BooleanOpState::Intersect => Some(BooleanOp::Intersection),
            BooleanOpState::Union => Some(BooleanOp::Union),
            BooleanOpState::Subtract => Some(BooleanOp::Difference),
        }
    }

    /// The operation to apply to the two solids; none for the state that
    /// shows the input shapes.
    pub fn operation(self) -> (op: Option<BooleanOp>)
        ensures
            op == self.operation_spec(),
    {
        match self {
            BooleanOpState::NoOperation => None,
            BooleanOpState::Intersect => Some(BooleanOp::Intersection),
            BooleanOpState::Union => Some(BooleanOp::Union),
            BooleanOpState::Subtract => Some(BooleanOp::Difference),
        }
    }

    /// The name shown for the operation.
    pub fn name(self) -> (name: &'static str)
        ensures
            name@ == match self {
                BooleanOpState::NoOperation => "None"@,
                BooleanOpState::Intersect => "Intersection"@,
                BooleanOpState::Union => "Union"@,
                BooleanOpState::Subtract => "Subtraction"@,
            },
    {
        match self {
            BooleanOpState::NoOperation => "None",
            BooleanOpState::Intersect => "Intersection",
            BooleanOpState::Union => "Union",
            BooleanOpState::Subtract => "Subtraction",
        }
    }
}

impl PrimitiveShape {
    /// The shape that the cycle key selects after this one.
    pub open spec fn following(self) -> PrimitiveShape {
        match self {
            PrimitiveShape::Cube => PrimitiveShape::Sphere,
            PrimitiveShape::Sphere => PrimitiveShape::Cylinder,
            PrimitiveShape::Cylinder => PrimitiveShape::Tetrahedron,
            PrimitiveShape::Tetrahedron => PrimitiveShape::Cube,
        }
    }

    /// Cycles through the shapes: cube, sphere, cylinder, tetrahedron, and
    /// back to cube.
    pub fn next(self) -> (s: PrimitiveShape)
        ensures
            s == self.following(),
    {
        match self {
            PrimitiveShape::Cube => PrimitiveShape::Sphere,
            PrimitiveShape::Sphere => PrimitiveShape::Cylinder,
            PrimitiveShape::Cylinder => PrimitiveShape::Tetrahedron,
            PrimitiveShape::Tetrahedron => PrimitiveShape::Cube,
        }
    }

    /// The name shown for the shape.
    pub fn name(self) -> (name: &'static str)
        ensures
            name@ == match self {
                PrimitiveShape::Cube => "Cube"@,
                PrimitiveShape::Sphere => "Sphere"@,
                PrimitiveShape::Cylinder => "Cylinder"@,
                PrimitiveShape::Tetrahedron => "Tetrahedron"@,
            },
    {
        match self {
            PrimitiveShape::Cube => "Cube",
            PrimitiveShape::Sphere => "Sphere",
            PrimitiveShape::Cylinder => "Cylinder",
            PrimitiveShape::Tetrahedron => "Tetrahedron",
        }
    }
}

impl OperationMode {
    /// The mode that the mode key selects after this one.
    pub open spec fn following(self) -> OperationMode {
        match self {
            OperationMode::Boolean => OperationMode::Trim,
            OperationMode::Trim => OperationMode::Boolean,
        }
    }

    /// Toggles between boolean operations and trimming.
    pub fn next(self) -> (m: OperationMode)
        ensures
            m == self.following(),
    {
        match self {
            OperationMode::Boolean => OperationMode::Trim,
            OperationMode::Trim => OperationMode::Boolean,
        }
    }

    /// The name shown for the mode.
    pub fn name(self) -> (name: &'static str)
        ensures
            name@ == match self {
                OperationMode::Boolean => "Boolean"@,
                OperationMode::Trim => "Trim"@,
            },
    {
        match self {
            OperationMode::Boolean => "Boolean",
            OperationMode::Trim => "Trim",
        }
    }
}

/// Pressing the cycle key four times brings back the operation one started
/// from, and each press changes it.
pub proof fn lemma_operation_cycle(s: BooleanOpState)
    ensures
        s.following().following().following().following() == s,
        s.following() != s,
        s.following().following() != s,
        s.following().following().following() != s,
{
}

/// Pressing a shape key four times brings back the shape one started from,
/// and each press changes it.
pub proof fn lemma_shape_cycle(s: PrimitiveShape)
    ensures
        s.following().following().following().following() == s,
        s.following() != s,
        s.following().following() != s,
        s.following().following().following() != s,
{
}

/// Pressing the mode key twice brings back the mode one started from.
pub proof fn lemma_mode_toggle(m: OperationMode)
    ensures
        m.following().following() == m,
        m.following() != m,
{
}

/// The attempts at making a mesh of `num_positions` vertices a closed solid,
/// in the order they are tried until one gives a solid with vertices: very
/// large meshes skip the convex hull and go straight to the bounding box;
/// meshes of four vertices or more try the convex hull first; any non-empty
/// mesh then tries its bounding box; the last resort is a unit cube.
pub open spec fn repair_plan(num_positions: int) -> Seq<RepairAttempt> {
    if num_positions > 10000 {
        seq![RepairAttempt::BoundingBox, RepairAttempt::BoundingBox, RepairAttempt::UnitCube]
    } else if num_positions >= 4 {
        seq![RepairAttempt::ConvexHull, RepairAttempt::BoundingBox, RepairAttempt::UnitCube]
    } else if num_positions > 0 {
        seq![RepairAttempt::BoundingBox, RepairAttempt::UnitCube]
    } else {
        seq![RepairAttempt::UnitCube]
    }
}

/// The attempts at making a mesh a closed solid, in order.
pub fn watertight_attempts(num_positions: usize) -> (plan: Vec<RepairAttempt>)
    ensures
        plan@ == repair_plan(num_positions as int),
{
    let mut plan: Vec<RepairAttempt> = Vec::new();
    if num_positions > 10000 {
        plan.push(RepairAttempt::BoundingBox);
    } else if num_positions >= 4 {
        plan.push(RepairAttempt::ConvexHull);
    }
    if num_positions > 0 {
        plan.push(RepairAttempt::BoundingBox);
    }
    plan.push(RepairAttempt::UnitCube);
    proof {
        assert(plan@ =~= repair_plan(num_positions as int));
    }
    plan
}

/// Number of vertices that the convex hull is built from: the first thousand
/// at most, to prevent overflow.
pub fn hull_point_limit(num_positions: usize) -> (n: usize)
    ensures
        n == if num_positions < 1000 {
            num_positions
        } else {
            1000
        },
{
    if num_positions < 1000 {
        num_positions
    } else {
        1000
    }
}

/// Every repair plan ends with the unit cube, so a plan never runs out before
/// that last resort, and it holds at most three attempts.
pub proof fn lemma_repair_plan_ends_with_cube(num_positions: int)
    ensures
        1 <= repair_plan(num_positions).len() <= 3,
        repair_plan(num_positions).last() == RepairAttempt::UnitCube,
        forall|i: int|
            0 <= i < repair_plan(num_positions).len() - 1 ==> #[trigger] repair_plan(
                num_positions,
            )[i] != RepairAttempt::UnitCube,
{
}

/// Where the two solids of a boolean operation come from.
#[derive(Clone, Copy, Debug, PartialEq, Eq, Structural)]
pub enum SolidSource {
    /// The two meshes, converted to solids.
    ConvertedMeshes,
    /// A cube and a sphere, used when a mesh is not a closed solid.
    FallbackPrimitives,
}

/// What the boolean system does for the selected operation.
#[derive(Clone, Copy, Debug, PartialEq, Eq, Structural)]
pub enum BooleanPlan {
    /// No operation: the two input shapes are shown, the result hidden.
    ShowInputs,
    /// The input shapes are hidden and the result of the operation on the solids
    /// from the given source is shown.
    Combine(BooleanOp, SolidSource),
}

/// What to do for `state`, given whether both meshes converted to solids.
pub fn plan_boolean(state: BooleanOpState, both_converted: bool) -> (plan: BooleanPlan)
    ensures
        plan == match state.operation_spec() {
            None => BooleanPlan::ShowInputs,
            Some(op) => BooleanPlan::Combine(
                op,
                if both_converted {
                    SolidSource::ConvertedMeshes
                } else {
                    SolidSource::FallbackPrimitives
                },
            ),
        },
{
    match state.operation() {
        None => BooleanPlan::ShowInputs,
        Some(op) => {
            let source = if both_converted {
                SolidSource::ConvertedMeshes
            } else {
                SolidSource::FallbackPrimitives
            };
            BooleanPlan::Combine(op, source)
        },
    }
}

impl BooleanPlan {
    /// Whether the input shapes are shown.
    pub fn shows_inputs(&self) -> (shown: bool)
        ensures
            shown == (*self is ShowInputs),
    {
        match self {
            BooleanPlan::ShowInputs => true,
            _ => false,
        }
    }
}

} // verus!
