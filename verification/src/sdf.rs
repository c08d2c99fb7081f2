//! The SDF shape kinds the renderer draws, and the numbers by which the shader
//! tells them apart.
use vstd::prelude::*;

verus! {

/// SDF shape kinds supported by the material.
#[derive(Debug, Clone, Copy, PartialEq, Eq, Structural)]
pub enum SdfShapeType {
    BoxRound,
    BoxMiter,
    BoxBevel,
    Circle,
    RoundRect,
    Polygon,
    Star,
    Pie,
    Plus,
    Multifoil,
    Line,
    Arc,
    Triangle,
    Quad,
    Penta,
    Path,
    Arrow,
}

impl Default for SdfShapeType {
    fn default() -> (r: Self)
        ensures
            r == SdfShapeType::BoxRound,
    {
        SdfShapeType::BoxRound
    }
}

/// The number by which the shader knows a shape kind.
pub open spec fn spec_shape_index(t: SdfShapeType) -> u32 {
    match t {
        SdfShapeType::BoxRound => 0,
        SdfShapeType::BoxMiter => 1,
        SdfShapeType::BoxBevel => 2,
        SdfShapeType::Circle => 3,
        SdfShapeType::RoundRect => 4,
        SdfShapeType::Polygon => 5,
        SdfShapeType::Star => 6,
        SdfShapeType::Pie => 7,
        SdfShapeType::Plus => 8,
        SdfShapeType::Multifoil => 9,
        SdfShapeType::Line => 10,
        SdfShapeType::Arc => 11,
        SdfShapeType::Triangle => 12,
        SdfShapeType::Quad => 13,
        SdfShapeType::Penta => 14,
        SdfShapeType::Path => 15,
        SdfShapeType::Arrow => 16,
    }
}

impl SdfShapeType {
    /// The number by which the shader knows the shape kind (the material
    /// uniform carries it as a float of this value).
    pub fn index(self) -> (r: u32)
        ensures
            r == spec_shape_index(self),
            r <= 16,
    {
        match self {
            Self::BoxRound => 0,
            Self::BoxMiter => 1,
            Self::BoxBevel => 2,
            Self::Circle => 3,
            Self::RoundRect => 4,
            Self::Polygon => 5,
            Self::Star => 6,
            Self::Pie => 7,
            Self::Plus => 8,
            Self::Multifoil => 9,
            Self::Line => 10,
            Self::Arc => 11,
            Self::Triangle => 12,
            Self::Quad => 13,
            Self::Penta => 14,
            Self::Path => 15,
            Self::Arrow => 16,
        }
    }
}

/// Distinct shape kinds have distinct shader numbers.
pub proof fn law_shape_indices_distinct(a: SdfShapeType, b: SdfShapeType)
    requires
        a != b,
    ensures
        spec_shape_index(a) != spec_shape_index(b),
{
}

/// The shape kinds, in alphabetical order, each with the number under which
/// the SDF shader draws it.
pub open spec fn shader_shape_numbers() -> Seq<(SdfShapeType, u32)> {
    seq![
        (SdfShapeType::Arc, 11u32),
        (SdfShapeType::Arrow, 16u32),
        (SdfShapeType::BoxBevel, 2u32),
        (SdfShapeType::BoxMiter, 1u32),
        (SdfShapeType::BoxRound, 0u32),
        (SdfShapeType::Circle, 3u32),
        (SdfShapeType::Line, 10u32),
        (SdfShapeType::Multifoil, 9u32),
        (SdfShapeType::Path, 15u32),
        (SdfShapeType::Penta, 14u32),
        (SdfShapeType::Pie, 7u32),
        (SdfShapeType::Plus, 8u32),
        (SdfShapeType::Polygon, 5u32),
        (SdfShapeType::Quad, 13u32),
        (SdfShapeType::RoundRect, 4u32),
        (SdfShapeType::Star, 6u32),
        (SdfShapeType::Triangle, 12u32),
    ]
}

/// The index of a shape kind is the number the shader draws it under, and
/// every kind is listed.
pub proof fn law_shape_index_follows_shader(i: int, t: SdfShapeType)
    ensures
        0 <= i < 17 ==> spec_shape_index(shader_shape_numbers()[i].0) == shader_shape_numbers()[i].1,
        exists|k: int| 0 <= k < 17 && (#[trigger] shader_shape_numbers()[k]).0 == t,
{
    match t {
        SdfShapeType::Arc => {
            assert(shader_shape_numbers()[0].0 == t);
        },
        SdfShapeType::Arrow => {
            assert(shader_shape_numbers()[1].0 == t);
        },
        SdfShapeType::BoxBevel => {
            assert(shader_shape_numbers()[2].0 == t);
        },
        SdfShapeType::BoxMiter => {
            assert(shader_shape_numbers()[3].0 == t);
        },
        SdfShapeType::BoxRound => {
            assert(shader_shape_numbers()[4].0 == t);
        },
        SdfShapeType::Circle => {
            assert(shader_shape_numbers()[5].0 == t);
        },
        SdfShapeType::Line => {
            assert(shader_shape_numbers()[6].0 == t);
        },
        SdfShapeType::Multifoil => {
            assert(shader_shape_numbers()[7].0 == t);
        },
        SdfShapeType::Path => {
            assert(shader_shape_numbers()[8].0 == t);
        },
        SdfShapeType::Penta => {
            assert(shader_shape_numbers()[9].0 == t);
        },
        SdfShapeType::Pie => {
            assert(shader_shape_numbers()[10].0 == t);
        },
        SdfShapeType::Plus => {
            assert(shader_shape_numbers()[11].0 == t);
        },
        SdfShapeType::Polygon => {
            assert(shader_shape_numbers()[12].0 == t);
        },
        SdfShapeType::Quad => {
            assert(shader_shape_numbers()[13].0 == t);
        },
        SdfShapeType::RoundRect => {
            assert(shader_shape_numbers()[14].0 == t);
        },
        SdfShapeType::Star => {
            assert(shader_shape_numbers()[15].0 == t);
        },
        SdfShapeType::Triangle => {
            assert(shader_shape_numbers()[16].0 == t);
        },
    }
}

} // verus!
