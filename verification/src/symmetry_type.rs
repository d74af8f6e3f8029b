use vstd::prelude::*;
use vstd::string::*;

verus! {

/// The symmetries of a block structure, from the most symmetric to none.
#[derive(Debug, PartialEq, Eq, Structural, Clone, Copy)]
pub enum SymmetryType {
    ReflectionHorizontal,
    ReflectionVertical,
    ReflectionDiagonalUp,
    ReflectionDiagonalDown,
    ReflectionsCardinals,
    ReflectionsDiagonals,
    ReflectionsAll,
    RotationHalf,
    RotationQuarter,
    NoSymmetry,
}

/// The description of a symmetry type, as shown after "Symmetry type: ".
pub open spec fn symmetry_description(s: SymmetryType) -> Seq<char> {
    match s {
        SymmetryType::ReflectionHorizontal => "Reflection along horizontal line"@,
        SymmetryType::ReflectionVertical => "Reflection along vertical line"@,
        SymmetryType::ReflectionDiagonalUp => "Reflection along up 45° diagonal"@,
        SymmetryType::ReflectionDiagonalDown => "Reflection along down 45° diagonal"@,
        SymmetryType::ReflectionsCardinals => "Reflection along horizontal and vertical lines"@,
        SymmetryType::ReflectionsDiagonals => "Reflection along both 45° diagonals"@,
        SymmetryType::ReflectionsAll => "Reflections along horizontal, vertical, and 45° diagonal lines"@,
        SymmetryType::RotationHalf => "Rotation by 180°, or mirroring in a point"@,
        SymmetryType::RotationQuarter => "Rotation by 90°"@,
        SymmetryType::NoSymmetry => "No symmetry"@,
    }
}

impl SymmetryType {
    /// Used as "Symmetry type: {}".
    pub fn to_string(&self) -> (s: String)
        ensures
            s@ == symmetry_description(*self),
    {
        match self {
            SymmetryType::ReflectionHorizontal => String::from_str("Reflection along horizontal line"),
            SymmetryType::ReflectionVertical => String::from_str("Reflection along vertical line"),
            SymmetryType::ReflectionDiagonalUp => String::from_str("Reflection along up 45° diagonal"),
            SymmetryType::ReflectionDiagonalDown => String::from_str(
                "Reflection along down 45° diagonal",
            ),
            SymmetryType::ReflectionsCardinals => String::from_str(
                "Reflection along horizontal and vertical lines",
            ),
            SymmetryType::ReflectionsDiagonals => String::from_str(
                "Reflection along both 45° diagonals",
            ),
            SymmetryType::ReflectionsAll => String::from_str(
                "Reflections along horizontal, vertical, and 45° diagonal lines",
            ),
            SymmetryType::RotationHalf => String::from_str("Rotation by 180°, or mirroring in a point"),
            SymmetryType::RotationQuarter => String::from_str("Rotation by 90°"),
            SymmetryType::NoSymmetry => String::from_str("No symmetry"),
        }
    }
}

} // verus!
