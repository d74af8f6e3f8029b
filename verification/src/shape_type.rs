use vstd::prelude::*;
use vstd::string::*;

verus! {

/// Enum for selecting which shape we're interested in in App (provided no logic by itself, all that
///  is done in the application)
#[derive(PartialEq, Eq, Structural, Clone, Copy, Debug)]
pub enum ShapeType {
    Squircle,
    Line,
}

/// The name of a shape type, as shown in the selection box.
pub open spec fn shape_type_name(t: ShapeType) -> Seq<char> {
    match t {
        ShapeType::Squircle => "Squircle"@,
        ShapeType::Line => "Line"@,
    }
}

impl ShapeType {
    /// For use in combobox
    pub fn list_all_shape_types() -> (all: Vec<ShapeType>)
        ensures
            all@ == seq![ShapeType::Squircle, ShapeType::Line],
    {
        let all = vec![ShapeType::Squircle, ShapeType::Line];
        assert(all@ =~= seq![ShapeType::Squircle, ShapeType::Line]);
        all
    }

    pub fn name(&self) -> (s: String)
        ensures
            s@ == shape_type_name(*self),
    {
        match self {
            ShapeType::Squircle => String::from_str("Squircle"),
            ShapeType::Line => String::from_str("Line"),
        }
    }
}

} // verus!
