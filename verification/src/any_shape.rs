use vstd::prelude::*;
use vstd::string::*;

verus! {

// No logic here. All the switching happens in the application.
#[derive(PartialEq, Eq, Structural, Clone, Copy, Debug)]
pub enum AnyShape {
    Squircle,
    Line,
}

/// The name of a shape, as shown in the selection box.
pub open spec fn any_shape_name(t: AnyShape) -> Seq<char> {
    match t {
        AnyShape::Squircle => "Squircle"@,
        AnyShape::Line => "Line"@,
    }
}

impl AnyShape {
    pub fn list_all_shapes() -> (all: Vec<AnyShape>)
        ensures
            all@ == seq![AnyShape::Squircle, AnyShape::Line],
    {
        let all = vec![AnyShape::Squircle, AnyShape::Line];
        assert(all@ =~= seq![AnyShape::Squircle, AnyShape::Line]);
        all
    }

    pub fn name(&self) -> (s: String)
        ensures
            s@ == any_shape_name(*self),
    {
        match self {
            AnyShape::Squircle => String::from_str("Squircle"),
            AnyShape::Line => String::from_str("Line"),
        }
    }
}

} // verus!
