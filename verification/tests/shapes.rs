use voxircle::any_shape::AnyShape;
use voxircle::line::LineAlg;
use voxircle::param_config::ParamConfig;
use voxircle::shape_type::ShapeType;

#[test]
fn shape_type_names() {
    assert_eq!(ShapeType::list_all_shape_types(), vec![ShapeType::Squircle, ShapeType::Line]);
    assert_eq!(ShapeType::Squircle.name(), "Squircle");
    assert_eq!(ShapeType::Line.name(), "Line");
}

#[test]
fn any_shape_names() {
    assert!(AnyShape::list_all_shapes() == vec![AnyShape::Squircle, AnyShape::Line]);
    assert_eq!(AnyShape::Squircle.name(), "Squircle");
    assert_eq!(AnyShape::Line.name(), "Line");
}

#[test]
fn defaults() {
    assert!(ParamConfig::default().single_radius);
    assert_eq!(LineAlg::default(), LineAlg::Centerpoint);
}
