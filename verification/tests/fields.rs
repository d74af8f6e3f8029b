use voxircle::lua_field::LuaField;
use voxircle::rhai_field::{FieldState, RhaiField};

#[test]
fn rhai_field_cycle() {
    let mut f = RhaiField::new(true, false);
    assert_eq!(f.state(), FieldState::Empty);
    assert!(f.req_finite());
    assert!(!f.req_nonnegative());
    assert!(!f.has_changed());
    assert!(!f.can_eval());
    f.set_code("l * 2".to_string());
    f.update_field_state(true);
    assert!(f.has_changed());
    assert!(f.can_eval());
    f.register_success();
    assert_eq!(f.state(), FieldState::RunSuccess);
    assert!(!f.has_changed());
    assert!(f.can_eval());
    f.register_success();
    assert_eq!(f.state(), FieldState::RunSuccess);
}

#[test]
fn rhai_field_invalid_and_empty() {
    let mut f = RhaiField::new(false, true);
    f.set_code("l +".to_string());
    f.update_field_state(false);
    assert_eq!(f.state(), FieldState::Invalid);
    f.register_success();
    assert_eq!(f.state(), FieldState::Invalid);
    assert!(!f.can_eval());
    f.set_code(String::new());
    f.update_field_state(true);
    assert_eq!(f.state(), FieldState::Empty);
    assert_eq!(f.code(), "");
}

#[test]
fn lua_field_cycle() {
    let mut f = LuaField::new(true, true);
    assert_eq!(f.state(), FieldState::Empty);
    f.set_code("3".to_string());
    f.update_field_state(true);
    assert!(f.has_changed());
    f.register_success();
    assert!(!f.has_changed());
    assert!(f.can_eval());
}
