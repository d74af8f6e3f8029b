use voxircle::control::Control;

#[test]
fn default_updates_on_the_first_frame_only() {
    let mut c = Control::default();
    assert!(c.update());
    assert!(!c.update());
    assert!(!c.update());
}

#[test]
fn outdated_structures_wait_for_permission() {
    let mut c = Control::default();
    assert!(c.update());
    c.set_outdated();
    assert!(!c.update());
    c.once();
    assert!(c.update());
    assert!(!c.update());
}

#[test]
fn automatic_updates() {
    let mut c = Control::default();
    *c.auto() = true;
    assert!(c.update());
    assert!(!c.update());
    c.set_outdated();
    assert!(c.update());
    *c.auto() = false;
    c.set_outdated();
    assert!(!c.update());
    assert!(c.is_outdated);
}

#[test]
fn once_on_an_up_to_date_structure_does_nothing() {
    let mut c = Control::default();
    assert!(c.update());
    c.once();
    assert!(!c.update());
    c.set_outdated();
    assert!(!c.update());
}
