use crate::rhai_field::{edited_state, evaluable, registered_state, FieldState};
use vstd::prelude::*;

verus! {

/// A text field holding an expression of the layer number, which sets a parameter per layer
/// (a second field of the same kind, with the same states).
pub struct LuaField {
    code: String,
    field_state: FieldState,
    req_finite: bool,
    req_nonnegative: bool,
}

impl LuaField {
    /// The code in the field.
    pub closed spec fn spec_code(&self) -> Seq<char> {
        self.code@
    }

    /// The state of the field.
    pub closed spec fn spec_state(&self) -> FieldState {
        self.field_state
    }

    /// Must the value of the expression be finite?
    pub closed spec fn spec_req_finite(&self) -> bool {
        self.req_finite
    }

    /// Must the value of the expression be nonnegative?
    pub closed spec fn spec_req_nonnegative(&self) -> bool {
        self.req_nonnegative
    }

    pub fn new(req_finite: bool, req_nonnegative: bool) -> (f: Self)
        ensures
            f.spec_code() == Seq::<char>::empty(),
            f.spec_state() == FieldState::Empty,
            f.spec_req_finite() == req_finite,
            f.spec_req_nonnegative() == req_nonnegative,
    {
        Self { code: String::new(), field_state: FieldState::Empty, req_finite, req_nonnegative }
    }

    pub fn code(&self) -> (c: &String)
        ensures
            c@ == self.spec_code(),
    {
        &self.code
    }

    /// Replace the code; the state is left for `update_field_state`.
    pub fn set_code(&mut self, code: String)
        ensures
            final(self).spec_code() == code@,
            final(self).spec_state() == old(self).spec_state(),
            final(self).spec_req_finite() == old(self).spec_req_finite(),
            final(self).spec_req_nonnegative() == old(self).spec_req_nonnegative(),
    {
        self.code = code;
    }

    pub fn state(&self) -> (s: FieldState)
        ensures
            s == self.spec_state(),
    {
        self.field_state
    }

    pub fn req_finite(&self) -> (b: bool)
        ensures
            b == self.spec_req_finite(),
    {
        self.req_finite
    }

    pub fn req_nonnegative(&self) -> (b: bool)
        ensures
            b == self.spec_req_nonnegative(),
    {
        self.req_nonnegative
    }

    /// Set the state after the code was edited; `is_valid` tells whether the expression
    /// evaluates to an acceptable value at every sampling point.
    pub fn update_field_state(&mut self, is_valid: bool)
        ensures
            final(self).spec_state() == edited_state(old(self).spec_code(), is_valid),
            final(self).spec_code() == old(self).spec_code(),
            final(self).spec_req_finite() == old(self).spec_req_finite(),
            final(self).spec_req_nonnegative() == old(self).spec_req_nonnegative(),
    {
        if self.code.as_str().is_empty() {
            self.field_state = FieldState::Empty;
        } else if !is_valid {
            self.field_state = FieldState::Invalid;
        } else {
            self.field_state = FieldState::Changed;
        }
    }

    /// Only a valid expression (changed or run with success) is evaluated.
    pub fn can_eval(&self) -> (b: bool)
        ensures
            b == evaluable(self.spec_state()),
    {
        self.field_state == FieldState::Changed || self.field_state == FieldState::RunSuccess
    }

    /// Has the field changed (since the last time it was run) to a valid expression?
    pub fn has_changed(&self) -> (b: bool)
        ensures
            b == (self.spec_state() == FieldState::Changed),
    {
        self.field_state == FieldState::Changed
    }

    pub fn register_success(&mut self)
        ensures
            final(self).spec_state() == registered_state(old(self).spec_state()),
            final(self).spec_code() == old(self).spec_code(),
            final(self).spec_req_finite() == old(self).spec_req_finite(),
            final(self).spec_req_nonnegative() == old(self).spec_req_nonnegative(),
    {
        if self.field_state == FieldState::Changed {
            self.field_state = FieldState::RunSuccess;
        }
    }
}

} // verus!
