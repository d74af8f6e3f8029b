use vstd::prelude::*;

verus! {

/// Where the code of a field stands: run with success, changed to a valid expression since the
/// last run, invalid, or empty.
#[derive(Clone, Copy, PartialEq, Eq, Structural, Debug)]
pub enum FieldState {
    RunSuccess,
    Changed,
    Invalid,
    Empty,
}

/// The state after the code was edited: empty code, else invalid or changed by the validity of
/// the expression.
pub open spec fn edited_state(code: Seq<char>, is_valid: bool) -> FieldState {
    if code.len() == 0 {
        FieldState::Empty
    } else if !is_valid {
        FieldState::Invalid
    } else {
        FieldState::Changed
    }
}

/// The state after a successful run: a changed field has now run with success.
pub open spec fn registered_state(state: FieldState) -> FieldState {
    if state == FieldState::Changed {
        FieldState::RunSuccess
    } else {
        state
    }
}

/// Can the expression of a field in this state be evaluated?
pub open spec fn evaluable(state: FieldState) -> bool {
    state == FieldState::Changed || state == FieldState::RunSuccess
}

/// A valid, nonempty expression that was just edited is reported as changed and can be
/// evaluated; once its run is registered it is no longer reported as changed, can still be
/// evaluated, and registering again changes nothing.
pub proof fn lemma_edit_then_register(code: Seq<char>)
    requires
        code.len() > 0,
    ensures
        edited_state(code, true) == FieldState::Changed,
        evaluable(edited_state(code, true)),
        registered_state(edited_state(code, true)) == FieldState::RunSuccess,
        evaluable(registered_state(edited_state(code, true))),
        registered_state(registered_state(edited_state(code, true))) == registered_state(
            edited_state(code, true),
        ),
{
}

/// Registering a run never makes an empty or invalid field evaluable, and never leaves a field
/// reported as changed.
pub proof fn lemma_register_keeps_unevaluable(state: FieldState)
    ensures
        !evaluable(state) ==> !evaluable(registered_state(state)),
        registered_state(state) != FieldState::Changed,
        registered_state(registered_state(state)) == registered_state(state),
{
}

/// A text field holding an expression of the layer number, which sets a parameter per layer.
pub struct RhaiField {
    code: String,
    field_state: FieldState,
    req_finite: bool,
    req_nonnegative: bool,
}

impl RhaiField {
    /// The code in the field.
    pub closed spec fn spec_code(&self) -> Seq<char> {
        self.code@
    }

    /// The state of the field.
    pub closed spec fn spec_state(&self) -> FieldState {
        self.field_state
    }

    /// Must the value of the expression be finite?
    pub closed spec fn spec_req_finite(&self) -> bool {
        self.req_finite
    }

    /// Must the value of the expression be nonnegative?
    pub closed spec fn spec_req_nonnegative(&self) -> bool {
        self.req_nonnegative
    }

    pub fn new(req_finite: bool, req_nonnegative: bool) -> (f: Self)
        ensures
            f.spec_code() == Seq::<char>::empty(),
            f.spec_state() == FieldState::Empty,
            f.spec_req_finite() == req_finite,
            f.spec_req_nonnegative() == req_nonnegative,
    {
        Self { code: String::new(), field_state: FieldState::Empty, req_finite, req_nonnegative }
    }

    pub fn code(&self) -> (c: &String)
        ensures
            c@ == self.spec_code(),
    {
        &self.code
    }

    /// Replace the code; the state is left for `update_field_state`.
    pub fn set_code(&mut self, code: String)
        ensures
            final(self).spec_code() == code@,
            final(self).spec_state() == old(self).spec_state(),
            final(self).spec_req_finite() == old(self).spec_req_finite(),
            final(self).spec_req_nonnegative() == old(self).spec_req_nonnegative(),
    {
        self.code = code;
    }

    pub fn state(&self) -> (s: FieldState)
        ensures
            s == self.spec_state(),
    {
        self.field_state
    }

    pub fn req_finite(&self) -> (b: bool)
        ensures
            b == self.spec_req_finite(),
    {
        self.req_finite
    }

    pub fn req_nonnegative(&self) -> (b: bool)
        ensures
            b == self.spec_req_nonnegative(),
    {
        self.req_nonnegative
    }

    /// Set the state after the code was edited; `is_valid` tells whether the expression
    /// evaluates to an acceptable value at every sampling point.
    pub fn update_field_state(&mut self, is_valid: bool)
        ensures
            final(self).spec_state() == edited_state(old(self).spec_code(), is_valid),
            final(self).spec_code() == old(self).spec_code(),
            final(self).spec_req_finite() == old(self).spec_req_finite(),
            final(self).spec_req_nonnegative() == old(self).spec_req_nonnegative(),
    {
        if self.code.as_str().is_empty() {
            self.field_state = FieldState::Empty;
        } else if !is_valid {
            self.field_state = FieldState::Invalid;
        } else {
            self.field_state = FieldState::Changed;
        }
    }

    /// Only a valid expression (changed or run with success) is evaluated.
    pub fn can_eval(&self) -> (b: bool)
        ensures
            b == evaluable(self.spec_state()),
    {
        self.field_state == FieldState::Changed || self.field_state == FieldState::RunSuccess
    }

    /// Has the field changed (since the last time it was run) to a valid expression?
    pub fn has_changed(&self) -> (b: bool)
        ensures
            b == (self.spec_state() == FieldState::Changed),
    {
        self.field_state == FieldState::Changed
    }

    pub fn register_success(&mut self)
        ensures
            final(self).spec_state() == registered_state(old(self).spec_state()),
            final(self).spec_code() == old(self).spec_code(),
            final(self).spec_req_finite() == old(self).spec_req_finite(),
            final(self).spec_req_nonnegative() == old(self).spec_req_nonnegative(),
    {
        if self.field_state == FieldState::Changed {
            self.field_state = FieldState::RunSuccess;
        }
    }
}

} // verus!
