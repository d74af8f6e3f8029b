use vstd::prelude::*;

verus! {

/// The abstract state of a [`Control`]: its three flags.
pub struct ControlView {
    pub do_once: bool,
    pub do_auto: bool,
    pub is_outdated: bool,
}

/// Controls when a particular structure is updated.
pub struct Control {
    do_once: bool,
    do_auto: bool,
    pub is_outdated: bool,
}

impl View for Control {
    type V = ControlView;

    closed spec fn view(&self) -> ControlView {
        ControlView { do_once: self.do_once, do_auto: self.do_auto, is_outdated: self.is_outdated }
    }
}

/// Whether an update is due in state `v`.
pub open spec fn update_due(v: ControlView) -> bool {
    v.is_outdated && (v.do_once || v.do_auto)
}

/// The state after an update in state `v`: the one-shot permission is used up, and a structure
/// that was updated is no longer outdated.
pub open spec fn after_update(v: ControlView) -> ControlView {
    ControlView {
        do_once: false,
        do_auto: v.do_auto,
        is_outdated: v.is_outdated && !update_due(v),
    }
}

impl Control {
    /// The control with the given flags.
    pub fn from_flags(do_once: bool, do_auto: bool, is_outdated: bool) -> (c: Control)
        ensures
            c@ == (ControlView { do_once, do_auto, is_outdated }),
    {
        Control { do_once, do_auto, is_outdated }
    }

    /// Update on the first frame, then no more.
    pub fn first_frame_update() -> (c: Control)
        ensures
            c@ == (ControlView { do_once: true, do_auto: false, is_outdated: true }),
    {
        Control { do_once: true, do_auto: false, is_outdated: true }
    }

    /// Update on every frame on which the structure is outdated.
    pub fn auto_update() -> (c: Control)
        ensures
            c@ == (ControlView { do_once: false, do_auto: true, is_outdated: true }),
    {
        Control { do_once: false, do_auto: true, is_outdated: true }
    }

    /// Allow an update this frame
    pub fn once(&mut self)
        ensures
            final(self)@ == (ControlView { do_once: true, ..old(self)@ }),
    {
        self.do_once = true;
    }

    /// If true, allow updates the following frames (until it is set to false)
    pub fn auto(&mut self) -> (flag: &mut bool)
        ensures
            *flag == old(self)@.do_auto,
            final(self)@ == (ControlView { do_auto: *final(flag), ..old(self)@ }),
    {
        &mut self.do_auto
    }

    /// Set when the configuration of the structure has changed so that the current version is invalid.
    pub fn set_outdated(&mut self)
        ensures
            final(self)@ == (ControlView { is_outdated: true, ..old(self)@ }),
    {
        self.is_outdated = true;
    }

    /// Return true if it makes sense to update on this frame.
    pub fn update(&mut self) -> (due: bool)
        ensures
            due == update_due(old(self)@),
            final(self)@ == after_update(old(self)@),
    {
        let due = self.is_outdated && (self.do_once || self.do_auto);
        self.do_once = false;
        if due {
            self.is_outdated = false;
        }
        due
    }
}

impl Default for Control {
    /// Behaves as follows: Update on the first frame, then no more.
    fn default() -> (c: Self)
        ensures
            c@ == (ControlView { do_once: true, do_auto: false, is_outdated: true }),
    {
        Control { do_once: true, do_auto: false, is_outdated: true }
    }
}

/// Of two updates in a row, the second is never due: the first either updated the structure or
/// found no permission, and it used up the one-shot permission either way.
pub proof fn lemma_second_update_not_due(v: ControlView)
    ensures
        !update_due(after_update(v)),
{
}

/// After `set_outdated` and `once`, the next update is due, whatever the state was.
pub proof fn lemma_once_after_outdated_updates(v: ControlView)
    ensures
        update_due(ControlView { do_once: true, ..ControlView { is_outdated: true, ..v } }),
{
}

/// A structure that is not outdated is never updated, and an update leaves it up to date.
pub proof fn lemma_up_to_date_stays(v: ControlView)
    requires
        !v.is_outdated,
    ensures
        !update_due(v),
        after_update(v).is_outdated == false,
{
}

/// With automatic updates on, an outdated structure is updated on the next frame.
pub proof fn lemma_auto_updates_outdated(v: ControlView)
    requires
        v.do_auto,
        v.is_outdated,
    ensures
        update_due(v),
        !after_update(v).is_outdated,
{
}

/// The default control updates on the first frame and then never again: after that update it
/// rests in a state where no update is due and an update changes nothing, until the structure is
/// marked outdated again.
pub proof fn lemma_default_updates_first_frame_only()
    ensures
        update_due(ControlView { do_once: true, do_auto: false, is_outdated: true }),
        after_update(ControlView { do_once: true, do_auto: false, is_outdated: true })
            == (ControlView { do_once: false, do_auto: false, is_outdated: false }),
        !update_due(ControlView { do_once: false, do_auto: false, is_outdated: false }),
        after_update(ControlView { do_once: false, do_auto: false, is_outdated: false })
            == (ControlView { do_once: false, do_auto: false, is_outdated: false }),
{
}

} // verus!
