//! Pseudo states of live targets, and the state changes that interaction
//! events imply.
//!
//! A target carries a set of pseudo states. Events such as enabling or
//! selecting add one state and may remove its opposite; the `try_*` helpers
//! decide whether an event or state change should be queued at all, so a
//! caller never sends a redundant one.

use vstd::prelude::*;

verus! {

/// One pseudo state a target can carry.
#[derive(Debug, Clone, Copy, PartialEq, Eq, Structural)]
pub enum PseudoState {
    /// The target accepts interaction.
    Enabled,
    /// The target refuses interaction.
    Disabled,
    /// The target is selected.
    Selected,
    /// The target is checked.
    Checked,
    /// The target is open.
    Open,
    /// The target is closed.
    Closed,
    /// The target is folded.
    Folded,
}

/// An interaction event that changes pseudo states.
#[derive(Debug, Clone, Copy, PartialEq, Eq, Structural)]
pub enum PseudoEvent {
    /// Sets `Enabled` and removes `Disabled`.
    Enable,
    /// Sets `Disabled` and removes `Enabled`.
    Disable,
    /// Sets `Selected`.
    Select,
    /// Removes `Selected`.
    Deselect,
    /// Sets `Checked`.
    Check,
    /// Removes `Checked`.
    Uncheck,
    /// Sets `Open` and removes `Closed`.
    Open,
    /// Sets `Closed` and removes `Open`.
    Close,
    /// Sets `Folded`.
    Fold,
    /// Removes `Folded`.
    Unfold,
}

/// The state an event sets, if any.
pub open spec fn event_adds(e: PseudoEvent) -> Option<PseudoState> {
    match e {
        PseudoEvent::Enable => Some(PseudoState::Enabled),
        PseudoEvent::Disable => Some(PseudoState::Disabled),
        PseudoEvent::Select => Some(PseudoState::Selected),
        PseudoEvent::Deselect => None,
        PseudoEvent::Check => Some(PseudoState::Checked),
        PseudoEvent::Uncheck => None,
        PseudoEvent::Open => Some(PseudoState::Open),
        PseudoEvent::Close => Some(PseudoState::Closed),
        PseudoEvent::Fold => Some(PseudoState::Folded),
        PseudoEvent::Unfold => None,
    }
}

/// The state an event removes, if any.
pub open spec fn event_removes(e: PseudoEvent) -> Option<PseudoState> {
    match e {
        PseudoEvent::Enable => Some(PseudoState::Disabled),
        PseudoEvent::Disable => Some(PseudoState::Enabled),
        PseudoEvent::Select => None,
        PseudoEvent::Deselect => Some(PseudoState::Selected),
        PseudoEvent::Check => None,
        PseudoEvent::Uncheck => Some(PseudoState::Checked),
        PseudoEvent::Open => Some(PseudoState::Closed),
        PseudoEvent::Close => Some(PseudoState::Open),
        PseudoEvent::Fold => None,
        PseudoEvent::Unfold => Some(PseudoState::Folded),
    }
}

/// The set of pseudo states a target carries.
#[derive(Debug)]
pub struct PseudoStates {
    /// The states, each at most once.
    pub states: Vec<PseudoState>,
}

impl PseudoStates {
    /// True when the target carries `s`.
    pub open spec fn spec_has(&self, s: PseudoState) -> bool {
        self.states@.contains(s)
    }

    /// The type's invariant: no state occurs twice.
    pub open spec fn wf(&self) -> bool {
        forall|i: int, j: int|
            0 <= i < j < self.states@.len() ==> self.states@[i] != self.states@[j]
    }

    /// A target with no pseudo states.
    pub fn new() -> (r: PseudoStates)
        ensures
            r.wf(),
            forall|s: PseudoState| !r.spec_has(s),
    {
        let r = PseudoStates { states: Vec::new() };
        proof {
            assert(forall|s: PseudoState| !r.states@.contains(s));
        }
        r
    }

    /// Reports whether the target carries `s`.
    pub fn has(&self, s: PseudoState) -> (r: bool)
        ensures
            r == self.spec_has(s),
    {
        let mut i: usize = 0;
        while i < self.states.len()
            invariant
                i <= self.states@.len(),
                forall|j: int| 0 <= j < i ==> self.states@[j] != s,
            decreases self.states@.len() - i,
        {
            if self.states[i] == s {
                return true;
            }
            i = i + 1;
        }
        false
    }

    /// Adds `s` when absent.
    pub fn add(&mut self, s: PseudoState)
        requires
            old(self).wf(),
        ensures
            final(self).wf(),
            forall|x: PseudoState|
                final(self).spec_has(x) == (old(self).spec_has(x) || x == s),
    {
        if !self.has(s) {
            self.states.push(s);
            proof {
                assert(self.states@.drop_last() =~= old(self).states@);
                assert forall|x: PseudoState|
                    self.spec_has(x) == (old(self).spec_has(x) || x == s) by {
                    if self.states@.contains(x) {
                        let i = choose|i: int|
                            0 <= i < self.states@.len() && self.states@[i] == x;
                        if i < self.states@.len() - 1 {
                            assert(old(self).states@[i] == x);
                        }
                    }
                    if old(self).states@.contains(x) {
                        let i = choose|i: int|
                            0 <= i < old(self).states@.len() && old(self).states@[i] == x;
                        assert(self.states@[i] == x);
                    }
                    if x == s {
                        assert(self.states@[self.states@.len() - 1] == s);
                    }
                }
            }
        }
    }

    /// Removes `s` when present.
    pub fn remove(&mut self, s: PseudoState)
        requires
            old(self).wf(),
        ensures
            final(self).wf(),
            forall|x: PseudoState|
                final(self).spec_has(x) == (old(self).spec_has(x) && x != s),
    {
        let ghost states0 = self.states@;
        let mut i: usize = 0;
        while i < self.states.len()
            invariant
                i <= states0.len(),
                self.states@ == states0,
                old(self).states@ == states0,
                old(self).wf(),
                forall|j: int| 0 <= j < i ==> states0[j] != s,
            decreases states0.len() - i,
        {
            if self.states[i] == s {
                self.states.remove(i);
                proof {
                    assert(self.states@ =~= states0.remove(i as int));
                    assert forall|x: PseudoState|
                        self.spec_has(x) == (old(self).spec_has(x) && x != s) by {
                        if self.states@.contains(x) {
                            let j = choose|j: int|
                                0 <= j < self.states@.len() && self.states@[j] == x;
                            if j < i {
                                assert(states0[j] == x);
                            } else {
                                assert(states0[j + 1] == x);
                            }
                            assert(x != s) by {
                                if x == s {
                                    if j < i {
                                        assert(states0[j] != s);
                                    } else {
                                        assert(states0[i as int] == s);
                                        assert(states0[j + 1] == s);
                                    }
                                }
                            }
                        }
                        if old(self).spec_has(x) && x != s {
                            let j = choose|j: int| 0 <= j < states0.len() && states0[j] == x;
                            if j < i {
                                assert(self.states@[j] == x);
                            } else {
                                assert(j != i);
                                assert(self.states@[j - 1] == x);
                            }
                        }
                    }
                    assert forall|a: int, b: int|
                        0 <= a < b < self.states@.len() implies self.states@[a]
                        != self.states@[b] by {
                        let sa = if a < i {
                            a
                        } else {
                            a + 1
                        };
                        let sb = if b < i {
                            b
                        } else {
                            b + 1
                        };
                        assert(self.states@[a] == states0[sa]);
                        assert(self.states@[b] == states0[sb]);
                    }
                }
                return ;
            }
            i = i + 1;
        }
    }

    /// Applies the state changes an event implies: its added state appears,
    /// its removed state disappears, everything else stays.
    pub fn apply_event(&mut self, event: PseudoEvent)
        requires
            old(self).wf(),
        ensures
            final(self).wf(),
            forall|x: PseudoState|
                final(self).spec_has(x) == ((old(self).spec_has(x) || event_adds(event) == Some(
                    x,
                )) && event_removes(event) != Some(x)),
    {
        let (add, remove): (Option<PseudoState>, Option<PseudoState>) = match event {
            PseudoEvent::Enable => (Some(PseudoState::Enabled), Some(PseudoState::Disabled)),
            PseudoEvent::Disable => (Some(PseudoState::Disabled), Some(PseudoState::Enabled)),
            PseudoEvent::Select => (Some(PseudoState::Selected), None),
            PseudoEvent::Deselect => (None, Some(PseudoState::Selected)),
            PseudoEvent::Check => (Some(PseudoState::Checked), None),
            PseudoEvent::Uncheck => (None, Some(PseudoState::Checked)),
            PseudoEvent::Open => (Some(PseudoState::Open), Some(PseudoState::Closed)),
            PseudoEvent::Close => (Some(PseudoState::Closed), Some(PseudoState::Open)),
            PseudoEvent::Fold => (Some(PseudoState::Folded), None),
            PseudoEvent::Unfold => (None, Some(PseudoState::Folded)),
        };
        if let Some(s) = add {
            self.add(s);
        }
        if let Some(s) = remove {
            self.remove(s);
        }
    }
}

/// Read-only queries over a target's pseudo states and decisions about
/// which events to queue; `None` stands for a target that carries no
/// pseudo-state record at all.
#[derive(Debug, Clone, Copy, PartialEq, Eq, Structural)]
pub struct PseudoStateParam;

impl PseudoStateParam {
    /// True when the target has the requested state.
    pub fn entity_has(&self, states: Option<&PseudoStates>, req: PseudoState) -> (r: bool)
        ensures
            r == (states matches Some(s) && s.spec_has(req)),
    {
        match states {
            Some(s) => s.has(req),
            None => false,
        }
    }

    /// True when the target has at least one of the requested states.
    pub fn entity_has_any(&self, states: Option<&PseudoStates>, req: &Vec<PseudoState>) -> (r:
        bool)
        ensures
            r == (states matches Some(s) && exists|i: int|
                0 <= i < req@.len() && s.spec_has(#[trigger] req@[i])),
    {
        let Some(s) = states else {
            return false;
        };
        let mut i: usize = 0;
        while i < req.len()
            invariant
                i <= req@.len(),
                states == Some(s),
                forall|j: int| 0 <= j < i ==> !s.spec_has(#[trigger] req@[j]),
            decreases req@.len() - i,
        {
            if s.has(req[i]) {
                return true;
            }
            i = i + 1;
        }
        false
    }

    /// True when the target has every one of the requested states.
    pub fn entity_has_all(&self, states: Option<&PseudoStates>, req: &Vec<PseudoState>) -> (r:
        bool)
        ensures
            r == (states matches Some(s) && forall|i: int|
                0 <= i < req@.len() ==> s.spec_has(#[trigger] req@[i])),
    {
        let Some(s) = states else {
            return false;
        };
        let mut i: usize = 0;
        while i < req.len()
            invariant
                i <= req@.len(),
                states == Some(s),
                forall|j: int| 0 <= j < i ==> s.spec_has(#[trigger] req@[j]),
            decreases req@.len() - i,
        {
            if !s.has(req[i]) {
                return false;
            }
            i = i + 1;
        }
        true
    }

    /// Decides whether a state insertion should be queued: only when the
    /// target does not already have the state.
    pub fn try_insert(&self, states: Option<&PseudoStates>, state: PseudoState) -> (r: bool)
        ensures
            r == !(states matches Some(s) && s.spec_has(state)),
    {
        !self.entity_has(states, state)
    }

    /// Decides whether a state removal should be queued: only when the
    /// target has the state.
    pub fn try_remove(&self, states: Option<&PseudoStates>, state: PseudoState) -> (r: bool)
        ensures
            r == (states matches Some(s) && s.spec_has(state)),
    {
        self.entity_has(states, state)
    }

    /// Decides whether an `Enable` event should be queued.
    pub fn try_enable(&self, states: Option<&PseudoStates>) -> (r: bool)
        ensures
            r == !(states matches Some(s) && s.spec_has(PseudoState::Enabled)),
    {
        !self.entity_has(states, PseudoState::Enabled)
    }

    /// Decides whether a `Disable` event should be queued.
    pub fn try_disable(&self, states: Option<&PseudoStates>) -> (r: bool)
        ensures
            r == !(states matches Some(s) && s.spec_has(PseudoState::Disabled)),
    {
        !self.entity_has(states, PseudoState::Disabled)
    }

    /// Decides whether a `Select` event should be queued.
    pub fn try_select(&self, states: Option<&PseudoStates>) -> (r: bool)
        ensures
            r == !(states matches Some(s) && s.spec_has(PseudoState::Selected)),
    {
        !self.entity_has(states, PseudoState::Selected)
    }

    /// Decides whether a `Deselect` event should be queued: only for a
    /// target that is selected.
    pub fn try_deselect(&self, states: Option<&PseudoStates>) -> (r: bool)
        ensures
            r == (states matches Some(s) && s.spec_has(PseudoState::Selected)),
    {
        self.entity_has(states, PseudoState::Selected)
    }

    /// Decides whether a `Check` event should be queued.
    pub fn try_check(&self, states: Option<&PseudoStates>) -> (r: bool)
        ensures
            r == !(states matches Some(s) && s.spec_has(PseudoState::Checked)),
    {
        !self.entity_has(states, PseudoState::Checked)
    }

    /// Decides whether an `Uncheck` event should be queued: only for a
    /// target that is checked.
    pub fn try_uncheck(&self, states: Option<&PseudoStates>) -> (r: bool)
        ensures
            r == (states matches Some(s) && s.spec_has(PseudoState::Checked)),
    {
        self.entity_has(states, PseudoState::Checked)
    }

    /// Decides whether an `Open` event should be queued.
    pub fn try_open(&self, states: Option<&PseudoStates>) -> (r: bool)
        ensures
            r == !(states matches Some(s) && s.spec_has(PseudoState::Open)),
    {
        !self.entity_has(states, PseudoState::Open)
    }

    /// Decides whether a `Close` event should be queued.
    pub fn try_close(&self, states: Option<&PseudoStates>) -> (r: bool)
        ensures
            r == !(states matches Some(s) && s.spec_has(PseudoState::Closed)),
    {
        !self.entity_has(states, PseudoState::Closed)
    }

    /// Decides whether a `Fold` event should be queued.
    pub fn try_fold(&self, states: Option<&PseudoStates>) -> (r: bool)
        ensures
            r == !(states matches Some(s) && s.spec_has(PseudoState::Folded)),
    {
        !self.entity_has(states, PseudoState::Folded)
    }

    /// Decides whether an `Unfold` event should be queued: only for a
    /// target that is folded.
    pub fn try_unfold(&self, states: Option<&PseudoStates>) -> (r: bool)
        ensures
            r == (states matches Some(s) && s.spec_has(PseudoState::Folded)),
    {
        self.entity_has(states, PseudoState::Folded)
    }
}

} // verus!
