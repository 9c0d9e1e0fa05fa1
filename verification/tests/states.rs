//! Pseudo states, interaction events, and the style enums.

use cob_core::states::{PseudoEvent, PseudoState, PseudoStateParam, PseudoStates};
use cob_core::style::{
    Clipping, DisplayControl, JustifyCross, JustifyLines, JustifyMain, JustifySelfCross,
};

#[test]
fn enable_sets_enabled_and_clears_disabled() {
    let mut states = PseudoStates::new();
    states.apply_event(PseudoEvent::Disable);
    assert!(states.has(PseudoState::Disabled));
    states.apply_event(PseudoEvent::Enable);
    assert!(states.has(PseudoState::Enabled));
    assert!(!states.has(PseudoState::Disabled));
}

#[test]
fn open_and_close_are_opposites() {
    let mut states = PseudoStates::new();
    states.apply_event(PseudoEvent::Open);
    assert!(states.has(PseudoState::Open));
    states.apply_event(PseudoEvent::Close);
    assert!(states.has(PseudoState::Closed));
    assert!(!states.has(PseudoState::Open));
}

#[test]
fn select_and_deselect_touch_only_selection() {
    let mut states = PseudoStates::new();
    states.apply_event(PseudoEvent::Check);
    states.apply_event(PseudoEvent::Select);
    assert!(states.has(PseudoState::Selected));
    assert!(states.has(PseudoState::Checked));
    states.apply_event(PseudoEvent::Deselect);
    assert!(!states.has(PseudoState::Selected));
    assert!(states.has(PseudoState::Checked));
    states.apply_event(PseudoEvent::Uncheck);
    assert!(!states.has(PseudoState::Checked));
}

#[test]
fn fold_and_unfold_round_trip() {
    let mut states = PseudoStates::new();
    states.apply_event(PseudoEvent::Fold);
    assert!(states.has(PseudoState::Folded));
    states.apply_event(PseudoEvent::Unfold);
    assert!(!states.has(PseudoState::Folded));
}

#[test]
fn adding_twice_keeps_one_entry() {
    let mut states = PseudoStates::new();
    states.add(PseudoState::Checked);
    states.add(PseudoState::Checked);
    assert_eq!(states.states.len(), 1);
    states.remove(PseudoState::Checked);
    assert!(!states.has(PseudoState::Checked));
}

#[test]
fn entity_queries_answer_over_the_state_set() {
    let param = PseudoStateParam;
    let mut states = PseudoStates::new();
    states.add(PseudoState::Enabled);
    states.add(PseudoState::Open);
    assert!(param.entity_has(Some(&states), PseudoState::Enabled));
    assert!(!param.entity_has(Some(&states), PseudoState::Folded));
    assert!(!param.entity_has(None, PseudoState::Enabled));
    let req = vec![PseudoState::Folded, PseudoState::Open];
    assert!(param.entity_has_any(Some(&states), &req));
    assert!(!param.entity_has_all(Some(&states), &req));
    let req = vec![PseudoState::Enabled, PseudoState::Open];
    assert!(param.entity_has_all(Some(&states), &req));
    assert!(!param.entity_has_any(None, &req));
    assert!(!param.entity_has_all(None, &req));
}

#[test]
fn try_helpers_decide_without_redundant_events() {
    let param = PseudoStateParam;
    let mut states = PseudoStates::new();
    states.add(PseudoState::Selected);
    // Already selected: no Select event, but a Deselect is in order.
    assert!(!param.try_select(Some(&states)));
    assert!(param.try_deselect(Some(&states)));
    // Not checked: a Check is in order, an Uncheck is not.
    assert!(param.try_check(Some(&states)));
    assert!(!param.try_uncheck(Some(&states)));
    // Insertion only when absent, removal only when present.
    assert!(!param.try_insert(Some(&states), PseudoState::Selected));
    assert!(param.try_insert(Some(&states), PseudoState::Folded));
    assert!(param.try_remove(Some(&states), PseudoState::Selected));
    assert!(!param.try_remove(Some(&states), PseudoState::Folded));
    // A target without a state record accepts insertions, nothing else.
    assert!(param.try_insert(None, PseudoState::Selected));
    assert!(!param.try_remove(None, PseudoState::Selected));
    assert!(param.try_enable(None));
    assert!(!param.try_deselect(None));
    // The paired helpers.
    assert!(param.try_disable(Some(&states)));
    assert!(param.try_open(Some(&states)));
    assert!(param.try_close(Some(&states)));
    assert!(param.try_fold(Some(&states)));
    assert!(!param.try_unfold(Some(&states)));
}

#[test]
fn style_defaults_match_the_documented_choices() {
    assert_eq!(Clipping::default(), Clipping::NoClipping);
    assert_eq!(JustifyLines::default(), JustifyLines::FlexStart);
    assert_eq!(JustifyMain::default(), JustifyMain::FlexStart);
    assert_eq!(JustifyCross::default(), JustifyCross::FlexStart);
    assert_eq!(JustifySelfCross::default(), JustifySelfCross::Auto);
    assert_eq!(DisplayControl::default(), DisplayControl::Display);
}

#[test]
fn display_control_reports_visibility() {
    assert!(DisplayControl::Display.is_displayed());
    assert!(!DisplayControl::Hide.is_displayed());
}
