use kbd_core::debounce::Debouncer;
use kbd_core::layout::{Keymap, LayoutEngine};
use kbd_core::pipeline::Controller;
use kbd_core::report::HidReport;
use kbd_core::types::{Action, KeyEvent};

const A: u8 = 0x04;
const B: u8 = 0x05;
const C: u8 = 0x06;
const UP: u8 = 0x52;
const LSHIFT: u8 = 0xE1;
const RESET_PAYLOAD: u8 = 7;

fn grid1(v: bool) -> Vec<Vec<bool>> {
    vec![vec![v]]
}

/// Base layer: a shift-to-1 key at each end, B, C, two keys bound to the
/// same keycode, and a custom reset key. Layer 1: Up over B, Transparent
/// fall-through elsewhere.
fn two_layer_keymap() -> Keymap {
    let base = vec![vec![
        Action::LayerShift(1),
        Action::Keycode(B),
        Action::Keycode(C),
        Action::Keycode(A),
        Action::Keycode(A),
        Action::Custom(RESET_PAYLOAD),
        Action::LayerShift(1),
    ]];
    let upper = vec![vec![
        Action::Transparent,
        Action::Keycode(UP),
        Action::Transparent,
        Action::Transparent,
        Action::Transparent,
        Action::Transparent,
        Action::Transparent,
    ]];
    Keymap::new(vec![base, upper]).unwrap()
}

#[test]
fn debounce_transient_emits_nothing() {
    let mut d = Debouncer::new(1, 1, 3);
    // Two noisy closed samples, then the line settles open again: below
    // the threshold, so no event may come out.
    assert!(d.events(&grid1(true)).is_empty());
    assert!(d.events(&grid1(true)).is_empty());
    assert!(d.events(&grid1(false)).is_empty());
    assert!(d.events(&grid1(false)).is_empty());
}

#[test]
fn debounce_settles_exactly_once() {
    let mut d = Debouncer::new(1, 1, 3);
    assert!(d.events(&grid1(true)).is_empty());
    assert!(d.events(&grid1(true)).is_empty());
    let evs = d.events(&grid1(true));
    assert_eq!(evs.len(), 1);
    assert_eq!(evs[0], KeyEvent::Press(0, 0));
    // Holding the key longer emits nothing further.
    assert!(d.events(&grid1(true)).is_empty());
    assert!(d.events(&grid1(true)).is_empty());
    // Releasing takes the same settle time and emits one release.
    assert!(d.events(&grid1(false)).is_empty());
    assert!(d.events(&grid1(false)).is_empty());
    let evs = d.events(&grid1(false));
    assert_eq!(evs.len(), 1);
    assert_eq!(evs[0], KeyEvent::Release(0, 0));
}

#[test]
fn debounce_idempotent_on_confirmed_state() {
    let mut d = Debouncer::new(2, 3, 5);
    let idle = vec![vec![false; 3], vec![false; 3]];
    for _ in 0..10 {
        assert!(d.events(&idle).is_empty());
    }
}

#[test]
fn debounce_events_in_row_major_order() {
    let mut d = Debouncer::new(2, 2, 1);
    let raw = vec![vec![false, true], vec![true, false]];
    let evs = d.events(&raw);
    assert_eq!(evs.len(), 2);
    assert_eq!(evs[0], KeyEvent::Press(0, 1));
    assert_eq!(evs[1], KeyEvent::Press(1, 0));
}

#[test]
fn resolution_is_deterministic() {
    let km = two_layer_keymap();
    let mut e = LayoutEngine::new(km);
    let first = e.resolve(0, 1);
    let second = e.resolve(0, 1);
    assert_eq!(first, second);
    assert_eq!(first, Action::Keycode(B));
    // With layer 1 active the same coordinate resolves to Up, again
    // deterministically.
    e.event(KeyEvent::Press(0, 0));
    assert_eq!(e.resolve(0, 1), Action::Keycode(UP));
    assert_eq!(e.resolve(0, 1), Action::Keycode(UP));
}

#[test]
fn press_release_removes_exactly_that_key() {
    let km = two_layer_keymap();
    let mut e = LayoutEngine::new(km);
    // Two coordinates carrying the same keycode: releasing one removes
    // exactly one occurrence.
    e.event(KeyEvent::Press(0, 3));
    e.event(KeyEvent::Press(0, 4));
    assert_eq!(e.keycodes(), vec![A, A]);
    // A layer change while the keys are held must not disturb the
    // press-time binding.
    e.event(KeyEvent::Press(0, 0));
    e.event(KeyEvent::Release(0, 3));
    assert_eq!(e.keycodes(), vec![A]);
    e.event(KeyEvent::Release(0, 4));
    assert_eq!(e.keycodes(), Vec::<u8>::new());
}

#[test]
fn layer_stack_balances_out() {
    let km = two_layer_keymap();
    let mut e = LayoutEngine::new(km);
    // Nested: press both shifts, release in reverse order.
    e.event(KeyEvent::Press(0, 0));
    e.event(KeyEvent::Press(0, 6));
    assert_eq!(e.layer_stack().as_slice(), &[1, 1]);
    e.event(KeyEvent::Release(0, 6));
    assert_eq!(e.layer_stack().as_slice(), &[1]);
    e.event(KeyEvent::Release(0, 0));
    assert!(e.layer_stack().is_empty());
    // Overlapping: release the first shift first; the stack still ends
    // where it began.
    e.event(KeyEvent::Press(0, 0));
    e.event(KeyEvent::Press(0, 6));
    e.event(KeyEvent::Release(0, 0));
    e.event(KeyEvent::Release(0, 6));
    assert!(e.layer_stack().is_empty());
}

#[test]
fn momentary_layer_shift() {
    let km = two_layer_keymap();
    let mut e = LayoutEngine::new(km);
    e.event(KeyEvent::Press(0, 0));
    // (0, 1) is Up on layer 1.
    e.event(KeyEvent::Press(0, 1));
    assert_eq!(e.keycodes(), vec![UP]);
    // (0, 2) is Transparent on layer 1 and falls through to C.
    e.event(KeyEvent::Press(0, 2));
    assert_eq!(e.keycodes(), vec![UP, C]);
    e.event(KeyEvent::Release(0, 1));
    e.event(KeyEvent::Release(0, 2));
    e.event(KeyEvent::Release(0, 0));
    assert!(e.layer_stack().is_empty());
    // With the shift gone the coordinate resolves against the base again.
    e.event(KeyEvent::Press(0, 1));
    assert_eq!(e.keycodes(), vec![B]);
}

#[test]
fn custom_action_fires_on_release_only_once() {
    let km = two_layer_keymap();
    let mut e = LayoutEngine::new(km);
    e.event(KeyEvent::Press(0, 5));
    assert_eq!(e.tick(), None);
    e.event(KeyEvent::Release(0, 5));
    assert_eq!(e.tick(), Some(RESET_PAYLOAD));
    assert_eq!(e.tick(), None);
}

#[test]
fn report_truncates_beyond_six_regular_keys() {
    let keys: Vec<u8> = vec![4, 5, 6, 7, 8, 9, 10];
    let rep = HidReport::encode(&keys);
    let bytes = rep.bytes();
    assert_eq!(bytes, vec![0, 0, 4, 5, 6, 7, 8, 9]);
}

#[test]
fn report_packs_modifiers_and_keys() {
    let keys: Vec<u8> = vec![LSHIFT, A];
    let rep = HidReport::encode(&keys);
    let bytes = rep.bytes();
    assert_eq!(bytes, vec![0x02, 0, A, 0, 0, 0, 0, 0]);
    let again = HidReport::encode(&keys);
    assert!(rep.same_as(&again));
    let empty = HidReport::empty();
    assert!(!rep.same_as(&empty));
    assert_eq!(empty.bytes(), vec![0; 8]);
}

#[test]
fn keymap_rejects_malformed_tables() {
    assert!(Keymap::new(vec![]).is_none());
    // Ragged row.
    assert!(Keymap::new(vec![vec![
        vec![Action::Keycode(A), Action::Keycode(B)],
        vec![Action::Keycode(C)],
    ]]).is_none());
    // Transparent in the base layer.
    assert!(Keymap::new(vec![vec![vec![Action::Transparent]]]).is_none());
    // Layer-shift target out of range.
    assert!(Keymap::new(vec![vec![vec![Action::LayerShift(3)]]]).is_none());
    // A well-formed single-key table is accepted.
    assert!(Keymap::new(vec![vec![vec![Action::Keycode(A)]]]).is_some());
}

#[test]
fn chord_reports_both_keys() {
    let base = vec![vec![Action::Keycode(A), Action::Keycode(B)]];
    let km = Keymap::new(vec![base]).unwrap();
    let mut ctl = Controller::new(km, 5);
    let raw = vec![vec![true, true]];
    // Four scans of bounce tolerance: nothing confirmed, nothing sent.
    for _ in 0..4 {
        let out = ctl.tick(&raw);
        assert!(out.report.is_none());
        assert!(out.custom.is_none());
    }
    // The fifth scan confirms both presses in the same tick.
    let out = ctl.tick(&raw);
    let rep = out.report.expect("changed report expected");
    assert_eq!(rep.bytes(), vec![0, 0, A, B, 0, 0, 0, 0]);
    assert_eq!(ctl.keycodes(), vec![A, B]);
    // Nothing changed: no retransmission needed.
    let out = ctl.tick(&raw);
    assert!(out.report.is_none());
    assert_eq!(ctl.last_report_bytes(), vec![0, 0, A, B, 0, 0, 0, 0]);
}

#[test]
fn reset_request_surfaces_through_controller() {
    let base = vec![vec![Action::Custom(RESET_PAYLOAD)]];
    let km = Keymap::new(vec![base]).unwrap();
    let mut ctl = Controller::new(km, 1);
    let out = ctl.tick(&grid1(true));
    assert!(out.custom.is_none());
    let out = ctl.tick(&grid1(false));
    assert_eq!(out.custom, Some(RESET_PAYLOAD));
    let out = ctl.tick(&grid1(false));
    assert!(out.custom.is_none());
}
