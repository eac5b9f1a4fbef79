use evremap::event::KeyEventType::{Press, Release, Repeat, Unknown};
use evremap::event::{
    make_event, make_sync_event, EventCode, InputEvent, KeyCode, KeyEventType, TimeVal,
};
use evremap::mapping::Mapping;
use evremap::remapper::output_keys;
use evremap::state_machine::StateMachine;

const KEY_1: KeyCode = 2;
const KEY_TAB: KeyCode = 15;
const KEY_LEFTCTRL: KeyCode = 29;
const KEY_A: KeyCode = 30;
const KEY_GRAVE: KeyCode = 41;
const KEY_LEFTSHIFT: KeyCode = 42;
const KEY_C: KeyCode = 46;
const KEY_V: KeyCode = 47;
const KEY_B: KeyCode = 48;
const KEY_LEFTMETA: KeyCode = 125;

const KEYS: [KeyCode; 10] = [
    KEY_1,
    KEY_TAB,
    KEY_LEFTCTRL,
    KEY_A,
    KEY_GRAVE,
    KEY_LEFTSHIFT,
    KEY_C,
    KEY_V,
    KEY_B,
    KEY_LEFTMETA,
];

fn at(sec: i64) -> TimeVal {
    TimeVal::new(sec, 0)
}

fn rule(
    cond: &[KeyCode],
    except: &[KeyCode],
    when: &[KeyCode],
    mappings: Vec<(KeyCode, Vec<KeyCode>)>,
) -> Mapping {
    Mapping::Remap {
        cond: cond.iter().copied().collect(),
        except: except.iter().copied().collect(),
        when: when.iter().copied().collect(),
        mappings,
    }
}

fn rules() -> Vec<Mapping> {
    vec![
        rule(&[], &[], &[KEY_LEFTMETA], vec![(KEY_LEFTMETA, vec![])]),
        rule(
            &[KEY_LEFTMETA],
            &[],
            &[KEY_C, KEY_V],
            vec![(KEY_LEFTMETA, vec![KEY_LEFTCTRL])],
        ),
        rule(
            &[KEY_LEFTMETA],
            &[],
            &[KEY_TAB, KEY_GRAVE],
            vec![(KEY_LEFTMETA, vec![KEY_LEFTMETA])],
        ),
        rule(
            &[KEY_LEFTSHIFT],
            &[KEY_LEFTCTRL],
            &[KEY_A],
            vec![(KEY_A, vec![KEY_B, KEY_1])],
        ),
    ]
}

/// A run in which every key that goes down comes up again, and no event strands a key,
/// releases a key that was never pressed or presses a held key again.
fn orderly_run() -> Vec<(KeyCode, KeyEventType)> {
    vec![
        (KEY_LEFTMETA, Press),
        (KEY_C, Press),
        (KEY_C, Repeat),
        (KEY_C, Release),
        (KEY_TAB, Press),
        (KEY_TAB, Release),
        (KEY_LEFTMETA, Release),
        (KEY_LEFTSHIFT, Press),
        (KEY_A, Press),
        (KEY_A, Repeat),
        (KEY_LEFTCTRL, Press),
        (KEY_A, Release),
        (KEY_A, Press),
        (KEY_LEFTCTRL, Release),
        (KEY_LEFTSHIFT, Release),
        (KEY_A, Release),
        (KEY_1, Unknown(5)),
        (KEY_1, Press),
        (KEY_1, Release),
        (KEY_LEFTMETA, Press),
        (KEY_C, Press),
        (KEY_V, Press),
        (KEY_LEFTCTRL, Release),
        (KEY_TAB, Press),
        (KEY_GRAVE, Press),
        (KEY_C, Release),
        (KEY_V, Release),
        (KEY_TAB, Release),
        (KEY_GRAVE, Release),
        (KEY_LEFTMETA, Release),
    ]
}

fn is_press_of(event: &InputEvent, key: KeyCode) -> bool {
    event.event_code == EventCode::Key(key) && event.value == 1
}

fn is_release_of(event: &InputEvent, key: KeyCode) -> bool {
    event.event_code == EventCode::Key(key) && event.value == 0
}

#[test]
fn maps_stay_inverse_over_a_run() {
    let mut sm = StateMachine::new(&rules());
    for (step, (key, kind)) in orderly_run().into_iter().enumerate() {
        sm.send(&make_event(key, &at(step as i64), kind));
        for physical in KEYS {
            for virtual_key in KEYS {
                let stands = match sm.virtual_keys(physical) {
                    Some(keys) => keys.contains(&virtual_key),
                    None => false,
                };
                assert_eq!(
                    stands,
                    sm.is_held_by(virtual_key, physical),
                    "step {step}: physical {physical}, virtual {virtual_key}"
                );
            }
        }
    }
}

#[test]
fn pressed_virtual_keys_have_a_holder() {
    let mut sm = StateMachine::new(&rules());
    for (step, (key, kind)) in orderly_run().into_iter().enumerate() {
        sm.send(&make_event(key, &at(step as i64), kind));
        for virtual_key in KEYS {
            let held = KEYS.iter().any(|p| sm.is_held_by(virtual_key, *p));
            assert_eq!(sm.is_pressed(virtual_key), held);
        }
    }
}

#[test]
fn guard_counters_follow_the_held_keys() {
    let shift_rule = vec![rule(
        &[KEY_LEFTSHIFT],
        &[KEY_LEFTCTRL],
        &[KEY_A],
        vec![(KEY_A, vec![KEY_B])],
    )];
    let mut sm = StateMachine::new(&shift_rule);
    assert_eq!(sm.guard_count(), 1);
    assert_eq!(sm.unsatisfied(0), 1);
    sm.send(&make_event(KEY_LEFTSHIFT, &at(1), Press));
    assert_eq!(sm.unsatisfied(0), 0);
    sm.send(&make_event(KEY_LEFTCTRL, &at(2), Press));
    assert_eq!(sm.unsatisfied(0), 1);
    sm.send(&make_event(KEY_LEFTCTRL, &at(3), Repeat));
    assert_eq!(sm.unsatisfied(0), 1);
    sm.send(&make_event(KEY_LEFTSHIFT, &at(4), Release));
    assert_eq!(sm.unsatisfied(0), 2);
    sm.send(&make_event(KEY_LEFTSHIFT, &at(5), Release));
    assert_eq!(sm.unsatisfied(0), 2);
    sm.send(&make_event(KEY_LEFTCTRL, &at(6), Release));
    assert_eq!(sm.unsatisfied(0), 1);
    sm.send(&make_event(KEY_LEFTSHIFT, &at(7), Press));
    sm.send(&make_event(KEY_LEFTSHIFT, &at(8), Press));
    assert_eq!(sm.unsatisfied(0), 0);
}

#[test]
fn guard_counters_count_unheld_cond_keys_and_held_except_keys() {
    let mut sm = StateMachine::new(&rules());
    let guards = [
        (vec![], vec![]),
        (vec![KEY_LEFTMETA], vec![]),
        (vec![KEY_LEFTSHIFT], vec![KEY_LEFTCTRL]),
    ];
    assert_eq!(sm.guard_count(), guards.len());
    for (step, (key, kind)) in orderly_run().into_iter().enumerate() {
        sm.send(&make_event(key, &at(step as i64), kind));
        for (g, (cond, except)) in guards.iter().enumerate() {
            let missing = cond.iter().filter(|k| sm.virtual_keys(**k).is_none()).count();
            let forbidden = except.iter().filter(|k| sm.virtual_keys(**k).is_some()).count();
            assert_eq!(sm.unsatisfied(g), missing + forbidden, "step {step}, guard {g}");
        }
    }
}

#[test]
fn presses_and_releases_balance_over_a_run() {
    let mut sm = StateMachine::new(&rules());
    let mut emitted: Vec<InputEvent> = Vec::new();
    for (step, (key, kind)) in orderly_run().into_iter().enumerate() {
        emitted.extend(sm.send(&make_event(key, &at(step as i64), kind)));
        for virtual_key in KEYS {
            let presses = emitted.iter().filter(|e| is_press_of(e, virtual_key)).count();
            let releases = emitted.iter().filter(|e| is_release_of(e, virtual_key)).count();
            let pressed = if sm.is_pressed(virtual_key) { 1 } else { 0 };
            assert_eq!(presses, releases + pressed, "step {step}, key {virtual_key}");
        }
    }
    for virtual_key in KEYS {
        assert!(!sm.is_pressed(virtual_key));
    }
}

#[test]
fn no_key_is_released_and_pressed_within_one_batch() {
    let mut sm = StateMachine::new(&rules());
    let mut run = orderly_run();
    run.extend([
        (KEY_LEFTMETA, Press),
        (KEY_C, Press),
        (KEY_V, Press),
        (KEY_V, Press),
        (KEY_GRAVE, Press),
        (KEY_LEFTMETA, Press),
        (KEY_B, Release),
    ]);
    for (step, (key, kind)) in run.into_iter().enumerate() {
        let out = sm.send(&make_event(key, &at(step as i64), kind));
        for virtual_key in KEYS {
            let released = out.iter().any(|e| is_release_of(e, virtual_key));
            let pressed = out.iter().any(|e| is_press_of(e, virtual_key));
            assert!(!(released && pressed), "step {step}, key {virtual_key}");
        }
    }
}

#[test]
fn batch_ends_with_its_only_sync_event() {
    let mut sm = StateMachine::new(&rules());
    for (step, (key, kind)) in orderly_run().into_iter().enumerate() {
        let time = at(step as i64);
        let event = make_event(key, &time, kind);
        let passes = match kind {
            Press | Release => false,
            Repeat => sm.virtual_keys(key).is_none(),
            Unknown(_) => true,
        };
        let drops = kind == Release && sm.virtual_keys(key).is_none() && sm.is_pressed(key);
        let out = sm.send(&event);
        if drops {
            assert_eq!(out, vec![]);
        } else if passes {
            assert_eq!(out, vec![event]);
        } else {
            assert_eq!(out.last(), Some(&make_sync_event(&time)));
            for e in &out[..out.len() - 1] {
                assert!(matches!(e.event_code, EventCode::Key(_)));
            }
        }
    }
}

#[test]
fn event_that_is_not_about_a_key_gets_no_sync_event() {
    let mut sm = StateMachine::new(&rules());
    let wheel = InputEvent::new(
        &at(1),
        &EventCode::Other {
            event_type: 2,
            event_code: 8,
        },
        1,
    );
    assert_eq!(sm.send(&wheel), vec![wheel]);
}

#[test]
fn machine_without_rules_is_the_identity() {
    let mut sm = StateMachine::new(&[]);
    let run = [
        (KEY_A, Press, true),
        (KEY_A, Repeat, true),
        (KEY_B, Repeat, false),
        (KEY_B, Press, true),
        (KEY_A, Press, true),
        (KEY_A, Release, true),
        (KEY_A, Release, true),
        (KEY_B, Unknown(3), false),
        (KEY_B, Release, true),
    ];
    for (step, (key, kind, with_sync)) in run.into_iter().enumerate() {
        let time = at(step as i64);
        let event = make_event(key, &time, kind);
        let expected = if with_sync {
            vec![event, make_sync_event(&time)]
        } else {
            vec![event]
        };
        assert_eq!(sm.send(&event), expected, "step {step}");
    }
}

#[test]
fn press_and_release_bring_the_machine_back() {
    for key in KEYS {
        let mut sm = StateMachine::new(&rules());
        let counters: Vec<usize> = (0..sm.guard_count()).map(|g| sm.unsatisfied(g)).collect();
        sm.send(&make_event(key, &at(1), Press));
        sm.send(&make_event(key, &at(2), Release));
        for k in KEYS {
            assert_eq!(sm.virtual_keys(k), None);
            assert!(!sm.is_pressed(k));
        }
        let after: Vec<usize> = (0..sm.guard_count()).map(|g| sm.unsatisfied(g)).collect();
        assert_eq!(after, counters);
    }
}

#[test]
fn double_press_under_a_failed_guard_keeps_the_old_virtual_key() {
    let shift_rule = vec![rule(
        &[KEY_LEFTSHIFT],
        &[KEY_LEFTCTRL],
        &[KEY_A],
        vec![(KEY_A, vec![KEY_B])],
    )];
    let mut sm = StateMachine::new(&shift_rule);
    sm.send(&make_event(KEY_LEFTSHIFT, &at(1), Press));
    sm.send(&make_event(KEY_A, &at(2), Press));
    sm.send(&make_event(KEY_LEFTCTRL, &at(3), Press));
    assert_eq!(
        sm.send(&make_event(KEY_A, &at(4), Press)),
        vec![make_event(KEY_A, &at(4), Press), make_sync_event(&at(4))]
    );
    assert_eq!(sm.virtual_keys(KEY_A), Some(vec![KEY_A]));
    assert!(sm.is_held_by(KEY_A, KEY_A));
    assert!(sm.is_held_by(KEY_B, KEY_A));
}

#[test]
fn emitted_keys_are_event_keys_or_targets() {
    let rules = rules();
    let targets = output_keys(&rules);
    assert_eq!(targets, vec![KEY_LEFTCTRL, KEY_LEFTMETA, KEY_B, KEY_1]);
    let mut sm = StateMachine::new(&rules);
    for (step, (key, kind)) in orderly_run().into_iter().enumerate() {
        let holds_itself: Vec<KeyCode> =
            KEYS.iter().copied().filter(|k| sm.is_held_by(*k, *k)).collect();
        for event in sm.send(&make_event(key, &at(step as i64), kind)) {
            if let EventCode::Key(emitted) = event.event_code {
                assert!(
                    emitted == key || holds_itself.contains(&emitted) || targets.contains(&emitted),
                    "step {step}: key {emitted}"
                );
            }
        }
    }
}

#[test]
fn release_frees_what_the_key_alone_held() {
    let rules = vec![
        rule(&[], &[], &[KEY_A], vec![(KEY_A, vec![KEY_1, KEY_C, KEY_V])]),
        rule(&[], &[], &[KEY_B], vec![(KEY_B, vec![KEY_C])]),
    ];
    let mut sm = StateMachine::new(&rules);
    sm.send(&make_event(KEY_A, &at(1), Press));
    sm.send(&make_event(KEY_B, &at(2), Press));
    assert_eq!(
        sm.send(&make_event(KEY_A, &at(3), Release)),
        vec![
            make_event(KEY_1, &at(3), Release),
            make_event(KEY_V, &at(3), Release),
            make_sync_event(&at(3))
        ]
    );
    assert_eq!(sm.virtual_keys(KEY_A), None);
    for key in KEYS {
        assert!(!sm.is_held_by(key, KEY_A));
    }
    assert!(sm.is_held_by(KEY_C, KEY_B));
}
