use evremap::event::KeyEventType::{Press, Release, Repeat, Unknown};
use evremap::event::{
    make_event, make_sync_event, EventCode, InputEvent, KeyCode, KeyEventType, TimeVal,
};
use evremap::mapping::Mapping;
use evremap::state_machine::StateMachine;
use evremap::warning::Warning;

const KEY_1: KeyCode = 2;
const KEY_2: KeyCode = 3;
const KEY_TAB: KeyCode = 15;
const KEY_LEFTCTRL: KeyCode = 29;
const KEY_A: KeyCode = 30;
const KEY_GRAVE: KeyCode = 41;
const KEY_LEFTSHIFT: KeyCode = 42;
const KEY_X: KeyCode = 45;
const KEY_C: KeyCode = 46;
const KEY_V: KeyCode = 47;
const KEY_B: KeyCode = 48;
const KEY_LEFTMETA: KeyCode = 125;

fn ke(key: KeyCode, sec: i64, event_type: KeyEventType) -> InputEvent {
    make_event(key, &TimeVal::new(sec, 0), event_type)
}

fn se(sec: i64) -> InputEvent {
    make_sync_event(&TimeVal::new(sec, 0))
}

fn remap(
    cond: Vec<KeyCode>,
    except: Vec<KeyCode>,
    when: Vec<KeyCode>,
    mappings: Vec<(KeyCode, Vec<KeyCode>)>,
) -> Mapping {
    Mapping::Remap {
        cond: cond.into_iter().collect(),
        except: except.into_iter().collect(),
        when: when.into_iter().collect(),
        mappings,
    }
}

fn modifier_rules() -> Vec<Mapping> {
    vec![
        remap(vec![], vec![], vec![KEY_LEFTMETA], vec![(KEY_LEFTMETA, vec![])]),
        remap(
            vec![KEY_LEFTMETA],
            vec![],
            vec![KEY_C, KEY_V],
            vec![(KEY_LEFTMETA, vec![KEY_LEFTCTRL])],
        ),
        remap(
            vec![KEY_LEFTMETA],
            vec![],
            vec![KEY_TAB, KEY_GRAVE],
            vec![(KEY_LEFTMETA, vec![KEY_LEFTMETA])],
        ),
    ]
}

fn shift_rule() -> Vec<Mapping> {
    vec![remap(
        vec![KEY_LEFTSHIFT],
        vec![KEY_LEFTCTRL],
        vec![KEY_A],
        vec![(KEY_A, vec![KEY_B])],
    )]
}

#[test]
fn test_tbl() {
    let tcs: Vec<(_, _, Vec<(InputEvent, Vec<InputEvent>)>)> = vec![
        (
            "case 1",
            vec![],
            vec![
                (ke(KEY_1, 10, Press), vec![ke(KEY_1, 10, Press), se(10)]),
                (ke(KEY_1, 10, Release), vec![ke(KEY_1, 10, Release), se(10)]),
            ],
        ),
        (
            "case 2",
            modifier_rules(),
            vec![
                (ke(KEY_LEFTMETA, 10, Press), vec![se(10)]),
                (
                    ke(KEY_C, 11, Press),
                    vec![ke(KEY_LEFTCTRL, 11, Press), ke(KEY_C, 11, Press), se(11)],
                ),
                (ke(KEY_C, 12, Release), vec![ke(KEY_C, 12, Release), se(12)]),
                (
                    ke(KEY_LEFTMETA, 13, Release),
                    vec![ke(KEY_LEFTCTRL, 13, Release), se(13)],
                ),
            ],
        ),
    ];
    for (name, mappings, calls) in tcs {
        let mut sm = StateMachine::new(&mappings);
        for (input, output) in calls {
            assert_eq!((name, &input, sm.send(&input)), (name, &input, output));
        }
    }
}

#[test]
fn press_without_rules_passes_with_sync() {
    let mut sm = StateMachine::new(&[]);
    assert_eq!(
        sm.send(&ke(KEY_1, 10, Press)),
        vec![ke(KEY_1, 10, Press), se(10)]
    );
}

#[test]
fn release_without_rules_passes_with_sync() {
    let mut sm = StateMachine::new(&[]);
    sm.send(&ke(KEY_1, 10, Press));
    assert_eq!(
        sm.send(&ke(KEY_1, 10, Release)),
        vec![ke(KEY_1, 10, Release), se(10)]
    );
}

#[test]
fn modifier_alone_emits_only_sync() {
    let mut sm = StateMachine::new(&modifier_rules());
    assert_eq!(sm.send(&ke(KEY_LEFTMETA, 10, Press)), vec![se(10)]);
    assert_eq!(sm.virtual_keys(KEY_LEFTMETA), Some(vec![]));
}

#[test]
fn modifier_is_pressed_as_ctrl_before_the_trigger() {
    let mut sm = StateMachine::new(&modifier_rules());
    sm.send(&ke(KEY_LEFTMETA, 10, Press));
    assert_eq!(
        sm.send(&ke(KEY_C, 11, Press)),
        vec![ke(KEY_LEFTCTRL, 11, Press), ke(KEY_C, 11, Press), se(11)]
    );
    assert_eq!(sm.virtual_keys(KEY_LEFTMETA), Some(vec![KEY_LEFTCTRL]));
    assert!(sm.is_held_by(KEY_LEFTCTRL, KEY_LEFTMETA));
}

#[test]
fn trigger_release_leaves_modifier_remapped() {
    let mut sm = StateMachine::new(&modifier_rules());
    sm.send(&ke(KEY_LEFTMETA, 10, Press));
    sm.send(&ke(KEY_C, 11, Press));
    assert_eq!(
        sm.send(&ke(KEY_C, 12, Release)),
        vec![ke(KEY_C, 12, Release), se(12)]
    );
    assert!(sm.is_pressed(KEY_LEFTCTRL));
}

#[test]
fn modifier_release_frees_the_virtual_ctrl() {
    let mut sm = StateMachine::new(&modifier_rules());
    sm.send(&ke(KEY_LEFTMETA, 10, Press));
    sm.send(&ke(KEY_C, 11, Press));
    sm.send(&ke(KEY_C, 12, Release));
    assert_eq!(
        sm.send(&ke(KEY_LEFTMETA, 13, Release)),
        vec![ke(KEY_LEFTCTRL, 13, Release), se(13)]
    );
    assert!(!sm.is_pressed(KEY_LEFTCTRL));
    assert_eq!(sm.virtual_keys(KEY_LEFTMETA), None);
}

#[test]
fn modifier_changes_from_ctrl_to_itself() {
    let mut sm = StateMachine::new(&modifier_rules());
    sm.send(&ke(KEY_LEFTMETA, 1, Press));
    sm.send(&ke(KEY_C, 2, Press));
    sm.send(&ke(KEY_C, 3, Release));
    assert_eq!(
        sm.send(&ke(KEY_TAB, 4, Press)),
        vec![
            ke(KEY_LEFTCTRL, 4, Release),
            ke(KEY_LEFTMETA, 4, Press),
            ke(KEY_TAB, 4, Press),
            se(4)
        ]
    );
}

#[test]
fn guard_lets_rule_fire_while_shift_is_held() {
    let mut sm = StateMachine::new(&shift_rule());
    assert_eq!(
        sm.send(&ke(KEY_LEFTSHIFT, 1, Press)),
        vec![ke(KEY_LEFTSHIFT, 1, Press), se(1)]
    );
    assert_eq!(sm.send(&ke(KEY_A, 2, Press)), vec![ke(KEY_B, 2, Press), se(2)]);
    assert_eq!(sm.send(&ke(KEY_A, 3, Release)), vec![ke(KEY_B, 3, Release), se(3)]);
}

#[test]
fn guard_keeps_rule_from_firing_while_ctrl_is_held() {
    let mut sm = StateMachine::new(&shift_rule());
    sm.send(&ke(KEY_LEFTSHIFT, 1, Press));
    sm.send(&ke(KEY_LEFTCTRL, 2, Press));
    assert_eq!(sm.send(&ke(KEY_A, 3, Press)), vec![ke(KEY_A, 3, Press), se(3)]);
}

#[test]
fn guard_holds_again_after_ctrl_is_released() {
    let mut sm = StateMachine::new(&shift_rule());
    sm.send(&ke(KEY_LEFTSHIFT, 1, Press));
    sm.send(&ke(KEY_LEFTCTRL, 2, Press));
    sm.send(&ke(KEY_LEFTCTRL, 3, Release));
    assert_eq!(sm.send(&ke(KEY_A, 4, Press)), vec![ke(KEY_B, 4, Press), se(4)]);
}

#[test]
fn guard_fails_again_after_shift_is_released() {
    let mut sm = StateMachine::new(&shift_rule());
    sm.send(&ke(KEY_LEFTSHIFT, 1, Press));
    sm.send(&ke(KEY_LEFTSHIFT, 2, Release));
    assert_eq!(sm.send(&ke(KEY_A, 3, Press)), vec![ke(KEY_A, 3, Press), se(3)]);
}

#[test]
fn rule_without_shift_does_not_fire() {
    let mut sm = StateMachine::new(&shift_rule());
    assert_eq!(sm.send(&ke(KEY_A, 1, Press)), vec![ke(KEY_A, 1, Press), se(1)]);
}

#[test]
fn double_press_without_rules_presses_again() {
    let mut sm = StateMachine::new(&[]);
    sm.send(&ke(KEY_1, 1, Press));
    assert_eq!(sm.send(&ke(KEY_1, 2, Press)), vec![ke(KEY_1, 2, Press), se(2)]);
    assert_eq!(sm.virtual_keys(KEY_1), Some(vec![KEY_1]));
    assert!(sm.is_held_by(KEY_1, KEY_1));
}

#[test]
fn release_of_unpressed_key_passes_with_sync() {
    let mut sm = StateMachine::new(&modifier_rules());
    assert_eq!(
        sm.send(&ke(KEY_X, 5, Release)),
        vec![ke(KEY_X, 5, Release), se(5)]
    );
    assert_eq!(sm.virtual_keys(KEY_X), None);
    assert!(!sm.is_pressed(KEY_X));
}

#[test]
fn release_of_key_that_another_key_holds_is_dropped() {
    let mut sm = StateMachine::new(&modifier_rules());
    sm.send(&ke(KEY_LEFTMETA, 1, Press));
    sm.send(&ke(KEY_C, 2, Press));
    assert_eq!(sm.send(&ke(KEY_LEFTCTRL, 3, Release)), vec![]);
    assert!(sm.is_held_by(KEY_LEFTCTRL, KEY_LEFTMETA));
    assert_eq!(sm.virtual_keys(KEY_LEFTMETA), Some(vec![KEY_LEFTCTRL]));
}

#[test]
fn release_of_the_virtual_key_of_a_remapped_key_is_dropped() {
    let rules = vec![remap(vec![], vec![], vec![KEY_A], vec![(KEY_A, vec![KEY_B])])];
    let mut sm = StateMachine::new(&rules);
    assert_eq!(sm.send(&ke(KEY_A, 1, Press)), vec![ke(KEY_B, 1, Press), se(1)]);
    assert_eq!(sm.update_with_event(&ke(KEY_B, 2, Release), KEY_B), vec![]);
    assert_eq!(sm.virtual_keys(KEY_A), Some(vec![KEY_B]));
    assert!(sm.is_held_by(KEY_B, KEY_A));
}

#[test]
fn repeat_of_held_key_repeats_its_virtual_keys() {
    let mut sm = StateMachine::new(&modifier_rules());
    sm.send(&ke(KEY_LEFTMETA, 1, Press));
    sm.send(&ke(KEY_C, 2, Press));
    assert_eq!(
        sm.send(&ke(KEY_LEFTMETA, 3, Repeat)),
        vec![ke(KEY_LEFTCTRL, 3, Repeat), se(3)]
    );
    assert_eq!(sm.send(&ke(KEY_C, 4, Repeat)), vec![ke(KEY_C, 4, Repeat), se(4)]);
}

#[test]
fn repeat_of_key_mapped_to_nothing_emits_only_sync() {
    let mut sm = StateMachine::new(&modifier_rules());
    sm.send(&ke(KEY_LEFTMETA, 1, Press));
    assert_eq!(sm.send(&ke(KEY_LEFTMETA, 2, Repeat)), vec![se(2)]);
}

#[test]
fn repeat_of_unpressed_key_passes_alone() {
    let mut sm = StateMachine::new(&[]);
    assert_eq!(sm.send(&ke(KEY_1, 1, Repeat)), vec![ke(KEY_1, 1, Repeat)]);
}

#[test]
fn unknown_value_passes_alone() {
    let mut sm = StateMachine::new(&modifier_rules());
    assert_eq!(
        sm.send(&ke(KEY_C, 1, Unknown(7))),
        vec![ke(KEY_C, 1, Unknown(7))]
    );
    assert_eq!(
        sm.send(&ke(KEY_C, 1, Unknown(-1))),
        vec![ke(KEY_C, 1, Unknown(-1))]
    );
}

#[test]
fn event_that_is_not_about_a_key_passes_alone() {
    let mut sm = StateMachine::new(&modifier_rules());
    let motion = InputEvent::new(
        &TimeVal::new(3, 250),
        &EventCode::Other {
            event_type: 2,
            event_code: 1,
        },
        -4,
    );
    assert_eq!(sm.send(&motion), vec![motion]);
    let sync = se(9);
    assert_eq!(sm.send(&sync), vec![sync]);
}

#[test]
fn first_rule_wins_where_two_remap_one_key() {
    let rules = vec![
        remap(vec![], vec![], vec![KEY_A], vec![(KEY_A, vec![KEY_1])]),
        remap(vec![], vec![], vec![KEY_A], vec![(KEY_A, vec![KEY_2])]),
    ];
    let mut sm = StateMachine::new(&rules);
    assert_eq!(sm.send(&ke(KEY_A, 1, Press)), vec![ke(KEY_1, 1, Press), se(1)]);
}

#[test]
fn first_entry_wins_within_one_rule() {
    let rules = vec![remap(
        vec![],
        vec![],
        vec![KEY_A],
        vec![(KEY_A, vec![KEY_2]), (KEY_A, vec![KEY_1])],
    )];
    let mut sm = StateMachine::new(&rules);
    assert_eq!(sm.send(&ke(KEY_A, 1, Press)), vec![ke(KEY_2, 1, Press), se(1)]);
}

#[test]
fn key_mapped_to_several_keys_presses_each_once() {
    let rules = vec![remap(
        vec![],
        vec![],
        vec![KEY_A],
        vec![(KEY_A, vec![KEY_LEFTCTRL, KEY_C, KEY_LEFTCTRL])],
    )];
    let mut sm = StateMachine::new(&rules);
    assert_eq!(
        sm.send(&ke(KEY_A, 1, Press)),
        vec![ke(KEY_LEFTCTRL, 1, Press), ke(KEY_C, 1, Press), se(1)]
    );
    assert_eq!(sm.virtual_keys(KEY_A), Some(vec![KEY_LEFTCTRL, KEY_C]));
    assert_eq!(
        sm.send(&ke(KEY_A, 2, Repeat)),
        vec![ke(KEY_LEFTCTRL, 2, Repeat), ke(KEY_C, 2, Repeat), se(2)]
    );
    assert_eq!(
        sm.send(&ke(KEY_A, 3, Release)),
        vec![ke(KEY_LEFTCTRL, 3, Release), ke(KEY_C, 3, Release), se(3)]
    );
}

#[test]
fn virtual_key_stays_down_while_one_holder_is_left() {
    let rules = vec![
        remap(vec![], vec![], vec![KEY_A], vec![(KEY_A, vec![KEY_X])]),
        remap(vec![], vec![], vec![KEY_B], vec![(KEY_B, vec![KEY_X])]),
    ];
    let mut sm = StateMachine::new(&rules);
    assert_eq!(sm.send(&ke(KEY_A, 1, Press)), vec![ke(KEY_X, 1, Press), se(1)]);
    assert_eq!(sm.send(&ke(KEY_B, 2, Press)), vec![se(2)]);
    assert_eq!(sm.send(&ke(KEY_A, 3, Release)), vec![se(3)]);
    assert!(sm.is_held_by(KEY_X, KEY_B));
    assert!(!sm.is_held_by(KEY_X, KEY_A));
    assert_eq!(sm.send(&ke(KEY_B, 4, Release)), vec![ke(KEY_X, 4, Release), se(4)]);
}

#[test]
fn remapped_key_that_is_not_held_is_ignored() {
    let rules = vec![remap(
        vec![],
        vec![],
        vec![KEY_C],
        vec![(KEY_LEFTMETA, vec![KEY_LEFTCTRL])],
    )];
    let mut sm = StateMachine::new(&rules);
    assert_eq!(sm.send(&ke(KEY_C, 1, Press)), vec![ke(KEY_C, 1, Press), se(1)]);
    assert_eq!(sm.virtual_keys(KEY_LEFTMETA), None);
}

#[test]
fn second_trigger_does_not_toggle_the_kept_virtual_key() {
    let mut sm = StateMachine::new(&modifier_rules());
    sm.send(&ke(KEY_LEFTMETA, 1, Press));
    sm.send(&ke(KEY_C, 2, Press));
    assert_eq!(sm.send(&ke(KEY_V, 3, Press)), vec![ke(KEY_V, 3, Press), se(3)]);
    assert!(sm.is_held_by(KEY_LEFTCTRL, KEY_LEFTMETA));
}

#[test]
fn virtual_key_that_falls_and_goes_down_again_is_not_shown() {
    let mut sm = StateMachine::new(&modifier_rules());
    sm.send(&ke(KEY_LEFTMETA, 10, Press));
    assert_eq!(
        sm.send(&ke(KEY_TAB, 11, Press)),
        vec![ke(KEY_LEFTMETA, 11, Press), ke(KEY_TAB, 11, Press), se(11)]
    );
    assert_eq!(
        sm.update_with_event(&ke(KEY_GRAVE, 12, Press), KEY_GRAVE),
        vec![ke(KEY_GRAVE, 12, Press), se(12)]
    );
    assert!(sm.is_held_by(KEY_LEFTMETA, KEY_LEFTMETA));
}

#[test]
fn double_press_of_a_key_that_a_rule_maps_to_itself_shows_nothing() {
    let rules = vec![remap(vec![], vec![], vec![KEY_A], vec![(KEY_A, vec![KEY_A])])];
    let mut sm = StateMachine::new(&rules);
    assert_eq!(sm.send(&ke(KEY_A, 1, Press)), vec![ke(KEY_A, 1, Press), se(1)]);
    assert_eq!(sm.send(&ke(KEY_A, 2, Press)), vec![se(2)]);
}

#[test]
fn new_machine_holds_nothing() {
    let sm = StateMachine::new(&modifier_rules());
    assert_eq!(sm.virtual_keys(KEY_LEFTMETA), None);
    assert!(!sm.is_pressed(KEY_LEFTMETA));
    assert!(!sm.is_held_by(KEY_LEFTCTRL, KEY_LEFTMETA));
}

#[test]
fn rules_with_the_same_guard_share_it() {
    let sm = StateMachine::new(&modifier_rules());
    assert_eq!(sm.guard_count(), 2);
    assert_eq!(sm.unsatisfied(0), 0);
    assert_eq!(sm.unsatisfied(1), 1);
    let sm = StateMachine::new(&[]);
    assert_eq!(sm.guard_count(), 0);
}

#[test]
fn remap_lists_of_a_press_put_the_pressed_key_last() {
    let mut sm = StateMachine::new(&modifier_rules());
    sm.send(&ke(KEY_LEFTMETA, 1, Press));
    assert_eq!(
        sm.remap(KEY_C, false),
        (
            vec![KEY_LEFTMETA],
            vec![(KEY_LEFTMETA, vec![KEY_LEFTCTRL]), (KEY_C, vec![KEY_C])]
        )
    );
}

#[test]
fn remap_lists_of_a_release() {
    let mut sm = StateMachine::new(&modifier_rules());
    sm.send(&ke(KEY_LEFTMETA, 1, Press));
    sm.send(&ke(KEY_C, 2, Press));
    assert_eq!(sm.remap(KEY_C, true), (vec![KEY_C], vec![]));
    assert_eq!(sm.remap(KEY_LEFTCTRL, true), (vec![], vec![]));
    assert_eq!(sm.remap(KEY_X, true), (vec![KEY_X], vec![(KEY_X, vec![KEY_X])]));
}

#[test]
fn remap_lists_of_a_double_press_of_an_unmapped_key() {
    let mut sm = StateMachine::new(&[]);
    assert_eq!(sm.remap(KEY_1, false), (vec![], vec![(KEY_1, vec![KEY_1])]));
    sm.send(&ke(KEY_1, 1, Press));
    assert_eq!(sm.remap(KEY_1, false), (vec![KEY_1], vec![(KEY_1, vec![KEY_1])]));
}

#[test]
fn update_reports_fallen_and_pressed_keys() {
    let mut sm = StateMachine::new(&[]);
    assert_eq!(
        sm.update(&[], &[(KEY_A, vec![KEY_X, KEY_C]), (KEY_B, vec![KEY_X])]),
        (vec![], vec![KEY_X, KEY_C])
    );
    assert_eq!(sm.update(&[KEY_A], &[]), (vec![KEY_C], vec![]));
    assert_eq!(sm.update(&[KEY_B], &[(KEY_B, vec![KEY_X])]), (vec![], vec![]));
    assert!(sm.is_held_by(KEY_X, KEY_B));
    assert_eq!(
        sm.update(&[KEY_B], &[(KEY_B, vec![KEY_C, KEY_X])]),
        (vec![], vec![KEY_C])
    );
    assert_eq!(sm.update(&[KEY_B], &[(KEY_A, vec![KEY_1])]), (vec![KEY_C, KEY_X], vec![KEY_1]));
}

#[test]
fn update_with_event_takes_the_key_from_its_argument() {
    let mut sm = StateMachine::new(&[]);
    let event = ke(KEY_1, 4, Press);
    assert_eq!(
        sm.update_with_event(&event, KEY_1),
        vec![ke(KEY_1, 4, Press), se(4)]
    );
    assert_eq!(
        sm.update_with_event(&ke(KEY_1, 5, Release), KEY_1),
        vec![ke(KEY_1, 5, Release), se(5)]
    );
}

#[test]
fn warnings_of_spurious_events() {
    let mut sm = StateMachine::new(&modifier_rules());
    assert_eq!(
        sm.warnings(&ke(KEY_X, 1, Release)),
        vec![Warning::UnpressedRelease(KEY_X)]
    );
    assert_eq!(
        sm.warnings(&ke(KEY_X, 1, Repeat)),
        vec![Warning::UnpressedRepeat(KEY_X)]
    );
    assert_eq!(
        sm.warnings(&ke(KEY_X, 1, Unknown(9))),
        vec![Warning::UnknownEventType {
            value: 9,
            key: KEY_X
        }]
    );
    assert_eq!(sm.warnings(&ke(KEY_X, 1, Press)), vec![]);
    sm.send(&ke(KEY_X, 1, Press));
    assert_eq!(sm.warnings(&ke(KEY_X, 2, Press)), vec![Warning::DoublePress(KEY_X)]);
    assert_eq!(sm.warnings(&ke(KEY_X, 2, Release)), vec![]);
    assert_eq!(sm.warnings(&ke(KEY_X, 2, Repeat)), vec![]);
    assert_eq!(sm.warnings(&se(2)), vec![]);
    assert_eq!(sm.virtual_keys(KEY_X), Some(vec![KEY_X]));
}

#[test]
fn warnings_of_rules_that_remap_one_key() {
    let rules = vec![
        remap(vec![], vec![], vec![KEY_A], vec![(KEY_A, vec![KEY_1])]),
        remap(vec![KEY_LEFTSHIFT], vec![], vec![KEY_A], vec![(KEY_A, vec![KEY_2])]),
        remap(
            vec![],
            vec![KEY_A],
            vec![KEY_A],
            vec![(KEY_B, vec![KEY_X]), (KEY_A, vec![])],
        ),
    ];
    let mut sm = StateMachine::new(&rules);
    assert_eq!(sm.warnings(&ke(KEY_A, 1, Press)), vec![]);
    sm.send(&ke(KEY_LEFTSHIFT, 1, Press));
    assert_eq!(
        sm.warnings(&ke(KEY_A, 2, Press)),
        vec![Warning::AmbiguousRules {
            src: KEY_A,
            kept: vec![KEY_1],
            ignored: vec![KEY_2]
        }]
    );
    assert_eq!(sm.send(&ke(KEY_A, 2, Press)), vec![ke(KEY_1, 2, Press), se(2)]);
    assert_eq!(
        sm.warnings(&ke(KEY_A, 3, Press)),
        vec![
            Warning::AmbiguousRules {
                src: KEY_A,
                kept: vec![KEY_1],
                ignored: vec![KEY_2]
            },
            Warning::DoublePress(KEY_A)
        ]
    );
}

#[test]
fn index_holds_each_literal_once() {
    let mut sm = StateMachine::new(&modifier_rules());
    sm.send(&ke(KEY_LEFTMETA, 1, Press));
    assert_eq!(sm.unsatisfied(1), 0);
    sm.send(&ke(KEY_LEFTMETA, 2, Release));
    assert_eq!(sm.unsatisfied(1), 1);
}
