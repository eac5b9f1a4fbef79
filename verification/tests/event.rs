use evremap::event::{
    make_event, make_sync_event, push_key_events, EventCode, InputEvent, KeyEventType, TimeVal,
    SYN_REPORT,
};

#[test]
fn value_decodes_to_its_kind() {
    assert_eq!(KeyEventType::from_value(0), KeyEventType::Release);
    assert_eq!(KeyEventType::from_value(1), KeyEventType::Press);
    assert_eq!(KeyEventType::from_value(2), KeyEventType::Repeat);
    assert_eq!(KeyEventType::from_value(3), KeyEventType::Unknown(3));
    assert_eq!(KeyEventType::from_value(-1), KeyEventType::Unknown(-1));
    assert_eq!(
        KeyEventType::from_value(i32::MIN),
        KeyEventType::Unknown(i32::MIN)
    );
}

#[test]
fn kind_encodes_to_its_value() {
    assert_eq!(KeyEventType::Release.value(), 0);
    assert_eq!(KeyEventType::Press.value(), 1);
    assert_eq!(KeyEventType::Repeat.value(), 2);
    assert_eq!(KeyEventType::Unknown(9).value(), 9);
}

#[test]
fn value_survives_decoding_and_encoding() {
    for value in [-5, 0, 1, 2, 3, 1000, i32::MAX] {
        assert_eq!(KeyEventType::from_value(value).value(), value);
    }
}

#[test]
fn sync_event_is_a_report_with_value_zero() {
    let time = TimeVal::new(7, 8);
    assert_eq!(
        make_sync_event(&time),
        InputEvent {
            time: TimeVal {
                tv_sec: 7,
                tv_usec: 8
            },
            event_code: EventCode::Syn(SYN_REPORT),
            value: 0
        }
    );
    assert_eq!(SYN_REPORT, 0);
}

#[test]
fn key_event_carries_key_time_and_kind() {
    let time = TimeVal::new(1, 2);
    assert_eq!(
        make_event(30, &time, KeyEventType::Repeat),
        InputEvent {
            time,
            event_code: EventCode::Key(30),
            value: 2
        }
    );
}

#[test]
fn key_events_are_appended_in_order() {
    let time = TimeVal::new(1, 0);
    let mut out = vec![make_sync_event(&time)];
    push_key_events(&mut out, &vec![5, 4], &time, KeyEventType::Press);
    assert_eq!(
        out,
        vec![
            make_sync_event(&time),
            make_event(5, &time, KeyEventType::Press),
            make_event(4, &time, KeyEventType::Press)
        ]
    );
}
