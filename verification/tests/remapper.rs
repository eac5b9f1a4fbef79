use evremap::event::{make_event, make_sync_event, KeyEventType, TimeVal};
use evremap::remapper::{turn, MapperError, ReadStatus};
use evremap::state_machine::StateMachine;
use evremap::warning::Warning;

#[test]
fn turn_sends_what_was_read() {
    let mut sm = StateMachine::new(&[]);
    let time = TimeVal::new(3, 0);
    let event = make_event(30, &time, KeyEventType::Press);
    assert_eq!(
        turn(&mut sm, ReadStatus::Success, &event),
        Ok((vec![event, make_sync_event(&time)], vec![]))
    );
    assert_eq!(sm.virtual_keys(30), Some(vec![30]));
    assert_eq!(
        turn(&mut sm, ReadStatus::Success, &event),
        Ok((
            vec![event, make_sync_event(&time)],
            vec![Warning::DoublePress(30)]
        ))
    );
}

#[test]
fn turn_stops_on_a_loss_of_events() {
    let mut sm = StateMachine::new(&[]);
    let time = TimeVal::new(3, 0);
    let event = make_event(30, &time, KeyEventType::Press);
    assert_eq!(turn(&mut sm, ReadStatus::Sync, &event), Err(MapperError::SyncLoss));
    assert_eq!(sm.virtual_keys(30), None);
    assert!(!sm.is_pressed(30));
}

#[test]
fn loss_of_events_has_its_message() {
    assert_eq!(MapperError::SyncLoss.message(), "ReadStatus::Sync!");
}
