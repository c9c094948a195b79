use time_tracker::date::Date;
use time_tracker::queue::{CommandQueue, QUEUE_CAPACITY};
use time_tracker::store::Storage;
use time_tracker::timer::{
    control_labels, step, to_command, Command, ControlSet, EventMessage, State, TimerEvent, Timing,
};

/// Drives the machine through a run of events and counts the side
/// effects it asks for, incrementing the store as a completed countdown
/// demands.
fn run(
    mut state: State,
    events: &[TimerEvent],
    storage: &mut Storage,
    today: Date,
) -> (State, usize, usize) {
    let mut increments = 0;
    let mut notifications = 0;
    for ev in events {
        let out = step(state, *ev);
        if out.increment_today {
            storage.increment_or_insert_date(today);
            increments += 1;
        }
        if out.notify {
            notifications += 1;
        }
        state = out.state;
    }
    (state, increments, notifications)
}

#[test]
fn completion_scenario() {
    // a countdown of two ticks, no further commands: the machine ends
    // Inactive, today is incremented exactly once, one notification
    let mut storage = Storage::new();
    let today = Date { year: 2022, month: 11, day: 11 };
    let events = [
        TimerEvent::Command(Command::Begin(Timing::CountDown(2))),
        TimerEvent::Tick(1),
        TimerEvent::Tick(1),
    ];
    let (state, increments, notifications) = run(State::new(), &events, &mut storage, today);
    assert_eq!(state, State::Inactive);
    assert_eq!(increments, 1);
    assert_eq!(notifications, 1);
    assert_eq!(storage.blocks_at(today), 1);
}

#[test]
fn pause_resume_scenario() {
    // Begin(CountDown(10)), elapsed 3, Pause, Resume, 7 more seconds:
    // completes at total elapsed 10, not 17
    let mut storage = Storage::new();
    let today = Date { year: 2022, month: 11, day: 11 };
    let events = [
        TimerEvent::Command(Command::Begin(Timing::CountDown(10))),
        TimerEvent::Tick(3),
        TimerEvent::Command(Command::Pause),
        TimerEvent::Command(Command::Resume),
        TimerEvent::Tick(6),
    ];
    let (state, increments, _) = run(State::new(), &events, &mut storage, today);
    // nine seconds of active time: still one second short
    assert_eq!(state, State::Active { timing: Timing::CountDown(10), elapsed: 9 });
    assert_eq!(increments, 0);

    let out = step(state, TimerEvent::Tick(1));
    assert_eq!(out.state, State::Inactive);
    assert!(out.increment_today);
    assert!(out.notify);
}

#[test]
fn stop_discards_scenario() {
    // Begin(CountUp), several ticks, Stop: the store is never touched
    // and no notification happens
    let mut storage = Storage::new();
    let today = Date { year: 2022, month: 11, day: 11 };
    let events = [
        TimerEvent::Command(Command::Begin(Timing::CountUp)),
        TimerEvent::Tick(1),
        TimerEvent::Tick(1),
        TimerEvent::Tick(1),
        TimerEvent::Command(Command::Stop),
    ];
    let (state, increments, notifications) = run(State::new(), &events, &mut storage, today);
    assert_eq!(state, State::Inactive);
    assert_eq!(increments, 0);
    assert_eq!(notifications, 0);
    assert_eq!(storage.blocks_at(today), 0);
}

#[test]
fn tick_updates_elapsed() {
    let mut state = State::new();
    let out = step(state, TimerEvent::Command(Command::Begin(Timing::CountUp)));
    state = out.state;
    for _ in 0..5 {
        state = step(state, TimerEvent::Tick(1)).state;
    }
    assert_eq!(state, State::Active { timing: Timing::CountUp, elapsed: 5 });
}

#[test]
fn invalid_commands_leave_state_unchanged() {
    let out = step(State::Inactive, TimerEvent::Command(Command::Resume));
    assert_eq!(out.state, State::Inactive);
    assert!(out.rejected);

    let active = State::Active { timing: Timing::CountUp, elapsed: 4 };
    let out = step(active, TimerEvent::Command(Command::Begin(Timing::CountUp)));
    assert_eq!(out.state, active);
    assert!(out.rejected);

    let paused = State::Paused { timing: Timing::CountDown(9), elapsed: 2 };
    let out = step(paused, TimerEvent::Command(Command::Pause));
    assert_eq!(out.state, paused);
    assert!(out.rejected);
}

#[test]
fn display_follows_transitions() {
    let begin = step(State::Inactive, TimerEvent::Command(Command::Begin(Timing::CountUp)));
    assert_eq!(begin.display.controls, Some(ControlSet::ActiveControls));
    assert_eq!(begin.display.title, None);

    let tick = step(begin.state, TimerEvent::Tick(5));
    assert_eq!(tick.display.title.unwrap(), "00:00:05");
    assert_eq!(tick.display.controls, None);

    let paused = step(tick.state, TimerEvent::Command(Command::Pause));
    assert_eq!(paused.display.title.unwrap(), "paused");
    assert_eq!(paused.display.controls, Some(ControlSet::PausedControls));

    let stopped = step(paused.state, TimerEvent::Command(Command::Stop));
    assert_eq!(stopped.display.title.unwrap(), "Inactive");
    assert_eq!(stopped.display.controls, Some(ControlSet::InactiveControls));
}

#[test]
fn countdown_tick_shows_remaining() {
    let begin = step(
        State::Inactive,
        TimerEvent::Command(Command::Begin(Timing::CountDown(90))),
    );
    let tick = step(begin.state, TimerEvent::Tick(10));
    assert_eq!(tick.display.title.unwrap(), "00:01:20");
}

#[test]
fn messages_read_as_commands() {
    assert_eq!(to_command(EventMessage::TimerLeft, 3600), Command::Begin(Timing::CountUp));
    assert_eq!(
        to_command(EventMessage::CountDownLeft, 3600),
        Command::Begin(Timing::CountDown(3600))
    );
    assert_eq!(to_command(EventMessage::Pause, 3600), Command::Pause);
    assert_eq!(to_command(EventMessage::Resume, 3600), Command::Resume);
    assert_eq!(to_command(EventMessage::Stop, 3600), Command::Stop);
}

#[test]
fn queue_keeps_order() {
    let mut q = CommandQueue::new();
    assert!(q.try_send(EventMessage::TimerLeft));
    assert!(q.try_send(EventMessage::Pause));
    assert!(q.try_send(EventMessage::Stop));
    assert_eq!(q.recv(), Some(EventMessage::TimerLeft));
    assert_eq!(q.recv(), Some(EventMessage::Pause));
    assert_eq!(q.recv(), Some(EventMessage::Stop));
    assert_eq!(q.recv(), None);
}

#[test]
fn queue_refuses_when_full() {
    let mut q = CommandQueue::new();
    for _ in 0..QUEUE_CAPACITY {
        assert!(q.try_send(EventMessage::Pause));
    }
    assert_eq!(q.len(), QUEUE_CAPACITY);
    assert!(!q.try_send(EventMessage::Stop));
    assert_eq!(q.len(), QUEUE_CAPACITY);
    assert_eq!(q.recv(), Some(EventMessage::Pause));
    assert!(q.try_send(EventMessage::Stop));
}

#[test]
fn overshooting_tick_completes() {
    // a delayed tick that jumps past the target still completes once
    let begin = step(
        State::Inactive,
        TimerEvent::Command(Command::Begin(Timing::CountDown(5))),
    );
    let out = step(begin.state, TimerEvent::Tick(60));
    assert_eq!(out.state, State::Inactive);
    assert!(out.increment_today);
    assert!(out.notify);
}

#[test]
fn control_menus_match_states() {
    assert_eq!(control_labels(ControlSet::InactiveControls), vec!["Timer", "Countdown", "Quit"]);
    assert_eq!(control_labels(ControlSet::ActiveControls), vec!["Pause", "Stop"]);
    assert_eq!(control_labels(ControlSet::PausedControls), vec!["Resume", "Stop"]);
}
