//! The session state machine. One session at a time moves between
//! `Inactive`, `Active` and `Paused`; commands and wall-clock ticks drive
//! it, and a completed countdown asks for one store increment and one
//! notification. `step` is the single transition function; its contract is
//! the transition table.

use vstd::prelude::*;
use crate::text::time_text;

verus! {

/// Whether a session counts up freely or down towards a target, in
/// seconds.
#[derive(Clone, Copy, PartialEq, Eq, Structural, Debug)]
pub enum Timing {
    CountUp,
    CountDown(u64),
}

/// The one session the machine tracks. `elapsed` is whole seconds of
/// wall-clock time spent in `Active`.
#[derive(Clone, Copy, PartialEq, Eq, Structural, Debug)]
pub enum State {
    Inactive,
    Active { timing: Timing, elapsed: u64 },
    Paused { timing: Timing, elapsed: u64 },
}

/// A user-facing control message, as the interface sends it.
#[derive(Clone, Copy, PartialEq, Eq, Structural, Debug)]
pub enum EventMessage {
    TimerLeft,
    CountDownLeft,
    Pause,
    Resume,
    Stop,
}

/// A command against the current session.
#[derive(Clone, Copy, PartialEq, Eq, Structural, Debug)]
pub enum Command {
    Begin(Timing),
    Pause,
    Resume,
    Stop,
}

/// What drives the machine: a command from the queue, or a tick carrying
/// the whole seconds of wall-clock time since the previous tick or
/// resume.
#[derive(Clone, Copy, PartialEq, Eq, Structural, Debug)]
pub enum TimerEvent {
    Command(Command),
    Tick(u64),
}

/// The three per-state control menus of the display sink.
#[derive(Clone, Copy, PartialEq, Eq, Structural, Debug)]
pub enum ControlSet {
    InactiveControls,
    ActiveControls,
    PausedControls,
}

/// What the display sink should change, if anything.
#[derive(Debug)]
pub struct DisplayUpdate {
    pub title: Option<String>,
    pub controls: Option<ControlSet>,
}

/// One transition's outcome: the next state and the side effects owed.
#[derive(Debug)]
pub struct StepOutput {
    pub state: State,
    pub display: DisplayUpdate,
    pub increment_today: bool,
    pub notify: bool,
    pub rejected: bool,
}

pub open spec fn sat_add(a: u64, b: u64) -> u64 {
    if a + b > u64::MAX {
        u64::MAX
    } else {
        (a + b) as u64
    }
}

impl State {
    /// A countdown session never runs past its target.
    pub open spec fn wf(self) -> bool {
        match self {
            State::Inactive => true,
            State::Active { timing, elapsed } => match timing {
                Timing::CountUp => true,
                Timing::CountDown(t) => elapsed <= t,
            },
            State::Paused { timing, elapsed } => match timing {
                Timing::CountUp => true,
                Timing::CountDown(t) => elapsed <= t,
            },
        }
    }
}

/// A tick that reaches a countdown's target finishes the session.
pub open spec fn completes(s: State, ev: TimerEvent) -> bool {
    match (s, ev) {
        (State::Active { timing: Timing::CountDown(t), elapsed }, TimerEvent::Tick(d)) => elapsed
            + d >= t,
        _ => false,
    }
}

/// A command the current state does not accept; it is ignored.
pub open spec fn rejects(s: State, ev: TimerEvent) -> bool {
    match (s, ev) {
        (State::Inactive, TimerEvent::Command(c)) => !(c is Begin),
        (State::Active { .. }, TimerEvent::Command(c)) => c is Begin || c is Resume,
        (State::Paused { .. }, TimerEvent::Command(c)) => c is Begin || c is Pause,
        (_, TimerEvent::Tick(_)) => false,
    }
}

/// The transition table.
pub open spec fn next_spec(s: State, ev: TimerEvent) -> State {
    match (s, ev) {
        (State::Inactive, TimerEvent::Command(Command::Begin(t))) => State::Active {
            timing: t,
            elapsed: 0,
        },
        (State::Active { timing, elapsed }, TimerEvent::Command(Command::Pause)) => State::Paused {
            timing,
            elapsed,
        },
        (State::Active { .. }, TimerEvent::Command(Command::Stop)) => State::Inactive,
        (State::Active { timing: Timing::CountUp, elapsed }, TimerEvent::Tick(d)) => State::Active {
            timing: Timing::CountUp,
            elapsed: sat_add(elapsed, d),
        },
        (State::Active { timing: Timing::CountDown(t), elapsed }, TimerEvent::Tick(d)) => {
            if elapsed + d >= t {
                State::Inactive
            } else {
                State::Active { timing: Timing::CountDown(t), elapsed: (elapsed + d) as u64 }
            }
        },
        (State::Paused { timing, elapsed }, TimerEvent::Command(Command::Resume)) => State::Active {
            timing,
            elapsed,
        },
        (State::Paused { .. }, TimerEvent::Command(Command::Stop)) => State::Inactive,
        _ => s,
    }
}

/// The control menu emitted on a transition, per the table.
pub open spec fn controls_spec(s: State, ev: TimerEvent) -> Option<ControlSet> {
    match (s, ev) {
        (State::Inactive, TimerEvent::Command(Command::Begin(_))) => Some(
            ControlSet::ActiveControls,
        ),
        (State::Active { .. }, TimerEvent::Command(Command::Pause)) => Some(
            ControlSet::PausedControls,
        ),
        (State::Active { .. }, TimerEvent::Command(Command::Stop)) => Some(
            ControlSet::InactiveControls,
        ),
        (State::Active { .. }, TimerEvent::Tick(_)) => if completes(s, ev) {
            Some(ControlSet::InactiveControls)
        } else {
            None
        },
        (State::Paused { .. }, TimerEvent::Command(Command::Resume)) => Some(
            ControlSet::ActiveControls,
        ),
        (State::Paused { .. }, TimerEvent::Command(Command::Stop)) => Some(
            ControlSet::InactiveControls,
        ),
        _ => None,
    }
}

/// The title emitted on a transition: the state's name on entering
/// `Inactive` or `Paused`, the clock text on a running tick.
pub open spec fn title_spec(s: State, ev: TimerEvent) -> Option<Seq<char>> {
    match (s, ev) {
        (State::Active { .. }, TimerEvent::Command(Command::Pause)) => Some("paused"@),
        (State::Active { .. }, TimerEvent::Command(Command::Stop)) => Some("Inactive"@),
        (State::Active { timing: Timing::CountUp, elapsed }, TimerEvent::Tick(d)) => Some(
            time_text(sat_add(elapsed, d) as int),
        ),
        (State::Active { timing: Timing::CountDown(t), elapsed }, TimerEvent::Tick(d)) => {
            if elapsed + d >= t {
                Some("Inactive"@)
            } else {
                Some(time_text(t - (elapsed + d)))
            }
        },
        (State::Paused { .. }, TimerEvent::Command(Command::Stop)) => Some("Inactive"@),
        _ => None,
    }
}

pub open spec fn title_view(t: Option<String>) -> Option<Seq<char>> {
    match t {
        None => None,
        Some(s) => Some(s@),
    }
}

pub proof fn lemma_next_wf(s: State, ev: TimerEvent)
    requires
        s.wf(),
    ensures
        next_spec(s, ev).wf(),
{
}

/// The state after a whole run of events.
pub open spec fn run_spec(s: State, events: Seq<TimerEvent>) -> State
    decreases events.len(),
{
    if events.len() == 0 {
        s
    } else {
        next_spec(run_spec(s, events.drop_last()), events.last())
    }
}

/// However long the run of commands and ticks, the machine stays inside
/// the three states of the table — `Inactive`, `Active` and `Paused` are
/// all it has — and every reachable state is well-formed: a countdown's
/// elapsed time never passes its target.
pub proof fn lemma_state_machine_closed(s: State, events: Seq<TimerEvent>)
    requires
        s.wf(),
    ensures
        run_spec(s, events).wf(),
    decreases events.len(),
{
    if events.len() > 0 {
        lemma_state_machine_closed(s, events.drop_last());
        lemma_next_wf(run_spec(s, events.drop_last()), events.last());
    }
}

/// How the interface's messages read as commands; a countdown begins
/// with the caller's chosen target.
pub open spec fn command_of(msg: EventMessage, countdown_secs: u64) -> Command {
    match msg {
        EventMessage::TimerLeft => Command::Begin(Timing::CountUp),
        EventMessage::CountDownLeft => Command::Begin(Timing::CountDown(countdown_secs)),
        EventMessage::Pause => Command::Pause,
        EventMessage::Resume => Command::Resume,
        EventMessage::Stop => Command::Stop,
    }
}

pub fn to_command(msg: EventMessage, countdown_secs: u64) -> (r: Command)
    ensures
        r == command_of(msg, countdown_secs),
{
    match msg {
        EventMessage::TimerLeft => Command::Begin(Timing::CountUp),
        EventMessage::CountDownLeft => Command::Begin(Timing::CountDown(countdown_secs)),
        EventMessage::Pause => Command::Pause,
        EventMessage::Resume => Command::Resume,
        EventMessage::Stop => Command::Stop,
    }
}

impl State {
    /// Where every run starts.
    pub fn new() -> (r: State)
        ensures
            r == State::Inactive,
            r.wf(),
    {
        State::Inactive
    }
}

/// One transition. The next state follows the table; the increment and
/// the notification are owed exactly when a countdown completes; an
/// unacceptable command is rejected with the state unchanged; the
/// display update is the table's entry action.
pub fn step(s: State, ev: TimerEvent) -> (out: StepOutput)
    requires
        s.wf(),
    ensures
        out.state == next_spec(s, ev),
        out.state.wf(),
        out.increment_today == completes(s, ev),
        out.notify == completes(s, ev),
        out.rejected == rejects(s, ev),
        out.display.controls == controls_spec(s, ev),
        title_view(out.display.title) == title_spec(s, ev),
{
    proof {
        lemma_next_wf(s, ev);
    }
    match (s, ev) {
        (State::Inactive, TimerEvent::Command(Command::Begin(t))) => StepOutput {
            state: State::Active { timing: t, elapsed: 0 },
            display: DisplayUpdate { title: None, controls: Some(ControlSet::ActiveControls) },
            increment_today: false,
            notify: false,
            rejected: false,
        },
        (State::Inactive, TimerEvent::Command(_)) => StepOutput {
            state: s,
            display: DisplayUpdate { title: None, controls: None },
            increment_today: false,
            notify: false,
            rejected: true,
        },
        (State::Inactive, TimerEvent::Tick(_)) => StepOutput {
            state: s,
            display: DisplayUpdate { title: None, controls: None },
            increment_today: false,
            notify: false,
            rejected: false,
        },
        (State::Active { timing, elapsed }, TimerEvent::Command(Command::Pause)) => StepOutput {
            state: State::Paused { timing, elapsed },
            display: DisplayUpdate {
                title: Some(String::from_str("paused")),
                controls: Some(ControlSet::PausedControls),
            },
            increment_today: false,
            notify: false,
            rejected: false,
        },
        (State::Active { .. }, TimerEvent::Command(Command::Stop)) => StepOutput {
            state: State::Inactive,
            display: DisplayUpdate {
                title: Some(String::from_str("Inactive")),
                controls: Some(ControlSet::InactiveControls),
            },
            increment_today: false,
            notify: false,
            rejected: false,
        },
        (State::Active { .. }, TimerEvent::Command(_)) => StepOutput {
            state: s,
            display: DisplayUpdate { title: None, controls: None },
            increment_today: false,
            notify: false,
            rejected: true,
        },
        (State::Active { timing: Timing::CountUp, elapsed }, TimerEvent::Tick(d)) => {
            let grown = if d > u64::MAX - elapsed {
                u64::MAX
            } else {
                elapsed + d
            };
            StepOutput {
                state: State::Active { timing: Timing::CountUp, elapsed: grown },
                display: DisplayUpdate {
                    title: Some(format_time_timer_u64(grown)),
                    controls: None,
                },
                increment_today: false,
                notify: false,
                rejected: false,
            }
        },
        (State::Active { timing: Timing::CountDown(t), elapsed }, TimerEvent::Tick(d)) => {
            if d >= t - elapsed {
                StepOutput {
                    state: State::Inactive,
                    display: DisplayUpdate {
                        title: Some(String::from_str("Inactive")),
                        controls: Some(ControlSet::InactiveControls),
                    },
                    increment_today: true,
                    notify: true,
                    rejected: false,
                }
            } else {
                let grown = elapsed + d;
                StepOutput {
                    state: State::Active { timing: Timing::CountDown(t), elapsed: grown },
                    display: DisplayUpdate {
                        title: Some(format_time_timer_u64(t - grown)),
                        controls: None,
                    },
                    increment_today: false,
                    notify: false,
                    rejected: false,
                }
            }
        },
        (State::Paused { timing, elapsed }, TimerEvent::Command(Command::Resume)) => StepOutput {
            state: State::Active { timing, elapsed },
            display: DisplayUpdate { title: None, controls: Some(ControlSet::ActiveControls) },
            increment_today: false,
            notify: false,
            rejected: false,
        },
        (State::Paused { .. }, TimerEvent::Command(Command::Stop)) => StepOutput {
            state: State::Inactive,
            display: DisplayUpdate {
                title: Some(String::from_str("Inactive")),
                controls: Some(ControlSet::InactiveControls),
            },
            increment_today: false,
            notify: false,
            rejected: false,
        },
        (State::Paused { .. }, TimerEvent::Command(_)) => StepOutput {
            state: s,
            display: DisplayUpdate { title: None, controls: None },
            increment_today: false,
            notify: false,
            rejected: true,
        },
        (State::Paused { .. }, TimerEvent::Tick(_)) => StepOutput {
            state: s,
            display: DisplayUpdate { title: None, controls: None },
            increment_today: false,
            notify: false,
            rejected: false,
        },
    }
}

/// The entries of each control menu, in their display order.
pub fn control_labels(c: ControlSet) -> (r: Vec<&'static str>)
    ensures
        c == ControlSet::InactiveControls ==> r@.len() == 3 && r@[0]@ == "Timer"@ && r@[1]@
            == "Countdown"@ && r@[2]@ == "Quit"@,
        c == ControlSet::ActiveControls ==> r@.len() == 2 && r@[0]@ == "Pause"@ && r@[1]@
            == "Stop"@,
        c == ControlSet::PausedControls ==> r@.len() == 2 && r@[0]@ == "Resume"@ && r@[1]@
            == "Stop"@,
{
    let mut r: Vec<&'static str> = Vec::new();
    match c {
        ControlSet::InactiveControls => {
            r.push("Timer");
            r.push("Countdown");
            r.push("Quit");
        },
        ControlSet::ActiveControls => {
            r.push("Pause");
            r.push("Stop");
        },
        ControlSet::PausedControls => {
            r.push("Resume");
            r.push("Stop");
        },
    }
    r
}

/// The clock text for a second count already held as `u64`.
fn format_time_timer_u64(secs: u64) -> (r: String)
    ensures
        r@ == time_text(secs as int),
{
    crate::text::clock_string(secs)
}

} // verus!
