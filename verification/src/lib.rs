//! Core of a focus-session timer: a session state machine that reacts to
//! user commands and wall-clock ticks, a date-keyed counter store that
//! records one block per completed session, and the bounded-queue glue
//! between the user interface and the machine.

pub mod date;
pub mod text;
pub mod utils;
pub mod timer;
pub mod queue;
pub mod store;
pub mod display;
