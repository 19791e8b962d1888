//! `wintermute-lucid`: the flight recorder of the agorabus bus, and the readers
//! of what it has recorded.
//!
//! The recorder keeps every event of the `wm.` topics in a log that rotates by
//! size and is keyed by turn. The readers turn the log into answers: a timeline
//! with latencies, what the brain did, a live monitor, and a narration in plain
//! words.
//!
//! - [`record`] holds the record of one event and the line it is written on,
//!   with [`payload`] for JSON values and [`fields`] for the fields of a JSON text.
//! - [`store`] decides how records are kept, with [`segment`] and [`index`] for
//!   the two kinds of files; [`disk`] proves what that means for the files.
//! - [`trace`], [`mind`], [`explain`] and [`report`] read a turn back, and
//!   [`watch`] follows one as it happens.
//! - [`text`], [`order`], [`seconds`] and [`clock`] are what they share.
//! - [`laws`] says what comes out for what goes in, in the words that are shown
//!   and the fields that are recorded.
//!
//! Nothing here touches a file, a socket or a terminal: the caller does, and
//! hands over names and texts.

pub mod clock;
pub mod disk;
pub mod explain;
pub mod fields;
pub mod index;
pub mod laws;
pub mod mind;
pub mod order;
pub mod payload;
pub mod record;
pub mod report;
pub mod seconds;
pub mod segment;
pub mod store;
pub mod text;
pub mod trace;
pub mod watch;

pub use clock::now_ms;
pub use payload::Payload;
pub use record::{Record, SCHEMA_VERSION};
pub use store::{LucidStore, RecordLocation, RotationPolicy};
pub use trace::{
    render_summary, render_timeline, summarise_turns, trace_turn, TurnStatus, TurnTimeline,
};
