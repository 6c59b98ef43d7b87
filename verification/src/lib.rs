//! LibreStrings' verified core: what a bowed-string instrument and its
//! sections decide from the notes they are given (who plays which note of a
//! chord, when each player's notes are due, which keys are held), what the
//! instances sharing a stage tell each other, and the names and numbers the
//! editor, the host and the stage file use. The sound itself is a
//! floating-point model outside this library.

pub mod analysis;
pub mod articulation;
pub mod bow;
pub mod engine;
pub mod keyboard;
pub mod layout;
pub mod params;
pub mod performer;
pub mod random;
pub mod section;
pub mod seqlock;
pub mod stage;
pub mod sync;
pub mod telemetry;
pub mod tuning;
