//! Verified rules of a deterministic robot strategy game: future-order locks, turn drafts and
//! their admission, applying committed commands, causal identities, the lobby, scoring, timed
//! adjudication, the timeline index, content and configuration checks, map layout, movement
//! fields, the movement step, survival and resuming a match from its records.
pub mod types;
pub mod draft;
pub mod locks;
pub mod safe;
pub mod text;
pub mod identity;
pub mod scoring;
pub mod scoreboard;
pub mod timed;
pub mod geometry;
pub mod map;
pub mod guide;
pub mod missiles;
pub mod distance;
pub mod cave;
pub mod corridor;
pub mod terrain;
pub mod ore;
pub mod admission;
pub mod orders;
pub mod commit;
pub mod lobby;
pub mod timeline;
pub mod config;
pub mod content;
pub mod fields;
pub mod survival;
pub mod history;
pub mod motion;
pub mod resume;
