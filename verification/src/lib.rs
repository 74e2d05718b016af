//! Speech segmentation, transcript filtering and wire framing for a
//! push-to-talk dictation pipeline.
//!
//! Captured audio is brought to mono 16 kHz ([`audio`]), cut into utterances
//! ([`vad`]), moved between threads under a drop-when-full policy
//! ([`pipeline`]), transcribed in this process or by a server at the other
//! end of a pipe ([`protocol`], [`session`]), and cleaned of what speech
//! models make up ([`transcribe`]) before it is typed ([`inject`]).

pub mod audio;
pub mod cli;
pub mod hotkey;
pub mod inject;
pub mod models;
pub mod pipeline;
pub mod protocol;
pub mod session;
pub mod setup;
pub mod text;
pub mod transcribe;
pub mod vad;
