//! The logic of a command-line player for instrument practice: tempo and pitch control, the
//! sample pipeline around a time stretcher, the key bindings, the screen, the time stamps and the
//! sources of audio.
//!
//! Tempo, volume, seconds and samples are held as the bit patterns of floating-point numbers, with
//! arithmetic of their own that is proved to round correctly.

pub mod accuracy;
pub mod controller;
pub mod convert;
pub mod decimal_float;
pub mod digits;
pub mod elastic;
pub mod elastic_laws;
pub mod float_model;
pub mod float_ops;
pub mod float_rounding;
pub mod input;
pub mod input_laws;
pub mod layout;
pub mod never_stop;
pub mod position_laws;
pub mod query;
pub mod round_trip_laws;
pub mod screen;
pub mod screen_laws;
pub mod session;
pub mod tempo_laws;
pub mod tempo_text;
pub mod text;
pub mod text_laws;
pub mod time;
pub mod timestamp;
