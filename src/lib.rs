//! Integer and text logic of a UTAU-style singing-voice resampler: note names,
//! the pitchbend codec, the flag string, the command line and the timing plan.
use vstd::prelude::*;

pub mod features;
pub mod flags;
pub mod notes;
pub mod parser;
pub mod pitchbend;
pub mod render;
pub mod text;
pub mod timing;

