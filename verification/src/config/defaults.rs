//! Default rates shared by the session and the configuration.
use vstd::prelude::*;

verus! {

/// Minimum interval between OCR runs, in milliseconds.
pub const OCR_COOLDOWN_MS: u64 = 700;

/// A static frame is re-recognized at least this often, in milliseconds.
pub const OCR_RETRIGGER_MS: u64 = 3000;

/// Minimum interval between releases of failed translations, in milliseconds.
pub const FAILURE_COOLDOWN_MS: u64 = 5000;

} // verus!
