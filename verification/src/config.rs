//! The application's settings.

use vstd::prelude::*;
use vstd::string::*;

verus! {

/// The application's settings, as stored in its configuration file.
#[derive(Debug)]
pub struct AppConfig {
    pub buffer_size: u32,
    pub sample_rate: u32,
    pub default_preset: Option<String>,
    pub start_minimized: bool,
    pub theme: String,
}

impl Clone for AppConfig {
    fn clone(&self) -> (r: Self)
        ensures
            r == *self,
    {
        AppConfig {
            buffer_size: self.buffer_size,
            sample_rate: self.sample_rate,
            default_preset: match &self.default_preset {
                Some(p) => Some(p.clone()),
                None => None,
            },
            start_minimized: self.start_minimized,
            theme: self.theme.clone(),
        }
    }
}

impl Default for AppConfig {
    /// Buffers of 512 frames at 48000 Hz, no default preset, a visible
    /// window and the dark theme.
    fn default() -> (r: Self)
        ensures
            r.buffer_size == 512,
            r.sample_rate == 48000,
            r.default_preset is None,
            !r.start_minimized,
            r.theme@ == "dark"@,
    {
        AppConfig {
            buffer_size: 512,
            sample_rate: 48000,
            default_preset: None,
            start_minimized: false,
            theme: String::from_str("dark"),
        }
    }
}

} // verus!
