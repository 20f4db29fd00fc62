//! Application appearance settings. Loading and saving these from disk is a
//! collaborator's job; the model only fixes the fields and their defaults.

use vstd::prelude::*;

verus! {

/// Accent color used by the editor chrome, one channel per field.
#[derive(Clone, Copy, Debug, PartialEq, Eq, Structural)]
pub struct AppConfig {
    pub accent_r: u8,
    pub accent_b: u8,
    pub accent_g: u8,
}

impl Default for AppConfig {
    /// The default accent color is a neutral dark gray.
    fn default() -> (c: Self)
        ensures
            c.accent_r == 40,
            c.accent_b == 40,
            c.accent_g == 40,
    {
        AppConfig { accent_r: 40, accent_b: 40, accent_g: 40 }
    }
}

} // verus!
