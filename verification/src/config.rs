//! Game configuration values. Loading them from storage or a file is the
//! host program's concern; this module holds the shape and the defaults.

use vstd::prelude::*;

verus! {

/// Window and surface settings.
#[derive(Clone, Copy, Debug, PartialEq, Eq, Structural)]
pub struct GraphicsConfig {
    pub width: u32,
    pub height: u32,
}

impl GraphicsConfig {
    /// The window width used when none is configured.
    pub fn default_width() -> (r: u32)
        ensures
            r == 1920,
    {
        1920
    }

    /// The window height used when none is configured.
    pub fn default_height() -> (r: u32)
        ensures
            r == 1080,
    {
        1080
    }
}

impl Default for GraphicsConfig {
    /// The default window extent.
    fn default() -> (r: Self)
        ensures
            r.width == 1920,
            r.height == 1080,
    {
        GraphicsConfig { width: GraphicsConfig::default_width(), height: GraphicsConfig::default_height() }
    }
}

/// The game's configuration.
#[derive(Clone, Copy, Debug, PartialEq, Eq, Structural)]
pub struct Config {
    pub graphics: GraphicsConfig,
}

impl Default for Config {
    /// The configuration used when none is supplied.
    fn default() -> (r: Self)
        ensures
            r.graphics.width == 1920,
            r.graphics.height == 1080,
    {
        Config { graphics: GraphicsConfig::default() }
    }
}

} // verus!
