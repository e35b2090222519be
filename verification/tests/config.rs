//! Defaults of the configuration types and the plain components.

use sprite_atlas::builder::Error;
use sprite_atlas::components::Sprite;
use sprite_atlas::config::{Config, GraphicsConfig};

#[test]
fn graphics_defaults() {
    let g = GraphicsConfig::default();
    assert_eq!((g.width, g.height), (1920, 1080));
    assert_eq!(GraphicsConfig::default_width(), 1920);
    assert_eq!(GraphicsConfig::default_height(), 1080);
}

#[test]
fn config_default_uses_graphics_defaults() {
    let c = Config::default();
    assert_eq!(c.graphics, GraphicsConfig { width: 1920, height: 1080 });
}

#[test]
fn sprite_component_keeps_its_index() {
    let s = Sprite::new(17);
    assert_eq!(s.index(), 17);
}

#[test]
fn allocations_failed_carries_the_failures() {
    let e = Error::AllocationsFailed(Vec::new());
    assert!(matches!(e, Error::AllocationsFailed(v) if v.is_empty()));
}
