//! The rectangle allocator on its own: placement, growth, rearrange and
//! the failure path of a shrinking resize.

use sprite_atlas::allocator::AtlasAllocator;
use sprite_atlas::geometry::Extent;

fn ext(width: u32, height: u32) -> Extent {
    Extent { width, height }
}

#[test]
fn allocates_disjoint_regions() {
    let mut alloc = AtlasAllocator::new(ext(1024, 1024));
    let a = alloc.allocate(ext(32, 32)).unwrap();
    let b = alloc.allocate(ext(32, 32)).unwrap();
    let c = alloc.allocate(ext(900, 900)).unwrap();
    assert_ne!(a.handle, b.handle);
    assert_eq!((a.rect.width, a.rect.height), (32, 32));
    assert_eq!((c.rect.width, c.rect.height), (900, 900));
    // the two small ones share a shelf, side by side
    assert_eq!(a.rect.y, b.rect.y);
    assert!(a.rect.x + a.rect.width <= b.rect.x || b.rect.x + b.rect.width <= a.rect.x);
    assert_eq!(alloc.len(), 3);
}

#[test]
fn refuses_only_what_cannot_be_placed() {
    let mut alloc = AtlasAllocator::new(ext(1024, 1024));
    let a = alloc.allocate(ext(16, 600)).unwrap();
    // the second one shares the first shelf
    let b = alloc.allocate(ext(16, 600)).unwrap();
    assert_eq!(a.rect.y, b.rect.y);
    // too tall for the first shelf, and no room for a fresh band below it:
    // the signal to grow, not an error
    assert!(alloc.allocate(ext(16, 700)).is_none());
    // too wide for the canvas
    assert!(alloc.allocate(ext(2000, 8)).is_none());
    assert_eq!(alloc.len(), 2);
}

#[test]
fn resize_relocates_everything() {
    let mut alloc = AtlasAllocator::new(ext(1024, 1024));
    let a = alloc.allocate(ext(100, 100)).unwrap();
    let b = alloc.allocate(ext(200, 200)).unwrap();
    let list = alloc.resize_and_rearrange(ext(2048, 2048));
    assert!(list.failures.is_empty());
    assert_eq!(list.changes.len(), 2);
    assert_eq!(list.changes[0].old_handle, a.handle);
    assert_eq!(list.changes[1].old_handle, b.handle);
    assert_eq!(list.changes[0].new.rect.width, 100);
    assert_eq!(list.changes[1].new.rect.height, 200);
    let size = alloc.size();
    assert_eq!((size.width, size.height), (2048, 2048));
}

#[test]
fn shrinking_resize_reports_failures() {
    let mut alloc = AtlasAllocator::new(ext(1024, 1024));
    alloc.allocate(ext(100, 100)).unwrap();
    alloc.allocate(ext(500, 500)).unwrap();
    let list = alloc.resize_and_rearrange(ext(256, 256));
    // the large allocation cannot be placed in the small canvas
    assert!(!list.failures.is_empty());
    assert_eq!(list.changes.len() + list.failures.len(), 2);
}

#[test]
fn rearrange_keeps_sizes_and_count() {
    let mut alloc = AtlasAllocator::new(ext(1024, 1024));
    alloc.allocate(ext(64, 64)).unwrap();
    alloc.allocate(ext(128, 32)).unwrap();
    let list = alloc.rearrange();
    assert!(list.failures.is_empty());
    assert_eq!(list.changes.len(), 2);
    assert_eq!(
        (list.changes[0].new.rect.width, list.changes[0].new.rect.height),
        (64, 64)
    );
    assert_eq!(
        (list.changes[1].new.rect.width, list.changes[1].new.rect.height),
        (128, 32)
    );
    assert_eq!(alloc.len(), 2);
}
