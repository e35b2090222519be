//! End-to-end scenarios for the atlas builder.

use sprite_atlas::builder::{AtlasBuilder, Error, StoredImage, SubmitOutcome};
use sprite_atlas::fingerprint::ContentId;
use sprite_atlas::geometry::{Extent, Rect};
use sprite_atlas::MAX_DIM;

/// A test image whose pixels all carry the same marker byte.
fn solid(width: u32, height: u32, marker: u8) -> StoredImage {
    StoredImage { width, height, pixels: vec![marker; (4 * width * height) as usize] }
}

fn rects_disjoint(a: Rect, b: Rect) -> bool {
    a.x + a.width <= b.x || b.x + b.width <= a.x || a.y + a.height <= b.y || b.y + b.height <= a.y
}

/// Submit raw bytes and, when asked to, "decode" them into the given
/// image; returns whether a decode was needed.
fn push(builder: &mut AtlasBuilder, identity: &str, data: &[u8], image: StoredImage) -> bool {
    match builder.submit(identity.to_string(), data) {
        SubmitOutcome::Existing(_) => false,
        SubmitOutcome::NeedsDecode(id) => {
            builder.submit_decoded(identity.to_string(), id, image, None).unwrap();
            true
        }
    }
}

#[test]
fn three_images_share_and_pack() {
    // A and B carry byte-identical content, C is distinct and large.
    let bytes_a = vec![7u8; 64];
    let bytes_b = vec![7u8; 64];
    let bytes_c = vec![9u8; 64];

    let mut builder = AtlasBuilder::new();
    let mut decodes: u32 = 0;
    if push(&mut builder, "a", &bytes_a, solid(32, 32, 1)) {
        decodes += 1;
    }
    if push(&mut builder, "b", &bytes_b, solid(32, 32, 1)) {
        decodes += 1;
    }
    if push(&mut builder, "c", &bytes_c, solid(900, 900, 2)) {
        decodes += 1;
    }
    // decoding happened exactly twice: a and b share one content
    assert_eq!(decodes, 2);

    // both fit the initial 1024 x 1024 canvas: no growth
    let canvas = builder.canvas_size();
    assert_eq!((canvas.width, canvas.height), (1024, 1024));
    assert!(!builder.is_dirty());
    assert_eq!(builder.stored_count(), 2);

    let (atlas, sheet) = builder.build().unwrap();
    assert_eq!((atlas.width, atlas.height), (1024, 1024));
    assert_eq!(sheet.len(), 3);

    let ra = sheet.get(&"a".to_string()).unwrap().rect;
    let rb = sheet.get(&"b".to_string()).unwrap().rect;
    let rc = sheet.get(&"c".to_string()).unwrap().rect;
    // B deduplicated onto A's region, exactly
    assert_eq!(ra, rb);
    assert_eq!((ra.width, ra.height), (32, 32));
    assert_eq!((rc.width, rc.height), (900, 900));
    assert!(rects_disjoint(ra, rc));
    assert!(ra.x + ra.width <= 1024 && ra.y + ra.height <= 1024);
    assert!(rc.x + rc.width <= 1024 && rc.y + rc.height <= 1024);
}

#[test]
fn oversized_image_grows_canvas() {
    let mut builder = AtlasBuilder::new();
    // a small image first, to be carried through the growth
    assert!(push(&mut builder, "small", &[1, 2, 3], solid(16, 16, 5)));
    // 2000 x 2000 cannot fit 1024 x 1024
    assert!(push(&mut builder, "big", &[4, 5, 6], solid(2000, 2000, 6)));

    let canvas = builder.canvas_size();
    assert!(canvas.width >= 2048 && canvas.height >= 2048);
    assert!(builder.is_dirty());

    let (atlas, sheet) = builder.build().unwrap();
    assert_eq!(atlas.width, canvas.width);
    assert_eq!(atlas.height, canvas.height);
    let rs = sheet.get(&"small".to_string()).unwrap().rect;
    let rb = sheet.get(&"big".to_string()).unwrap().rect;
    // the earlier allocation survived the growth, at its size
    assert_eq!((rs.width, rs.height), (16, 16));
    assert_eq!((rb.width, rb.height), (2000, 2000));
    assert!(rects_disjoint(rs, rb));
}

#[test]
fn atlas_pixels_round_trip() {
    let mut builder = AtlasBuilder::new();
    let img1 = solid(3, 2, 0xaa);
    let img2 = solid(5, 4, 0xbb);
    assert!(push(&mut builder, "one", b"first bytes", img1.clone()));
    assert!(push(&mut builder, "two", b"second bytes", img2.clone()));

    let (atlas, sheet) = builder.build().unwrap();
    for (name, img) in [("one", &img1), ("two", &img2)] {
        let rect = sheet.get(&name.to_string()).unwrap().rect;
        assert_eq!((rect.width, rect.height), (img.width, img.height));
        for row in 0..img.height {
            for col in 0..img.width {
                for k in 0..4u32 {
                    let dst = 4 * ((rect.y + row) * atlas.width + (rect.x + col)) + k;
                    let src = 4 * (row * img.width + col) + k;
                    assert_eq!(atlas.pixels[dst as usize], img.pixels[src as usize]);
                }
            }
        }
    }
}

#[test]
fn identical_submissions_build_identical_atlases() {
    let inputs: Vec<(&str, Vec<u8>, StoredImage)> = vec![
        ("x", vec![1u8; 10], solid(40, 30, 3)),
        ("y", vec![2u8; 10], solid(700, 650, 4)),
        ("z", vec![1u8; 10], solid(40, 30, 3)),
        ("w", vec![3u8; 10], solid(512, 900, 8)),
    ];
    let run = || {
        let mut builder = AtlasBuilder::new();
        for (name, data, img) in inputs.iter() {
            push(&mut builder, name, data, img.clone());
        }
        builder.build().unwrap()
    };
    let (atlas1, sheet1) = run();
    let (atlas2, sheet2) = run();
    assert_eq!(atlas1.width, atlas2.width);
    assert_eq!(atlas1.height, atlas2.height);
    assert_eq!(atlas1.pixels, atlas2.pixels);
    assert_eq!(sheet1.len(), sheet2.len());
    for (name, _, _) in inputs.iter() {
        assert_eq!(
            sheet1.get(&name.to_string()).unwrap(),
            sheet2.get(&name.to_string()).unwrap()
        );
    }
}

#[test]
fn empty_build_is_blank() {
    let builder = AtlasBuilder::new();
    let (atlas, sheet) = builder.build().unwrap();
    assert_eq!((atlas.width, atlas.height), (1024, 1024));
    assert_eq!(sheet.len(), 0);
    assert_eq!(atlas.pixels.len(), 4 * 1024 * 1024);
    assert!(atlas.pixels.iter().all(|&b| b == 0));
}

#[test]
fn explicit_size_reserves_larger_region_with_blank_padding() {
    let mut builder = AtlasBuilder::new();
    let img = solid(2, 2, 0xcc);
    match builder.submit("pad".to_string(), b"padded") {
        SubmitOutcome::NeedsDecode(id) => {
            builder
                .submit_decoded(
                    "pad".to_string(),
                    id,
                    img,
                    Some(Extent { width: 8, height: 8 }),
                )
                .unwrap();
        }
        SubmitOutcome::Existing(_) => panic!("content cannot be stored yet"),
    }
    let (atlas, sheet) = builder.build().unwrap();
    let rect = sheet.get(&"pad".to_string()).unwrap().rect;
    assert_eq!((rect.width, rect.height), (8, 8));
    // image pixels at the origin of the region
    for row in 0..2u32 {
        for col in 0..2u32 {
            let dst = (4 * ((rect.y + row) * atlas.width + (rect.x + col))) as usize;
            assert_eq!(&atlas.pixels[dst..dst + 4], &[0xcc, 0xcc, 0xcc, 0xcc]);
        }
    }
    // the reserved remainder of the region stays blank
    let far = (4 * ((rect.y + 7) * atlas.width + (rect.x + 7))) as usize;
    assert_eq!(&atlas.pixels[far..far + 4], &[0, 0, 0, 0]);
}

#[test]
fn resubmitted_identity_takes_latest_content() {
    let mut builder = AtlasBuilder::new();
    assert!(push(&mut builder, "name", b"old content", solid(10, 10, 1)));
    assert!(push(&mut builder, "name", b"new content", solid(20, 20, 2)));
    let (_, sheet) = builder.build().unwrap();
    assert_eq!(sheet.len(), 1);
    let rect = sheet.get(&"name".to_string()).unwrap().rect;
    assert_eq!((rect.width, rect.height), (20, 20));
}

#[test]
fn many_identities_one_content() {
    let mut builder = AtlasBuilder::new();
    let mut decodes: u32 = 0;
    for name in ["p", "q", "r", "s"] {
        if push(&mut builder, name, b"shared bytes", solid(6, 6, 9)) {
            decodes += 1;
        }
    }
    assert_eq!(decodes, 1);
    assert_eq!(builder.stored_count(), 1);
    let (_, sheet) = builder.build().unwrap();
    let first = sheet.get(&"p".to_string()).unwrap();
    for name in ["q", "r", "s"] {
        assert_eq!(sheet.get(&name.to_string()).unwrap(), first);
    }
}

#[test]
fn lookup_getters_follow_the_registry() {
    let mut builder = AtlasBuilder::new();
    let data = b"getter bytes";
    let id = ContentId::of(data);
    assert!(!builder.contains(id));
    assert_eq!(builder.rect_for(id), None);
    assert!(push(&mut builder, "g", data, solid(12, 34, 1)));
    assert!(builder.contains(id));
    let rect = builder.rect_for(id).unwrap();
    assert_eq!((rect.width, rect.height), (12, 34));
    assert_eq!(builder.identity_count(), 1);
}

#[test]
fn overfull_atlas_is_reported_and_harmless() {
    let mut builder = AtlasBuilder::new();
    // a tiny image reserving the whole largest canvas
    match builder.submit("first".to_string(), b"first blob") {
        SubmitOutcome::NeedsDecode(id) => {
            builder
                .submit_decoded(
                    "first".to_string(),
                    id,
                    solid(1, 1, 1),
                    Some(Extent { width: MAX_DIM, height: MAX_DIM }),
                )
                .unwrap();
        }
        SubmitOutcome::Existing(_) => panic!("content cannot be stored yet"),
    }
    let canvas = builder.canvas_size();
    assert_eq!((canvas.width, canvas.height), (MAX_DIM, MAX_DIM));
    // nothing else fits even the largest supported canvas
    match builder.submit("second".to_string(), b"second blob") {
        SubmitOutcome::NeedsDecode(id) => {
            let r = builder.submit_decoded(
                "second".to_string(),
                id,
                solid(1, 1, 2),
                Some(Extent { width: MAX_DIM, height: MAX_DIM }),
            );
            assert!(matches!(r, Err(Error::AtlasFull)));
            // the refused submission left nothing behind
            assert!(!builder.contains(id));
        }
        SubmitOutcome::Existing(_) => panic!("content cannot be stored yet"),
    }
    assert_eq!(builder.stored_count(), 1);
    assert_eq!(builder.identity_count(), 1);
}
