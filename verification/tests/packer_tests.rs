use atlasbuilder::packer::{PackResult, Packer};
use atlasbuilder::shapes::Rect;

fn assert_pack_result(
    result: &PackResult,
    x: i32,
    y: i32,
    w: i32,
    h: i32,
    rotated: bool,
    message: &str,
) {
    println!(
        "x={:?} y={:?} w={:?} h={:?}",
        result.rect.x, result.rect.y, result.rect.w, result.rect.h
    );
    assert_eq!(result.rect.x, x, "{} - x", message);
    assert_eq!(result.rect.y, y, "{} - y", message);
    assert_eq!(result.rect.w, w, "{} - w", message);
    assert_eq!(result.rect.h, h, "{} - h", message);
    assert_eq!(result.rotated, rotated, "{}", message);
}

#[test]
fn basic_packer_test() {
    let mut packer = Packer::new(256, 256, false, false, 0);

    packer.add(10, 10);
    let result1 = packer.pack();
    assert_eq!(result1, true);
    assert_pack_result(&packer.get_results()[0], 0, 0, 10, 10, false, "Test 1");

    packer.add(10, 10);
    let result2 = packer.pack();
    assert_eq!(result2, true);
    assert_pack_result(&packer.get_results()[1], 0, 10, 10, 10, false, "Test 2");

    packer.add(50, 10);
    let result3 = packer.pack();
    assert_eq!(result3, true);
    assert_pack_result(&packer.get_results()[2], 10, 0, 50, 10, false, "Test 3");

    packer.add(23, 75);
    let result5 = packer.pack();
    assert_eq!(result5, true);
    assert_pack_result(&packer.get_results()[3], 0, 20, 23, 75, false, "Test 4");

    packer.add(50, 50);
    let result4 = packer.pack();
    assert_eq!(result4, true);
    assert_pack_result(&packer.get_results()[4], 0, 95, 50, 50, false, "Test 5");
}

#[test]
fn automatic_grow_test() {
    let mut packer = Packer::new(1024, 1024, true, false, 0);
    assert_eq!(packer.get_w(), 128);
    assert_eq!(packer.get_h(), 128);
    packer.add(200, 100);
    let result1 = packer.pack();
    assert_eq!(result1, false);
    let grow_result = packer.grow();
    assert_eq!(grow_result, true);
    assert_eq!(packer.get_w(), 256);
    assert_eq!(packer.get_h(), 256);
    let result2 = packer.pack();
    assert_eq!(result2, true);
    assert_pack_result(&packer.get_results()[0], 0, 0, 200, 100, false, "Test 1");
}

#[test]
fn similar_shapes_test() {
    let rects = vec![
        Rect { x: 0, y: 0, w: 304, h: 424 },
        Rect { x: 0, y: 0, w: 300, h: 379 },
        Rect { x: 0, y: 0, w: 304, h: 377 },
        Rect { x: 0, y: 0, w: 301, h: 379 },
        Rect { x: 0, y: 0, w: 302, h: 377 },
        Rect { x: 0, y: 0, w: 301, h: 379 },
        Rect { x: 0, y: 0, w: 181, h: 323 },
        Rect { x: 0, y: 0, w: 300, h: 379 },
        Rect { x: 0, y: 0, w: 178, h: 286 },
        Rect { x: 0, y: 0, w: 300, h: 379 },
        Rect { x: 0, y: 0, w: 216, h: 338 },
        Rect { x: 0, y: 0, w: 301, h: 379 },
        Rect { x: 0, y: 0, w: 141, h: 329 },
        Rect { x: 0, y: 0, w: 301, h: 378 },
        Rect { x: 0, y: 0, w: 264, h: 318 },
        Rect { x: 0, y: 0, w: 301, h: 379 },
        Rect { x: 0, y: 0, w: 275, h: 369 },
        Rect { x: 0, y: 0, w: 301, h: 382 },
        Rect { x: 0, y: 0, w: 273, h: 367 },
        Rect { x: 0, y: 0, w: 302, h: 396 },
    ];
    let mut packer = Packer::new(4096, 4096, false, true, 0);
    for rect in rects {
        packer.add(rect.w, rect.h);
    }
    let pack_result = packer.pack();
    assert_eq!(pack_result, true);
    let results = packer.get_results();
    for result in results {
        println!(
            "x={:?} y={:?} w={:?} h={:?}",
            result.rect.x, result.rect.y, result.rect.w, result.rect.h
        );
    }
}

#[test]
fn scenario_plain_canvas() {
    // canvas 100x100, no padding, no rotation
    let mut packer = Packer::new(100, 100, false, false, 0);
    packer.add(10, 10);
    packer.add(10, 10);
    packer.add(50, 10);
    packer.add(50, 50);
    packer.add(23, 75);
    assert!(packer.pack());
    let results = packer.get_results();
    assert_pack_result(&results[0], 0, 0, 10, 10, false, "first 10x10");
    assert_pack_result(&results[1], 0, 10, 10, 10, false, "second 10x10");
    assert_pack_result(&results[2], 10, 0, 50, 10, false, "50x10");
    assert_pack_result(&results[3], 0, 20, 50, 50, false, "50x50");
    assert_pack_result(&results[4], 50, 10, 23, 75, false, "23x75");
}

#[test]
fn scenario_grow_from_seed() {
    // limit 1024x1024, growth enabled: seed canvas 128x128
    let mut packer = Packer::new(1024, 1024, true, false, 0);
    packer.add(200, 100);
    assert!(!packer.pack());
    assert!(packer.grow());
    assert_eq!(packer.get_w(), 256);
    assert_eq!(packer.get_h(), 256);
    assert_pack_result(&packer.get_results()[0], 0, 0, 200, 100, false, "grown");
}

#[test]
fn scenario_padding_reported_size() {
    // padding 2: the recorded placement is the bare item at the padded origin
    let mut packer = Packer::new(256, 256, false, false, 2);
    packer.add(10, 10);
    assert!(packer.pack());
    let first = packer.get_results()[0];
    assert_eq!(first.rect.x, 2);
    assert_eq!(first.rect.y, 2);
    assert_eq!(first.rect.w, 10);
    assert_eq!(first.rect.h, 10);
    assert_eq!(first.rotated, false);

    // the free space consumed is 12x12: a second 10x10 item lands 12 past
    // the first on one axis
    packer.add(10, 10);
    assert!(packer.pack());
    let second = packer.get_results()[1];
    assert_eq!(second.rect.x, 2);
    assert_eq!(second.rect.y, 14);
    assert_eq!(second.rect.w, 10);
    assert_eq!(second.rect.h, 10);
}

#[test]
fn scenario_growth_exhausted() {
    // an item larger than the limit canvas in both dimensions: growth
    // doubles up to the limit and then reports failure
    let mut packer = Packer::new(1024, 1024, true, false, 0);
    packer.add(2000, 3000);
    assert!(!packer.pack());
    assert!(!packer.grow());
    assert_eq!(packer.get_w(), 1024);
    assert_eq!(packer.get_h(), 1024);
    assert!(!packer.pack());
}

#[test]
fn rotated_placement_swaps_extents() {
    // a 60x10 item cannot fit upright in a 12-wide seed column, but fits
    // rotated; the placed extents are swapped and rotated is reported
    let mut packer = Packer::new(12, 100, false, true, 0);
    packer.add(60, 10);
    assert!(packer.pack());
    let result = packer.get_results()[0];
    assert_eq!(result.rotated, true);
    assert_eq!(result.rect.w, 10);
    assert_eq!(result.rect.h, 60);
    assert_eq!(result.rect.x, 0);
    assert_eq!(result.rect.y, 0);
}

#[test]
fn rotation_disabled_fails_when_only_rotated_fits() {
    let mut packer = Packer::new(12, 100, false, false, 0);
    packer.add(60, 10);
    assert!(!packer.pack());
}

#[test]
fn pack_twice_is_idempotent() {
    let mut packer = Packer::new(256, 256, false, true, 1);
    packer.add(30, 40);
    packer.add(17, 9);
    packer.add(60, 60);
    assert!(packer.pack());
    let first: Vec<(i32, i32, i32, i32, bool)> = packer
        .get_results()
        .iter()
        .map(|r| (r.rect.x, r.rect.y, r.rect.w, r.rect.h, r.rotated))
        .collect();
    assert!(packer.pack());
    let second: Vec<(i32, i32, i32, i32, bool)> = packer
        .get_results()
        .iter()
        .map(|r| (r.rect.x, r.rect.y, r.rect.w, r.rect.h, r.rotated))
        .collect();
    assert_eq!(first, second);
}

#[test]
fn failed_pack_keeps_previous_results() {
    let mut packer = Packer::new(100, 100, false, false, 0);
    packer.add(40, 40);
    assert!(packer.pack());
    let kept = packer.get_results()[0];
    packer.add(500, 500);
    assert!(!packer.pack());
    assert_eq!(packer.get_results().len(), 1);
    let still = packer.get_results()[0];
    assert_eq!(kept.rect.x, still.rect.x);
    assert_eq!(kept.rect.y, still.rect.y);
    assert_eq!(kept.rect.w, still.rect.w);
    assert_eq!(kept.rect.h, still.rect.h);
}

#[test]
fn placements_do_not_overlap() {
    let mut packer = Packer::new(200, 200, false, true, 0);
    let items = [
        (50, 30),
        (30, 50),
        (70, 70),
        (20, 20),
        (100, 10),
        (10, 100),
        (40, 40),
    ];
    for (w, h) in items {
        packer.add(w, h);
    }
    assert!(packer.pack());
    let results = packer.get_results();
    assert_eq!(results.len(), items.len());
    for i in 0..results.len() {
        let a = &results[i].rect;
        assert!(a.x >= 0 && a.y >= 0);
        assert!(a.x + a.w <= 200 && a.y + a.h <= 200);
        for j in 0..results.len() {
            if i != j {
                let b = &results[j].rect;
                let disjoint = a.x >= b.x + b.w
                    || a.x + a.w <= b.x
                    || a.y >= b.y + b.h
                    || a.y + a.h <= b.y;
                assert!(disjoint, "placements {} and {} overlap", i, j);
            }
        }
    }
}

#[test]
fn grow_is_monotonic_within_limits() {
    let mut packer = Packer::new(512, 512, true, false, 0);
    packer.add(300, 40);
    assert!(!packer.pack());
    let w_before = packer.get_w();
    let h_before = packer.get_h();
    assert!(packer.grow());
    assert!(packer.get_w() >= w_before);
    assert!(packer.get_h() >= h_before);
    assert!(packer.get_w() <= 512);
    assert!(packer.get_h() <= 512);
}

#[test]
fn empty_batch_packs() {
    let mut packer = Packer::new(64, 64, false, false, 0);
    assert!(packer.pack());
    assert_eq!(packer.get_results().len(), 0);
}

#[test]
fn zero_sized_item_never_places_without_padding() {
    // policy for degenerate items: a zero-extent placement doubles as the
    // "no space" marker, so a zero-sized item fails the pack
    let mut packer = Packer::new(64, 64, false, false, 0);
    packer.add(0, 0);
    assert!(!packer.pack());
    let mut rotating = Packer::new(64, 64, false, true, 0);
    rotating.add(0, 0);
    assert!(!rotating.pack());
}

#[test]
fn zero_sized_item_places_with_padding() {
    // with padding the inflated item has positive extents; the recorded
    // placement deflates back to zero size at the padded origin
    let mut packer = Packer::new(64, 64, false, false, 2);
    packer.add(0, 0);
    assert!(packer.pack());
    let result = packer.get_results()[0];
    assert_eq!(
        (result.rect.x, result.rect.y, result.rect.w, result.rect.h),
        (2, 2, 0, 0)
    );
}
