use atlasbuilder::packer::{punch_hole_in_rect, Packer};
use atlasbuilder::shapes::{rect_contains, rect_intersects, Rect};

#[test]
fn contains_accepts_nested_and_equal() {
    let outer = Rect { x: 0, y: 0, w: 100, h: 100 };
    let inner = Rect { x: 10, y: 20, w: 30, h: 40 };
    assert!(rect_contains(&inner, &outer));
    assert!(!rect_contains(&outer, &inner));
    assert!(rect_contains(&outer, &outer));
}

#[test]
fn contains_rejects_partial_overlap() {
    let a = Rect { x: 0, y: 0, w: 50, h: 50 };
    let b = Rect { x: 25, y: 25, w: 50, h: 50 };
    assert!(!rect_contains(&a, &b));
    assert!(!rect_contains(&b, &a));
}

#[test]
fn intersects_is_open_interior() {
    let a = Rect { x: 0, y: 0, w: 10, h: 10 };
    let overlapping = Rect { x: 5, y: 5, w: 10, h: 10 };
    let touching = Rect { x: 10, y: 0, w: 10, h: 10 };
    let apart = Rect { x: 20, y: 20, w: 5, h: 5 };
    assert!(rect_intersects(&a, &overlapping));
    // touching edges do not count as intersecting
    assert!(!rect_intersects(&a, &touching));
    assert!(!rect_intersects(&a, &apart));
}

#[test]
fn punch_hole_emits_four_slivers() {
    let parent = Rect { x: 0, y: 0, w: 100, h: 100 };
    let hole = Rect { x: 30, y: 30, w: 20, h: 20 };
    let mut out: Vec<Rect> = Vec::new();
    punch_hole_in_rect(&parent, &hole, &mut out);
    assert_eq!(out.len(), 4);
    // top
    assert_eq!((out[0].x, out[0].y, out[0].w, out[0].h), (0, 0, 100, 30));
    // bottom
    assert_eq!((out[1].x, out[1].y, out[1].w, out[1].h), (0, 50, 100, 50));
    // left
    assert_eq!((out[2].x, out[2].y, out[2].w, out[2].h), (0, 0, 30, 100));
    // right
    assert_eq!((out[3].x, out[3].y, out[3].w, out[3].h), (50, 0, 50, 100));
}

#[test]
fn punch_hole_corner_emits_two() {
    let parent = Rect { x: 0, y: 0, w: 50, h: 50 };
    let hole = Rect { x: 0, y: 0, w: 20, h: 20 };
    let mut out: Vec<Rect> = Vec::new();
    punch_hole_in_rect(&parent, &hole, &mut out);
    assert_eq!(out.len(), 2);
    assert_eq!((out[0].x, out[0].y, out[0].w, out[0].h), (0, 20, 50, 30));
    assert_eq!((out[1].x, out[1].y, out[1].w, out[1].h), (20, 0, 30, 50));
}

#[test]
fn punch_hole_discards_degenerate_slivers() {
    // the hole spans the parent's full width: no left/right slivers
    let parent = Rect { x: 0, y: 0, w: 20, h: 100 };
    let hole = Rect { x: 0, y: 40, w: 20, h: 20 };
    let mut out: Vec<Rect> = Vec::new();
    punch_hole_in_rect(&parent, &hole, &mut out);
    assert_eq!(out.len(), 2);
    assert_eq!((out[0].x, out[0].y, out[0].w, out[0].h), (0, 0, 20, 40));
    assert_eq!((out[1].x, out[1].y, out[1].w, out[1].h), (0, 60, 20, 40));
}

#[test]
fn prune_drops_contained_rects() {
    let packer = Packer::new(100, 100, false, false, 0);
    let mut frees = vec![
        Rect { x: 0, y: 0, w: 100, h: 100 },
        Rect { x: 10, y: 10, w: 20, h: 20 },
        Rect { x: 50, y: 50, w: 40, h: 40 },
    ];
    packer.prune_free_rects(&mut frees);
    assert_eq!(frees.len(), 1);
    assert_eq!((frees[0].x, frees[0].y, frees[0].w, frees[0].h), (0, 0, 100, 100));
}

#[test]
fn prune_keeps_one_of_identical_rects() {
    let packer = Packer::new(100, 100, false, false, 0);
    let mut frees = vec![
        Rect { x: 5, y: 5, w: 10, h: 10 },
        Rect { x: 5, y: 5, w: 10, h: 10 },
        Rect { x: 5, y: 5, w: 10, h: 10 },
    ];
    packer.prune_free_rects(&mut frees);
    assert_eq!(frees.len(), 1);
    assert_eq!((frees[0].x, frees[0].y, frees[0].w, frees[0].h), (5, 5, 10, 10));
}

#[test]
fn prune_keeps_overlapping_but_not_contained() {
    let packer = Packer::new(100, 100, false, false, 0);
    let mut frees = vec![
        Rect { x: 0, y: 0, w: 50, h: 50 },
        Rect { x: 25, y: 25, w: 50, h: 50 },
    ];
    packer.prune_free_rects(&mut frees);
    assert_eq!(frees.len(), 2);
}
