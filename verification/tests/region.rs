use pinenote_service::types::rect::{Rect, SplitRect};

#[test]
fn touching_rectangles_share_no_pixel() {
    let a = Rect::new(0, 0, 10, 10);
    let b = Rect::new(10, 0, 20, 10);
    assert!(!a.intersect(&b));
    assert_eq!(None, a.intersection(&b));
}

#[test]
fn overlapping_rectangles() {
    let a = Rect::new(0, 0, 10, 10);
    let b = Rect::new(5, 5, 20, 20);
    assert!(a.intersect(&b));
    assert!(b.intersect(&a));
    assert_eq!(Some(Rect::new(5, 5, 10, 10)), a.intersection(&b));
    assert_eq!(Some(Rect::new(5, 5, 10, 10)), b.intersection(&a));
}

#[test]
fn empty_rectangle_meets_nothing() {
    let a = Rect::new(5, 5, 5, 9);
    let b = Rect::new(0, 0, 10, 10);
    assert!(a.is_empty());
    assert!(!b.is_empty());
    assert!(!a.intersect(&b));
    assert_eq!(None, b.intersection(&a));
}

#[test]
fn cover_is_by_corners() {
    let outer = Rect::new(0, 0, 10, 10);
    assert!(outer.cover(&Rect::new(0, 0, 10, 10)));
    assert!(outer.cover(&Rect::new(2, 3, 4, 5)));
    assert!(!outer.cover(&Rect::new(2, 3, 11, 5)));
    assert!(!outer.cover(&Rect::new(-1, 3, 4, 5)));
}

#[test]
fn extreme_corners_do_not_overflow() {
    let all = Rect::new(i32::MIN, i32::MIN, i32::MAX, i32::MAX);
    let r = Rect::new(-5, -5, 5, 5);
    assert_eq!(Some(r), all.intersection(&r));
    let left = SplitRect::from(all).mask_with(&r);
    assert_eq!(
        SplitRect::from_rects(vec![
            Rect::new(i32::MIN, i32::MIN, -5, 5),
            Rect::new(-5, i32::MIN, i32::MAX, -5),
            Rect::new(5, -5, i32::MAX, i32::MAX),
            Rect::new(i32::MIN, 5, 5, i32::MAX),
        ]),
        left
    );
}

#[test]
fn clip_to_screen_cuts_at_the_edges() {
    let r = Rect::new(1000, 1000, 2000, 1600);
    assert_eq!(Some(Rect::new(1000, 1000, 1872, 1404)), r.clip_to_screen(1872, 1404));
    assert_eq!(Some(Rect::new(0, 0, 10, 10)), Rect::new(-5, -5, 10, 10).clip_to_screen(1872, 1404));
    assert_eq!(None, Rect::new(1872, 0, 1900, 10).clip_to_screen(1872, 1404));
    assert_eq!(None, Rect::new(-10, -10, 0, 0).clip_to_screen(1872, 1404));
}

#[test]
fn mask_with_empty_rectangle_changes_nothing() {
    let sr = SplitRect::from_rects(vec![Rect::new(0, 0, 10, 10), Rect::new(10, 0, 20, 5)]);
    let expected = sr.clone();
    assert_eq!(expected, sr.clone().mask_with(&Rect::new(3, 3, 3, 8)));
    assert_eq!(expected, sr.clone().mask_with(&Rect::new(8, 8, 2, 2)));
    assert_eq!(expected, sr.mask_with(&Rect::new(0, 0, 0, 0)));
}

#[test]
fn mask_never_grows_the_bounds() {
    let sr = SplitRect::from(Rect::new(100, 100, 200, 200));
    let before = sr.bounds().unwrap();
    for mask in [
        Rect::new(0, 0, 150, 300),
        Rect::new(120, 130, 140, 150),
        Rect::new(100, 100, 200, 199),
        Rect::new(300, 300, 400, 400),
    ] {
        let after = sr.clone().mask_with(&mask).bounds().unwrap();
        assert!(before.cover(&after));
    }
}

#[test]
fn mask_that_covers_the_bounds_leaves_nothing() {
    let sr = SplitRect::from_rects(vec![
        Rect::new(100, 100, 200, 120),
        Rect::new(150, 120, 200, 200),
    ]);
    let bounds = sr.bounds().unwrap();
    assert_eq!(Rect::new(100, 100, 200, 200), bounds);
    assert!(sr.clone().mask_with(&bounds).is_empty());
    assert!(sr.mask_with(&Rect::new(0, 0, 1000, 1000)).is_empty());
}

#[test]
fn rectangle_without_pixels_survives_every_mask() {
    let sr = SplitRect::from(Rect::new(5, 5, 5, 5));
    let res = sr.mask_with(&Rect::new(0, 0, 10, 10));
    assert_eq!(SplitRect::from(Rect::new(5, 5, 5, 5)), res);
}

#[test]
fn masking_twice_splits_each_member() {
    let sr = SplitRect::from(Rect::new(0, 0, 30, 10));
    let once = sr.mask_with(&Rect::new(10, 0, 20, 10));
    assert_eq!(
        SplitRect::from_rects(vec![Rect::new(0, 0, 10, 10), Rect::new(20, 0, 30, 10)]),
        once
    );
    let twice = once.mask_with(&Rect::new(0, 5, 30, 10));
    assert_eq!(
        SplitRect::from_rects(vec![Rect::new(0, 0, 10, 5), Rect::new(20, 0, 30, 5)]),
        twice
    );
    assert_eq!(Some(Rect::new(0, 0, 30, 5)), twice.bounds());
    assert_eq!(
        vec![Rect::new(0, 0, 10, 5), Rect::new(20, 0, 30, 5)],
        twice.into_rects()
    );
}
