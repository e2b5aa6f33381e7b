use pinenote_service::types::rect::{Rect, SplitRect};

#[test]
fn no_inter() {
    let sr = SplitRect::from(Rect::new(10, 10, 20, 20));
    let r2 = Rect::new(30, 30, 40, 40);

    let expected = sr.clone();
    let res = sr.mask_with(&r2);

    assert_eq!(Some(Rect::new(10, 10, 20, 20)), res.bounds());
    assert_eq!(expected, res);
}

#[test]
fn full_cover() {
    let sr = SplitRect::from(Rect::new(100, 100, 150, 150));
    let r2 = Rect::new(50, 50, 200, 200);

    let res = sr.mask_with(&r2);

    assert!(res.is_empty());
    assert_eq!(None, res.bounds());
}

#[test]
fn same_size() {
    let r = Rect::new(100, 100, 150, 150);
    let sr = SplitRect::from(r.clone());

    let res = sr.mask_with(&r);

    assert!(res.is_empty());
    assert_eq!(None, res.bounds());
}

#[test]
fn same_size_multi() {
    let bound = Rect::new(100, 100, 200, 200);
    let sr = SplitRect::from_rects(vec![
        Rect::new(100, 100, 200, 120),
        Rect::new(150, 120, 200, 200),
        Rect::new(100, 120, 150, 200),
    ]);

    let res = sr.mask_with(&bound);

    assert!(res.is_empty());
    assert_eq!(None, res.bounds());
}

#[test]
fn cover_center() {
    let rect = Rect::new(100, 100, 200, 200);
    let sr = SplitRect::from(rect.clone());
    let r2 = Rect::new(120, 130, 140, 150);

    let res = sr.mask_with(&r2);

    let expected_bounds = Some(rect);
    let expected = SplitRect::from_rects(vec![
        Rect::new(100, 100, 120, 150),
        Rect::new(120, 100, 200, 130),
        Rect::new(140, 130, 200, 200),
        Rect::new(100, 150, 140, 200)
    ]);

    assert_eq!(expected_bounds, res.bounds());
    assert_eq!(expected, res);
}

#[test]
fn cover_center_horiz() {
    let rect = Rect::new(100, 100, 200, 200);
    let sr = SplitRect::from(rect.clone());
    let r2 = Rect::new(20, 130, 240, 150);

    let res = sr.mask_with(&r2);

    let expected_bounds = Some(rect);
    let expected = SplitRect::from_rects(vec![
        Rect::new(100, 100, 200, 130),
        Rect::new(100, 150, 200, 200)
    ]);

    assert_eq!(expected_bounds, res.bounds());
    assert_eq!(expected, res);
}

#[test]
fn cover_center_vert() {
    let rect = Rect::new(100, 100, 200, 200);
    let sr = SplitRect::from(rect.clone());
    let r2 = Rect::new(120, 30, 140, 250);

    let res = sr.mask_with(&r2);

    let expected_bounds = Some(rect);
    let expected = SplitRect::from_rects(vec![
        Rect::new(100, 100, 120, 200),
        Rect::new(140, 100, 200, 200)
    ]);

    assert_eq!(expected_bounds, res.bounds());
    assert_eq!(expected, res);
}

#[test]
fn cover_top() {
    let sr = SplitRect::from(Rect::new(100, 100, 200, 200));
    let r2 = Rect::new(50, 50, 250, 150);

    let res = sr.mask_with(&r2);

    let expected_bounds = Some(Rect::new(100, 150, 200, 200));
    let expected = SplitRect::from_rects(vec![
        Rect::new(100, 150, 200, 200),
    ]);

    assert_eq!(expected_bounds, res.bounds());
    assert_eq!(expected, res);
}

#[test]
fn cover_left() {
    let sr = SplitRect::from(Rect::new(100, 100, 200, 200));
    let r2 = Rect::new(50, 50, 150, 250);

    let res = sr.mask_with(&r2);

    let expected_bounds = Some(Rect::new(150, 100, 200, 200));
    let expected = SplitRect::from_rects(vec![
        Rect::new(150, 100, 200, 200)
    ]);

    assert_eq!(expected_bounds, res.bounds());
    assert_eq!(expected, res);
}

#[test]
fn cover_right() {
    let sr = SplitRect::from(Rect::new(100, 100, 200, 200));
    let r2 = Rect::new(150, 50, 250, 250);

    let res = sr.mask_with(&r2);

    let expected_bounds = Some(Rect::new(100, 100, 150, 200));
    let expected = SplitRect::from_rects(vec![
        Rect::new(100, 100, 150, 200)
    ]);

    assert_eq!(expected_bounds, res.bounds());
    assert_eq!(expected, res);
}

#[test]
fn cover_bottom() {
    let sr = SplitRect::from(Rect::new(100, 100, 200, 200));
    let r2 = Rect::new(50, 150, 250, 250);

    let res = sr.mask_with(&r2);

    let expected_bounds = Some(Rect::new(100, 100, 200, 150));
    let expected = SplitRect::from_rects(vec![
        Rect::new(100, 100, 200, 150),
    ]);

    assert_eq!(expected_bounds, res.bounds());
    assert_eq!(expected, res);
}

#[test]
fn cover_top_left() {
    let sr = SplitRect::from(Rect::new(100, 100, 200, 200));
    let r2 = Rect::new(50, 50, 130, 150);

    let res = sr.mask_with(&r2);

    let expected_bounds = Some(Rect::new(100, 100, 200, 200));
    let expected = SplitRect::from_rects(vec![
        Rect::new(130, 100, 200, 200),
        Rect::new(100, 150, 130, 200)
    ]);

    assert_eq!(expected_bounds, res.bounds());
    assert_eq!(expected, res);
}

#[test]
fn cover_top_right() {
    let sr = SplitRect::from(Rect::new(100, 100, 200, 200));
    let r2 = Rect::new(130, 50, 230, 150);

    let res = sr.mask_with(&r2);

    let expected_bounds = Some(Rect::new(100, 100, 200, 200));
    let expected = SplitRect::from_rects(vec![
        Rect::new(100, 100, 130, 150),
        Rect::new(100, 150, 200, 200)
    ]);

    assert_eq!(expected_bounds, res.bounds());
    assert_eq!(expected, res);
}

#[test]
fn cover_bottom_left() {
    let sr = SplitRect::from(Rect::new(100, 100, 200, 200));
    let r2 = Rect::new(50, 120, 130, 250);

    let res = sr.mask_with(&r2);

    let expected_bounds = Some(Rect::new(100, 100, 200, 200));
    let expected = SplitRect::from_rects(vec![
        Rect::new(100, 100, 200, 120),
        Rect::new(130, 120, 200, 200)
    ]);

    assert_eq!(expected_bounds, res.bounds());
    assert_eq!(expected, res);
}

#[test]
fn cover_bottom_right() {
    let sr = SplitRect::from(Rect::new(100, 100, 200, 200));
    let r2 = Rect::new(110, 120, 230, 250);

    let res = sr.mask_with(&r2);

    let expected_bounds = Some(Rect::new(100, 100, 200, 200));
    let expected = SplitRect::from_rects(vec![
        Rect::new(100, 100, 110, 200),
        Rect::new(110, 100, 200, 120)
    ]);

    assert_eq!(expected_bounds, res.bounds());
    assert_eq!(expected, res);
}

#[test]
fn cover_top_part() {
    let sr = SplitRect::from(Rect::new(100, 100, 200, 200));
    let r2 = Rect::new(110, 50, 150, 130);

    let res = sr.mask_with(&r2);

    let expected_bounds = Some(Rect::new(100, 100, 200, 200));
    let expected = SplitRect::from_rects(vec![
        Rect::new(100, 100, 110, 130),
        Rect::new(150, 100, 200, 200),
        Rect::new(100, 130, 150, 200)
    ]);

    assert_eq!(expected_bounds, res.bounds());
    assert_eq!(expected, res);
}

#[test]
fn cover_left_part() {
    let sr = SplitRect::from(Rect::new(100, 100, 200, 200));
    let r2 = Rect::new(50, 110, 130, 150);

    let res = sr.mask_with(&r2);

    let expected_bounds = Some(Rect::new(100, 100, 200, 200));
    let expected = SplitRect::from_rects(vec![
        Rect::new(100, 100, 200, 110),
        Rect::new(130, 110, 200, 200),
        Rect::new(100, 150, 130, 200)

    ]);

    assert_eq!(expected_bounds, res.bounds());
    assert_eq!(expected, res);
}

#[test]
fn cover_right_part() {
    let sr = SplitRect::from(Rect::new(100, 100, 200, 200));
    let r2 = Rect::new(130, 110, 250, 150);

    let res = sr.mask_with(&r2);

    let expected_bounds = Some(Rect::new(100, 100, 200, 200));
    let expected = SplitRect::from_rects(vec![
        Rect::new(100, 100, 130, 150),
        Rect::new(130, 100, 200, 110),
        Rect::new(100, 150, 200, 200)

    ]);

    assert_eq!(expected_bounds, res.bounds());
    assert_eq!(expected, res);
}

#[test]
fn cover_bottom_part() {
    let sr = SplitRect::from(Rect::new(100, 100, 200, 200));
    let r2 = Rect::new(110, 130, 150, 250);

    let res = sr.mask_with(&r2);

    let expected_bounds = Some(Rect::new(100, 100, 200, 200));
    let expected = SplitRect::from_rects(vec![
        Rect::new(100, 100, 110, 200),
        Rect::new(110, 100, 200, 130),
        Rect::new(150, 130, 200, 200)
    ]);

    assert_eq!(expected_bounds, res.bounds());
    assert_eq!(expected, res);
}
