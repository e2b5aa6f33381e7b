use pinenote_service::types::rect::Rect;
use pinenote_service::types::ztree::{ZSurface, ZTree};

#[test]
fn sanity_empty_tree() {
    let empty_tree = ZTree::new();

    let expected: Vec<ZSurface> = Default::default();
    let result: Vec<ZSurface> = empty_tree.into();

    assert_eq!(expected, result)
}

#[test]
fn sanity_one_surface() {
    let mut tree = ZTree::new();
    let s = ZSurface::new(0, "test_surface", Rect::new(0, 0, 100, 100));

    assert!(tree.insert(s.clone()));

    let expected = vec![s];

    assert_eq!(expected, tree.flatten())
}

#[test]
fn sanity_one_layer() {
    let mut tree = ZTree::new();

    let surfaces = vec![
        ZSurface::new(0, "surface1", Rect::new(0, 0, 100, 100)),
        ZSurface::new(0, "surface2", Rect::new(100, 0, 200, 200)),
        ZSurface::new(0, "surface2", Rect::new(0, 100, 100, 200)),
    ];

    for s in surfaces.iter().cloned() {
        assert!(tree.insert(s));
    }

    let expected = surfaces;

    assert_eq!(expected, tree.flatten());
}

#[test]
fn hidden_surface_not_kept() {
    let mut tree = ZTree::new();
    let lower = ZSurface::new(0, "lower", Rect::new(10, 10, 20, 20));
    let upper = ZSurface::new(1, "upper", Rect::new(0, 0, 100, 100));

    assert!(tree.insert(lower));
    assert!(tree.insert(upper.clone()));

    let expected = vec![upper];

    assert_eq!(expected, tree.flatten());
}

#[test]
fn hidden_surface_no_insert() {
    let mut tree = ZTree::new();
    let lower = ZSurface::new(0, "lower", Rect::new(10, 10, 20, 20));
    let upper = ZSurface::new(1, "upper", Rect::new(0, 0, 100, 100));

    assert!(tree.insert(upper.clone()));
    assert!(!tree.insert(lower));

    let expected = vec![upper];

    assert_eq!(expected, tree.flatten());
}

#[test]
fn multi_layers_no_overlap() {
    let mut tree = ZTree::new();

    let mut surfaces = vec![
        ZSurface::new(3, "surface1", Rect::new(0, 0, 100, 100)),
        ZSurface::new(1, "surface2", Rect::new(100, 0, 200, 200)),
        ZSurface::new(2, "surface2", Rect::new(0, 100, 100, 200)),
    ];

    for s in surfaces.iter().cloned() {
        assert!(tree.insert(s));
    }

    surfaces.sort_by_key(|s| s.z_index);
    let expected = surfaces;

    assert_eq!(expected, tree.flatten())
}

#[test]
fn multi_layers_partial_overlap() {
    let mut tree = ZTree::new();

    let mut surfaces = vec![
        ZSurface::new(3, "surface1", Rect::new(0, 0, 100, 100)),
        ZSurface::new(1, "surface2", Rect::new(50, 0, 200, 200)),
        ZSurface::new(2, "surface3", Rect::new(0, 100, 150, 200)),
    ];

    for s in surfaces.iter().cloned() {
        tree.insert(s);
    }

    let lowest_surface = ZSurface::new(1, "surface2", Rect::new(100, 0, 200, 200));

    surfaces.sort_by_key(|s| s.z_index);
    let expected: Vec<_> = std::iter::once(lowest_surface).chain(surfaces.into_iter().skip(1)).collect();

    assert_eq!(expected, tree.flatten())
}

#[test]
fn smallest_bounding_box_returned() {
    let mut tree = ZTree::new();

    let surfaces = vec![
        ZSurface::new(1, "surface1", Rect::new(0, 0, 200, 200)),
        ZSurface::new(2, "surface2", Rect::new(50, 0, 150, 100)),
        ZSurface::new(3, "surface3", Rect::new(0, 100, 200, 200))
    ];

    for s in surfaces.iter().cloned() {
        tree.insert(s);
    }

    let expected_lowest = ZSurface::new(1, "surface1", Rect::new(0, 0, 200, 100));
    let expected: Vec<_> = std::iter::once(expected_lowest).chain(surfaces.into_iter().skip(1)).collect();

    assert_eq!(expected, tree.flatten())
}
