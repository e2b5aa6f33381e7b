use pinenote_service::types::rect::Rect;
use pinenote_service::types::ztree::{ZSurface, ZTree};

fn build(surfaces: &[ZSurface]) -> Vec<ZSurface> {
    let mut tree = ZTree::new();
    for s in surfaces {
        tree.insert(s.clone());
    }
    tree.flatten()
}

fn permutations(items: &[ZSurface]) -> Vec<Vec<ZSurface>> {
    if items.len() <= 1 {
        return vec![items.to_vec()];
    }
    let mut out = Vec::new();
    for i in 0..items.len() {
        let mut rest = items.to_vec();
        let first = rest.remove(i);
        for mut tail in permutations(&rest) {
            tail.insert(0, first.clone());
            out.push(tail);
        }
    }
    out
}

#[test]
fn insertion_order_does_not_matter_for_distinct_z() {
    let surfaces = vec![
        ZSurface::new(1, "a", Rect::new(0, 0, 200, 200)),
        ZSurface::new(2, "b", Rect::new(50, 0, 150, 100)),
        ZSurface::new(3, "c", Rect::new(0, 100, 200, 200)),
        ZSurface::new(4, "d", Rect::new(40, 40, 60, 60)),
        ZSurface::new(0, "e", Rect::new(50, 100, 60, 110)),
    ];
    let expected = build(&surfaces);
    let all = permutations(&surfaces);
    assert_eq!(120, all.len());
    for order in all {
        assert_eq!(expected, build(&order));
    }
}

#[test]
fn flatten_is_sorted_by_z_index() {
    let out = build(&[
        ZSurface::new(7, "top", Rect::new(0, 0, 10, 10)),
        ZSurface::new(-3, "bottom", Rect::new(20, 0, 30, 10)),
        ZSurface::new(2, "middle", Rect::new(40, 0, 50, 10)),
    ]);
    let z: Vec<i32> = out.iter().map(|s| s.z_index).collect();
    assert_eq!(vec![-3, 2, 7], z);
}

#[test]
fn covered_by_two_upper_surfaces_is_not_inserted() {
    let mut tree = ZTree::new();
    assert!(tree.insert(ZSurface::new(5, "left", Rect::new(0, 0, 50, 100))));
    assert!(tree.insert(ZSurface::new(6, "right", Rect::new(50, 0, 100, 100))));
    assert!(!tree.insert(ZSurface::new(1, "below", Rect::new(10, 10, 90, 90))));
    assert_eq!(
        vec![
            ZSurface::new(5, "left", Rect::new(0, 0, 50, 100)),
            ZSurface::new(6, "right", Rect::new(50, 0, 100, 100)),
        ],
        tree.flatten()
    );
}

#[test]
fn surface_at_the_same_z_index_is_not_masked_by_its_peers() {
    let mut tree = ZTree::new();
    assert!(tree.insert(ZSurface::new(1, "first", Rect::new(0, 0, 100, 100))));
    assert!(tree.insert(ZSurface::new(1, "second", Rect::new(0, 0, 100, 100))));
    assert_eq!(vec![ZSurface::new(1, "second", Rect::new(0, 0, 100, 100))], tree.flatten());
}

#[test]
fn same_z_index_keeps_insertion_order() {
    let out = build(&[
        ZSurface::new(1, "x", Rect::new(0, 0, 10, 10)),
        ZSurface::new(0, "low", Rect::new(50, 50, 60, 60)),
        ZSurface::new(1, "y", Rect::new(20, 0, 30, 10)),
        ZSurface::new(1, "z", Rect::new(40, 0, 50, 10)),
    ]);
    let names: Vec<&str> = out.iter().map(|s| s.reference.as_str()).collect();
    assert_eq!(vec!["low", "x", "y", "z"], names);
}

#[test]
fn visible_surface_has_exactly_one_entry() {
    let out = build(&[
        ZSurface::new(1, "a", Rect::new(0, 0, 200, 200)),
        ZSurface::new(2, "b", Rect::new(50, 50, 150, 150)),
        ZSurface::new(3, "c", Rect::new(0, 0, 10, 10)),
    ]);
    for name in ["a", "b", "c"] {
        assert_eq!(1, out.iter().filter(|s| s.reference == name).count());
    }
    assert_eq!(Rect::new(0, 0, 200, 200), out[0].area);
}

#[test]
fn surface_without_pixels_is_kept_as_it_is() {
    let mut tree = ZTree::new();
    assert!(tree.insert(ZSurface::new(1, "big", Rect::new(0, 0, 100, 100))));
    assert!(tree.insert(ZSurface::new(0, "none", Rect::new(5, 5, 5, 5))));
    assert_eq!(
        vec![
            ZSurface::new(0, "none", Rect::new(5, 5, 5, 5)),
            ZSurface::new(1, "big", Rect::new(0, 0, 100, 100)),
        ],
        tree.flatten()
    );
}

#[test]
fn lower_layers_are_cut_by_the_bounding_box_of_the_newcomer() {
    let mut tree = ZTree::new();
    assert!(tree.insert(ZSurface::new(0, "floor", Rect::new(0, 0, 100, 10))));
    assert!(tree.insert(ZSurface::new(2, "hole", Rect::new(40, 0, 60, 10))));
    assert!(tree.insert(ZSurface::new(1, "bridge", Rect::new(30, 0, 70, 10))));
    assert_eq!(
        vec![
            ZSurface::new(0, "floor", Rect::new(0, 0, 100, 10)),
            ZSurface::new(1, "bridge", Rect::new(30, 0, 70, 10)),
            ZSurface::new(2, "hole", Rect::new(40, 0, 60, 10)),
        ],
        tree.flatten()
    );
    let mut tree = ZTree::default();
    assert!(tree.insert(ZSurface::new(0, "floor", Rect::new(0, 0, 100, 10))));
    assert!(tree.insert(ZSurface::new(1, "left", Rect::new(0, 0, 40, 10))));
    assert_eq!(
        vec![
            ZSurface::new(0, "floor", Rect::new(40, 0, 100, 10)),
            ZSurface::new(1, "left", Rect::new(0, 0, 40, 10)),
        ],
        Vec::<ZSurface>::from(tree)
    );
}
