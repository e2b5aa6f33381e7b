use pinenote_service::pixel_manager::{
    Application, ComputedHints, PixelManager, PixelManagerError, Window, WindowData,
};
use pinenote_service::types::rect::Rect;
use pinenote_service::types::rockchip_ebc::{Hint, HintBitDepth, HintConvertMode, RectHint};

fn d0() -> Hint {
    Hint::new(HintBitDepth::Y4, HintConvertMode::Dither, true)
}

fn y2_dither() -> Hint {
    Hint::new(HintBitDepth::Y2, HintConvertMode::Dither, false)
}

fn y2_dither_redraw() -> Hint {
    Hint::new(HintBitDepth::Y2, HintConvertMode::Dither, true)
}

fn y4_dither() -> Hint {
    Hint::new(HintBitDepth::Y4, HintConvertMode::Dither, false)
}

fn manager() -> PixelManager {
    PixelManager::new(d0(), Rect::new(0, 0, 1872, 1404))
}

fn window(app_key: &str, area: Rect, hint: Option<Hint>, visible: bool, z: i32) -> Window {
    Window::new(app_key, "w", area, hint, visible, z)
}

#[test]
fn scenario_empty() {
    let mgr = manager();
    assert_eq!(
        ComputedHints { default_hint: Some(d0()), rect_hints: vec![] },
        mgr.compute_hints().unwrap()
    );
}

#[test]
fn scenario_single_on_screen() {
    let mut mgr = manager();
    let key = mgr.app_add(Application::new("", 1234));
    mgr.window_add(window(&key, Rect::new(100, 100, 500, 600), Some(y2_dither()), true, 0)).unwrap();
    assert_eq!(
        ComputedHints {
            default_hint: Some(d0()),
            rect_hints: vec![RectHint { rect: Rect::new(100, 100, 500, 600), hint: y2_dither() }],
        },
        mgr.compute_hints().unwrap()
    );
}

#[test]
fn scenario_window_past_the_screen_edge() {
    let mut mgr = manager();
    let key = mgr.app_add(Application::new("", 1234));
    mgr.window_add(window(&key, Rect::new(1000, 1000, 2000, 1600), Some(y2_dither()), true, 0))
        .unwrap();
    assert_eq!(
        vec![RectHint { rect: Rect::new(1000, 1000, 1872, 1404), hint: y2_dither() }],
        mgr.compute_hints().unwrap().rect_hints
    );
}

#[test]
fn scenario_occlusion() {
    let mut mgr = manager();
    let key = mgr.app_add(Application::new("", 1234));
    mgr.window_add(window(&key, Rect::new(100, 100, 500, 500), Some(y2_dither()), true, 5)).unwrap();
    mgr.window_add(window(&key, Rect::new(100, 100, 600, 600), Some(y2_dither_redraw()), true, 3))
        .unwrap();
    mgr.window_add(window(&key, Rect::new(0, 0, 400, 400), Some(y4_dither()), true, 4)).unwrap();
    assert_eq!(
        vec![
            RectHint { rect: Rect::new(100, 100, 600, 600), hint: y2_dither_redraw() },
            RectHint { rect: Rect::new(0, 0, 400, 400), hint: y4_dither() },
            RectHint { rect: Rect::new(100, 100, 500, 500), hint: y2_dither() },
        ],
        mgr.compute_hints().unwrap().rect_hints
    );
}

#[test]
fn scenario_hidden() {
    let mut mgr = manager();
    let key = mgr.app_add(Application::new("", 1234));
    mgr.window_add(window(&key, Rect::new(100, 100, 500, 500), Some(y2_dither()), true, 0)).unwrap();
    mgr.window_add(window(&key, Rect::new(100, 100, 600, 600), Some(y4_dither()), true, 1)).unwrap();
    assert_eq!(
        vec![RectHint { rect: Rect::new(100, 100, 600, 600), hint: y4_dither() }],
        mgr.compute_hints().unwrap().rect_hints
    );
}

#[test]
fn scenario_hint_fallback() {
    let mut mgr = manager();
    let key = mgr.app_add(Application::with_hint("", 1234, Some(y2_dither())));
    mgr.window_add(window(&key, Rect::new(100, 100, 500, 500), None, true, 0)).unwrap();
    assert_eq!(
        vec![RectHint { rect: Rect::new(100, 100, 500, 500), hint: y2_dither() }],
        mgr.compute_hints().unwrap().rect_hints
    );
}

#[test]
fn scenario_global_fallback() {
    let mut mgr = manager();
    let key = mgr.app_add(Application::new("", 1234));
    mgr.window_add(window(&key, Rect::new(100, 100, 500, 500), None, true, 0)).unwrap();
    assert_eq!(
        vec![RectHint { rect: Rect::new(100, 100, 500, 500), hint: d0() }],
        mgr.compute_hints().unwrap().rect_hints
    );
}

#[test]
fn application_key_is_id_colon_pid() {
    assert_eq!("testapp:1234", Application::new("testapp", 1234).key());
    assert_eq!(":7", Application::new("", 7).key());
    assert_eq!("a:b:0", Application::new("a:b", 0).key());
    assert_eq!("neg:-42", Application::new("neg", -42).key());
    assert_eq!("min:-2147483648", Application::new("min", i32::MIN).key());
    assert_eq!("max:2147483647", Application::new("max", i32::MAX).key());
    assert_eq!("ten:10", Application::new("ten", 10).key());
}

#[test]
fn app_add_twice_keeps_the_first() {
    let mut mgr = manager();
    let key = mgr.app_add(Application::with_hint("app", 1, Some(y2_dither())));
    let again = mgr.app_add(Application::with_hint("app", 1, Some(y4_dither())));
    assert_eq!(key, again);
    assert_eq!(Ok(Some(y2_dither())), mgr.app_hint(&key));
    assert_eq!(Some(y2_dither()), mgr.app(&key).unwrap().default_hint());
}

#[test]
fn app_remove_takes_its_windows_along() {
    let mut mgr = manager();
    let one = mgr.app_add(Application::new("one", 1));
    let two = mgr.app_add(Application::new("two", 2));
    let w1 = mgr.window_add(window(&one, Rect::new(0, 0, 10, 10), None, true, 0)).unwrap();
    let w2 = mgr.window_add(window(&two, Rect::new(20, 0, 30, 10), None, true, 0)).unwrap();
    let w3 = mgr.window_add(window(&one, Rect::new(40, 0, 50, 10), None, true, 0)).unwrap();
    mgr.app_remove(&one);
    assert_eq!(Err(PixelManagerError::UnknownApp(one.clone())), mgr.app_hint(&one));
    assert_eq!(Err(PixelManagerError::UnknownWindow(w1.clone())), mgr.window_hint(&w1));
    assert_eq!(Err(PixelManagerError::UnknownWindow(w3.clone())), mgr.window_hint(&w3));
    assert_eq!(Ok(None), mgr.window_hint(&w2));
    assert_eq!(1, mgr.compute_hints().unwrap().rect_hints.len());
    mgr.app_remove(&one);
    assert_eq!(Ok(None), mgr.app_hint(&two));
}

#[test]
fn app_hint_set_and_unset() {
    let mut mgr = manager();
    let key = mgr.app_add(Application::new("app", 1));
    assert_eq!(Ok(None), mgr.app_hint(&key));
    assert_eq!(Ok(()), mgr.app_set_hint(&key, y2_dither()));
    assert_eq!(Ok(Some(y2_dither())), mgr.app_hint(&key));
    assert_eq!(Ok(()), mgr.app_unset_hint(&key));
    assert_eq!(Ok(None), mgr.app_hint(&key));
    let missing = "nobody:0".to_string();
    assert_eq!(
        Err(PixelManagerError::UnknownApp(missing.clone())),
        mgr.app_set_hint(&missing, y2_dither())
    );
    assert_eq!(Err(PixelManagerError::UnknownApp(missing.clone())), mgr.app_unset_hint(&missing));
    assert!(mgr.app(&missing).is_err());
}

#[test]
fn window_add_gives_fresh_identifiers() {
    let mut mgr = manager();
    let key = mgr.app_add(Application::new("app", 1));
    let a = mgr.window_add(window(&key, Rect::new(0, 0, 10, 10), None, true, 0)).unwrap();
    let b = mgr.window_add(window(&key, Rect::new(0, 0, 10, 10), None, true, 0)).unwrap();
    assert_ne!(a, b);
    assert_eq!(36, a.len());
    assert_eq!(a, *mgr.window(&a).unwrap().uid());
    assert_eq!(key, *mgr.window(&b).unwrap().app_key());
}

#[test]
fn window_with_a_taken_identifier_is_not_added_again() {
    let mut mgr = manager();
    let key = mgr.app_add(Application::new("app", 1));
    let first = Window::with_uid("w-1".to_string(), &key, "first", Rect::new(0, 0, 10, 10), None, true, 0);
    let second =
        Window::with_uid("w-1".to_string(), &key, "second", Rect::new(50, 50, 60, 60), None, true, 1);
    assert_eq!(Ok("w-1".to_string()), mgr.window_add(first));
    assert_eq!(Ok("w-1".to_string()), mgr.window_add(second));
    assert_eq!("first", mgr.window(&"w-1".to_string()).unwrap().data().title);
    assert_eq!(
        vec![RectHint { rect: Rect::new(0, 0, 10, 10), hint: d0() }],
        mgr.compute_hints().unwrap().rect_hints
    );
}

#[test]
fn window_remove_is_idempotent() {
    let mut mgr = manager();
    let key = mgr.app_add(Application::new("app", 1));
    let a = mgr.window_add(window(&key, Rect::new(0, 0, 10, 10), None, true, 0)).unwrap();
    let b = mgr.window_add(window(&key, Rect::new(20, 0, 30, 10), None, true, 0)).unwrap();
    mgr.window_remove(a.clone());
    mgr.window_remove(a.clone());
    mgr.window_remove("never".to_string());
    assert!(mgr.window(&a).is_err());
    assert!(mgr.window(&b).is_ok());
    assert_eq!(
        vec![RectHint { rect: Rect::new(20, 0, 30, 10), hint: d0() }],
        mgr.compute_hints().unwrap().rect_hints
    );
    mgr.app_remove(&key);
    assert!(mgr.window(&b).is_err());
}

#[test]
fn window_update_replaces_the_data() {
    let mut mgr = manager();
    let key = mgr.app_add(Application::new("app", 1));
    let a = mgr.window_add(window(&key, Rect::new(0, 0, 10, 10), None, true, 0)).unwrap();
    let data = WindowData {
        title: "moved".to_string(),
        area: Rect::new(5, 5, 25, 25),
        hint: Some(y4_dither()),
        visible: true,
        z_index: 9,
    };
    assert_eq!(Ok(()), mgr.window_update(&a, data.clone()));
    assert_eq!("moved", mgr.window(&a).unwrap().data().title);
    assert_eq!(
        vec![RectHint { rect: Rect::new(5, 5, 25, 25), hint: y4_dither() }],
        mgr.compute_hints().unwrap().rect_hints
    );
    let missing = "missing".to_string();
    assert_eq!(
        Err(PixelManagerError::UnknownWindow(missing.clone())),
        mgr.window_update(&missing, data)
    );
}

#[test]
fn window_hint_chain() {
    let mut mgr = manager();
    let key = mgr.app_add(Application::new("app", 1));
    let a = mgr.window_add(window(&key, Rect::new(0, 0, 10, 10), None, true, 0)).unwrap();
    assert_eq!(Ok(d0()), mgr.window_hint_fallback(&a));
    mgr.app_set_hint(&key, y2_dither()).unwrap();
    assert_eq!(Ok(y2_dither()), mgr.window_hint_fallback(&a));
    mgr.window_set_hint(&a, y4_dither()).unwrap();
    assert_eq!(Ok(Some(y4_dither())), mgr.window_hint(&a));
    assert_eq!(Ok(y4_dither()), mgr.window_hint_fallback(&a));
    mgr.window_unset_hint(&a).unwrap();
    assert_eq!(Ok(y2_dither()), mgr.window_hint_fallback(&a));
    mgr.app_unset_hint(&key).unwrap();
    mgr.set_default_hint(y2_dither_redraw());
    assert_eq!(y2_dither_redraw(), mgr.default_hint());
    assert_eq!(Ok(y2_dither_redraw()), mgr.window_hint_fallback(&a));
    let missing = "missing".to_string();
    assert_eq!(
        Err(PixelManagerError::UnknownWindow(missing.clone())),
        mgr.window_hint_fallback(&missing)
    );
    assert_eq!(
        Err(PixelManagerError::UnknownWindow(missing.clone())),
        mgr.window_set_hint(&missing, d0())
    );
    assert_eq!(
        Err(PixelManagerError::UnknownWindow(missing.clone())),
        mgr.window_unset_hint(&missing)
    );
}

#[test]
fn error_messages() {
    assert_eq!(
        "No application with key 'a:1' found.",
        PixelManagerError::UnknownApp("a:1".to_string()).message()
    );
    assert_eq!(
        "No window with uid 'w' found",
        PixelManagerError::UnknownWindow("w".to_string()).message()
    );
}

#[test]
fn never_more_hints_than_windows_on_screen() {
    let mut mgr = manager();
    let key = mgr.app_add(Application::new("app", 1));
    let screen = mgr.screen_area();
    let areas = [
        Rect::new(0, 0, 100, 100),
        Rect::new(50, 50, 150, 150),
        Rect::new(-20, -20, 10, 10),
        Rect::new(1800, 1300, 3000, 3000),
        Rect::new(2000, 2000, 2100, 2100),
        Rect::new(0, 0, 1872, 1404),
        Rect::new(10, 10, 20, 20),
    ];
    let mut on_screen = 0;
    for (i, area) in areas.iter().enumerate() {
        let visible = i != 6;
        if visible && area.intersect(&screen) {
            on_screen += 1;
        }
        mgr.window_add(window(&key, *area, None, visible, i as i32)).unwrap();
        let hints = mgr.compute_hints().unwrap();
        assert_eq!(Some(d0()), hints.default_hint);
        assert!(hints.rect_hints.len() <= on_screen);
        for h in &hints.rect_hints {
            assert!(screen.cover(&h.rect));
        }
    }
    assert_eq!(
        vec![RectHint { rect: Rect::new(0, 0, 1872, 1404), hint: d0() }],
        mgr.compute_hints().unwrap().rect_hints
    );
}

#[test]
fn no_visible_window_gives_no_rectangle() {
    let mut mgr = manager();
    let key = mgr.app_add(Application::new("app", 1));
    mgr.window_add(window(&key, Rect::new(0, 0, 100, 100), Some(y2_dither()), false, 0)).unwrap();
    mgr.window_add(window(&key, Rect::new(50, 50, 150, 150), None, false, 1)).unwrap();
    assert_eq!(ComputedHints::with_hint(d0()), mgr.compute_hints().unwrap());
    assert_eq!(ComputedHints { default_hint: None, rect_hints: vec![] }, ComputedHints::new());
    assert_eq!(ComputedHints::new(), ComputedHints::default());
}

#[test]
fn window_surface_is_cut_to_the_screen() {
    let screen = Rect::new(0, 0, 100, 100);
    let w = Window::with_uid("u".to_string(), "a:1", "t", Rect::new(50, 50, 150, 150), None, true, 3);
    let s = w.zsurface(&screen).unwrap();
    assert_eq!(3, s.z_index);
    assert_eq!("u", s.reference);
    assert_eq!(Rect::new(50, 50, 100, 100), s.area);
    let hidden =
        Window::with_uid("u".to_string(), "a:1", "t", Rect::new(50, 50, 150, 150), None, false, 3);
    assert_eq!(None, hidden.zsurface(&screen));
    let off = Window::with_uid("u".to_string(), "a:1", "t", Rect::new(100, 0, 150, 150), None, true, 3);
    assert_eq!(None, off.zsurface(&screen));
    let mut w = w;
    w.update(WindowData {
        title: "n".to_string(),
        area: Rect::new(0, 0, 1, 1),
        hint: None,
        visible: true,
        z_index: -1,
    });
    assert_eq!(Rect::new(0, 0, 1, 1), w.zsurface(&screen).unwrap().area);
}

#[test]
fn changes_through_mutable_references_stay() {
    let mut mgr = manager();
    let key = mgr.app_add(Application::new("app", 1));
    let a = mgr.window_add(window(&key, Rect::new(0, 0, 10, 10), None, true, 0)).unwrap();
    mgr.window_mut(&a).unwrap().data.area = Rect::new(1, 1, 9, 9);
    assert_eq!(Rect::new(1, 1, 9, 9), mgr.window(&a).unwrap().data().area);
    assert!(mgr.app_mut(&key).is_ok());
    let missing = "missing".to_string();
    assert_eq!(
        Some(PixelManagerError::UnknownWindow(missing.clone())),
        mgr.window_mut(&missing).err()
    );
    assert_eq!(Some(PixelManagerError::UnknownApp(missing.clone())), mgr.app_mut(&missing).err());
}
