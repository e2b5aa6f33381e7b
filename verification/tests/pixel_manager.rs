use pinenote_service::pixel_manager::{
    Application, ComputedHints, PixelManager, PixelManagerError, Window,
};
use pinenote_service::types::rect::Rect;
use pinenote_service::types::rockchip_ebc::{
    Hint, HintBitDepth as BitDepth, HintConvertMode, RectHint,
};

fn y4dither_redraw() -> Hint {
    Hint::new(BitDepth::Y4, HintConvertMode::Dither, true)
}

#[allow(dead_code)]
fn y4dither() -> Hint {
    Hint::new(BitDepth::Y4, HintConvertMode::Dither, false)
}

fn y2dither_redraw() -> Hint {
    Hint::new(BitDepth::Y4, HintConvertMode::Dither, true)
}

fn y2dither() -> Hint {
    Hint::new(BitDepth::Y4, HintConvertMode::Dither, false)
}

const SCREEN_RECT: Rect = Rect { x1: 0, y1: 0, x2: 1872, y2: 1404 };

fn setup_manager() -> PixelManager {
    PixelManager::new(y4dither_redraw(), SCREEN_RECT.clone())
}

#[test]
fn empty_sets_default() {
    let mut mgr = setup_manager();

    let expected = ComputedHints::with_hint(y4dither_redraw());

    assert_eq!(expected, mgr.compute_hints().unwrap());

    let expected = ComputedHints::with_hint(y2dither_redraw());

    mgr.default_hint = y2dither_redraw();

    assert_eq!(expected, mgr.compute_hints().unwrap());
}

#[test]
fn clip_window_to_screen() -> Result<(), PixelManagerError> {
    let mut mgr = setup_manager();

    let app = Application::new("testapp", 1234);
    let app_key = mgr.app_add(app);

    let win_rect = Rect::new(1000, 1000, 2000, 1600);
    let win_hint = y2dither();

    let win = Window::new(
        &app_key,
        "TestWindow",
        win_rect.clone(),
        Some(win_hint),
        true,
        0,
    );

    mgr.window_add(win)?;

    let expected = ComputedHints {
        default_hint: Some(mgr.default_hint),
        rect_hints: vec![RectHint {
            hint: win_hint,
            rect: Rect::new(1000, 1000, SCREEN_RECT.x2, SCREEN_RECT.y2),
        }],
    };

    assert_eq!(expected, mgr.compute_hints()?);

    Ok(())
}

#[test]
fn window_add_noapp_fails() -> Result<(), PixelManagerError> {
    let mut mgr = setup_manager();

    let win = Window::new(
        "test_app:1234",
        "test_win",
        Rect::new(100, 100, 200, 200),
        Some(y2dither()),
        true,
        0,
    );

    assert_eq!(
        Err(PixelManagerError::UnknownApp("test_app:1234".to_string())),
        mgr.window_add(win)
    );

    Ok(())
}

#[test]
fn one_window() -> Result<(), PixelManagerError> {
    let mut mgr = setup_manager();

    let win_rect = Rect::new(100, 100, 500, 600);
    let win_hint = y2dither();

    let expected = ComputedHints {
        default_hint: Some(mgr.default_hint),
        rect_hints: vec![RectHint {
            rect: win_rect.clone(),
            hint: win_hint,
        }],
    };

    let app = Application::new("testapp", 1234);
    let app_key = mgr.app_add(app);

    let win = Window::new(
        &app_key,
        "TestWindow",
        win_rect.clone(),
        Some(win_hint),
        true,
        0,
    );

    mgr.window_add(win)?;

    assert_eq!(expected, mgr.compute_hints()?);

    Ok(())
}

#[test]
fn hidden_window() -> Result<(), PixelManagerError> {
    let mut mgr = setup_manager();

    let win_rect = Rect::new(100, 100, 500, 600);
    let win_hint = y2dither();

    let expected = ComputedHints {
        default_hint: Some(mgr.default_hint),
        rect_hints: vec![],
    };

    let app = Application::new("testapp", 1234);
    let app_key = mgr.app_add(app);

    let win = Window::new(
        &app_key,
        "TestWindow",
        win_rect.clone(),
        Some(win_hint),
        false,
        0,
    );

    mgr.window_add(win)?;

    assert_eq!(expected, mgr.compute_hints()?);

    Ok(())
}

#[test]
fn app_hint_fallback() -> Result<(), PixelManagerError> {
    let mut mgr = setup_manager();

    let win_rect = Rect::new(100, 100, 500, 500);

    let app_hint = y2dither();

    let expected = ComputedHints {
        default_hint: Some(mgr.default_hint),
        rect_hints: vec![RectHint {
            rect: win_rect.clone(),
            hint: app_hint,
        }],
    };

    let app_key = mgr.app_add(Application::with_hint("testapp", 1234, Some(app_hint)));

    mgr.window_add(Window::new(
        &app_key,
        "TestWindow",
        win_rect.clone(),
        None,
        true,
        0,
    ))?;

    assert_eq!(expected, mgr.compute_hints()?);

    Ok(())
}

#[test]
fn global_hint_fallback() -> Result<(), PixelManagerError> {
    let mut mgr = setup_manager();

    let win_rect = Rect::new(100, 100, 500, 500);

    let expected = ComputedHints {
        default_hint: Some(y4dither_redraw()),
        rect_hints: vec![RectHint {
            rect: win_rect.clone(),
            hint: y4dither_redraw(),
        }],
    };

    let app_key = mgr.app_add(Application::new("testapp", 1234));

    mgr.window_add(Window::new(
        &app_key,
        "TestWindow",
        win_rect.clone(),
        None,
        true,
        0,
    ))?;

    assert_eq!(expected, mgr.compute_hints()?);

    Ok(())
}

#[test]
fn respect_z_indexing() -> Result<(), PixelManagerError> {
    let mut mgr = setup_manager();

    let app_key = mgr.app_add(Application::new("testapp", 1234));
    let rect_hint1 = RectHint {
        rect: Rect::new(100, 100, 500, 500),
        hint: y2dither(),
    };
    let window1 = Window::new(
        &app_key,
        "TestWindow1",
        rect_hint1.rect.clone(),
        Some(rect_hint1.hint),
        true,
        5,
    );
    mgr.window_add(window1)?;

    let rect_hint2 = RectHint {
        rect: Rect::new(100, 100, 600, 600),
        hint: y2dither_redraw(),
    };
    let app_key = mgr.app_add(Application::new("testapp", 1235));
    let window2 = Window::new(
        &app_key,
        "TestWindow2",
        rect_hint2.rect.clone(),
        Some(rect_hint2.hint),
        true,
        3,
    );
    mgr.window_add(window2)?;

    let rect_hint3 = RectHint {
        rect: Rect::new(0, 0, 400, 400),
        hint: y4dither(),
    };
    let app_key = mgr.app_add(Application::new("testapp", 1236));
    let window3 = Window::new(
        &app_key,
        "TestWindow3",
        rect_hint3.rect.clone(),
        Some(rect_hint3.hint),
        true,
        4,
    );
    mgr.window_add(window3)?;

    let expected = ComputedHints {
        default_hint: Some(mgr.default_hint),
        rect_hints: vec![rect_hint2, rect_hint3, rect_hint1],
    };

    assert_eq!(expected, mgr.compute_hints()?);

    Ok(())
}

#[test]
fn remove_hidden_window() -> Result<(), PixelManagerError> {
    let mut mgr = setup_manager();

    let app_key = mgr.app_add(Application::new("testapp", 1234));
    let rect_hint1 = RectHint {
        rect: Rect::new(100, 100, 500, 500),
        hint: y2dither(),
    };
    let window1 = Window::new(
        &app_key,
        "TestWindow1",
        rect_hint1.rect.clone(),
        Some(rect_hint1.hint),
        true,
        0,
    );
    mgr.window_add(window1)?;

    let rect_hint2 = RectHint {
        rect: Rect::new(100, 100, 600, 600),
        hint: y2dither_redraw(),
    };
    let app_key = mgr.app_add(Application::new("testapp", 1235));
    let window2 = Window::new(
        &app_key,
        "TestWindow2",
        rect_hint2.rect.clone(),
        Some(rect_hint2.hint),
        true,
        1,
    );
    mgr.window_add(window2)?;

    let expected = ComputedHints {
        default_hint: Some(mgr.default_hint),
        rect_hints: vec![rect_hint2],
    };

    assert_eq!(expected, mgr.compute_hints()?);

    Ok(())
}
