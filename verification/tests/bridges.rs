use pinenote_service::bridge::quill_niri::{
    arrange, on_screen, select_windows, setting_to_hint, sort_by_x, windows_changed,
    windows_on_screen, NiriWindows, OurWindowGeometry, RenderSetting, WindowInfo,
};
use pinenote_service::bridge::sway::{
    from_xywh, mark_hint, marks_hint, stack_floating, NodeInfo, SwayWindow, SwayWindowError,
};
use pinenote_service::sysfs::attribute::{AttributeBase, Boolean, Error};
use pinenote_service::text::{nth_piece, starts_with};
use pinenote_service::types::rect::Rect;
use pinenote_service::types::rockchip_ebc::{Hint, HintBitDepth, HintConvertMode};

fn geometry(id: u64, x: i32, y: i32, width: i32, height: i32) -> OurWindowGeometry {
    OurWindowGeometry { id, x, y, width, height }
}

#[test]
fn window_is_cut_to_the_screen() {
    assert_eq!(Some(geometry(1, 0, 0, 90, 40)), on_screen(geometry(1, -10, -10, 100, 50), 1872, 1404));
    assert_eq!(
        Some(geometry(2, 1800, 1400, 72, 4).x),
        on_screen(geometry(2, 1800, 1000, 500, 500), 1872, 1404).map(|g| g.x)
    );
    assert_eq!(
        Some(geometry(2, 1800, 1000, 72, 404)),
        on_screen(geometry(2, 1800, 1000, 500, 500), 1872, 1404)
    );
    assert_eq!(Some(geometry(3, 5, 5, 10, 10)), on_screen(geometry(3, 5, 5, 10, 10), 1872, 1404));
}

#[test]
fn small_or_distant_windows_do_not_count() {
    assert_eq!(None, on_screen(geometry(1, 5, 5, 9, 100), 1872, 1404));
    assert_eq!(None, on_screen(geometry(1, 5, 5, 100, 9), 1872, 1404));
    assert_eq!(None, on_screen(geometry(1, 1863, 0, 100, 100), 1872, 1404));
    assert_eq!(None, on_screen(geometry(1, 2000, 0, 100, 100), 1872, 1404));
    assert_eq!(None, on_screen(geometry(1, -100, 0, 100, 100), 1872, 1404));
    assert_eq!(None, on_screen(geometry(1, 0, 0, -5, 100), 1872, 1404));
    assert_eq!(
        Some(geometry(1, i32::MAX - 20, 0, 20, 20)),
        on_screen(geometry(1, i32::MAX - 20, 0, i32::MAX, 20), i32::MAX, 100)
    );
}

#[test]
fn list_of_windows_on_screen() {
    let mut windows = vec![
        geometry(1, -10, 0, 100, 100),
        geometry(2, 0, 0, 5, 5),
        geometry(3, 1862, 1394, 100, 100),
        geometry(4, 1863, 0, 100, 100),
    ];
    windows_on_screen(&mut windows, 1872, 1404);
    assert_eq!(vec![geometry(1, 0, 0, 90, 100), geometry(3, 1862, 1394, 10, 10)], windows);
}

#[test]
fn settings_give_hints() {
    assert_eq!(
        Hint::new(HintBitDepth::Y1, HintConvertMode::Threshold, false),
        setting_to_hint(RenderSetting::Y1 { dithering: false })
    );
    assert_eq!(
        Hint::new(HintBitDepth::Y1, HintConvertMode::Dither, false),
        setting_to_hint(RenderSetting::Y1 { dithering: true })
    );
    assert_eq!(
        Hint::new(HintBitDepth::Y2, HintConvertMode::Dither, true),
        setting_to_hint(RenderSetting::Y2 { dithering: true, fast_drawing: true })
    );
    assert_eq!(
        Hint::new(HintBitDepth::Y2, HintConvertMode::Threshold, false),
        setting_to_hint(RenderSetting::Y2 { dithering: false, fast_drawing: false })
    );
    assert_eq!(
        Hint::new(HintBitDepth::Y4, HintConvertMode::Threshold, true),
        setting_to_hint(RenderSetting::Y4 { fast_drawing: true })
    );
    assert_eq!(
        Hint::new(HintBitDepth::Y1, HintConvertMode::Dither, false),
        setting_to_hint(RenderSetting::Fast)
    );
}

fn node() -> NodeInfo {
    NodeInfo {
        id: 7,
        has_shell: true,
        visible: Some(true),
        pid: Some(42),
        x: 10,
        y: 30,
        width: 100,
        height: 50,
        deco_height: 20,
        floating: false,
        border_normal: true,
        name: Some("term".to_string()),
        marks: vec![],
        fullscreen_mode: Some(0),
    }
}

fn sway_window() -> SwayWindow {
    SwayWindow::try_from_node(&node()).unwrap()
}

#[test]
fn node_becomes_a_window() {
    let w = sway_window();
    assert_eq!(7, w.id);
    assert_eq!(42, w.pid);
    assert_eq!("term", w.title);
    assert_eq!(Rect::new(10, 30, 110, 80), w.area);
    assert!(w.visible);
    assert!(!w.floating);
    assert!(!w.fullscreen);
    assert_eq!(None, w.hint);
    assert_eq!(0, w.z_index);
}

#[test]
fn floating_window_is_taken_with_its_title_bar() {
    let w = SwayWindow::try_from_node(&NodeInfo { floating: true, ..node() }).unwrap();
    assert_eq!(Rect::new(10, 10, 110, 80), w.area);
    assert!(w.floating);
    let w = SwayWindow::try_from_node(&NodeInfo { floating: true, border_normal: false, ..node() })
        .unwrap();
    assert_eq!(Rect::new(10, 30, 110, 80), w.area);
}

#[test]
fn node_defaults() {
    let w = SwayWindow::try_from_node(&NodeInfo {
        name: None,
        fullscreen_mode: None,
        visible: Some(false),
        ..node()
    })
    .unwrap();
    assert_eq!("NO_TITLE", w.title);
    assert!(!w.fullscreen);
    assert!(!w.visible);
    let w = SwayWindow::try_from_node(&NodeInfo { fullscreen_mode: Some(1), ..node() }).unwrap();
    assert!(w.fullscreen);
}

#[test]
fn nodes_that_are_no_windows() {
    assert_eq!(
        Some(SwayWindowError),
        SwayWindow::try_from_node(&NodeInfo { has_shell: false, ..node() }).err()
    );
    assert!(SwayWindow::try_from_node(&NodeInfo { visible: None, ..node() }).is_err());
    assert!(SwayWindow::try_from_node(&NodeInfo { pid: None, ..node() }).is_err());
    assert!(SwayWindow::try_from_node(&NodeInfo { x: i32::MAX, ..node() }).is_err());
    assert!(SwayWindow::try_from_node(&NodeInfo {
        floating: true,
        y: i32::MIN,
        ..node()
    })
    .is_err());
    assert!(SwayWindow::try_from_node(&NodeInfo {
        floating: true,
        height: i32::MAX,
        ..node()
    })
    .is_err());
}

#[test]
fn rectangle_from_corner_and_size() {
    assert_eq!(Some(Rect::new(1, 2, 4, 6)), from_xywh(1, 2, 3, 4));
    assert_eq!(Some(Rect::new(1, 2, -2, 1)), from_xywh(1, 2, -3, -1));
    assert_eq!(None, from_xywh(i32::MAX, 0, 1, 1));
    assert_eq!(None, from_xywh(0, i32::MIN, 1, -1));
}

#[test]
fn marks_give_hints() {
    let y4 = Hint::new(HintBitDepth::Y4, HintConvertMode::Dither, true);
    assert_eq!(Some(y4), mark_hint("ebchint:x:Y4|D|R"));
    assert_eq!(Some(y4), mark_hint("_ebchint::Y4|D|R"));
    assert_eq!(Some(y4), mark_hint("ebchint:a:Y4|D|R:more"));
    assert_eq!(None, mark_hint("ebchint:Y4|D|R"));
    assert_eq!(None, mark_hint("hint:x:Y4|D|R"));
    assert_eq!(None, mark_hint("ebchint:x:Y9"));
    assert_eq!(None, mark_hint(""));
    let marks = vec![
        "other".to_string(),
        "ebchint:x:nothing".to_string(),
        "_ebchint:x:Y2".to_string(),
        "ebchint:x:Y4|D|R".to_string(),
    ];
    assert_eq!(
        Some(Hint::new(HintBitDepth::Y2, HintConvertMode::Threshold, false)),
        marks_hint(&marks)
    );
    assert_eq!(None, marks_hint(&vec![]));
    let node = NodeInfo { marks, ..node() };
    assert_eq!(
        Some(Hint::new(HintBitDepth::Y2, HintConvertMode::Threshold, false)),
        SwayWindow::try_from_node(&node).unwrap().hint
    );
}

#[test]
fn pieces_and_prefixes() {
    assert_eq!(Some("a"), nth_piece("a:b:c", ':', 0));
    assert_eq!(Some("b"), nth_piece("a:b:c", ':', 1));
    assert_eq!(Some("c"), nth_piece("a:b:c", ':', 2));
    assert_eq!(None, nth_piece("a:b:c", ':', 3));
    assert_eq!(Some(""), nth_piece("", ':', 0));
    assert_eq!(None, nth_piece("", ':', 1));
    assert_eq!(Some(""), nth_piece("a::c", ':', 1));
    assert_eq!(Some(""), nth_piece("a:", ':', 1));
    assert_eq!(Some("é"), nth_piece("ü:é", ':', 1));
    assert!(starts_with("ebchint:x", "ebchint:"));
    assert!(starts_with("abc", ""));
    assert!(starts_with("abc", "abc"));
    assert!(!starts_with("ab", "abc"));
    assert!(!starts_with("abd", "abc"));
}

#[test]
fn alike_windows_need_no_update() {
    let a = sway_window();
    let b = sway_window();
    assert!(a.same(&b));
    assert!(a.diff(&b).is_none());
}

#[test]
fn diff_names_what_changed() {
    let a = sway_window();
    let mut b = sway_window();
    b.title = "other".to_string();
    b.z_index = 3;
    let update = a.diff(&b).unwrap();
    assert_eq!(Some("other".to_string()), update.title);
    assert_eq!(None, update.area);
    assert_eq!(None, update.hint);
    assert_eq!(None, update.visible);
    assert_eq!(Some(3), update.z_index);
    let mut c = sway_window();
    c.area = Rect::new(0, 0, 1, 1);
    c.visible = false;
    c.hint = Some(Hint::new(HintBitDepth::Y1, HintConvertMode::Dither, false));
    let update = a.diff(&c).unwrap();
    assert_eq!(None, update.title);
    assert_eq!(Some(Rect::new(0, 0, 1, 1)), update.area);
    assert_eq!(Some(Some(Hint::new(HintBitDepth::Y1, HintConvertMode::Dither, false))), update.hint);
    assert_eq!(Some(false), update.visible);
    assert_eq!(None, update.z_index);
    let update = c.diff(&a).unwrap();
    assert_eq!(Some(None), update.hint);
}

#[test]
fn diff_of_windows_that_differ_elsewhere_is_empty() {
    let a = sway_window();
    let mut b = sway_window();
    b.fullscreen = true;
    assert!(!a.same(&b));
    let update = a.diff(&b).unwrap();
    assert!(update.title.is_none());
    assert!(update.area.is_none());
    assert!(update.hint.is_none());
    assert!(update.visible.is_none());
    assert!(update.z_index.is_none());
}

#[test]
fn floating_windows_are_stacked_in_order() {
    let mut windows = vec![sway_window(), sway_window(), sway_window(), sway_window()];
    windows[0].floating = true;
    windows[2].floating = true;
    windows[3].floating = true;
    windows[1].z_index = 0;
    stack_floating(&mut windows);
    let z: Vec<i32> = windows.iter().map(|w| w.z_index).collect();
    assert_eq!(vec![1, 0, 2, 3], z);
}

#[test]
fn on_off_parameter() {
    assert_eq!(Ok(true), Boolean::decode("Y\n"));
    assert_eq!(Ok(true), Boolean::decode(" 1 "));
    assert_eq!(Ok(false), Boolean::decode("N"));
    assert_eq!(Ok(false), Boolean::decode("\t0\n"));
    assert_eq!(Err(Error::ConvError), Boolean::decode(""));
    assert_eq!(Err(Error::ConvError), Boolean::decode("2"));
    assert_eq!(Err(Error::ConvError), Boolean::decode("YN"));
    assert_eq!(Err(Error::ConvError), Boolean::decode("y"));
    assert_eq!(Err(Error::ConvError), Boolean::decode_trimmed("Y\n"));
    assert_eq!(Ok(true), Boolean::decode_trimmed("Y"));
    assert_eq!("1", Boolean::encode(true));
    assert_eq!("0", Boolean::encode(false));
    assert_eq!("/sys/x", Boolean::from_path("/sys/x".to_string()).path());
}

fn info(id: u64, app_id: Option<&str>, workspace: Option<u64>, focused: bool) -> WindowInfo {
    WindowInfo {
        id,
        app_id: app_id.map(|a| a.to_string()),
        title: if id % 2 == 0 { Some(format!("w{id}")) } else { None },
        workspace_id: workspace,
        is_focused: focused,
    }
}

#[test]
fn windows_with_settings_on_the_focused_workspace_are_selected() {
    let windows = vec![
        info(1, Some("reader"), Some(3), false),
        info(2, Some("term"), Some(3), true),
        info(3, Some("term"), Some(4), false),
        info(4, None, Some(3), false),
        info(5, Some("other"), Some(3), false),
        info(6, Some("term"), None, false),
        info(8, Some("reader"), Some(3), false),
    ];
    let settings = vec!["term".to_string(), "reader".to_string(), "term".to_string()];
    let geometries = vec![
        geometry(2, 200, 0, 100, 100),
        geometry(1, 500, 0, 100, 100),
        geometry(3, 0, 0, 100, 100),
        geometry(5, 0, 0, 100, 100),
        geometry(2, 300, 0, 50, 50),
    ];
    let picked = select_windows(&windows, &settings, 3, &geometries);
    let summary: Vec<(String, String, bool, usize, i32)> = picked
        .iter()
        .map(|w| (w.app_id.clone(), w.title.clone(), w.focused, w.setting, w.geometry.x))
        .collect();
    assert_eq!(
        vec![
            ("reader".to_string(), "".to_string(), false, 1, 500),
            ("term".to_string(), "w2".to_string(), true, 0, 200),
            ("term".to_string(), "w2".to_string(), true, 0, 300),
            ("term".to_string(), "w2".to_string(), true, 2, 200),
            ("term".to_string(), "w2".to_string(), true, 2, 300),
        ],
        summary
    );
}

fn placed(app_id: &str, x: i32, width: i32) -> NiriWindows {
    NiriWindows {
        app_id: app_id.to_string(),
        title: String::new(),
        focused: false,
        setting: 0,
        geometry: geometry(1, x, 0, width, 100),
    }
}

#[test]
fn sorting_is_from_left_to_right_and_stable() {
    let sorted = sort_by_x(vec![
        placed("c", 30, 50),
        placed("a1", 10, 50),
        placed("d", 40, 50),
        placed("a2", 10, 50),
        placed("z", -5, 50),
        placed("a3", 10, 50),
    ]);
    let names: Vec<&str> = sorted.iter().map(|w| w.app_id.as_str()).collect();
    assert_eq!(vec!["z", "a1", "a2", "a3", "c", "d"], names);
    assert!(sort_by_x(vec![]).is_empty());
}

#[test]
fn arranged_windows_are_sorted_and_cut_to_the_screen() {
    let arranged = arrange(
        vec![placed("right", 1800, 500), placed("tiny", 100, 5), placed("left", -20, 100)],
        1872,
        1404,
    );
    let summary: Vec<(&str, i32, i32)> =
        arranged.iter().map(|w| (w.app_id.as_str(), w.geometry.x, w.geometry.width)).collect();
    assert_eq!(vec![("left", 0, 80), ("right", 1800, 72)], summary);
}

#[test]
fn change_is_noticed() {
    let a = vec![placed("a", 0, 50), placed("b", 60, 50)];
    let same = vec![placed("a", 0, 50), placed("b", 60, 50)];
    assert!(!windows_changed(&a, &same));
    assert!(!windows_changed(&vec![], &vec![]));
    assert!(windows_changed(&a, &vec![placed("a", 0, 50)]));
    assert!(windows_changed(&a, &vec![placed("a", 0, 50), placed("b", 61, 50)]));
    assert!(windows_changed(&a, &vec![placed("a", 0, 50), placed("c", 60, 50)]));
    let mut focused = vec![placed("a", 0, 50), placed("b", 60, 50)];
    focused[1].focused = true;
    assert!(windows_changed(&a, &focused));
    assert!(!windows_changed(&a, &a.clone()));
}
