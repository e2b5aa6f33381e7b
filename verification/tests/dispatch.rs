use pinenote_service::bridge::active_bridge_name;
use pinenote_service::ebc::command::{
    parse_hint, validate_pid, validate_rect, Application, Command, CommandStr, InvalidArgs,
    Property, Window, WindowUpdate,
};
use pinenote_service::ebc::ctl::{Ctl, DispatchError, Reply};
use pinenote_service::ebc::offscreen::{needs_resize, orientation_for, to_y4, Orientation};
use pinenote_service::pixel_manager::ComputedHints;
use pinenote_service::types::rect::Rect;
use pinenote_service::types::rockchip_ebc::{Hint, HintBitDepth, HintConvertMode, RectHint};

fn d0() -> Hint {
    Hint::new(HintBitDepth::Y4, HintConvertMode::Dither, true)
}

fn y2() -> Hint {
    Hint::new(HintBitDepth::Y2, HintConvertMode::Dither, false)
}

fn ctl() -> Ctl {
    Ctl::new(d0(), Rect::new(0, 0, 1872, 1404))
}

fn add_app(ctl: &mut Ctl, pid: i32) -> String {
    match ctl.dispatch(Command::Application(Application::Add(pid))).reply {
        Ok(Reply::Key(key)) => key,
        other => panic!("no key: {:?}", other),
    }
}

fn add_window(area: Rect, hint: Option<Hint>, z_index: i32, app_key: &str) -> Command {
    Command::Window(Window::Add {
        app_key: app_key.to_string(),
        title: "t".to_string(),
        area,
        hint,
        visible: true,
        z_index,
    })
}

#[test]
fn adding_an_application_replies_its_key_without_upload() {
    let mut ctl = ctl();
    let out = ctl.dispatch(Command::Application(Application::Add(1234)));
    assert_eq!(Ok(Reply::Key(":1234".to_string())), out.reply);
    assert!(out.upload.is_none());
    let out = ctl.dispatch(Application::Add(1234).into());
    assert_eq!(Ok(Reply::Key(":1234".to_string())), out.reply);
}

#[test]
fn negative_pid_is_refused() {
    let mut ctl = ctl();
    let out = ctl.dispatch(Command::Application(Application::Add(-1)));
    assert_eq!(Err(DispatchError::InvalidArgs), out.reply);
    assert!(out.upload.is_none());
    assert!(ctl.pixel_manager().app(&":-1".to_string()).is_err());
}

#[test]
fn adding_a_window_replies_its_identifier_and_uploads() {
    let mut ctl = ctl();
    let key = add_app(&mut ctl, 1);
    let out = ctl.dispatch(add_window(Rect::new(100, 100, 500, 600), Some(y2()), 0, &key));
    let uid = match out.reply {
        Ok(Reply::Key(uid)) => uid,
        other => panic!("no identifier: {:?}", other),
    };
    assert!(ctl.pixel_manager().window(&uid).is_ok());
    assert_eq!(
        Some(ComputedHints {
            default_hint: Some(d0()),
            rect_hints: vec![RectHint { rect: Rect::new(100, 100, 500, 600), hint: y2() }],
        }),
        out.upload
    );
    let second = ctl.dispatch(add_window(Rect::new(0, 0, 50, 50), None, 1, &key));
    match second.reply {
        Ok(Reply::Key(other)) => assert_ne!(uid, other),
        other => panic!("no identifier: {:?}", other),
    }
    assert_eq!(2, second.upload.unwrap().rect_hints.len());
}

#[test]
fn apply_uses_the_identifier_it_is_given() {
    let mut ctl = ctl();
    let key = add_app(&mut ctl, 1);
    let out = ctl.apply(add_window(Rect::new(0, 0, 5, 5), None, 0, &key), "chosen".to_string());
    assert_eq!(Ok(Reply::Key("chosen".to_string())), out.reply);
    assert!(ctl.pixel_manager().window(&"chosen".to_string()).is_ok());
}

#[test]
fn bad_rectangles_are_refused() {
    let mut ctl = ctl();
    let key = add_app(&mut ctl, 1);
    for area in [
        Rect::new(-1, 0, 10, 10),
        Rect::new(0, -1, 10, 10),
        Rect::new(10, 0, 5, 10),
        Rect::new(0, 10, 10, 5),
    ] {
        let out = ctl.dispatch(add_window(area, None, 0, &key));
        assert_eq!(Err(DispatchError::InvalidArgs), out.reply);
        assert!(out.upload.is_none());
    }
    let ok = ctl.dispatch(add_window(Rect::new(0, 0, 0, 0), None, 0, &key));
    assert!(ok.reply.is_ok());
    assert_eq!(Some(ComputedHints::with_hint(d0())), ok.upload);
}

#[test]
fn window_for_an_unknown_application_is_refused() {
    let mut ctl = ctl();
    let out = ctl.dispatch(add_window(Rect::new(0, 0, 10, 10), None, 0, "nobody:1"));
    assert_eq!(Err(DispatchError::UnknownApp("nobody:1".to_string())), out.reply);
    assert!(out.upload.is_none());
}

#[test]
fn update_replaces_only_what_it_names() {
    let mut ctl = ctl();
    let key = add_app(&mut ctl, 1);
    ctl.apply(add_window(Rect::new(0, 0, 10, 10), Some(y2()), 0, &key), "w".to_string());
    let update = WindowUpdate { area: Some(Rect::new(5, 5, 15, 15)), ..Default::default() };
    let out =
        ctl.dispatch(Command::Window(Window::Update { win_key: "w".to_string(), update }));
    assert_eq!(Ok(Reply::Done), out.reply);
    assert_eq!(
        vec![RectHint { rect: Rect::new(5, 5, 15, 15), hint: y2() }],
        out.upload.unwrap().rect_hints
    );
    let update = WindowUpdate { hint: Some(None), ..Default::default() };
    let out =
        ctl.dispatch(Command::Window(Window::Update { win_key: "w".to_string(), update }));
    assert_eq!(
        vec![RectHint { rect: Rect::new(5, 5, 15, 15), hint: d0() }],
        out.upload.unwrap().rect_hints
    );
    let update = WindowUpdate {
        title: Some("new".to_string()),
        visible: Some(false),
        z_index: Some(4),
        ..Default::default()
    };
    let out =
        ctl.dispatch(Command::Window(Window::Update { win_key: "w".to_string(), update }));
    assert_eq!(Some(ComputedHints::with_hint(d0())), out.upload);
    let data = ctl.pixel_manager().window(&"w".to_string()).unwrap().data().clone();
    assert_eq!("new", data.title);
    assert_eq!(Rect::new(5, 5, 15, 15), data.area);
    assert_eq!(None, data.hint);
    assert!(!data.visible);
    assert_eq!(4, data.z_index);
}

#[test]
fn update_refusals() {
    let mut ctl = ctl();
    let update = WindowUpdate::default();
    let out =
        ctl.dispatch(Command::Window(Window::Update { win_key: "gone".to_string(), update }));
    assert_eq!(Err(DispatchError::UnknownWindow("gone".to_string())), out.reply);
    assert!(out.upload.is_none());
    let key = add_app(&mut ctl, 1);
    ctl.apply(add_window(Rect::new(0, 0, 10, 10), None, 0, &key), "w".to_string());
    let update = WindowUpdate { area: Some(Rect::new(3, 3, 2, 2)), ..Default::default() };
    let out =
        ctl.dispatch(Command::Window(Window::Update { win_key: "w".to_string(), update }));
    assert_eq!(Err(DispatchError::InvalidArgs), out.reply);
    assert!(out.upload.is_none());
    assert_eq!(
        Rect::new(0, 0, 10, 10),
        ctl.pixel_manager().window(&"w".to_string()).unwrap().data().area
    );
}

#[test]
fn removals_upload() {
    let mut ctl = ctl();
    let key = add_app(&mut ctl, 1);
    ctl.apply(add_window(Rect::new(0, 0, 10, 10), None, 0, &key), "a".to_string());
    ctl.apply(add_window(Rect::new(20, 0, 30, 10), None, 0, &key), "b".to_string());
    let out = ctl.dispatch(Command::Window(Window::Remove("a".to_string())));
    assert_eq!(Ok(Reply::Done), out.reply);
    assert_eq!(1, out.upload.unwrap().rect_hints.len());
    let out = ctl.dispatch(Window::Remove("a".to_string()).into());
    assert_eq!(1, out.upload.unwrap().rect_hints.len());
    let out = ctl.dispatch(Command::Application(Application::Remove(key.clone())));
    assert_eq!(Ok(Reply::Done), out.reply);
    assert_eq!(Some(ComputedHints::with_hint(d0())), out.upload);
    assert!(ctl.pixel_manager().window(&"b".to_string()).is_err());
}

#[test]
fn default_hint_property() {
    let mut ctl = ctl();
    let out = ctl.dispatch(Command::Property(Property::DefaultHint));
    assert_eq!(Ok(Reply::DefaultHint(d0())), out.reply);
    assert!(out.upload.is_none());
    let out = ctl.dispatch(Property::SetDefaultHint(y2()).into());
    assert_eq!(Ok(Reply::Done), out.reply);
    assert_eq!(Some(ComputedHints::with_hint(y2())), out.upload);
    let out = ctl.dispatch(Command::Property(Property::DefaultHint));
    assert_eq!(Ok(Reply::DefaultHint(y2())), out.reply);
    let out = ctl.dispatch(Command::Recompute);
    assert_eq!(Ok(Reply::Done), out.reply);
    assert_eq!(Some(ComputedHints::with_hint(y2())), out.upload);
}

#[test]
fn command_names() {
    assert_eq!("Window::Add(12)", Command::Application(Application::Add(12)).get_command_str());
    assert_eq!(
        "Window::Remove(k:1)",
        Command::Application(Application::Remove("k:1".to_string())).get_command_str()
    );
    assert_eq!("Add(-3)", Application::Add(-3).get_command_str());
    assert_eq!("Property::DefaultHint::Get", Command::Property(Property::DefaultHint).get_command_str());
    assert_eq!("DefaultHint::Set", Property::SetDefaultHint(d0()).get_command_str());
    assert_eq!("Recompute", Command::Recompute.get_command_str());
    assert_eq!(
        "Window::Add(app:1)",
        add_window(Rect::new(0, 0, 1, 1), None, 0, "app:1").get_command_str()
    );
    assert_eq!(
        "Update(w)",
        Window::Update { win_key: "w".to_string(), update: WindowUpdate::default() }
            .get_command_str()
    );
    assert_eq!("Window::Remove(w)", Command::Window(Window::Remove("w".to_string())).get_command_str());
}

#[test]
fn rectangles_at_the_boundary() {
    assert_eq!(Ok(Rect::new(0, 0, 0, 0)), validate_rect(Rect::new(0, 0, 0, 0)));
    assert_eq!(Ok(Rect::new(1, 2, 3, 4)), validate_rect(Rect::new(1, 2, 3, 4)));
    assert_eq!(Err(InvalidArgs::BadRectangle), validate_rect(Rect::new(-1, 2, 3, 4)));
    assert_eq!(Err(InvalidArgs::BadRectangle), validate_rect(Rect::new(1, -2, 3, 4)));
    assert_eq!(Err(InvalidArgs::BadRectangle), validate_rect(Rect::new(4, 2, 3, 4)));
    assert_eq!(Err(InvalidArgs::BadRectangle), validate_rect(Rect::new(1, 5, 3, 4)));
}

#[test]
fn hints_at_the_boundary() {
    assert_eq!(Ok(None), parse_hint(""));
    assert_eq!(Ok(Some(y2())), parse_hint("Y2|D"));
    assert_eq!(Ok(Some(d0())), parse_hint("Y4|D|R"));
    assert_eq!(Err(InvalidArgs::UnrecognizedHint), parse_hint("D"));
    assert_eq!(Err(InvalidArgs::UnrecognizedHint), parse_hint(" "));
    assert_eq!(Err(InvalidArgs::UnrecognizedHint), parse_hint("Y4|Q"));
}

#[test]
fn off_screen_picture() {
    assert_eq!(Orientation::Rotate90FlipH, orientation_for(1404, 1872));
    assert_eq!(Orientation::FlipHorizontal, orientation_for(1872, 1404));
    assert_eq!(Orientation::FlipHorizontal, orientation_for(100, 100));
    assert!(!needs_resize(1872, 1404, 1872, 1404));
    assert!(needs_resize(1872, 1403, 1872, 1404));
    assert!(needs_resize(1871, 1404, 1872, 1404));
    assert_eq!(vec![0, 0, 1, 7, 15, 15], to_y4(&vec![0, 15, 16, 127, 240, 255]));
    assert_eq!(Vec::<u8>::new(), to_y4(&vec![]));
}

#[test]
fn process_ids_at_the_boundary() {
    assert_eq!(Ok(1), validate_pid(1));
    assert_eq!(Ok(i32::MAX), validate_pid(i32::MAX));
    assert_eq!(Err(InvalidArgs::BadPid), validate_pid(0));
    assert_eq!(Err(InvalidArgs::BadPid), validate_pid(-1));
}

#[test]
fn bridge_names() {
    assert_eq!("generic", active_bridge_name(String::new()));
    assert_eq!("sway", active_bridge_name("sway".to_string()));
}
