//! The commands that the dispatcher takes, and the checks made on what
//! comes from outside before it becomes a command.

use vstd::prelude::*;
use vstd::string::*;
use crate::text::{append_decimal, spec_decimal};
use crate::types::rect::Rect;
use crate::types::rockchip_ebc::{Hint, spec_parse_human};

verus! {

/// Commands on applications.
#[derive(Debug)]
pub enum Application {
    /// Registers the process `pid`; the reply is the application's key.
    Add(i32),
    /// Removes the application with this key, and its windows.
    Remove(String),
}

/// Queries and updates of properties.
#[derive(Debug)]
pub enum Property {
    /// Asks for the global default hint.
    DefaultHint,
    /// Replaces the global default hint.
    SetDefaultHint(Hint),
}

/// The attributes of a window that an update replaces; `None` keeps what
/// the window has.
#[derive(Debug)]
pub struct WindowUpdate {
    pub title: Option<String>,
    pub area: Option<Rect>,
    pub hint: Option<Option<Hint>>,
    pub visible: Option<bool>,
    pub z_index: Option<i32>,
}

impl Default for WindowUpdate {
    fn default() -> (r: Self)
        ensures
            r.title is None,
            r.area is None,
            r.hint is None,
            r.visible is None,
            r.z_index is None,
    {
        Self { title: None, area: None, hint: None, visible: None, z_index: None }
    }
}

/// Commands on windows.
#[derive(Debug)]
pub enum Window {
    /// Adds a window to an application; the reply is the window's
    /// identifier.
    Add {
        app_key: String,
        title: String,
        area: Rect,
        hint: Option<Hint>,
        visible: bool,
        z_index: i32,
    },
    /// Replaces some attributes of a window.
    Update { win_key: String, update: WindowUpdate },
    /// Removes a window.
    Remove(String),
}

/// Everything that the dispatcher can be asked to do.
#[derive(Debug)]
pub enum Command {
    Application(Application),
    Property(Property),
    /// Computes the hints anew and hands them out.
    Recompute,
    Window(Window),
}

/// A short name for a command, for messages.
pub trait CommandStr {
    spec fn spec_command_str(&self) -> Seq<char>;

    fn get_command_str(&self) -> (r: String)
        ensures
            r@ == self.spec_command_str(),
    ;
}

/// `name`, then `arg` in round brackets.
pub open spec fn spec_call_str(name: Seq<char>, arg: Seq<char>) -> Seq<char> {
    name + seq!['('] + arg + seq![')']
}

fn call_str(name: &str, arg: &str) -> (r: String)
    ensures
        r@ == spec_call_str(name@, arg@),
{
    proof {
        reveal_strlit("(");
        reveal_strlit(")");
    }
    let mut out = name.to_owned();
    out.append("(");
    out.append(arg);
    out.append(")");
    proof {
        assert("("@ =~= seq!['(']);
        assert(")"@ =~= seq![')']);
        assert(out@ =~= spec_call_str(name@, arg@));
    }
    out
}

impl CommandStr for Application {
    open spec fn spec_command_str(&self) -> Seq<char> {
        match self {
            Application::Add(pid) => spec_call_str("Add"@, spec_decimal(*pid as int)),
            Application::Remove(key) => spec_call_str("Remove"@, key@),
        }
    }

    fn get_command_str(&self) -> (r: String) {
        match self {
            Application::Add(pid) => {
                let mut number = String::new();
                append_decimal(&mut number, *pid);
                proof {
                    assert(number@ =~= spec_decimal(*pid as int));
                }
                call_str("Add", number.as_str())
            },
            Application::Remove(key) => call_str("Remove", key.as_str()),
        }
    }
}

impl CommandStr for Property {
    open spec fn spec_command_str(&self) -> Seq<char> {
        match self {
            Property::DefaultHint => "DefaultHint::Get"@,
            Property::SetDefaultHint(_) => "DefaultHint::Set"@,
        }
    }

    fn get_command_str(&self) -> (r: String) {
        match self {
            Property::DefaultHint => "DefaultHint::Get".to_owned(),
            Property::SetDefaultHint(_) => "DefaultHint::Set".to_owned(),
        }
    }
}

impl CommandStr for Window {
    open spec fn spec_command_str(&self) -> Seq<char> {
        match self {
            Window::Add { app_key, .. } => spec_call_str("Add"@, app_key@),
            Window::Update { win_key, .. } => spec_call_str("Update"@, win_key@),
            Window::Remove(key) => spec_call_str("Remove"@, key@),
        }
    }

    fn get_command_str(&self) -> (r: String) {
        match self {
            Window::Add { app_key, .. } => call_str("Add", app_key.as_str()),
            Window::Update { win_key, .. } => call_str("Update", win_key.as_str()),
            Window::Remove(key) => call_str("Remove", key.as_str()),
        }
    }
}

impl CommandStr for Command {
    open spec fn spec_command_str(&self) -> Seq<char> {
        match self {
            Command::Application(a) => "Window::"@ + a.spec_command_str(),
            Command::Property(p) => "Property::"@ + p.spec_command_str(),
            Command::Recompute => "Recompute"@,
            Command::Window(w) => "Window::"@ + w.spec_command_str(),
        }
    }

    fn get_command_str(&self) -> (r: String) {
        match self {
            Command::Application(a) => {
                let mut out = "Window::".to_owned();
                let inner = a.get_command_str();
                out.append(inner.as_str());
                out
            },
            Command::Property(p) => {
                let mut out = "Property::".to_owned();
                let inner = p.get_command_str();
                out.append(inner.as_str());
                out
            },
            Command::Recompute => "Recompute".to_owned(),
            Command::Window(w) => {
                let mut out = "Window::".to_owned();
                let inner = w.get_command_str();
                out.append(inner.as_str());
                out
            },
        }
    }
}

impl From<Application> for Command {
    fn from(value: Application) -> (r: Self)
        ensures
            r == Command::Application(value),
    {
        Command::Application(value)
    }
}

impl vstd::std_specs::convert::FromSpecImpl<Application> for Command {
    open spec fn obeys_from_spec() -> bool {
        true
    }

    open spec fn from_spec(value: Application) -> Self {
        Command::Application(value)
    }
}

impl From<Property> for Command {
    fn from(value: Property) -> (r: Self)
        ensures
            r == Command::Property(value),
    {
        Command::Property(value)
    }
}

impl vstd::std_specs::convert::FromSpecImpl<Property> for Command {
    open spec fn obeys_from_spec() -> bool {
        true
    }

    open spec fn from_spec(value: Property) -> Self {
        Command::Property(value)
    }
}

impl From<Window> for Command {
    fn from(value: Window) -> (r: Self)
        ensures
            r == Command::Window(value),
    {
        Command::Window(value)
    }
}

impl vstd::std_specs::convert::FromSpecImpl<Window> for Command {
    open spec fn obeys_from_spec() -> bool {
        true
    }

    open spec fn from_spec(value: Window) -> Self {
        Command::Window(value)
    }
}

/// Why a request was turned down before it became a command.
#[derive(Clone, Copy, Debug, PartialEq, Eq, Structural)]
pub enum InvalidArgs {
    /// The rectangle has a corner left of or above the origin, or its
    /// corners are out of order.
    BadRectangle,
    /// The text is no hint.
    UnrecognizedHint,
    /// The number is no process id.
    BadPid,
}

/// Lets a process id through if it is positive.
pub fn validate_pid(pid: i32) -> (r: Result<i32, InvalidArgs>)
    ensures
        r == if pid > 0 {
            Ok::<i32, InvalidArgs>(pid)
        } else {
            Err(InvalidArgs::BadPid)
        },
{
    if pid <= 0 {
        Err(InvalidArgs::BadPid)
    } else {
        Ok(pid)
    }
}

/// A window may have this area: its first corner is not left of or above
/// the origin, and its corners are in order.
pub open spec fn spec_area_ok(rect: Rect) -> bool {
    rect.x1 >= 0 && rect.y1 >= 0 && rect.valid()
}

/// Lets a rectangle through if a window may have it as its area.
pub fn validate_rect(rect: Rect) -> (r: Result<Rect, InvalidArgs>)
    ensures
        r == if spec_area_ok(rect) {
            Ok::<Rect, InvalidArgs>(rect)
        } else {
            Err(InvalidArgs::BadRectangle)
        },
{
    let Rect { x1, y1, x2, y2 } = rect;
    if x1 < 0 || y1 < 0 || x1 > x2 || y1 > y2 {
        Err(InvalidArgs::BadRectangle)
    } else {
        Ok(Rect { x1, y1, x2, y2 })
    }
}

/// What the text of a window's hint stands for: no hint when it is empty,
/// otherwise the hint that it writes.
pub open spec fn spec_parse_hint(hint: Seq<char>) -> Result<Option<Hint>, InvalidArgs> {
    if hint.len() == 0 {
        Ok(None)
    } else {
        match spec_parse_human(hint) {
            Some(h) => Ok(Some(h)),
            None => Err(InvalidArgs::UnrecognizedHint),
        }
    }
}

/// Reads the hint of a window from text. An empty text means that the
/// window has no hint of its own.
pub fn parse_hint(hint: &str) -> (r: Result<Option<Hint>, InvalidArgs>)
    ensures
        r == spec_parse_hint(hint@),
        r matches Ok(Some(h)) ==> h.valid(),
{
    if hint.unicode_len() == 0 {
        Ok(None)
    } else {
        match Hint::try_from_human_readable(hint) {
            Ok(h) => Ok(Some(h)),
            Err(_) => Err(InvalidArgs::UnrecognizedHint),
        }
    }
}

} // verus!
