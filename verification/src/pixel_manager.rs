//! The registry of applications and windows, and the hints computed from it.
//!
//! An application stands for a running process and may carry a default hint
//! for its windows. A window belongs to one application, has an identifier
//! of its own, a rectangle, a z-index and, optionally, a hint. A window
//! without a hint takes that of its application, and an application without
//! one takes the global default.
//!
//! The hints handed to the driver are kept few and small: every visible
//! window gives at most one rectangle, the bounding box of what the windows
//! above it leave visible.

pub mod invariants;

use vstd::prelude::*;
use vstd::string::*;
use self::invariants::{
    lemma_app_add_wf, lemma_app_remove_wf, lemma_app_set_hint_wf, lemma_window_add_wf,
    lemma_window_remove_wf, lemma_window_update_wf,
};
use crate::text::{append_decimal, spec_decimal};
use crate::types::rect::Rect;
use crate::types::rockchip_ebc::{Hint, RectHint};
use crate::types::stacking::{entry_from, lemma_build_flatten, spec_build};
use crate::types::ztree::{SurfaceView, ZSurface, ZTree, spec_flatten, spec_sorted};

verus! {

/// The key of the application `app_id` run by process `pid`: the two,
/// with a colon between them.
pub open spec fn spec_app_key(app_id: Seq<char>, pid: i32) -> Seq<char> {
    app_id + seq![':'] + spec_decimal(pid as int)
}

/// A running process, with the hint that its windows take by default.
#[derive(Debug)]
pub struct Application {
    app_id: String,
    pid: i32,
    default_hint: Option<Hint>,
    windows: Vec<String>,
}

/// An application as contracts see it.
pub struct ApplicationView {
    pub app_id: Seq<char>,
    pub pid: i32,
    pub default_hint: Option<Hint>,
    /// The identifiers of the application's windows.
    pub windows: Set<Seq<char>>,
}

impl ApplicationView {
    pub open spec fn key(self) -> Seq<char> {
        spec_app_key(self.app_id, self.pid)
    }
}

impl View for Application {
    type V = ApplicationView;

    closed spec fn view(&self) -> ApplicationView {
        ApplicationView {
            app_id: self.app_id@,
            pid: self.pid,
            default_hint: self.default_hint,
            windows: self.windows.deep_view().to_set(),
        }
    }
}

impl DeepView for Application {
    type V = ApplicationView;

    closed spec fn deep_view(&self) -> ApplicationView {
        self@
    }
}

/// A list with one more member holds what it held, and the new member.
proof fn lemma_contains_push(list: Seq<Seq<char>>, last: Seq<char>, t: Seq<char>)
    ensures
        list.push(last).contains(t) <==> (list.contains(t) || t == last),
{
    if list.contains(t) {
        let k = choose|k: int| 0 <= k < list.len() && list[k] == t;
        assert(list.push(last)[k] == t);
    }
    if t == last {
        assert(list.push(last)[list.len() as int] == t);
    }
}

/// `list` without the members equal to `t`.
pub open spec fn spec_without(list: Seq<Seq<char>>, t: Seq<char>) -> Seq<Seq<char>>
    decreases list.len(),
{
    if list.len() == 0 {
        list
    } else if list.last() == t {
        spec_without(list.drop_last(), t)
    } else {
        spec_without(list.drop_last(), t).push(list.last())
    }
}

proof fn lemma_without(list: Seq<Seq<char>>, t: Seq<char>)
    ensures
        spec_without(list, t).to_set() == list.to_set().remove(t),
    decreases list.len(),
{
    if list.len() > 0 {
        let head = list.drop_last();
        lemma_without(head, t);
        assert(list =~= head.push(list.last()));
        assert forall|x: Seq<char>|
            spec_without(list, t).to_set().contains(x) <==> list.to_set().remove(t).contains(
                x,
            ) by {
            lemma_contains_push(head, list.last(), x);
            lemma_contains_push(spec_without(head, t), list.last(), x);
            assert(spec_without(head, t).to_set().contains(x) <==> head.to_set().remove(t).contains(x));
        }
    }
    assert(spec_without(list, t).to_set() =~= list.to_set().remove(t));
}

/// Whether `needle` is among `list`.
fn contains_text(list: &Vec<String>, needle: &String) -> (r: bool)
    ensures
        r == list.deep_view().to_set().contains(needle@),
{
    let mut i: usize = 0;
    while i < list.len()
        invariant
            i <= list.len(),
            forall|k: int| 0 <= k < i ==> list.deep_view()[k] != needle@,
        decreases list.len() - i,
    {
        if list[i] == *needle {
            proof {
                assert(list.deep_view()[i as int] == needle@);
                assert(list.deep_view().contains(needle@));
            }
            return true;
        }
        i += 1;
    }
    proof {
        assert(!list.deep_view().contains(needle@));
    }
    false
}

impl Application {
    /// An application without windows that takes the global default hint.
    pub fn new(app_id: &str, pid: i32) -> (r: Self)
        ensures
            r@ == (ApplicationView {
                app_id: app_id@,
                pid,
                default_hint: None,
                windows: Set::empty(),
            }),
    {
        Self::with_hint(app_id, pid, None)
    }

    /// An application without windows, with its default hint.
    pub fn with_hint(app_id: &str, pid: i32, default_hint: Option<Hint>) -> (r: Self)
        ensures
            r@ == (ApplicationView { app_id: app_id@, pid, default_hint, windows: Set::empty() }),
    {
        let windows: Vec<String> = Vec::new();
        proof {
            assert(windows.deep_view().to_set() =~= Set::<Seq<char>>::empty());
        }
        Self { app_id: app_id.to_owned(), pid, default_hint, windows }
    }

    /// The key by which the registry knows the application.
    pub fn key(&self) -> (r: String)
        ensures
            r@ == self@.key(),
    {
        proof {
            reveal_strlit(":");
        }
        let mut key = self.app_id.clone();
        key.append(":");
        append_decimal(&mut key, self.pid);
        proof {
            assert(":"@ =~= seq![':']);
        }
        key
    }

    /// The hint that the application's windows take by default.
    pub fn default_hint(&self) -> (r: Option<Hint>)
        ensures
            r == self@.default_hint,
    {
        self.default_hint
    }

    /// Records that the window `win_uid` belongs to the application.
    fn window_add(&mut self, win_uid: String)
        ensures
            final(self)@ == (ApplicationView {
                windows: old(self)@.windows.insert(win_uid@),
                ..old(self)@
            }),
    {
        if !contains_text(&self.windows, &win_uid) {
            let ghost before = self.windows.deep_view();
            self.windows.push(win_uid);
            proof {
                assert(self.windows.deep_view() =~= before.push(win_uid@));
                before.lemma_push_to_set_commute(win_uid@);
                assert(before.push(win_uid@).to_set() =~= before.to_set().insert(win_uid@));
            }
        } else {
            proof {
                assert(self@.windows =~= self@.windows.insert(win_uid@));
            }
        }
    }

    /// Forgets the window `win_uid`.
    fn window_remove(&mut self, win_uid: &String)
        ensures
            final(self)@ == (ApplicationView {
                windows: old(self)@.windows.remove(win_uid@),
                ..old(self)@
            }),
    {
        let ghost before = self.windows.deep_view();
        let mut old_windows: Vec<String> = Vec::new();
        core::mem::swap(&mut self.windows, &mut old_windows);
        let ghost all = old_windows@;
        let mut kept: Vec<String> = Vec::new();
        proof {
            assert(kept.deep_view() =~= Seq::<Seq<char>>::empty());
            assert(before.take(0) =~= Seq::<Seq<char>>::empty());
        }
        for uid in it: old_windows
            invariant
                it.seq() == all,
                before.len() == all.len(),
                forall|k: int| 0 <= k < all.len() ==> before[k] == (#[trigger] all[k])@,
                kept.deep_view() == spec_without(before.take(it.index()), win_uid@),
        {
            let ghost so_far = kept.deep_view();
            proof {
                assert(before.take(it.index() + 1).drop_last() =~= before.take(it.index()));
                assert(before.take(it.index() + 1).last() == uid@);
            }
            if !(uid == *win_uid) {
                kept.push(uid);
                proof {
                    assert(kept.deep_view() =~= so_far.push(uid@));
                }
            }
        }
        proof {
            assert(before.take(all.len() as int) =~= before);
            lemma_without(before, win_uid@);
        }
        self.windows = kept;
    }
}

/// What a window shows and how: everything about it that may change.
#[derive(Debug)]
pub struct WindowData {
    pub title: String,
    pub area: Rect,
    pub hint: Option<Hint>,
    pub visible: bool,
    pub z_index: i32,
}

impl Clone for WindowData {
    fn clone(&self) -> (r: Self)
        ensures
            r@ == self@,
    {
        Self {
            title: self.title.clone(),
            area: self.area,
            hint: self.hint,
            visible: self.visible,
            z_index: self.z_index,
        }
    }
}

/// Window data as contracts see it.
pub struct WindowDataView {
    pub title: Seq<char>,
    pub area: Rect,
    pub hint: Option<Hint>,
    pub visible: bool,
    pub z_index: i32,
}

impl View for WindowData {
    type V = WindowDataView;

    open spec fn view(&self) -> WindowDataView {
        WindowDataView {
            title: self.title@,
            area: self.area,
            hint: self.hint,
            visible: self.visible,
            z_index: self.z_index,
        }
    }
}

/// A window on screen.
#[derive(Debug)]
pub struct Window {
    uid: String,
    app_key: String,
    pub data: WindowData,
}

/// A window as contracts see it.
pub struct WindowView {
    pub uid: Seq<char>,
    pub app_key: Seq<char>,
    pub data: WindowDataView,
}

impl View for Window {
    type V = WindowView;

    closed spec fn view(&self) -> WindowView {
        WindowView { uid: self.uid@, app_key: self.app_key@, data: self.data@ }
    }
}

impl DeepView for Window {
    type V = WindowView;

    closed spec fn deep_view(&self) -> WindowView {
        self@
    }
}

/// The surface that a window puts on screen: the part of its area that lies
/// on the screen, at the window's z-index, under the window's identifier.
/// A hidden window has none, nor has one that lies off screen.
pub open spec fn spec_zsurface(window: WindowView, screen_area: Rect) -> Option<SurfaceView> {
    if window.data.visible {
        match window.data.area.spec_intersection(screen_area) {
            Some(rect) => Some(
                SurfaceView { z_index: window.data.z_index, reference: window.uid, area: rect },
            ),
            None => None,
        }
    } else {
        None
    }
}

/// A new identifier for a window, from `uuid::Uuid::new_v4`, written in
/// the hyphenated form of `Uuid`'s `Display`. The identifier is drawn at
/// random: nothing is claimed of it.
#[verifier::external_body]
pub(crate) fn fresh_uid() -> (uid: String) {
    uuid::Uuid::new_v4().to_string()
}

impl Window {
    /// A window of application `app_key`, under a fresh identifier.
    pub fn new(
        app_key: &str,
        title: &str,
        area: Rect,
        hint: Option<Hint>,
        visible: bool,
        z_index: i32,
    ) -> (r: Self)
        ensures
            r@.app_key == app_key@,
            r@.data == (WindowDataView { title: title@, area, hint, visible, z_index }),
    {
        Self::with_uid(fresh_uid(), app_key, title, area, hint, visible, z_index)
    }

    /// A window of application `app_key`, under the identifier `uid`.
    pub fn with_uid(
        uid: String,
        app_key: &str,
        title: &str,
        area: Rect,
        hint: Option<Hint>,
        visible: bool,
        z_index: i32,
    ) -> (r: Self)
        ensures
            r@ == (WindowView {
                uid: uid@,
                app_key: app_key@,
                data: WindowDataView { title: title@, area, hint, visible, z_index },
            }),
    {
        Self {
            uid,
            app_key: app_key.to_owned(),
            data: WindowData { title: title.to_owned(), area, hint, visible, z_index },
        }
    }

    /// The window's identifier.
    pub fn uid(&self) -> (r: &String)
        ensures
            r@ == self@.uid,
    {
        &self.uid
    }

    /// What the window shows and how.
    pub fn data(&self) -> (r: &WindowData)
        ensures
            r@ == self@.data,
    {
        &self.data
    }

    /// The key of the application that the window belongs to.
    pub fn app_key(&self) -> (r: &String)
        ensures
            r@ == self@.app_key,
    {
        &self.app_key
    }

    /// The surface that the window puts on a screen of the given area.
    pub fn zsurface(&self, screen_area: &Rect) -> (r: Option<ZSurface>)
        ensures
            match spec_zsurface(self@, *screen_area) {
                Some(s) => r is Some && r.unwrap()@ == s,
                None => r is None,
            },
    {
        if self.data.visible {
            match self.data.area.intersection(screen_area) {
                Some(rect) => Some(ZSurface::new(self.data.z_index, self.uid.as_str(), rect)),
                None => None,
            }
        } else {
            None
        }
    }

    /// Replaces everything about the window that may change.
    pub fn update(&mut self, data: WindowData)
        ensures
            final(self)@ == (WindowView { data: data@, ..old(self)@ }),
    {
        self.data = data
    }
}

/// What the driver is told: the hint for pixels that no rectangle covers,
/// and the rectangles with their hints, lowest window first.
#[derive(Debug, PartialEq)]
pub struct ComputedHints {
    pub default_hint: Option<Hint>,
    pub rect_hints: Vec<RectHint>,
}

impl ComputedHints {
    pub fn new() -> (r: Self)
        ensures
            r.default_hint is None,
            r.rect_hints@.len() == 0,
    {
        Self { default_hint: None, rect_hints: Vec::new() }
    }

    pub fn with_hint(hint: Hint) -> (r: Self)
        ensures
            r.default_hint == Some(hint),
            r.rect_hints@.len() == 0,
    {
        Self { default_hint: Some(hint), rect_hints: Vec::new() }
    }
}

impl Default for ComputedHints {
    fn default() -> (r: Self)
        ensures
            r.default_hint is None,
            r.rect_hints@.len() == 0,
    {
        ComputedHints::new()
    }
}

/// Why the registry refused a request.
#[derive(Debug, PartialEq)]
pub enum PixelManagerError {
    /// No application has this key.
    UnknownApp(String),
    /// No window has this identifier.
    UnknownWindow(String),
}

/// A registry error as contracts see it.
pub enum PixelManagerErrorView {
    UnknownApp(Seq<char>),
    UnknownWindow(Seq<char>),
}

impl View for PixelManagerError {
    type V = PixelManagerErrorView;

    open spec fn view(&self) -> PixelManagerErrorView {
        match self {
            PixelManagerError::UnknownApp(key) => PixelManagerErrorView::UnknownApp(key@),
            PixelManagerError::UnknownWindow(uid) => PixelManagerErrorView::UnknownWindow(uid@),
        }
    }
}

impl PixelManagerError {
    /// The error in words.
    pub fn message(&self) -> (r: String)
        ensures
            r@ == match self@ {
                PixelManagerErrorView::UnknownApp(key) => "No application with key '"@ + key
                    + "' found."@,
                PixelManagerErrorView::UnknownWindow(uid) => "No window with uid '"@ + uid
                    + "' found"@,
            },
    {
        match self {
            PixelManagerError::UnknownApp(key) => {
                let mut out = String::new();
                out.append("No application with key '");
                out.append(key.as_str());
                out.append("' found.");
                proof {
                    assert(out@ =~= "No application with key '"@ + key@ + "' found."@);
                }
                out
            },
            PixelManagerError::UnknownWindow(uid) => {
                let mut out = String::new();
                out.append("No window with uid '");
                out.append(uid.as_str());
                out.append("' found");
                proof {
                    assert(out@ =~= "No window with uid '"@ + uid@ + "' found"@);
                }
                out
            },
        }
    }
}


/// A manager as contracts see it: the global default hint, the area of the
/// screen, and the applications and windows in the order in which they were
/// added.
pub struct ManagerView {
    pub default_hint: Hint,
    pub screen_area: Rect,
    pub applications: Seq<ApplicationView>,
    pub windows: Seq<WindowView>,
}

impl ManagerView {
    /// Some application has the key `key`.
    pub open spec fn has_app(self, key: Seq<char>) -> bool {
        exists|i: int| 0 <= i < self.applications.len() && (#[trigger] self.applications[i]).key() == key
    }

    /// The first application with the key `key` is the one at `i`.
    pub open spec fn app_at(self, key: Seq<char>, i: int) -> bool {
        &&& 0 <= i < self.applications.len()
        &&& self.applications[i].key() == key
        &&& forall|j: int| 0 <= j < i ==> (#[trigger] self.applications[j]).key() != key
    }

    /// Where the application with the key `key` stands, if there is one.
    pub open spec fn app_index(self, key: Seq<char>) -> Option<int> {
        if exists|i: int| self.app_at(key, i) {
            Some(choose|i: int| self.app_at(key, i))
        } else {
            None
        }
    }

    /// Some window has the identifier `uid`.
    pub open spec fn has_window(self, uid: Seq<char>) -> bool {
        exists|i: int| 0 <= i < self.windows.len() && (#[trigger] self.windows[i]).uid == uid
    }

    /// The first window with the identifier `uid` is the one at `i`.
    pub open spec fn window_at(self, uid: Seq<char>, i: int) -> bool {
        &&& 0 <= i < self.windows.len()
        &&& self.windows[i].uid == uid
        &&& forall|j: int| 0 <= j < i ==> (#[trigger] self.windows[j]).uid != uid
    }

    /// Where the window with the identifier `uid` stands, if there is one.
    pub open spec fn window_index(self, uid: Seq<char>) -> Option<int> {
        if exists|i: int| self.window_at(uid, i) {
            Some(choose|i: int| self.window_at(uid, i))
        } else {
            None
        }
    }

    /// No two applications share a key.
    pub open spec fn keys_distinct(self) -> bool {
        forall|i: int, j: int|
            0 <= i < j < self.applications.len() ==> (#[trigger] self.applications[i]).key() != (
            #[trigger] self.applications[j]).key()
    }

    /// No two windows share an identifier.
    pub open spec fn uids_distinct(self) -> bool {
        forall|i: int, j: int|
            0 <= i < j < self.windows.len() ==> (#[trigger] self.windows[i]).uid != (
            #[trigger] self.windows[j]).uid
    }

    /// Every window belongs to an application that is there.
    pub open spec fn windows_have_apps(self) -> bool {
        forall|w: int|
            0 <= w < self.windows.len() ==> self.has_app((#[trigger] self.windows[w]).app_key)
    }

    /// Every application lists exactly the windows that belong to it.
    pub open spec fn lists_match(self) -> bool {
        forall|a: int, uid: Seq<char>|
            0 <= a < self.applications.len() ==> (#[trigger] self.applications[a].windows.contains(
                uid,
            ) <==> self.owns(self.applications[a].key(), uid))
    }

    /// The registry holds together: no two applications share a key, no
    /// two windows an identifier, every window belongs to an application
    /// that is there, and every application lists exactly its windows.
    pub open spec fn wf(self) -> bool {
        &&& self.keys_distinct()
        &&& self.uids_distinct()
        &&& self.windows_have_apps()
        &&& self.lists_match()
    }

    /// Some window has the identifier `uid` and belongs to the application
    /// with the key `key`.
    pub open spec fn owns(self, key: Seq<char>, uid: Seq<char>) -> bool {
        exists|w: int|
            0 <= w < self.windows.len() && (#[trigger] self.windows[w]).uid == uid
                && self.windows[w].app_key == key
    }

    /// The registry with one more application, unless its key is taken.
    pub open spec fn app_add(self, app: ApplicationView) -> ManagerView {
        if self.app_index(app.key()) is Some {
            self
        } else {
            ManagerView { applications: self.applications.push(app), ..self }
        }
    }

    /// The registry without the application `key` and without the windows
    /// that it lists.
    pub open spec fn app_remove(self, key: Seq<char>) -> ManagerView {
        match self.app_index(key) {
            None => self,
            Some(i) => ManagerView {
                applications: self.applications.remove(i),
                windows: spec_drop_windows(self.windows, self.applications[i].windows),
                ..self
            },
        }
    }

    /// The registry with the default hint of application `key` replaced.
    pub open spec fn app_set_hint(self, key: Seq<char>, hint: Option<Hint>) -> ManagerView {
        match self.app_index(key) {
            None => self,
            Some(i) => ManagerView {
                applications: self.applications.update(
                    i,
                    ApplicationView { default_hint: hint, ..self.applications[i] },
                ),
                ..self
            },
        }
    }

    /// The registry with one more window, listed by its application. An
    /// unknown application or a taken identifier leaves it as it is.
    pub open spec fn window_add(self, window: WindowView) -> ManagerView {
        match self.app_index(window.app_key) {
            None => self,
            Some(a) => if self.window_index(window.uid) is Some {
                self
            } else {
                ManagerView {
                    applications: self.applications.update(
                        a,
                        ApplicationView {
                            windows: self.applications[a].windows.insert(window.uid),
                            ..self.applications[a]
                        },
                    ),
                    windows: self.windows.push(window),
                    ..self
                }
            },
        }
    }

    /// The registry without the window `uid`, which its application no
    /// longer lists.
    pub open spec fn window_remove(self, uid: Seq<char>) -> ManagerView {
        match self.window_index(uid) {
            None => self,
            Some(w) => ManagerView {
                applications: match self.app_index(self.windows[w].app_key) {
                    None => self.applications,
                    Some(a) => self.applications.update(
                        a,
                        ApplicationView {
                            windows: self.applications[a].windows.remove(uid),
                            ..self.applications[a]
                        },
                    ),
                },
                windows: self.windows.remove(w),
                ..self
            },
        }
    }

    /// The registry with the data of window `uid` replaced.
    pub open spec fn window_update(self, uid: Seq<char>, data: WindowDataView) -> ManagerView {
        match self.window_index(uid) {
            None => self,
            Some(w) => ManagerView {
                windows: self.windows.update(w, WindowView { data, ..self.windows[w] }),
                ..self
            },
        }
    }

    /// The registry with the hint of window `uid` replaced.
    pub open spec fn window_set_hint(self, uid: Seq<char>, hint: Option<Hint>) -> ManagerView {
        match self.window_index(uid) {
            None => self,
            Some(w) => self.window_update(uid, WindowDataView { hint, ..self.windows[w].data }),
        }
    }

    /// The hint that window `uid` is rendered with: its own, else that of
    /// its application, else the global default.
    pub open spec fn hint_fallback(self, uid: Seq<char>) -> Result<
        Hint,
        PixelManagerErrorView,
    > {
        match self.window_index(uid) {
            None => Err(PixelManagerErrorView::UnknownWindow(uid)),
            Some(w) => match self.windows[w].data.hint {
                Some(hint) => Ok(hint),
                None => match self.app_index(self.windows[w].app_key) {
                    None => Err(PixelManagerErrorView::UnknownApp(self.windows[w].app_key)),
                    Some(a) => match self.applications[a].default_hint {
                        Some(hint) => Ok(hint),
                        None => Ok(self.default_hint),
                    },
                },
            },
        }
    }
}

/// The windows whose identifier is not in `listed`, in order.
pub open spec fn spec_drop_windows(windows: Seq<WindowView>, listed: Set<Seq<char>>) -> Seq<
    WindowView,
>
    decreases windows.len(),
{
    if windows.len() == 0 {
        windows
    } else if listed.contains(windows.last().uid) {
        spec_drop_windows(windows.drop_last(), listed)
    } else {
        spec_drop_windows(windows.drop_last(), listed).push(windows.last())
    }
}

/// An application at `j` with the key `key` means that a first one exists.
pub proof fn lemma_first_app(view: ManagerView, key: Seq<char>, j: int)
    requires
        0 <= j < view.applications.len(),
        view.applications[j].key() == key,
    ensures
        view.app_index(key) is Some,
        view.app_at(key, view.app_index(key).unwrap()),
        view.app_index(key).unwrap() <= j,
    decreases j,
{
    if exists|k: int| 0 <= k < j && (#[trigger] view.applications[k]).key() == key {
        let k = choose|k: int| 0 <= k < j && (#[trigger] view.applications[k]).key() == key;
        lemma_first_app(view, key, k);
    } else {
        assert(view.app_at(key, j));
        let i = view.app_index(key).unwrap();
        assert(view.app_at(key, i));
    }
}

/// A window at `j` with the identifier `uid` means that a first one exists.
pub proof fn lemma_first_window(view: ManagerView, uid: Seq<char>, j: int)
    requires
        0 <= j < view.windows.len(),
        view.windows[j].uid == uid,
    ensures
        view.window_index(uid) is Some,
        view.window_at(uid, view.window_index(uid).unwrap()),
        view.window_index(uid).unwrap() <= j,
    decreases j,
{
    if exists|k: int| 0 <= k < j && (#[trigger] view.windows[k]).uid == uid {
        let k = choose|k: int| 0 <= k < j && (#[trigger] view.windows[k]).uid == uid;
        lemma_first_window(view, uid, k);
    } else {
        assert(view.window_at(uid, j));
        let i = view.window_index(uid).unwrap();
        assert(view.window_at(uid, i));
    }
}

/// What `app_index` and `window_index` say: `Some` stands for the first
/// entry with the key, `None` for the absence of any.
pub proof fn lemma_index(view: ManagerView, key: Seq<char>)
    ensures
        match view.app_index(key) {
            Some(i) => view.app_at(key, i) && view.has_app(key),
            None => !view.has_app(key),
        },
        match view.window_index(key) {
            Some(i) => view.window_at(key, i) && view.has_window(key),
            None => !view.has_window(key),
        },
{
    if view.has_app(key) {
        let j = choose|j: int|
            0 <= j < view.applications.len() && (#[trigger] view.applications[j]).key() == key;
        lemma_first_app(view, key, j);
    }
    if view.has_window(key) {
        let j = choose|j: int| 0 <= j < view.windows.len() && (#[trigger] view.windows[j]).uid == key;
        lemma_first_window(view, key, j);
    }
    if view.app_index(key) is Some {
        let i = view.app_index(key).unwrap();
        assert(view.app_at(key, i));
    }
    if view.window_index(key) is Some {
        let i = view.window_index(key).unwrap();
        assert(view.window_at(key, i));
    }
}

/// Keeps the hints for every pixel of the screen.
#[derive(Debug)]
pub struct PixelManager {
    /// The hint for pixels that no window covers.
    pub default_hint: Hint,
    /// The whole screen.
    screen_area: Rect,
    applications: Vec<Application>,
    windows: Vec<Window>,
}

impl View for PixelManager {
    type V = ManagerView;

    closed spec fn view(&self) -> ManagerView {
        ManagerView {
            default_hint: self.default_hint,
            screen_area: self.screen_area,
            applications: self.applications.deep_view(),
            windows: self.windows.deep_view(),
        }
    }
}

impl PixelManager {
    /// A manager without applications or windows.
    pub fn new(default_hint: Hint, screen_area: Rect) -> (r: Self)
        ensures
            r@ == (ManagerView {
                default_hint,
                screen_area,
                applications: Seq::empty(),
                windows: Seq::empty(),
            }),
            r@.wf(),
    {
        let applications: Vec<Application> = Vec::new();
        let windows: Vec<Window> = Vec::new();
        proof {
            assert(applications.deep_view() =~= Seq::<ApplicationView>::empty());
            assert(windows.deep_view() =~= Seq::<WindowView>::empty());
        }
        Self { default_hint, screen_area, applications, windows }
    }

    /// The hint for pixels that no window covers.
    pub fn default_hint(&self) -> (r: Hint)
        ensures
            r == self@.default_hint,
    {
        self.default_hint
    }

    /// Replaces the hint for pixels that no window covers.
    pub fn set_default_hint(&mut self, hint: Hint)
        ensures
            final(self)@ == (ManagerView { default_hint: hint, ..old(self)@ }),
    {
        self.default_hint = hint;
    }

    /// The area of the screen.
    pub fn screen_area(&self) -> (r: Rect)
        ensures
            r == self@.screen_area,
    {
        self.screen_area
    }

    fn find_app(&self, app_key: &String) -> (r: Option<usize>)
        ensures
            match r {
                Some(i) => self@.app_index(app_key@) == Some(i as int) && i < self.applications.len(),
                None => self@.app_index(app_key@) is None,
            },
    {
        let mut i: usize = 0;
        while i < self.applications.len()
            invariant
                i <= self.applications.len(),
                forall|j: int| 0 <= j < i ==> (#[trigger] self@.applications[j]).key() != app_key@,
            decreases self.applications.len() - i,
        {
            let key = self.applications[i].key();
            if key == *app_key {
                proof {
                    assert(self@.applications[i as int] == self.applications[i as int]@);
                    assert(self@.app_at(app_key@, i as int));
                    lemma_index(self@, app_key@);
                }
                return Some(i);
            }
            proof {
                assert(self@.applications[i as int] == self.applications[i as int]@);
            }
            i += 1;
        }
        proof {
            lemma_index(self@, app_key@);
        }
        None
    }

    fn find_window(&self, win_key: &String) -> (r: Option<usize>)
        ensures
            match r {
                Some(i) => self@.window_index(win_key@) == Some(i as int) && i < self.windows.len(),
                None => self@.window_index(win_key@) is None,
            },
    {
        let mut i: usize = 0;
        while i < self.windows.len()
            invariant
                i <= self.windows.len(),
                forall|j: int| 0 <= j < i ==> (#[trigger] self@.windows[j]).uid != win_key@,
            decreases self.windows.len() - i,
        {
            if self.windows[i].uid == *win_key {
                proof {
                    assert(self@.windows[i as int] == self.windows[i as int]@);
                    assert(self@.window_at(win_key@, i as int));
                    lemma_index(self@, win_key@);
                }
                return Some(i);
            }
            proof {
                assert(self@.windows[i as int] == self.windows[i as int]@);
            }
            i += 1;
        }
        proof {
            lemma_index(self@, win_key@);
        }
        None
    }
}


/// The windows whose identifier is not in `listed`, in order.
fn drop_windows(windows: Vec<Window>, listed: &Vec<String>) -> (r: Vec<Window>)
    ensures
        r.deep_view() == spec_drop_windows(windows.deep_view(), listed.deep_view().to_set()),
{
    let ghost before = windows.deep_view();
    let ghost all = windows@;
    let mut kept: Vec<Window> = Vec::new();
    proof {
        assert(kept.deep_view() =~= Seq::<WindowView>::empty());
        assert(before.take(0) =~= Seq::<WindowView>::empty());
    }
    for window in it: windows
        invariant
            it.seq() == all,
            before.len() == all.len(),
            forall|k: int| 0 <= k < all.len() ==> before[k] == (#[trigger] all[k])@,
            kept.deep_view() == spec_drop_windows(
                before.take(it.index()),
                listed.deep_view().to_set(),
            ),
    {
        let ghost so_far = kept.deep_view();
        proof {
            assert(before.take(it.index() + 1).drop_last() =~= before.take(it.index()));
            assert(before.take(it.index() + 1).last() == window@);
        }
        if !contains_text(listed, &window.uid) {
            kept.push(window);
            proof {
                assert(kept.deep_view() =~= so_far.push(window@));
            }
        }
    }
    proof {
        assert(before.take(all.len() as int) =~= before);
    }
    kept
}

impl PixelManager {
    /// The application with the key `app_key`.
    pub fn app(&self, app_key: &String) -> (r: Result<&Application, PixelManagerError>)
        ensures
            match self@.app_index(app_key@) {
                Some(i) => r is Ok && r.unwrap()@ == self@.applications[i],
                None => r is Err && r.unwrap_err()@ == PixelManagerErrorView::UnknownApp(
                    app_key@,
                ),
            },
    {
        match self.find_app(app_key) {
            Some(i) => Ok(&self.applications[i]),
            None => Err(PixelManagerError::UnknownApp(app_key.clone())),
        }
    }

    /// Adds an application and gives its key. An application whose key is
    /// already there is not added again.
    pub fn app_add(&mut self, app: Application) -> (key: String)
        ensures
            key@ == app@.key(),
            final(self)@ == old(self)@.app_add(app@),
            old(self)@.wf() && app@.windows.is_empty() ==> final(self)@.wf(),
    {
        let key = app.key();
        proof {
            if self@.wf() && app@.windows.is_empty() {
                lemma_app_add_wf(self@, app@);
            }
        }
        if self.find_app(&key).is_none() {
            let ghost before = self.applications.deep_view();
            self.applications.push(app);
            proof {
                assert(self.applications.deep_view() =~= before.push(app@));
            }
        }
        key
    }

    /// Removes an application and the windows that belong to it.
    pub fn app_remove(&mut self, app_key: &String)
        ensures
            final(self)@ == old(self)@.app_remove(app_key@),
            old(self)@.wf() ==> final(self)@.wf(),
    {
        proof {
            if self@.wf() {
                lemma_app_remove_wf(self@, app_key@);
            }
        }
        let i = match self.find_app(app_key) {
            Some(i) => i,
            None => {
                return ;
            },
        };
        let ghost before = self.applications.deep_view();
        let app = self.applications.remove(i);
        proof {
            assert(self.applications.deep_view() =~= before.remove(i as int));
        }
        let mut windows: Vec<Window> = Vec::new();
        core::mem::swap(&mut self.windows, &mut windows);
        self.windows = drop_windows(windows, &app.windows);
    }

    /// The default hint of an application.
    pub fn app_hint(&self, app_key: &String) -> (r: Result<Option<Hint>, PixelManagerError>)
        ensures
            match self@.app_index(app_key@) {
                Some(i) => r is Ok && r.unwrap() == self@.applications[i].default_hint,
                None => r is Err && r.unwrap_err()@ == PixelManagerErrorView::UnknownApp(
                    app_key@,
                ),
            },
    {
        match self.app(app_key) {
            Ok(a) => Ok(a.default_hint),
            Err(e) => Err(e),
        }
    }

    fn app_put_hint(&mut self, app_key: &String, hint: Option<Hint>) -> (r: Result<
        (),
        PixelManagerError,
    >)
        ensures
            final(self)@ == old(self)@.app_set_hint(app_key@, hint),
            match old(self)@.app_index(app_key@) {
                Some(i) => r is Ok,
                None => r is Err && r.unwrap_err()@ == PixelManagerErrorView::UnknownApp(
                    app_key@,
                ),
            },
            old(self)@.wf() ==> final(self)@.wf(),
    {
        proof {
            if self@.wf() {
                lemma_app_set_hint_wf(self@, app_key@, hint);
            }
        }
        match self.find_app(app_key) {
            Some(i) => {
                let ghost before = self.applications.deep_view();
                self.applications[i].default_hint = hint;
                proof {
                    assert(self.applications.deep_view() =~= before.update(
                        i as int,
                        ApplicationView { default_hint: hint, ..before[i as int] },
                    ));
                }
                Ok(())
            },
            None => Err(PixelManagerError::UnknownApp(app_key.clone())),
        }
    }

    /// Sets the default hint of an application.
    pub fn app_set_hint(&mut self, app_key: &String, hint: Hint) -> (r: Result<
        (),
        PixelManagerError,
    >)
        ensures
            final(self)@ == old(self)@.app_set_hint(app_key@, Some(hint)),
            match old(self)@.app_index(app_key@) {
                Some(i) => r is Ok,
                None => r is Err && r.unwrap_err()@ == PixelManagerErrorView::UnknownApp(
                    app_key@,
                ),
            },
            old(self)@.wf() ==> final(self)@.wf(),
    {
        self.app_put_hint(app_key, Some(hint))
    }

    /// Takes the default hint of an application away.
    pub fn app_unset_hint(&mut self, app_key: &String) -> (r: Result<(), PixelManagerError>)
        ensures
            final(self)@ == old(self)@.app_set_hint(app_key@, None),
            match old(self)@.app_index(app_key@) {
                Some(i) => r is Ok,
                None => r is Err && r.unwrap_err()@ == PixelManagerErrorView::UnknownApp(
                    app_key@,
                ),
            },
            old(self)@.wf() ==> final(self)@.wf(),
    {
        self.app_put_hint(app_key, None)
    }

    /// The window with the identifier `win_key`.
    pub fn window(&self, win_key: &String) -> (r: Result<&Window, PixelManagerError>)
        ensures
            match self@.window_index(win_key@) {
                Some(i) => r is Ok && r.unwrap()@ == self@.windows[i],
                None => r is Err && r.unwrap_err()@ == PixelManagerErrorView::UnknownWindow(
                    win_key@,
                ),
            },
    {
        match self.find_window(win_key) {
            Some(i) => Ok(&self.windows[i]),
            None => Err(PixelManagerError::UnknownWindow(win_key.clone())),
        }
    }

    /// The window with the identifier `win_key`, to be changed in place.
    /// What is written through the reference is what the registry then
    /// holds in the window's place.
    pub fn window_mut(&mut self, win_key: &String) -> (r: Result<&mut Window, PixelManagerError>)
        ensures
            final(self)@.default_hint == old(self)@.default_hint,
            final(self)@.screen_area == old(self)@.screen_area,
            final(self)@.applications == old(self)@.applications,
            match old(self)@.window_index(win_key@) {
                Some(i) => r is Ok && (*(r->Ok_0))@ == old(self)@.windows[i]
                    && final(self)@.windows =~= old(self)@.windows.update(i, (*final(r->Ok_0))@),
                None => r is Err && r->Err_0@ == PixelManagerErrorView::UnknownWindow(win_key@)
                    && final(self)@.windows == old(self)@.windows,
            },
    {
        match self.find_window(win_key) {
            Some(i) => Ok(&mut self.windows[i]),
            None => Err(PixelManagerError::UnknownWindow(win_key.clone())),
        }
    }

    /// The application with the key `app_key`, to be changed in place.
    /// What is written through the reference is what the registry then
    /// holds in the application's place.
    pub fn app_mut(&mut self, app_key: &String) -> (r: Result<&mut Application, PixelManagerError>)
        ensures
            final(self)@.default_hint == old(self)@.default_hint,
            final(self)@.screen_area == old(self)@.screen_area,
            final(self)@.windows == old(self)@.windows,
            match old(self)@.app_index(app_key@) {
                Some(i) => r is Ok && (*(r->Ok_0))@ == old(self)@.applications[i]
                    && final(self)@.applications =~= old(self)@.applications.update(
                    i,
                    (*final(r->Ok_0))@,
                ),
                None => r is Err && r->Err_0@ == PixelManagerErrorView::UnknownApp(app_key@)
                    && final(self)@.applications == old(self)@.applications,
            },
    {
        match self.find_app(app_key) {
            Some(i) => Ok(&mut self.applications[i]),
            None => Err(PixelManagerError::UnknownApp(app_key.clone())),
        }
    }

    /// Adds a window to its application and gives its identifier. Fails
    /// when the application is unknown. A window whose identifier is
    /// already there is not added again.
    pub fn window_add(&mut self, window: Window) -> (r: Result<String, PixelManagerError>)
        ensures
            final(self)@ == old(self)@.window_add(window@),
            match old(self)@.app_index(window@.app_key) {
                Some(i) => r is Ok && r.unwrap()@ == window@.uid,
                None => r is Err && r.unwrap_err()@ == PixelManagerErrorView::UnknownApp(
                    window@.app_key,
                ),
            },
            old(self)@.wf() ==> final(self)@.wf(),
    {
        proof {
            if self@.wf() {
                lemma_window_add_wf(self@, window@);
            }
        }
        let app_key = window.app_key.clone();
        let uid = window.uid.clone();
        let a = match self.find_app(&app_key) {
            Some(a) => a,
            None => {
                return Err(PixelManagerError::UnknownApp(app_key));
            },
        };
        if self.find_window(&uid).is_none() {
            let ghost windows_before = self.windows.deep_view();
            let ghost apps_before = self.applications.deep_view();
            self.windows.push(window);
            self.applications[a].window_add(uid.clone());
            proof {
                assert(self.windows.deep_view() =~= windows_before.push(window@));
                assert(self.applications.deep_view() =~= apps_before.update(
                    a as int,
                    ApplicationView {
                        windows: apps_before[a as int].windows.insert(uid@),
                        ..apps_before[a as int]
                    },
                ));
            }
        }
        Ok(uid)
    }

    /// Removes a window, which its application no longer lists.
    pub fn window_remove(&mut self, win_uid: String)
        ensures
            final(self)@ == old(self)@.window_remove(win_uid@),
            old(self)@.wf() ==> final(self)@.wf(),
    {
        proof {
            if self@.wf() {
                lemma_window_remove_wf(self@, win_uid@);
            }
        }
        let w = match self.find_window(&win_uid) {
            Some(w) => w,
            None => {
                return ;
            },
        };
        let ghost windows_before = self.windows.deep_view();
        let ghost apps_before = self.applications.deep_view();
        let ghost view_before = self@;
        let a = self.find_app(&self.windows[w].app_key);
        let win = self.windows.remove(w);
        proof {
            assert(self.windows.deep_view() =~= windows_before.remove(w as int));
        }
        match a {
            Some(a) => {
                self.applications[a].window_remove(&win_uid);
                proof {
                    assert(self.applications.deep_view() =~= apps_before.update(
                        a as int,
                        ApplicationView {
                            windows: apps_before[a as int].windows.remove(win_uid@),
                            ..apps_before[a as int]
                        },
                    ));
                }
            },
            None => {},
        }
    }

    /// Replaces the data of a window.
    pub fn window_update(&mut self, win_key: &String, data: WindowData) -> (r: Result<
        (),
        PixelManagerError,
    >)
        ensures
            final(self)@ == old(self)@.window_update(win_key@, data@),
            match old(self)@.window_index(win_key@) {
                Some(i) => r is Ok,
                None => r is Err && r.unwrap_err()@ == PixelManagerErrorView::UnknownWindow(
                    win_key@,
                ),
            },
            old(self)@.wf() ==> final(self)@.wf(),
    {
        proof {
            if self@.wf() {
                lemma_window_update_wf(self@, win_key@, data@);
            }
        }
        match self.find_window(win_key) {
            Some(w) => {
                let ghost before = self.windows.deep_view();
                self.windows[w].update(data);
                proof {
                    assert(self.windows.deep_view() =~= before.update(
                        w as int,
                        WindowView { data: data@, ..before[w as int] },
                    ));
                }
                Ok(())
            },
            None => Err(PixelManagerError::UnknownWindow(win_key.clone())),
        }
    }

    fn window_put_hint(&mut self, win_key: &String, hint: Option<Hint>) -> (r: Result<
        (),
        PixelManagerError,
    >)
        ensures
            final(self)@ == old(self)@.window_set_hint(win_key@, hint),
            match old(self)@.window_index(win_key@) {
                Some(i) => r is Ok,
                None => r is Err && r.unwrap_err()@ == PixelManagerErrorView::UnknownWindow(
                    win_key@,
                ),
            },
            old(self)@.wf() ==> final(self)@.wf(),
    {
        proof {
            if self@.wf() && self@.window_index(win_key@) is Some {
                let w = self@.window_index(win_key@).unwrap();
                lemma_window_update_wf(
                    self@,
                    win_key@,
                    WindowDataView { hint, ..self@.windows[w].data },
                );
            }
        }
        match self.find_window(win_key) {
            Some(w) => {
                let ghost before = self.windows.deep_view();
                self.windows[w].data.hint = hint;
                proof {
                    assert(self.windows.deep_view() =~= before.update(
                        w as int,
                        WindowView {
                            data: WindowDataView { hint, ..before[w as int].data },
                            ..before[w as int]
                        },
                    ));
                }
                Ok(())
            },
            None => Err(PixelManagerError::UnknownWindow(win_key.clone())),
        }
    }

    /// Gives a window a hint of its own.
    pub fn window_set_hint(&mut self, win_key: &String, hint: Hint) -> (r: Result<
        (),
        PixelManagerError,
    >)
        ensures
            final(self)@ == old(self)@.window_set_hint(win_key@, Some(hint)),
            match old(self)@.window_index(win_key@) {
                Some(i) => r is Ok,
                None => r is Err && r.unwrap_err()@ == PixelManagerErrorView::UnknownWindow(
                    win_key@,
                ),
            },
            old(self)@.wf() ==> final(self)@.wf(),
    {
        self.window_put_hint(win_key, Some(hint))
    }

    /// Takes the hint of a window away.
    pub fn window_unset_hint(&mut self, win_key: &String) -> (r: Result<(), PixelManagerError>)
        ensures
            final(self)@ == old(self)@.window_set_hint(win_key@, None),
            match old(self)@.window_index(win_key@) {
                Some(i) => r is Ok,
                None => r is Err && r.unwrap_err()@ == PixelManagerErrorView::UnknownWindow(
                    win_key@,
                ),
            },
            old(self)@.wf() ==> final(self)@.wf(),
    {
        self.window_put_hint(win_key, None)
    }

    /// The hint that a window has of its own.
    pub fn window_hint(&self, win_key: &String) -> (r: Result<Option<Hint>, PixelManagerError>)
        ensures
            match self@.window_index(win_key@) {
                Some(i) => r is Ok && r.unwrap() == self@.windows[i].data.hint,
                None => r is Err && r.unwrap_err()@ == PixelManagerErrorView::UnknownWindow(
                    win_key@,
                ),
            },
    {
        match self.window(win_key) {
            Ok(w) => Ok(w.data.hint),
            Err(e) => Err(e),
        }
    }

    /// The hint that a window is rendered with: its own, else that of its
    /// application, else the global default.
    pub fn window_hint_fallback(&self, win_key: &String) -> (r: Result<Hint, PixelManagerError>)
        ensures
            match self@.hint_fallback(win_key@) {
                Ok(hint) => r == Ok::<Hint, PixelManagerError>(hint),
                Err(e) => r is Err && r.unwrap_err()@ == e,
            },
    {
        let win = match self.window(win_key) {
            Ok(w) => w,
            Err(e) => {
                return Err(e);
            },
        };
        match win.data.hint {
            Some(hint) => Ok(hint),
            None => {
                let app = match self.app(&win.app_key) {
                    Ok(a) => a,
                    Err(e) => {
                        return Err(e);
                    },
                };
                match app.default_hint {
                    Some(hint) => Ok(hint),
                    None => Ok(self.default_hint),
                }
            },
        }
    }
}

/// The surfaces that the windows put on a screen of the given area, in the
/// order of the windows.
pub open spec fn spec_surfaces(windows: Seq<WindowView>, screen_area: Rect) -> Seq<SurfaceView>
    decreases windows.len(),
{
    if windows.len() == 0 {
        Seq::empty()
    } else {
        let head = spec_surfaces(windows.drop_last(), screen_area);
        match spec_zsurface(windows.last(), screen_area) {
            Some(s) => head.push(s),
            None => head,
        }
    }
}

impl ManagerView {
    /// The surfaces of the windows that are visible and on screen.
    pub open spec fn surfaces(self) -> Seq<SurfaceView> {
        spec_surfaces(self.windows, self.screen_area)
    }

    /// What is visible of the windows once they are stacked by z-index:
    /// one entry for each window that is not wholly hidden, lowest first.
    pub open spec fn stack(self) -> Seq<SurfaceView> {
        spec_flatten(spec_build(self.surfaces()))
    }

    /// The entries with the hint of the window that each refers to; the
    /// error of the first entry whose hint cannot be had.
    pub open spec fn rect_hints(self, entries: Seq<SurfaceView>) -> Result<
        Seq<RectHint>,
        PixelManagerErrorView,
    >
        decreases entries.len(),
    {
        if entries.len() == 0 {
            Ok(Seq::empty())
        } else {
            match self.rect_hints(entries.drop_last()) {
                Err(e) => Err(e),
                Ok(hints) => match self.hint_fallback(entries.last().reference) {
                    Err(e) => Err(e),
                    Ok(hint) => Ok(hints.push(RectHint { rect: entries.last().area, hint })),
                },
            }
        }
    }

    /// The rectangles and hints that the driver is to be told.
    pub open spec fn compute_hints(self) -> Result<Seq<RectHint>, PixelManagerErrorView> {
        self.rect_hints(self.stack())
    }

    /// The entry shows what is visible of some window.
    pub open spec fn shown(self, entry: SurfaceView) -> bool {
        exists|w: int| self.shows(entry, w)
    }

    /// The entry shows what is visible of the window at `w`.
    pub open spec fn shows(self, entry: SurfaceView, w: int) -> bool {
        &&& 0 <= w < self.windows.len()
        &&& self.windows[w].data.visible
        &&& self.windows[w].uid == entry.reference
        &&& self.windows[w].data.z_index == entry.z_index
        &&& self.windows[w].data.area.spec_cover(entry.area)
        &&& self.screen_area.spec_cover(entry.area)
    }
}

/// Every surface comes from a window that is visible and lies within both
/// the window and the screen; there are no more surfaces than windows.
pub proof fn lemma_surfaces(view: ManagerView, windows: Seq<WindowView>)
    ensures
        spec_surfaces(windows, view.screen_area).len() <= windows.len(),
        forall|k: int|
            0 <= k < spec_surfaces(windows, view.screen_area).len() ==> exists|w: int|
                0 <= w < windows.len() && spec_zsurface(#[trigger] windows[w], view.screen_area)
                    == Some(#[trigger] spec_surfaces(windows, view.screen_area)[k]),
        (forall|w: int| 0 <= w < windows.len() ==> !(#[trigger] windows[w]).data.visible)
            ==> spec_surfaces(windows, view.screen_area).len() == 0,
    decreases windows.len(),
{
    if windows.len() > 0 {
        let head = windows.drop_last();
        lemma_surfaces(view, head);
        let a = spec_surfaces(head, view.screen_area);
        let out = spec_surfaces(windows, view.screen_area);
        assert forall|k: int| 0 <= k < out.len() implies exists|w: int|
            0 <= w < windows.len() && spec_zsurface(#[trigger] windows[w], view.screen_area)
                == Some(#[trigger] out[k]) by {
            if k < a.len() {
                assert(out[k] == a[k]);
                let w = choose|w: int|
                    0 <= w < head.len() && spec_zsurface(#[trigger] head[w], view.screen_area)
                        == Some(a[k]);
                assert(windows[w] == head[w]);
            } else {
                assert(spec_zsurface(windows[windows.len() - 1], view.screen_area) == Some(out[k]));
            }
        }
        if forall|w: int| 0 <= w < windows.len() ==> !(#[trigger] windows[w]).data.visible {
            assert forall|w: int| 0 <= w < head.len() implies !(#[trigger] head[w]).data.visible by {
                assert(head[w] == windows[w]);
            }
            assert(!windows[windows.len() - 1].data.visible);
        }
    }
}

/// The hints of a list of entries stand one for one for the entries.
pub proof fn lemma_rect_hints(view: ManagerView, entries: Seq<SurfaceView>)
    ensures
        view.rect_hints(entries) matches Ok(hints) ==> hints.len() == entries.len() && forall|
            k: int,
        |
            0 <= k < entries.len() ==> (#[trigger] hints[k]).rect == entries[k].area
                && view.hint_fallback(entries[k].reference) == Ok::<Hint, PixelManagerErrorView>(
                hints[k].hint,
            ),
        (forall|k: int|
            0 <= k < entries.len() ==> view.hint_fallback((#[trigger] entries[k]).reference) is Ok)
            ==> view.rect_hints(entries) is Ok,
    decreases entries.len(),
{
    if entries.len() > 0 {
        let head = entries.drop_last();
        lemma_rect_hints(view, head);
        if forall|k: int|
            0 <= k < entries.len() ==> view.hint_fallback((#[trigger] entries[k]).reference) is Ok {
            assert forall|k: int| 0 <= k < head.len() implies view.hint_fallback(
                (#[trigger] head[k]).reference,
            ) is Ok by {
                assert(head[k] == entries[k]);
            }
            assert(view.hint_fallback(entries[entries.len() - 1].reference) is Ok);
        }
        if view.rect_hints(entries) is Ok {
            let hints = view.rect_hints(entries)->Ok_0;
            let before = view.rect_hints(head)->Ok_0;
            assert forall|k: int| 0 <= k < entries.len() implies (#[trigger] hints[k]).rect
                == entries[k].area && view.hint_fallback(entries[k].reference) == Ok::<
                Hint,
                PixelManagerErrorView,
            >(hints[k].hint) by {
                if k < head.len() {
                    assert(hints[k] == before[k]);
                    assert(head[k] == entries[k]);
                }
            }
        }
    }
}

/// The first entry whose hint cannot be had decides the error.
proof fn lemma_rect_hints_err(view: ManagerView, entries: Seq<SurfaceView>, k: int, n: int)
    requires
        0 <= k < n <= entries.len(),
        view.rect_hints(entries.take(k)) is Ok,
        view.hint_fallback(entries[k].reference) is Err,
    ensures
        view.rect_hints(entries.take(n)) == Err::<Seq<RectHint>, PixelManagerErrorView>(
            view.hint_fallback(entries[k].reference)->Err_0,
        ),
    decreases n - k,
{
    assert(entries.take(n).drop_last() =~= entries.take(n - 1));
    assert(entries.take(n).last() == entries[n - 1]);
    if n > k + 1 {
        lemma_rect_hints_err(view, entries, k, n - 1);
    }
}

/// What the stack of a manager is made of: no more entries than there are
/// windows visible and on screen, in ascending order of z-index, each of
/// them showing a window of the registry within the screen. Where the
/// registry holds together, the hint of every entry can be had. Without a
/// visible window the stack is empty.
pub proof fn lemma_stack(view: ManagerView)
    ensures
        view.stack().len() <= view.surfaces().len() <= view.windows.len(),
        spec_sorted(view.stack()),
        forall|k: int| 0 <= k < view.stack().len() ==> view.shown(#[trigger] view.stack()[k]),
        view.wf() ==> view.compute_hints() is Ok,
        (forall|w: int| 0 <= w < view.windows.len() ==> !(#[trigger] view.windows[w]).data.visible)
            ==> view.stack().len() == 0 && view.compute_hints() == Ok::<
            Seq<RectHint>,
            PixelManagerErrorView,
        >(Seq::empty()),
{
    let surfaces = view.surfaces();
    let stack = view.stack();
    lemma_surfaces(view, view.windows);
    lemma_build_flatten(surfaces);
    assert forall|k: int| 0 <= k < stack.len() implies view.shown(#[trigger] stack[k]) by {
        let i = choose|i: int| 0 <= i < surfaces.len() && entry_from(stack[k], #[trigger] surfaces[i]);
        let w = choose|w: int|
            0 <= w < view.windows.len() && spec_zsurface(#[trigger] view.windows[w], view.screen_area)
                == Some(surfaces[i]);
        assert(view.shows(stack[k], w));
    }
    if view.wf() {
        assert forall|k: int| 0 <= k < stack.len() implies view.hint_fallback(
            (#[trigger] stack[k]).reference,
        ) is Ok by {
            assert(view.shown(stack[k]));
            let w = choose|w: int| view.shows(stack[k], w);
            lemma_first_window(view, stack[k].reference, w);
            let f = view.window_index(stack[k].reference).unwrap();
            assert(view.has_app(view.windows[f].app_key));
            lemma_index(view, view.windows[f].app_key);
        }
        lemma_rect_hints(view, stack);
    }
}

impl PixelManager {
    /// The rectangles and hints for the driver: one rectangle for each
    /// window of which something is visible, lowest window first, with the
    /// hint that the window is rendered with.
    pub fn compute_hints(&self) -> (r: Result<ComputedHints, PixelManagerError>)
        ensures
            match self@.compute_hints() {
                Ok(hints) => r is Ok && r.unwrap().default_hint == Some(self@.default_hint)
                    && r.unwrap().rect_hints@ == hints,
                Err(e) => r is Err && r.unwrap_err()@ == e,
            },
            self@.wf() ==> r is Ok,
            r matches Ok(c) ==> {
                &&& c.rect_hints@.len() == self@.stack().len()
                &&& c.rect_hints@.len() <= self@.surfaces().len()
                &&& spec_sorted(self@.stack())
                &&& forall|k: int|
                    0 <= k < c.rect_hints@.len() ==> (#[trigger] c.rect_hints@[k]).rect
                        == self@.stack()[k].area && self@.screen_area.spec_cover(
                        c.rect_hints@[k].rect,
                    ) && self@.hint_fallback(self@.stack()[k].reference) == Ok::<
                        Hint,
                        PixelManagerErrorView,
                    >(c.rect_hints@[k].hint) && self@.shown(self@.stack()[k])
            },
            (forall|w: int|
                0 <= w < self@.windows.len() ==> !(#[trigger] self@.windows[w]).data.visible) ==> r
                is Ok && r.unwrap().rect_hints@.len() == 0,
    {
        let ghost view = self@;
        proof {
            lemma_stack(view);
            lemma_rect_hints(view, view.stack());
        }
        let mut tree = ZTree::new();
        let mut i: usize = 0;
        proof {
            assert(view.windows.take(0) =~= Seq::<WindowView>::empty());
        }
        while i < self.windows.len()
            invariant
                i <= self.windows.len(),
                self@ == view,
                view.windows.len() == self.windows.len(),
                tree@ == spec_build(spec_surfaces(view.windows.take(i as int), view.screen_area)),
            decreases self.windows.len() - i,
        {
            proof {
                assert(view.windows.take(i + 1).drop_last() =~= view.windows.take(i as int));
                assert(view.windows.take(i + 1).last() == self.windows[i as int]@);
                let before = spec_surfaces(view.windows.take(i as int), view.screen_area);
                let after = spec_surfaces(view.windows.take(i + 1), view.screen_area);
                if spec_zsurface(self.windows[i as int]@, view.screen_area) is Some {
                    assert(after.drop_last() =~= before);
                }
            }
            match self.windows[i].zsurface(&self.screen_area) {
                Some(surface) => {
                    tree.insert(surface);
                },
                None => {},
            }
            i += 1;
        }
        proof {
            assert(view.windows.take(i as int) =~= view.windows);
        }
        let surfaces = tree.flatten();
        let ghost stack = view.stack();
        assert(surfaces.deep_view() == stack);
        let mut rect_hints: Vec<RectHint> = Vec::new();
        let mut k: usize = 0;
        proof {
            assert(stack.take(0) =~= Seq::<SurfaceView>::empty());
        }
        while k < surfaces.len()
            invariant
                k <= surfaces.len(),
                self@ == view,
                surfaces.deep_view() == stack,
                stack == view.stack(),
                stack.len() == surfaces.len(),
                view.rect_hints(stack.take(k as int)) == Ok::<Seq<RectHint>, PixelManagerErrorView>(
                    rect_hints@,
                ),
            decreases surfaces.len() - k,
        {
            proof {
                assert(stack.take(k + 1).drop_last() =~= stack.take(k as int));
                assert(stack.take(k + 1).last() == stack[k as int]);
                assert(stack[k as int] == surfaces[k as int]@);
            }
            let hint = match self.window_hint_fallback(&surfaces[k].reference) {
                Ok(hint) => hint,
                Err(e) => {
                    proof {
                        lemma_rect_hints_err(view, stack, k as int, stack.len() as int);
                        assert(stack.take(stack.len() as int) =~= stack);
                        lemma_stack(view);
                    }
                    return Err(e);
                },
            };
            rect_hints.push(RectHint { rect: surfaces[k].area, hint });
            k += 1;
        }
        proof {
            assert(stack.take(k as int) =~= stack);
        }
        Ok(ComputedHints { default_hint: Some(self.default_hint), rect_hints })
    }
}

} // verus!
