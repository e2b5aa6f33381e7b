//! The dispatcher: it owns the registry, applies one command at a time and
//! says what is to be replied and what is to be handed to the driver.

use vstd::prelude::*;
use vstd::string::*;
use crate::pixel_manager::invariants::{
    lemma_app_add_wf, lemma_app_remove_wf, lemma_drop_windows_members, lemma_window_add_wf,
    lemma_window_remove_wf, lemma_window_update_wf,
};
use crate::pixel_manager::{
    ApplicationView, ComputedHints, ManagerView, PixelManager, WindowData, WindowDataView,
    WindowView, fresh_uid, lemma_index, lemma_stack, spec_app_key,
};
use crate::types::rect::Rect;
use crate::types::rockchip_ebc::Hint;
use crate::types::ztree::spec_sorted;
use super::command::{Application, Command, Property, Window, WindowUpdate, spec_area_ok, validate_rect};

verus! {

/// Why a command was refused. A refused command changes nothing.
#[derive(Debug, PartialEq)]
pub enum DispatchError {
    /// A rectangle that no window may have, or a negative process id.
    InvalidArgs,
    /// No application has this key.
    UnknownApp(String),
    /// No window has this identifier.
    UnknownWindow(String),
}

/// A refusal as contracts see it.
pub enum DispatchErrorView {
    InvalidArgs,
    UnknownApp(Seq<char>),
    UnknownWindow(Seq<char>),
}

impl View for DispatchError {
    type V = DispatchErrorView;

    open spec fn view(&self) -> DispatchErrorView {
        match self {
            DispatchError::InvalidArgs => DispatchErrorView::InvalidArgs,
            DispatchError::UnknownApp(key) => DispatchErrorView::UnknownApp(key@),
            DispatchError::UnknownWindow(uid) => DispatchErrorView::UnknownWindow(uid@),
        }
    }
}

/// What is replied to whoever sent the command.
#[derive(Debug, PartialEq)]
pub enum Reply {
    /// The command asks for no answer.
    Done,
    /// The key of the application, or the identifier of the window, that
    /// was added.
    Key(String),
    /// The global default hint.
    DefaultHint(Hint),
}

/// A reply as contracts see it.
pub enum ReplyView {
    Done,
    Key(Seq<char>),
    DefaultHint(Hint),
}

impl View for Reply {
    type V = ReplyView;

    open spec fn view(&self) -> ReplyView {
        match self {
            Reply::Done => ReplyView::Done,
            Reply::Key(key) => ReplyView::Key(key@),
            Reply::DefaultHint(hint) => ReplyView::DefaultHint(*hint),
        }
    }
}

/// What a command led to: the reply, and the hints to hand to the driver
/// where the command may have changed what is on screen.
#[derive(Debug)]
pub struct Outcome {
    pub reply: Result<Reply, DispatchError>,
    pub upload: Option<ComputedHints>,
}

/// What a command does, as contracts see it.
pub struct Step {
    /// The registry after the command.
    pub next: ManagerView,
    pub reply: Result<ReplyView, DispatchErrorView>,
    /// Whether the hints are computed anew and handed to the driver.
    pub recompute: bool,
}

/// The data of a window after an update: what the update gives, and for
/// the rest what the window had.
pub open spec fn spec_merge(data: WindowDataView, update: WindowUpdate) -> WindowDataView {
    WindowDataView {
        title: match update.title {
            Some(title) => title@,
            None => data.title,
        },
        area: match update.area {
            Some(area) => area,
            None => data.area,
        },
        hint: match update.hint {
            Some(hint) => hint,
            None => data.hint,
        },
        visible: match update.visible {
            Some(visible) => visible,
            None => data.visible,
        },
        z_index: match update.z_index {
            Some(z_index) => z_index,
            None => data.z_index,
        },
    }
}

/// A command that is refused: nothing changes and nothing is computed.
pub open spec fn spec_refuse(view: ManagerView, error: DispatchErrorView) -> Step {
    Step { next: view, reply: Err(error), recompute: false }
}

/// What the command `cmd` does to the registry `view`. A window that is
/// added gets the identifier `uid`.
///
/// Adding an application and asking for the default hint leave the screen
/// as it is. Every other command that is not refused has the hints
/// computed anew.
pub open spec fn spec_step(view: ManagerView, cmd: Command, uid: Seq<char>) -> Step {
    match cmd {
        Command::Application(Application::Add(pid)) => if pid < 0 {
            spec_refuse(view, DispatchErrorView::InvalidArgs)
        } else {
            Step {
                next: view.app_add(
                    ApplicationView {
                        app_id: Seq::empty(),
                        pid,
                        default_hint: None,
                        windows: Set::empty(),
                    },
                ),
                reply: Ok(ReplyView::Key(spec_app_key(Seq::empty(), pid))),
                recompute: false,
            }
        },
        Command::Application(Application::Remove(key)) => Step {
            next: view.app_remove(key@),
            reply: Ok(ReplyView::Done),
            recompute: true,
        },
        Command::Property(Property::DefaultHint) => Step {
            next: view,
            reply: Ok(ReplyView::DefaultHint(view.default_hint)),
            recompute: false,
        },
        Command::Property(Property::SetDefaultHint(hint)) => Step {
            next: ManagerView { default_hint: hint, ..view },
            reply: Ok(ReplyView::Done),
            recompute: true,
        },
        Command::Recompute => Step { next: view, reply: Ok(ReplyView::Done), recompute: true },
        Command::Window(Window::Add { app_key, title, area, hint, visible, z_index }) => if !spec_area_ok(
            area,
        ) {
            spec_refuse(view, DispatchErrorView::InvalidArgs)
        } else if view.app_index(app_key@) is None {
            spec_refuse(view, DispatchErrorView::UnknownApp(app_key@))
        } else {
            Step {
                next: view.window_add(
                    WindowView {
                        uid,
                        app_key: app_key@,
                        data: WindowDataView { title: title@, area, hint, visible, z_index },
                    },
                ),
                reply: Ok(ReplyView::Key(uid)),
                recompute: true,
            }
        },
        Command::Window(Window::Update { win_key, update }) => if update.area is Some
            && !spec_area_ok(update.area->0) {
            spec_refuse(view, DispatchErrorView::InvalidArgs)
        } else {
            match view.window_index(win_key@) {
                None => spec_refuse(view, DispatchErrorView::UnknownWindow(win_key@)),
                Some(w) => Step {
                    next: view.window_update(win_key@, spec_merge(view.windows[w].data, update)),
                    reply: Ok(ReplyView::Done),
                    recompute: true,
                },
            }
        },
        Command::Window(Window::Remove(key)) => Step {
            next: view.window_remove(key@),
            reply: Ok(ReplyView::Done),
            recompute: true,
        },
    }
}

/// The registry holds together, and every window has an area that a
/// window may have.
pub open spec fn spec_ctl_wf(view: ManagerView) -> bool {
    &&& view.wf()
    &&& forall|w: int| 0 <= w < view.windows.len() ==> spec_area_ok((#[trigger] view.windows[w]).data.area)
}

/// No command breaks the registry.
pub proof fn lemma_step_wf(view: ManagerView, cmd: Command, uid: Seq<char>)
    requires
        spec_ctl_wf(view),
    ensures
        spec_ctl_wf(spec_step(view, cmd, uid).next),
{
    let next = spec_step(view, cmd, uid).next;
    match cmd {
        Command::Application(Application::Add(pid)) => {
            if pid >= 0 {
                lemma_app_add_wf(
                    view,
                    ApplicationView {
                        app_id: Seq::empty(),
                        pid,
                        default_hint: None,
                        windows: Set::empty(),
                    },
                );
            }
        },
        Command::Application(Application::Remove(key)) => {
            lemma_app_remove_wf(view, key@);
            lemma_index(view, key@);
            if view.app_index(key@) is Some {
                let i = view.app_index(key@).unwrap();
                lemma_drop_windows_members(view.windows, view.applications[i].windows);
                assert forall|w: int| 0 <= w < next.windows.len() implies spec_area_ok(
                    (#[trigger] next.windows[w]).data.area,
                ) by {
                    let o = choose|o: int|
                        0 <= o < view.windows.len() && #[trigger] view.windows[o] == next.windows[w];
                }
            }
        },
        Command::Property(Property::DefaultHint) => {},
        Command::Property(Property::SetDefaultHint(hint)) => {
            lemma_default_hint_wf(view, hint);
        },
        Command::Recompute => {},
        Command::Window(Window::Add { app_key, title, area, hint, visible, z_index }) => {
            let window = WindowView {
                uid,
                app_key: app_key@,
                data: WindowDataView { title: title@, area, hint, visible, z_index },
            };
            if spec_area_ok(area) && view.app_index(app_key@) is Some {
                lemma_window_add_wf(view, window);
                assert forall|w: int| 0 <= w < next.windows.len() implies spec_area_ok(
                    (#[trigger] next.windows[w]).data.area,
                ) by {
                    if w < view.windows.len() {
                        assert(next.windows[w] == view.windows[w]);
                    }
                }
            }
        },
        Command::Window(Window::Update { win_key, update }) => {
            lemma_index(view, win_key@);
            if !(update.area is Some && !spec_area_ok(update.area->0)) && view.window_index(win_key@)
                is Some {
                let i = view.window_index(win_key@).unwrap();
                lemma_window_update_wf(view, win_key@, spec_merge(view.windows[i].data, update));
                assert forall|w: int| 0 <= w < next.windows.len() implies spec_area_ok(
                    (#[trigger] next.windows[w]).data.area,
                ) by {
                    if w != i {
                        assert(next.windows[w] == view.windows[w]);
                    } else {
                        assert(spec_area_ok(view.windows[i].data.area));
                    }
                }
            }
        },
        Command::Window(Window::Remove(key)) => {
            lemma_window_remove_wf(view, key@);
            lemma_index(view, key@);
            if view.window_index(key@) is Some {
                let i = view.window_index(key@).unwrap();
                assert forall|w: int| 0 <= w < next.windows.len() implies spec_area_ok(
                    (#[trigger] next.windows[w]).data.area,
                ) by {
                    assert(next.windows[w] == view.windows[if w < i {
                        w
                    } else {
                        w + 1
                    }]);
                }
            }
        },
    }
}

/// The registry after a run of commands, applied one after the other. The
/// window that the command at `k` adds, if it adds one, gets the
/// identifier `uids[k]`.
pub open spec fn spec_run(view: ManagerView, cmds: Seq<Command>, uids: Seq<Seq<char>>) -> ManagerView
    recommends
        uids.len() == cmds.len(),
    decreases cmds.len(),
{
    if cmds.len() == 0 {
        view
    } else {
        spec_step(spec_run(view, cmds.drop_last(), uids.drop_last()), cmds.last(), uids.last()).next
    }
}

/// Whatever commands come, in whatever order, and whether they are
/// refused or not: the registry holds together after them, its hints can
/// be computed, and there are no more rectangles among them than windows
/// visible and on screen, each within the screen, in ascending order of
/// the z-index of the window that it shows.
pub proof fn lemma_run(view: ManagerView, cmds: Seq<Command>, uids: Seq<Seq<char>>)
    requires
        spec_ctl_wf(view),
        uids.len() == cmds.len(),
    ensures
        spec_ctl_wf(spec_run(view, cmds, uids)),
        spec_run(view, cmds, uids).compute_hints() is Ok,
        spec_run(view, cmds, uids).stack().len() <= spec_run(view, cmds, uids).surfaces().len(),
        spec_sorted(spec_run(view, cmds, uids).stack()),
        forall|k: int|
            0 <= k < spec_run(view, cmds, uids).stack().len() ==> spec_run(view, cmds, uids).shown(
                #[trigger] spec_run(view, cmds, uids).stack()[k],
            ),
    decreases cmds.len(),
{
    if cmds.len() > 0 {
        lemma_run(view, cmds.drop_last(), uids.drop_last());
        lemma_step_wf(spec_run(view, cmds.drop_last(), uids.drop_last()), cmds.last(), uids.last());
    }
    lemma_stack(spec_run(view, cmds, uids));
}

/// The global default hint is no part of what holds the registry together.
pub proof fn lemma_default_hint_wf(view: ManagerView, hint: Hint)
    requires
        view.wf(),
    ensures
        (ManagerView { default_hint: hint, ..view }).wf(),
{
    let next = ManagerView { default_hint: hint, ..view };
    assert forall|w: int| 0 <= w < next.windows.len() implies next.has_app(
        (#[trigger] next.windows[w]).app_key,
    ) by {
        assert(view.has_app(view.windows[w].app_key));
        let a = choose|a: int|
            0 <= a < view.applications.len() && (#[trigger] view.applications[a]).key()
                == view.windows[w].app_key;
        assert(next.applications[a].key() == next.windows[w].app_key);
    }
    assert forall|a: int, x: Seq<char>| 0 <= a < next.applications.len() implies (
    #[trigger] next.applications[a].windows.contains(x) <==> next.owns(
        next.applications[a].key(),
        x,
    )) by {
        let k = view.applications[a].key();
        assert(view.applications[a].windows.contains(x) <==> view.owns(k, x));
        if view.owns(k, x) {
            let v = choose|v: int|
                0 <= v < view.windows.len() && (#[trigger] view.windows[v]).uid == x
                    && view.windows[v].app_key == k;
            assert(next.windows[v].uid == x && next.windows[v].app_key == k);
        }
        if next.owns(k, x) {
            let v = choose|v: int|
                0 <= v < next.windows.len() && (#[trigger] next.windows[v]).uid == x
                    && next.windows[v].app_key == k;
            assert(view.windows[v].uid == x && view.windows[v].app_key == k);
        }
    }
}

/// The hints for the driver as the registry stands.
fn recompute_hints(pm: &PixelManager) -> (r: Option<ComputedHints>)
    requires
        spec_ctl_wf(pm@),
    ensures
        pm@.compute_hints() is Ok,
        r is Some,
        r.unwrap().default_hint == Some(pm@.default_hint),
        r.unwrap().rect_hints@ == pm@.compute_hints()->Ok_0,
{
    proof {
        lemma_stack(pm@);
    }
    match pm.compute_hints() {
        Ok(hints) => Some(hints),
        Err(_) => None,
    }
}

/// Applies one command to the registry.
fn step(pm: &mut PixelManager, cmd: Command, uid: String) -> (out: Outcome)
    requires
        spec_ctl_wf(old(pm)@),
    ensures
        final(pm)@ == spec_step(old(pm)@, cmd, uid@).next,
        match spec_step(old(pm)@, cmd, uid@).reply {
            Ok(reply) => out.reply is Ok && out.reply.unwrap()@ == reply,
            Err(error) => out.reply is Err && out.reply.unwrap_err()@ == error,
        },
        out.upload is Some == spec_step(old(pm)@, cmd, uid@).recompute,
        out.upload matches Some(hints) ==> final(pm)@.compute_hints() is Ok && hints.default_hint
            == Some(final(pm)@.default_hint) && hints.rect_hints@ == final(pm)@.compute_hints()->Ok_0,
        spec_ctl_wf(final(pm)@),
{
    proof {
        lemma_step_wf(pm@, cmd, uid@);
    }
    match cmd {
        Command::Application(Application::Add(pid)) => {
            if pid < 0 {
                return Outcome { reply: Err(DispatchError::InvalidArgs), upload: None };
            }
            let app = crate::pixel_manager::Application::new("", pid);
            proof {
                reveal_strlit("");
                assert(""@ =~= Seq::<char>::empty());
            }
            let key = pm.app_add(app);
            Outcome { reply: Ok(Reply::Key(key)), upload: None }
        },
        Command::Application(Application::Remove(key)) => {
            pm.app_remove(&key);
            Outcome { reply: Ok(Reply::Done), upload: recompute_hints(pm) }
        },
        Command::Property(Property::DefaultHint) => {
            Outcome {
                reply: Ok(Reply::DefaultHint(pm.default_hint())),
                upload: None,
            }
        },
        Command::Property(Property::SetDefaultHint(hint)) => {
            pm.set_default_hint(hint);
            Outcome { reply: Ok(Reply::Done), upload: recompute_hints(pm) }
        },
        Command::Recompute => {
            Outcome { reply: Ok(Reply::Done), upload: recompute_hints(pm) }
        },
        Command::Window(Window::Add { app_key, title, area, hint, visible, z_index }) => {
            let area = match validate_rect(area) {
                Ok(area) => area,
                Err(_) => {
                    return Outcome { reply: Err(DispatchError::InvalidArgs), upload: None };
                },
            };
            let window = crate::pixel_manager::Window::with_uid(
                uid,
                app_key.as_str(),
                title.as_str(),
                area,
                hint,
                visible,
                z_index,
            );
            match pm.window_add(window) {
                Ok(key) => Outcome { reply: Ok(Reply::Key(key)), upload: recompute_hints(pm) },
                Err(_) => Outcome { reply: Err(DispatchError::UnknownApp(app_key)), upload: None },
            }
        },
        Command::Window(Window::Update { win_key, update }) => {
            match update.area {
                Some(area) => {
                    if validate_rect(area).is_err() {
                        return Outcome { reply: Err(DispatchError::InvalidArgs), upload: None };
                    }
                },
                None => {},
            }
            let data = match pm.window(&win_key) {
                Ok(win) => {
                    let old_data = win.data();
                    let WindowUpdate { title, area, hint, visible, z_index } = update;
                    WindowData {
                        title: match title {
                            Some(title) => title,
                            None => old_data.title.clone(),
                        },
                        area: match area {
                            Some(area) => area,
                            None => old_data.area,
                        },
                        hint: match hint {
                            Some(hint) => hint,
                            None => old_data.hint,
                        },
                        visible: match visible {
                            Some(visible) => visible,
                            None => old_data.visible,
                        },
                        z_index: match z_index {
                            Some(z_index) => z_index,
                            None => old_data.z_index,
                        },
                    }
                },
                Err(_) => {
                    return Outcome {
                        reply: Err(DispatchError::UnknownWindow(win_key)),
                        upload: None,
                    };
                },
            };
            let _ = pm.window_update(&win_key, data);
            Outcome { reply: Ok(Reply::Done), upload: recompute_hints(pm) }
        },
        Command::Window(Window::Remove(key)) => {
            pm.window_remove(key);
            Outcome { reply: Ok(Reply::Done), upload: recompute_hints(pm) }
        },
    }
}

/// The dispatcher. It alone owns the registry.
#[derive(Debug)]
pub struct Ctl {
    pixel_manager: PixelManager,
}

impl View for Ctl {
    type V = ManagerView;

    closed spec fn view(&self) -> ManagerView {
        self.pixel_manager@
    }
}

impl Ctl {
    #[verifier::type_invariant]
    closed spec fn inv(&self) -> bool {
        spec_ctl_wf(self@)
    }

    /// A dispatcher with an empty registry.
    pub fn new(default_hint: Hint, screen_area: Rect) -> (r: Self)
        ensures
            r@ == (ManagerView {
                default_hint,
                screen_area,
                applications: Seq::empty(),
                windows: Seq::empty(),
            }),
    {
        Self { pixel_manager: PixelManager::new(default_hint, screen_area) }
    }

    /// The registry.
    pub fn pixel_manager(&self) -> (r: &PixelManager)
        ensures
            r@ == self@,
            spec_ctl_wf(r@),
    {
        proof {
            use_type_invariant(self);
        }
        &self.pixel_manager
    }

    /// Applies one command. A window that the command adds gets the
    /// identifier `uid`.
    ///
    /// A command that is refused changes nothing. Otherwise the registry
    /// is changed as the command says, and where that may have changed
    /// what is on screen, the outcome holds the hints computed from the
    /// registry as it then stands.
    pub fn apply(&mut self, cmd: Command, uid: String) -> (out: Outcome)
        ensures
            final(self)@ == spec_step(old(self)@, cmd, uid@).next,
            match spec_step(old(self)@, cmd, uid@).reply {
                Ok(reply) => out.reply is Ok && out.reply.unwrap()@ == reply,
                Err(error) => out.reply is Err && out.reply.unwrap_err()@ == error,
            },
            out.upload is Some == spec_step(old(self)@, cmd, uid@).recompute,
            out.upload matches Some(hints) ==> final(self)@.compute_hints() is Ok
                && hints.default_hint == Some(final(self)@.default_hint) && hints.rect_hints@
                == final(self)@.compute_hints()->Ok_0,
            spec_ctl_wf(old(self)@),
            spec_ctl_wf(final(self)@),
    {
        proof {
            use_type_invariant(&*self);
        }
        let mut pm = PixelManager::new(
            self.pixel_manager.default_hint(),
            self.pixel_manager.screen_area(),
        );
        core::mem::swap(&mut self.pixel_manager, &mut pm);
        let out = step(&mut pm, cmd, uid);
        self.pixel_manager = pm;
        out
    }

    /// Applies one command. A window that the command adds gets a fresh
    /// identifier, which the reply holds.
    pub fn dispatch(&mut self, cmd: Command) -> (out: Outcome)
        ensures
            exists|uid: Seq<char>|
                {
                    &&& final(self)@ == (#[trigger] spec_step(old(self)@, cmd, uid)).next
                    &&& match spec_step(old(self)@, cmd, uid).reply {
                        Ok(reply) => out.reply is Ok && out.reply.unwrap()@ == reply,
                        Err(error) => out.reply is Err && out.reply.unwrap_err()@ == error,
                    }
                    &&& out.upload is Some == spec_step(old(self)@, cmd, uid).recompute
                },
            out.upload matches Some(hints) ==> final(self)@.compute_hints() is Ok
                && hints.default_hint == Some(final(self)@.default_hint) && hints.rect_hints@
                == final(self)@.compute_hints()->Ok_0,
            spec_ctl_wf(old(self)@),
            spec_ctl_wf(final(self)@),
    {
        let uid = match &cmd {
            Command::Window(Window::Add { .. }) => fresh_uid(),
            _ => String::new(),
        };
        let ghost before = self@;
        let out = self.apply(cmd, uid);
        proof {
            assert(self@ == spec_step(before, cmd, uid@).next);
        }
        out
    }
}

} // verus!
