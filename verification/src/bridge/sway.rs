//! Windows as sway reports them.

use vstd::prelude::*;
use vstd::string::*;
use crate::ebc::command::WindowUpdate;
use crate::ebc::ctl::spec_merge;
use crate::pixel_manager::WindowDataView;
use crate::text::{nth_piece, spec_split, spec_starts_with, starts_with};
use crate::types::rect::Rect;
use crate::types::rockchip_ebc::{Hint, spec_parse_human};

verus! {

/// A node of sway's tree is no window.
#[derive(Clone, Copy, Debug, PartialEq, Eq, Structural)]
pub struct SwayWindowError;

/// What a node of sway's tree says of itself, as far as it matters here.
#[derive(Debug)]
pub struct NodeInfo {
    pub id: i64,
    /// The node has a shell, as windows do.
    pub has_shell: bool,
    pub visible: Option<bool>,
    pub pid: Option<i32>,
    pub x: i32,
    pub y: i32,
    pub width: i32,
    pub height: i32,
    /// The height of the title bar.
    pub deco_height: i32,
    /// The node is a floating container.
    pub floating: bool,
    /// The node has a normal border, which shows a title bar.
    pub border_normal: bool,
    pub name: Option<String>,
    pub marks: Vec<String>,
    pub fullscreen_mode: Option<u8>,
}

/// A window of sway.
#[derive(Debug)]
pub struct SwayWindow {
    pub id: i64,
    pub pid: i32,
    pub title: String,
    pub area: Rect,
    pub visible: bool,
    pub floating: bool,
    pub fullscreen: bool,
    pub hint: Option<Hint>,
    pub z_index: i32,
}

/// A window of sway as contracts see it.
pub struct SwayWindowView {
    pub id: i64,
    pub pid: i32,
    pub title: Seq<char>,
    pub area: Rect,
    pub visible: bool,
    pub floating: bool,
    pub fullscreen: bool,
    pub hint: Option<Hint>,
    pub z_index: i32,
}

impl View for SwayWindow {
    type V = SwayWindowView;

    open spec fn view(&self) -> SwayWindowView {
        SwayWindowView {
            id: self.id,
            pid: self.pid,
            title: self.title@,
            area: self.area,
            visible: self.visible,
            floating: self.floating,
            fullscreen: self.fullscreen,
            hint: self.hint,
            z_index: self.z_index,
        }
    }
}

impl DeepView for SwayWindow {
    type V = SwayWindowView;

    open spec fn deep_view(&self) -> SwayWindowView {
        self@
    }
}

impl SwayWindowView {
    /// What the registry keeps of the window.
    pub open spec fn data(self) -> WindowDataView {
        WindowDataView {
            title: self.title,
            area: self.area,
            hint: self.hint,
            visible: self.visible,
            z_index: self.z_index,
        }
    }
}

/// The rectangle with the corner `(x, y)`, `width` wide and `height` high,
/// where its far corner can be written.
pub open spec fn spec_from_xywh(x: i32, y: i32, width: i32, height: i32) -> Option<Rect> {
    if i32::MIN <= x + width <= i32::MAX && i32::MIN <= y + height <= i32::MAX {
        Some(Rect { x1: x, y1: y, x2: (x + width) as i32, y2: (y + height) as i32 })
    } else {
        None
    }
}

/// The rectangle with the corner `(x, y)`, `width` wide and `height` high.
/// `None` when its far corner cannot be written.
pub fn from_xywh(x: i32, y: i32, width: i32, height: i32) -> (r: Option<Rect>)
    ensures
        r == spec_from_xywh(x, y, width, height),
{
    match (x.checked_add(width), y.checked_add(height)) {
        (Some(x2), Some(y2)) => Some(Rect::new(x, y, x2, y2)),
        _ => None,
    }
}

/// The hint that a mark gives: the mark begins with `ebchint:` or
/// `_ebchint:`, and its third piece, the pieces parted by colons, writes a
/// hint.
pub open spec fn spec_mark_hint(mark: Seq<char>) -> Option<Hint> {
    if (spec_starts_with(mark, "ebchint:"@) || spec_starts_with(mark, "_ebchint:"@)) && spec_split(
        mark,
        ':',
    ).len() > 2 {
        spec_parse_human(spec_split(mark, ':')[2])
    } else {
        None
    }
}

/// The hint of the first mark that gives one.
pub open spec fn spec_marks_hint(marks: Seq<Seq<char>>) -> Option<Hint>
    decreases marks.len(),
{
    if marks.len() == 0 {
        None
    } else {
        match spec_marks_hint(marks.drop_last()) {
            Some(h) => Some(h),
            None => spec_mark_hint(marks.last()),
        }
    }
}

/// The hint that a mark gives, if it gives one.
pub fn mark_hint(mark: &str) -> (r: Option<Hint>)
    ensures
        r == spec_mark_hint(mark@),
{
    if starts_with(mark, "ebchint:") || starts_with(mark, "_ebchint:") {
        match nth_piece(mark, ':', 2) {
            Some(piece) => match Hint::try_from_human_readable(piece) {
                Ok(h) => Some(h),
                Err(_) => None,
            },
            None => None,
        }
    } else {
        None
    }
}

/// The hint of the first mark that gives one.
pub fn marks_hint(marks: &Vec<String>) -> (r: Option<Hint>)
    ensures
        r == spec_marks_hint(marks.deep_view()),
{
    let mut i: usize = 0;
    proof {
        assert(marks.deep_view().take(0) =~= Seq::<Seq<char>>::empty());
    }
    while i < marks.len()
        invariant
            i <= marks.len(),
            spec_marks_hint(marks.deep_view().take(i as int)) is None,
        decreases marks.len() - i,
    {
        proof {
            assert(marks.deep_view().take(i + 1).drop_last() =~= marks.deep_view().take(i as int));
            assert(marks.deep_view().take(i + 1).last() == marks[i as int]@);
        }
        match mark_hint(marks[i].as_str()) {
            Some(h) => {
                proof {
                    lemma_marks_hint_found(marks.deep_view(), i as int);
                }
                return Some(h);
            },
            None => {},
        }
        i += 1;
    }
    proof {
        assert(marks.deep_view().take(i as int) =~= marks.deep_view());
    }
    None
}

/// The first mark that gives a hint decides.
proof fn lemma_marks_hint_found(marks: Seq<Seq<char>>, i: int)
    requires
        0 <= i < marks.len(),
        spec_marks_hint(marks.take(i)) is None,
        spec_mark_hint(marks[i]) is Some,
    ensures
        spec_marks_hint(marks) == spec_mark_hint(marks[i]),
    decreases marks.len() - i,
{
    lemma_marks_hint_upto(marks, i, marks.len() as int);
    assert(marks.take(marks.len() as int) =~= marks);
}

proof fn lemma_marks_hint_upto(marks: Seq<Seq<char>>, i: int, n: int)
    requires
        0 <= i < n <= marks.len(),
        spec_marks_hint(marks.take(i)) is None,
        spec_mark_hint(marks[i]) is Some,
    ensures
        spec_marks_hint(marks.take(n)) == spec_mark_hint(marks[i]),
    decreases n - i,
{
    assert(marks.take(n).drop_last() =~= marks.take(n - 1));
    assert(marks.take(n).last() == marks[n - 1]);
    if n > i + 1 {
        lemma_marks_hint_upto(marks, i, n - 1);
    }
}

/// The window that a node stands for. A node without a shell, without a
/// word on its visibility or without a process is no window, nor is one
/// whose rectangle cannot be written. A floating window with a normal
/// border is taken with its title bar. The window has the z-index 0.
pub open spec fn spec_window_of(node: NodeInfo) -> Result<SwayWindowView, SwayWindowError> {
    if !node.has_shell || node.visible is None || node.pid is None {
        Err(SwayWindowError)
    } else {
        let with_bar = node.floating && node.border_normal;
        let y = if with_bar {
            node.y - node.deco_height
        } else {
            node.y as int
        };
        let height = if with_bar {
            node.height + node.deco_height
        } else {
            node.height as int
        };
        if !(i32::MIN <= y <= i32::MAX && i32::MIN <= height <= i32::MAX) {
            Err(SwayWindowError)
        } else {
            match spec_from_xywh(node.x, y as i32, node.width, height as i32) {
                None => Err(SwayWindowError),
                Some(area) => Ok(
                    SwayWindowView {
                        id: node.id,
                        pid: node.pid->0,
                        title: match node.name {
                            Some(name) => name@,
                            None => "NO_TITLE"@,
                        },
                        area,
                        visible: node.visible->0,
                        floating: node.floating,
                        fullscreen: match node.fullscreen_mode {
                            Some(mode) => mode != 0,
                            None => false,
                        },
                        hint: spec_marks_hint(node.marks.deep_view()),
                        z_index: 0,
                    },
                ),
            }
        }
    }
}

impl SwayWindow {
    /// The window that a node of sway's tree stands for.
    pub fn try_from_node(node: &NodeInfo) -> (r: Result<Self, SwayWindowError>)
        ensures
            match spec_window_of(*node) {
                Ok(w) => r is Ok && r.unwrap()@ == w,
                Err(e) => r == Err::<Self, SwayWindowError>(e),
            },
    {
        if !node.has_shell {
            return Err(SwayWindowError);
        }
        let visible = match node.visible {
            Some(v) => v,
            None => {
                return Err(SwayWindowError);
            },
        };
        let pid = match node.pid {
            Some(p) => p,
            None => {
                return Err(SwayWindowError);
            },
        };
        let mut y = node.y;
        let mut height = node.height;
        if node.floating && node.border_normal {
            y = match y.checked_sub(node.deco_height) {
                Some(v) => v,
                None => {
                    return Err(SwayWindowError);
                },
            };
            height = match height.checked_add(node.deco_height) {
                Some(v) => v,
                None => {
                    return Err(SwayWindowError);
                },
            };
        }
        let title = match &node.name {
            Some(name) => name.clone(),
            None => "NO_TITLE".to_owned(),
        };
        let area = match from_xywh(node.x, y, node.width, height) {
            Some(a) => a,
            None => {
                return Err(SwayWindowError);
            },
        };
        let hint = marks_hint(&node.marks);
        let fullscreen = match node.fullscreen_mode {
            Some(mode) => mode != 0,
            None => false,
        };
        Ok(
            Self {
                id: node.id,
                pid,
                title,
                area,
                visible,
                floating: node.floating,
                fullscreen,
                hint,
                z_index: 0,
            },
        )
    }

    /// Whether the two windows are alike in everything.
    pub fn same(&self, other: &Self) -> (r: bool)
        ensures
            r == (self@ == other@),
    {
        let same_hint = match (self.hint, other.hint) {
            (Some(a), Some(b)) => a == b,
            (None, None) => true,
            _ => false,
        };
        self.id == other.id && self.pid == other.pid && self.title == other.title && self.area
            == other.area && self.visible == other.visible && self.floating == other.floating
            && self.fullscreen == other.fullscreen && same_hint && self.z_index == other.z_index
    }

    /// What has to be told to the registry for it to keep `other` where it
    /// keeps this window: the attributes in which the two differ. `None`
    /// when the two windows are alike in everything.
    pub fn diff(&self, other: &Self) -> (r: Option<WindowUpdate>)
        ensures
            r is None == (self@ == other@),
            r matches Some(update) ==> {
                &&& update.title is Some == (self@.title != other@.title)
                &&& update.area is Some == (self@.area != other@.area)
                &&& update.hint is Some == (self@.hint != other@.hint)
                &&& update.visible is Some == (self@.visible != other@.visible)
                &&& update.z_index is Some == (self@.z_index != other@.z_index)
                &&& spec_merge(self@.data(), update) == other@.data()
            },
    {
        if self.same(other) {
            return None;
        }
        let same_hint = match (self.hint, other.hint) {
            (Some(a), Some(b)) => a == b,
            (None, None) => true,
            _ => false,
        };
        Some(
            WindowUpdate {
                title: if self.title == other.title {
                    None
                } else {
                    Some(other.title.clone())
                },
                area: if self.area == other.area {
                    None
                } else {
                    Some(other.area)
                },
                hint: if same_hint {
                    None
                } else {
                    Some(other.hint)
                },
                visible: if self.visible == other.visible {
                    None
                } else {
                    Some(other.visible)
                },
                z_index: if self.z_index == other.z_index {
                    None
                } else {
                    Some(other.z_index)
                },
            },
        )
    }
}

/// The windows with a z-index for every floating one: the first floating
/// window gets `next`, the one after it `next + 1` and so on. The other
/// windows keep their z-index.
pub open spec fn spec_stack_floating(windows: Seq<SwayWindowView>, next: int) -> Seq<SwayWindowView>
    decreases windows.len(),
{
    if windows.len() == 0 {
        windows
    } else {
        let head = spec_stack_floating(windows.drop_last(), next);
        let last = windows.last();
        if last.floating {
            head.push(
                SwayWindowView {
                    z_index: (next + spec_floating_count(windows.drop_last())) as i32,
                    ..last
                },
            )
        } else {
            head.push(last)
        }
    }
}

/// How many of the windows float.
pub open spec fn spec_floating_count(windows: Seq<SwayWindowView>) -> int
    decreases windows.len(),
{
    if windows.len() == 0 {
        0
    } else {
        spec_floating_count(windows.drop_last()) + if windows.last().floating {
            1int
        } else {
            0int
        }
    }
}

proof fn lemma_floating_count(windows: Seq<SwayWindowView>)
    ensures
        0 <= spec_floating_count(windows) <= windows.len(),
    decreases windows.len(),
{
    if windows.len() > 0 {
        lemma_floating_count(windows.drop_last());
    }
}

/// Stacks the floating windows above the others, in the order in which
/// they come: the first gets the z-index 1.
pub fn stack_floating(windows: &mut Vec<SwayWindow>)
    requires
        old(windows).len() < i32::MAX,
    ensures
        final(windows).deep_view() == spec_stack_floating(old(windows).deep_view(), 1),
{
    let ghost before = windows.deep_view();
    let mut floating_idx: i32 = 1;
    let mut i: usize = 0;
    proof {
        assert(before.take(0) =~= Seq::<SwayWindowView>::empty());
        assert(windows.deep_view().take(0) =~= Seq::<SwayWindowView>::empty());
    }
    while i < windows.len()
        invariant
            i <= windows.len(),
            windows.len() == before.len(),
            before.len() < i32::MAX,
            floating_idx == 1 + spec_floating_count(before.take(i as int)),
            windows.deep_view().take(i as int) == spec_stack_floating(before.take(i as int), 1),
            forall|k: int| i <= k < before.len() ==> #[trigger] windows.deep_view()[k] == before[k],
        decreases windows.len() - i,
    {
        let ghost now = windows.deep_view();
        proof {
            assert(before.take(i + 1).drop_last() =~= before.take(i as int));
            assert(before.take(i + 1).last() == before[i as int]);
            lemma_floating_count(before.take(i as int));
            assert(now[i as int] == before[i as int]);
        }
        if windows[i].floating {
            windows[i].z_index = floating_idx;
            floating_idx += 1;
        }
        proof {
            let after = windows.deep_view();
            assert forall|k: int| 0 <= k < before.len() && k != i implies after[k] == now[k] by {}
            assert(after.take(i + 1) =~= now.take(i as int).push(after[i as int]));
        }
        i += 1;
    }
    proof {
        assert(before.take(i as int) =~= before);
        assert(windows.deep_view().take(i as int) =~= windows.deep_view());
    }
}


/// What an event of sway asks of the bridge.
#[derive(Clone, Copy, Debug, PartialEq, Eq, Structural)]
pub enum EventKind {
    Output,
    Window,
    Workspace,
    Shutdown,
    /// Nothing came for a while.
    Timeout,
    /// An event of another kind.
    Other,
}

/// What the bridge does next.
#[derive(Clone, Copy, Debug, PartialEq, Eq, Structural)]
pub enum Reaction {
    /// Stop looking at events.
    Stop,
    /// Look at the tree of windows again.
    Reprocess,
    /// Ask for the output's transform again, then look at the tree.
    RefreshOutput,
    /// Go on waiting.
    Wait,
}

/// What the bridge does on an event.
pub fn on_event(kind: EventKind) -> (r: Reaction)
    ensures
        r == match kind {
            EventKind::Shutdown => Reaction::Stop,
            EventKind::Window => Reaction::Reprocess,
            EventKind::Workspace => Reaction::Reprocess,
            EventKind::Timeout => Reaction::Reprocess,
            EventKind::Output => Reaction::RefreshOutput,
            EventKind::Other => Reaction::Wait,
        },
{
    match kind {
        EventKind::Shutdown => Reaction::Stop,
        EventKind::Window | EventKind::Workspace | EventKind::Timeout => Reaction::Reprocess,
        EventKind::Output => Reaction::RefreshOutput,
        EventKind::Other => Reaction::Wait,
    }
}

/// What is to be done about a window that sway shows.
#[derive(Debug)]
pub enum WindowChange {
    /// The window is new: it is to be added.
    Add(SwayWindow),
    /// The window is known and differs from what is known of it: the
    /// difference is to be told.
    Update(SwayWindow),
}

/// A change as contracts see it.
pub enum WindowChangeView {
    Add(SwayWindowView),
    Update(SwayWindowView),
}

impl View for WindowChange {
    type V = WindowChangeView;

    open spec fn view(&self) -> WindowChangeView {
        match self {
            WindowChange::Add(w) => WindowChangeView::Add(w@),
            WindowChange::Update(w) => WindowChangeView::Update(w@),
        }
    }
}

impl DeepView for WindowChange {
    type V = WindowChangeView;

    open spec fn deep_view(&self) -> WindowChangeView {
        self@
    }
}

/// What brings the registry in line with what sway shows, in the order in
/// which it is to be done.
#[derive(Debug)]
pub struct SyncPlan {
    /// The processes whose applications are to be removed.
    pub stale_pids: Vec<i32>,
    /// The processes for which applications are to be added.
    pub new_pids: Vec<i32>,
    /// The windows to add and to update.
    pub changes: Vec<WindowChange>,
    /// The windows, by sway's identifier, that are to be removed.
    pub stale_windows: Vec<i64>,
}

/// Some window belongs to the process `pid`.
pub open spec fn spec_has_pid(windows: Seq<SwayWindowView>, pid: i32) -> bool {
    exists|i: int| 0 <= i < windows.len() && (#[trigger] windows[i]).pid == pid
}

/// Some window has the identifier `id`.
pub open spec fn spec_has_id(windows: Seq<SwayWindowView>, id: i64) -> bool {
    exists|i: int| 0 <= i < windows.len() && (#[trigger] windows[i]).id == id
}

/// The first window with the identifier `id`.
pub open spec fn spec_known(known: Seq<SwayWindowView>, id: i64) -> Option<SwayWindowView>
    decreases known.len(),
{
    if known.len() == 0 {
        None
    } else if known.first().id == id {
        Some(known.first())
    } else {
        spec_known(known.drop_first(), id)
    }
}

/// The known processes that have no window any more, in order.
pub open spec fn spec_stale_pids(known: Seq<i32>, windows: Seq<SwayWindowView>) -> Seq<i32>
    decreases known.len(),
{
    if known.len() == 0 {
        known
    } else if spec_has_pid(windows, known.last()) {
        spec_stale_pids(known.drop_last(), windows)
    } else {
        spec_stale_pids(known.drop_last(), windows).push(known.last())
    }
}

/// The processes of the windows that are not known, each once, in the
/// order in which they first come.
pub open spec fn spec_new_pids(windows: Seq<SwayWindowView>, known: Seq<i32>) -> Seq<i32>
    decreases windows.len(),
{
    if windows.len() == 0 {
        Seq::empty()
    } else {
        let head = spec_new_pids(windows.drop_last(), known);
        if known.contains(windows.last().pid) || head.contains(windows.last().pid) {
            head
        } else {
            head.push(windows.last().pid)
        }
    }
}

/// What is to be done about one window: nothing when it is known as it
/// is.
pub open spec fn spec_change(window: SwayWindowView, known: Seq<SwayWindowView>) -> Seq<
    WindowChangeView,
> {
    match spec_known(known, window.id) {
        None => seq![WindowChangeView::Add(window)],
        Some(k) => if k == window {
            Seq::empty()
        } else {
            seq![WindowChangeView::Update(window)]
        },
    }
}

/// What is to be done about the windows, in their order.
pub open spec fn spec_changes(windows: Seq<SwayWindowView>, known: Seq<SwayWindowView>) -> Seq<
    WindowChangeView,
>
    decreases windows.len(),
{
    if windows.len() == 0 {
        Seq::empty()
    } else {
        spec_changes(windows.drop_last(), known) + spec_change(windows.last(), known)
    }
}

/// The identifiers of the known windows that sway shows no more, in order.
pub open spec fn spec_stale_windows(known: Seq<SwayWindowView>, windows: Seq<SwayWindowView>) -> Seq<
    i64,
>
    decreases known.len(),
{
    if known.len() == 0 {
        Seq::empty()
    } else if spec_has_id(windows, known.last().id) {
        spec_stale_windows(known.drop_last(), windows)
    } else {
        spec_stale_windows(known.drop_last(), windows).push(known.last().id)
    }
}

fn has_pid(windows: &Vec<SwayWindow>, pid: i32) -> (r: bool)
    ensures
        r == spec_has_pid(windows.deep_view(), pid),
{
    let mut i: usize = 0;
    while i < windows.len()
        invariant
            i <= windows.len(),
            forall|k: int| 0 <= k < i ==> (#[trigger] windows.deep_view()[k]).pid != pid,
        decreases windows.len() - i,
    {
        if windows[i].pid == pid {
            proof {
                assert(windows.deep_view()[i as int].pid == pid);
            }
            return true;
        }
        i += 1;
    }
    false
}

fn has_id(windows: &Vec<SwayWindow>, id: i64) -> (r: bool)
    ensures
        r == spec_has_id(windows.deep_view(), id),
{
    let mut i: usize = 0;
    while i < windows.len()
        invariant
            i <= windows.len(),
            forall|k: int| 0 <= k < i ==> (#[trigger] windows.deep_view()[k]).id != id,
        decreases windows.len() - i,
    {
        if windows[i].id == id {
            proof {
                assert(windows.deep_view()[i as int].id == id);
            }
            return true;
        }
        i += 1;
    }
    false
}

fn contains_pid(pids: &Vec<i32>, pid: i32) -> (r: bool)
    ensures
        r == pids@.contains(pid),
{
    let mut i: usize = 0;
    while i < pids.len()
        invariant
            i <= pids.len(),
            forall|k: int| 0 <= k < i ==> pids@[k] != pid,
        decreases pids.len() - i,
    {
        if pids[i] == pid {
            return true;
        }
        i += 1;
    }
    false
}

/// The first of the known windows with the identifier `id`.
pub fn find_known(known: &Vec<SwayWindow>, id: i64) -> (r: Option<usize>)
    ensures
        match r {
            Some(k) => k < known.len() && spec_known(known.deep_view(), id) == Some(known[k as int]@),
            None => spec_known(known.deep_view(), id) is None,
        },
{
    let ghost all = known.deep_view();
    let mut i: usize = 0;
    proof {
        assert(all.skip(0) =~= all);
    }
    while i < known.len()
        invariant
            i <= known.len(),
            all == known.deep_view(),
            spec_known(all, id) == spec_known(all.skip(i as int), id),
        decreases known.len() - i,
    {
        proof {
            assert(all.skip(i as int).first() == known[i as int]@);
            assert(all.skip(i as int).drop_first() =~= all.skip(i + 1));
        }
        if known[i].id == id {
            return Some(i);
        }
        i += 1;
    }
    None
}

/// Plans what brings the registry in line with the windows that sway
/// shows: `known_pids` are the processes and `known` the windows that the
/// registry was told of.
pub fn plan_sync(known_pids: &Vec<i32>, known: &Vec<SwayWindow>, windows: Vec<SwayWindow>) -> (r:
    SyncPlan)
    ensures
        r.stale_pids@ == spec_stale_pids(known_pids@, windows.deep_view()),
        r.new_pids@ == spec_new_pids(windows.deep_view(), known_pids@),
        r.changes.deep_view() == spec_changes(windows.deep_view(), known.deep_view()),
        r.stale_windows@ == spec_stale_windows(known.deep_view(), windows.deep_view()),
{
    let ghost shown = windows.deep_view();
    let ghost was = known.deep_view();
    let mut stale_pids: Vec<i32> = Vec::new();
    let mut i: usize = 0;
    proof {
        assert(known_pids@.take(0) =~= Seq::<i32>::empty());
    }
    while i < known_pids.len()
        invariant
            i <= known_pids.len(),
            shown == windows.deep_view(),
            stale_pids@ == spec_stale_pids(known_pids@.take(i as int), shown),
        decreases known_pids.len() - i,
    {
        proof {
            assert(known_pids@.take(i + 1).drop_last() =~= known_pids@.take(i as int));
        }
        if !has_pid(&windows, known_pids[i]) {
            stale_pids.push(known_pids[i]);
        }
        i += 1;
    }
    proof {
        assert(known_pids@.take(i as int) =~= known_pids@);
    }
    let mut stale_windows: Vec<i64> = Vec::new();
    let mut j: usize = 0;
    proof {
        assert(was.take(0) =~= Seq::<SwayWindowView>::empty());
    }
    while j < known.len()
        invariant
            j <= known.len(),
            shown == windows.deep_view(),
            was == known.deep_view(),
            stale_windows@ == spec_stale_windows(was.take(j as int), shown),
        decreases known.len() - j,
    {
        proof {
            assert(was.take(j + 1).drop_last() =~= was.take(j as int));
            assert(was.take(j + 1).last() == known[j as int]@);
        }
        if !has_id(&windows, known[j].id) {
            stale_windows.push(known[j].id);
        }
        j += 1;
    }
    proof {
        assert(was.take(j as int) =~= was);
    }
    let mut new_pids: Vec<i32> = Vec::new();
    let mut changes: Vec<WindowChange> = Vec::new();
    let ghost all = windows@;
    proof {
        assert(shown.take(0) =~= Seq::<SwayWindowView>::empty());
        assert(changes.deep_view() =~= Seq::<WindowChangeView>::empty());
    }
    for window in it: windows
        invariant
            it.seq() == all,
            shown.len() == all.len(),
            forall|k: int| 0 <= k < all.len() ==> shown[k] == (#[trigger] all[k])@,
            was == known.deep_view(),
            new_pids@ == spec_new_pids(shown.take(it.index()), known_pids@),
            changes.deep_view() == spec_changes(shown.take(it.index()), was),
    {
        let ghost so_far = changes.deep_view();
        proof {
            assert(shown.take(it.index() + 1).drop_last() =~= shown.take(it.index()));
            assert(shown.take(it.index() + 1).last() == window@);
        }
        if !contains_pid(known_pids, window.pid) && !contains_pid(&new_pids, window.pid) {
            new_pids.push(window.pid);
        }
        match find_known(known, window.id) {
            None => {
                let change = WindowChange::Add(window);
                changes.push(change);
                proof {
                    assert(changes.deep_view() =~= so_far + spec_change(window@, was));
                }
            },
            Some(k) => {
                if !known[k].same(&window) {
                    let change = WindowChange::Update(window);
                    changes.push(change);
                    proof {
                        assert(changes.deep_view() =~= so_far + spec_change(window@, was));
                    }
                } else {
                    proof {
                        assert(so_far =~= so_far + spec_change(window@, was));
                    }
                }
            },
        }
    }
    proof {
        assert(shown.take(all.len() as int) =~= shown);
    }
    SyncPlan { stale_pids, new_pids, changes, stale_windows }
}

} // verus!
