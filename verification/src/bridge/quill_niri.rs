//! Windows as niri reports them.

use vstd::prelude::*;
use vstd::string::*;
use crate::types::rect::{spec_max, spec_min};
use crate::types::rockchip_ebc::{Hint, HintBitDepth, HintConvertMode};

verus! {

/// Where a window lies, by niri's identifier for it.
#[derive(Clone, Copy, Debug, PartialEq, Eq, Structural)]
pub struct OurWindowGeometry {
    pub id: u64,
    pub x: i32,
    pub y: i32,
    pub width: i32,
    pub height: i32,
}

/// The smallest width and height, in pixels, that a window must keep on
/// screen to count.
pub const MIN_VISIBLE_SIZE: i32 = 10;

/// The part of a window that lies on a screen of the given size, provided
/// that it is at least ten pixels wide and ten high.
pub open spec fn spec_on_screen(
    geometry: OurWindowGeometry,
    screen_width: i32,
    screen_height: i32,
) -> Option<OurWindowGeometry> {
    let left = spec_max(geometry.x as int, 0);
    let top = spec_max(geometry.y as int, 0);
    let right = spec_min(geometry.x + geometry.width, screen_width as int);
    let bottom = spec_min(geometry.y + geometry.height, screen_height as int);
    if right - left >= 10 && bottom - top >= 10 {
        Some(
            OurWindowGeometry {
                id: geometry.id,
                x: left as i32,
                y: top as i32,
                width: (right - left) as i32,
                height: (bottom - top) as i32,
            },
        )
    } else {
        None
    }
}

/// The windows that count, each cut down to the screen, in order.
pub open spec fn spec_windows_on_screen(
    windows: Seq<OurWindowGeometry>,
    screen_width: i32,
    screen_height: i32,
) -> Seq<OurWindowGeometry>
    decreases windows.len(),
{
    if windows.len() == 0 {
        windows
    } else {
        let head = spec_windows_on_screen(windows.drop_last(), screen_width, screen_height);
        match spec_on_screen(windows.last(), screen_width, screen_height) {
            Some(g) => head.push(g),
            None => head,
        }
    }
}

/// Cuts a window down to the screen. `None` when less than ten pixels of
/// it are left in width or in height.
pub fn on_screen(geometry: OurWindowGeometry, screen_width: i32, screen_height: i32) -> (r: Option<
    OurWindowGeometry,
>)
    ensures
        r == spec_on_screen(geometry, screen_width, screen_height),
{
    let gx = geometry.x as i64;
    let gy = geometry.y as i64;
    let left: i64 = if gx > 0 { gx } else { 0 };
    let top: i64 = if gy > 0 { gy } else { 0 };
    let far_x = gx + geometry.width as i64;
    let far_y = gy + geometry.height as i64;
    let right: i64 = if far_x < screen_width as i64 { far_x } else { screen_width as i64 };
    let bottom: i64 = if far_y < screen_height as i64 { far_y } else { screen_height as i64 };
    let width = right - left;
    let height = bottom - top;
    if left < right && top < bottom && width >= MIN_VISIBLE_SIZE as i64 && height
        >= MIN_VISIBLE_SIZE as i64 {
        Some(
            OurWindowGeometry {
                id: geometry.id,
                x: left as i32,
                y: top as i32,
                width: width as i32,
                height: height as i32,
            },
        )
    } else {
        None
    }
}

/// Keeps the windows that count and cuts each down to the screen.
pub fn windows_on_screen(
    windows: &mut Vec<OurWindowGeometry>,
    screen_width: i32,
    screen_height: i32,
)
    ensures
        final(windows)@ == spec_windows_on_screen(old(windows)@, screen_width, screen_height),
{
    let mut kept: Vec<OurWindowGeometry> = Vec::new();
    let mut i: usize = 0;
    proof {
        assert(windows@.take(0) =~= Seq::<OurWindowGeometry>::empty());
    }
    while i < windows.len()
        invariant
            i <= windows.len(),
            windows@ == old(windows)@,
            kept@ == spec_windows_on_screen(windows@.take(i as int), screen_width, screen_height),
        decreases windows.len() - i,
    {
        proof {
            assert(windows@.take(i + 1).drop_last() =~= windows@.take(i as int));
        }
        match on_screen(windows[i], screen_width, screen_height) {
            Some(g) => {
                kept.push(g);
            },
            None => {},
        }
        i += 1;
    }
    proof {
        assert(windows@.take(i as int) =~= windows@);
    }
    *windows = kept;
}

/// How the settings of a window ask the driver to render it.
#[derive(Clone, Copy, Debug, PartialEq, Eq, Structural)]
pub enum RenderSetting {
    /// One bit for each pixel.
    Y1 { dithering: bool },
    /// Two bits for each pixel.
    Y2 { dithering: bool, fast_drawing: bool },
    /// Four bits for each pixel.
    Y4 { fast_drawing: bool },
    /// The driver's fast mode.
    Fast,
}

/// The hint that a setting stands for.
pub open spec fn spec_setting_hint(setting: RenderSetting) -> Hint {
    match setting {
        RenderSetting::Y1 { dithering } => Hint::spec_new(
            HintBitDepth::Y1,
            if dithering {
                HintConvertMode::Dither
            } else {
                HintConvertMode::Threshold
            },
            false,
        ),
        RenderSetting::Y2 { dithering, fast_drawing } => Hint::spec_new(
            HintBitDepth::Y2,
            if dithering {
                HintConvertMode::Dither
            } else {
                HintConvertMode::Threshold
            },
            fast_drawing,
        ),
        RenderSetting::Y4 { fast_drawing } => Hint::spec_new(
            HintBitDepth::Y4,
            HintConvertMode::Threshold,
            fast_drawing,
        ),
        RenderSetting::Fast => Hint::spec_new(HintBitDepth::Y1, HintConvertMode::Dither, false),
    }
}

/// The hint for a window with the given setting.
pub fn setting_to_hint(setting: RenderSetting) -> (r: Hint)
    ensures
        r == spec_setting_hint(setting),
        r.valid(),
{
    match setting {
        RenderSetting::Y1 { dithering } => Hint::new(
            HintBitDepth::Y1,
            if dithering {
                HintConvertMode::Dither
            } else {
                HintConvertMode::Threshold
            },
            false,
        ),
        RenderSetting::Y2 { dithering, fast_drawing } => Hint::new(
            HintBitDepth::Y2,
            if dithering {
                HintConvertMode::Dither
            } else {
                HintConvertMode::Threshold
            },
            fast_drawing,
        ),
        RenderSetting::Y4 { fast_drawing } => Hint::new(
            HintBitDepth::Y4,
            HintConvertMode::Threshold,
            fast_drawing,
        ),
        RenderSetting::Fast => Hint::new(HintBitDepth::Y1, HintConvertMode::Dither, false),
    }
}


/// What niri says of a window, as far as it matters here.
#[derive(Debug)]
pub struct WindowInfo {
    pub id: u64,
    pub app_id: Option<String>,
    pub title: Option<String>,
    pub workspace_id: Option<u64>,
    pub is_focused: bool,
}

/// A window that has settings, with the place where it lies.
#[derive(Debug)]
pub struct NiriWindows {
    pub app_id: String,
    pub title: String,
    pub focused: bool,
    /// Which of the settings applies, by its place in their list.
    pub setting: usize,
    pub geometry: OurWindowGeometry,
}

/// A window with settings as contracts see it.
pub struct NiriWindowsView {
    pub app_id: Seq<char>,
    pub title: Seq<char>,
    pub focused: bool,
    pub setting: usize,
    pub geometry: OurWindowGeometry,
}

impl View for NiriWindows {
    type V = NiriWindowsView;

    open spec fn view(&self) -> NiriWindowsView {
        NiriWindowsView {
            app_id: self.app_id@,
            title: self.title@,
            focused: self.focused,
            setting: self.setting,
            geometry: self.geometry,
        }
    }
}

impl DeepView for NiriWindows {
    type V = NiriWindowsView;

    open spec fn deep_view(&self) -> NiriWindowsView {
        self@
    }
}

impl Clone for NiriWindows {
    fn clone(&self) -> (r: Self)
        ensures
            r@ == self@,
    {
        Self {
            app_id: self.app_id.clone(),
            title: self.title.clone(),
            focused: self.focused,
            setting: self.setting,
            geometry: self.geometry,
        }
    }
}

/// The title of a window; the empty text where it has none.
pub open spec fn spec_title(window: WindowInfo) -> Seq<char> {
    match window.title {
        Some(title) => title@,
        None => Seq::empty(),
    }
}

/// The window once for every place that is reported under its identifier,
/// in the order of the places.
pub open spec fn spec_pick_geometries(
    window: WindowInfo,
    app_id: Seq<char>,
    setting: usize,
    geometries: Seq<OurWindowGeometry>,
) -> Seq<NiriWindowsView>
    decreases geometries.len(),
{
    if geometries.len() == 0 {
        Seq::empty()
    } else {
        let head = spec_pick_geometries(window, app_id, setting, geometries.drop_last());
        if geometries.last().id == window.id {
            head.push(
                NiriWindowsView {
                    app_id,
                    title: spec_title(window),
                    focused: window.is_focused,
                    setting,
                    geometry: geometries.last(),
                },
            )
        } else {
            head
        }
    }
}

/// The window once for every setting made for its application and every
/// place reported for it, provided that it is on the workspace `focused`.
pub open spec fn spec_pick_settings(
    window: WindowInfo,
    app_id: Seq<char>,
    settings: Seq<Seq<char>>,
    focused: u64,
    geometries: Seq<OurWindowGeometry>,
) -> Seq<NiriWindowsView>
    decreases settings.len(),
{
    if settings.len() == 0 {
        Seq::empty()
    } else {
        let head = spec_pick_settings(window, app_id, settings.drop_last(), focused, geometries);
        if settings.last() == app_id && window.workspace_id == Some(focused) {
            head + spec_pick_geometries(
                window,
                app_id,
                (settings.len() - 1) as usize,
                geometries,
            )
        } else {
            head
        }
    }
}

/// The windows that have settings and are on the workspace `focused`, in
/// the order in which niri reports them. `settings` holds, for each
/// setting, the application that it is made for.
pub open spec fn spec_select(
    windows: Seq<WindowInfo>,
    settings: Seq<Seq<char>>,
    focused: u64,
    geometries: Seq<OurWindowGeometry>,
) -> Seq<NiriWindowsView>
    decreases windows.len(),
{
    if windows.len() == 0 {
        Seq::empty()
    } else {
        let head = spec_select(windows.drop_last(), settings, focused, geometries);
        match windows.last().app_id {
            Some(app_id) => head + spec_pick_settings(
                windows.last(),
                app_id@,
                settings,
                focused,
                geometries,
            ),
            None => head,
        }
    }
}

/// Selects the windows that have settings and are on the workspace
/// `focused`.
pub fn select_windows(
    windows: &Vec<WindowInfo>,
    settings: &Vec<String>,
    focused: u64,
    geometries: &Vec<OurWindowGeometry>,
) -> (r: Vec<NiriWindows>)
    ensures
        r.deep_view() == spec_select(windows@, settings.deep_view(), focused, geometries@),
{
    let mut out: Vec<NiriWindows> = Vec::new();
    let mut i: usize = 0;
    proof {
        assert(windows@.take(0) =~= Seq::<WindowInfo>::empty());
        assert(out.deep_view() =~= Seq::<NiriWindowsView>::empty());
    }
    while i < windows.len()
        invariant
            i <= windows.len(),
            out.deep_view() == spec_select(
                windows@.take(i as int),
                settings.deep_view(),
                focused,
                geometries@,
            ),
        decreases windows.len() - i,
    {
        let window = &windows[i];
        let ghost before = out.deep_view();
        proof {
            assert(windows@.take(i + 1).drop_last() =~= windows@.take(i as int));
            assert(windows@.take(i + 1).last() == *window);
        }
        match &window.app_id {
            Some(app_id) => {
                let mut k: usize = 0;
                proof {
                    assert(settings.deep_view().take(0) =~= Seq::<Seq<char>>::empty());
                    assert(before =~= before + Seq::<NiriWindowsView>::empty());
                }
                while k < settings.len()
                    invariant
                        k <= settings.len(),
                        out.deep_view() == before + spec_pick_settings(
                            *window,
                            app_id@,
                            settings.deep_view().take(k as int),
                            focused,
                            geometries@,
                        ),
                    decreases settings.len() - k,
                {
                    let ghost mid = out.deep_view();
                    let ghost done = spec_pick_settings(
                        *window,
                        app_id@,
                        settings.deep_view().take(k as int),
                        focused,
                        geometries@,
                    );
                    proof {
                        assert(settings.deep_view().take(k + 1).drop_last()
                            =~= settings.deep_view().take(k as int));
                        assert(settings.deep_view().take(k + 1).last() == settings[k as int]@);
                    }
                    let on_workspace = match window.workspace_id {
                        Some(id) => id == focused,
                        None => false,
                    };
                    if settings[k] == *app_id && on_workspace {
                        let mut g: usize = 0;
                        proof {
                            assert(geometries@.take(0) =~= Seq::<OurWindowGeometry>::empty());
                            assert(mid =~= mid + Seq::<NiriWindowsView>::empty());
                        }
                        while g < geometries.len()
                            invariant
                                g <= geometries.len(),
                                k < settings.len(),
                                out.deep_view() == mid + spec_pick_geometries(
                                    *window,
                                    app_id@,
                                    k,
                                    geometries@.take(g as int),
                                ),
                            decreases geometries.len() - g,
                        {
                            let ghost inner = out.deep_view();
                            proof {
                                assert(geometries@.take(g + 1).drop_last() =~= geometries@.take(
                                    g as int,
                                ));
                            }
                            if geometries[g].id == window.id {
                                let picked = NiriWindows {
                                    app_id: app_id.clone(),
                                    title: match &window.title {
                                        Some(title) => title.clone(),
                                        None => String::new(),
                                    },
                                    focused: window.is_focused,
                                    setting: k,
                                    geometry: geometries[g],
                                };
                                out.push(picked);
                                proof {
                                    assert(out.deep_view() =~= inner.push(picked@));
                                    assert(inner.push(picked@) =~= mid + spec_pick_geometries(
                                        *window,
                                        app_id@,
                                        k,
                                        geometries@.take(g + 1),
                                    ));
                                }
                            }
                            g += 1;
                        }
                        proof {
                            assert(geometries@.take(g as int) =~= geometries@);
                            assert(mid + spec_pick_geometries(*window, app_id@, k, geometries@)
                                =~= before + (done + spec_pick_geometries(
                                *window,
                                app_id@,
                                k,
                                geometries@,
                            )));
                        }
                    }
                    k += 1;
                }
                proof {
                    assert(settings.deep_view().take(k as int) =~= settings.deep_view());
                }
            },
            None => {},
        }
        i += 1;
    }
    proof {
        assert(windows@.take(i as int) =~= windows@);
    }
    out
}

/// A list in ascending order of `x` with one more window: the window comes
/// after those that lie as far to the left as it does, or further.
pub open spec fn spec_insert_by_x(sorted: Seq<NiriWindowsView>, window: NiriWindowsView) -> Seq<
    NiriWindowsView,
>
    decreases sorted.len(),
{
    if sorted.len() == 0 {
        seq![window]
    } else if sorted.last().geometry.x <= window.geometry.x {
        sorted.push(window)
    } else {
        spec_insert_by_x(sorted.drop_last(), window).push(sorted.last())
    }
}

/// The windows from left to right; windows at the same `x` keep their
/// order.
pub open spec fn spec_sort_by_x(windows: Seq<NiriWindowsView>) -> Seq<NiriWindowsView>
    decreases windows.len(),
{
    if windows.len() == 0 {
        windows
    } else {
        spec_insert_by_x(spec_sort_by_x(windows.drop_last()), windows.last())
    }
}

/// The windows are in ascending order of `x`.
pub open spec fn spec_sorted_by_x(windows: Seq<NiriWindowsView>) -> bool {
    forall|i: int, j: int|
        0 <= i < j < windows.len() ==> (#[trigger] windows[i]).geometry.x <= (
        #[trigger] windows[j]).geometry.x
}

/// Where a window goes into a list: behind `at`, where everything from
/// `at` on lies further to the right and what lies before `at` does not.
proof fn lemma_insert_at(sorted: Seq<NiriWindowsView>, window: NiriWindowsView, at: int)
    requires
        0 <= at <= sorted.len(),
        forall|k: int| at <= k < sorted.len() ==> (#[trigger] sorted[k]).geometry.x
            > window.geometry.x,
        at > 0 ==> sorted[at - 1].geometry.x <= window.geometry.x,
    ensures
        spec_insert_by_x(sorted, window) == sorted.insert(at, window),
    decreases sorted.len() - at,
{
    if at == sorted.len() {
        assert(sorted.insert(at, window) =~= sorted.push(window));
        if sorted.len() > 0 {
            assert(sorted.last() == sorted[at - 1]);
        }
    } else {
        let head = sorted.drop_last();
        assert(sorted.last() == sorted[sorted.len() - 1]);
        assert forall|k: int| at <= k < head.len() implies (#[trigger] head[k]).geometry.x
            > window.geometry.x by {
            assert(head[k] == sorted[k]);
        }
        if at > 0 {
            assert(head[at - 1] == sorted[at - 1]);
        }
        lemma_insert_at(head, window, at);
        assert(head.insert(at, window).push(sorted.last()) =~= sorted.insert(at, window));
    }
}

/// A sorted list with one more window is sorted, and one longer.
proof fn lemma_insert_sorted(sorted: Seq<NiriWindowsView>, window: NiriWindowsView)
    requires
        spec_sorted_by_x(sorted),
    ensures
        spec_sorted_by_x(spec_insert_by_x(sorted, window)),
        spec_insert_by_x(sorted, window).len() == sorted.len() + 1,
        forall|k: int|
            0 <= k < spec_insert_by_x(sorted, window).len() ==> #[trigger] spec_insert_by_x(
                sorted,
                window,
            )[k] == window || sorted.contains(spec_insert_by_x(sorted, window)[k]),
    decreases sorted.len(),
{
    let out = spec_insert_by_x(sorted, window);
    if sorted.len() > 0 {
        let n = sorted.len() - 1;
        if sorted.last().geometry.x <= window.geometry.x {
            assert forall|i: int, j: int| 0 <= i < j < out.len() implies (
            #[trigger] out[i]).geometry.x <= (#[trigger] out[j]).geometry.x by {
                if j < sorted.len() {
                    assert(out[i] == sorted[i] && out[j] == sorted[j]);
                } else {
                    assert(out[i] == sorted[i]);
                    if i < n {
                        assert(sorted[i].geometry.x <= sorted[n].geometry.x);
                    }
                }
            }
            assert forall|k: int| 0 <= k < out.len() implies #[trigger] out[k] == window
                || sorted.contains(out[k]) by {
                if k < sorted.len() {
                    assert(out[k] == sorted[k]);
                }
            }
        } else {
            let head = sorted.drop_last();
            assert forall|i: int| 0 <= i < head.len() implies head[i] == sorted[i] by {}
            assert(spec_sorted_by_x(head)) by {
                assert forall|i: int, j: int| 0 <= i < j < head.len() implies (
                #[trigger] head[i]).geometry.x <= (#[trigger] head[j]).geometry.x by {
                    assert(sorted[i].geometry.x <= sorted[j].geometry.x);
                }
            }
            lemma_insert_sorted(head, window);
            let inner = spec_insert_by_x(head, window);
            assert forall|k: int| 0 <= k < out.len() implies #[trigger] out[k] == window
                || sorted.contains(out[k]) by {
                if k < inner.len() {
                    assert(out[k] == inner[k]);
                    if inner[k] != window {
                        assert(head.contains(inner[k]));
                        let m = choose|m: int| 0 <= m < head.len() && head[m] == inner[k];
                        assert(sorted[m] == inner[k]);
                    }
                } else {
                    assert(out[k] == sorted[n]);
                }
            }
            assert forall|i: int, j: int| 0 <= i < j < out.len() implies (
            #[trigger] out[i]).geometry.x <= (#[trigger] out[j]).geometry.x by {
                if j < inner.len() {
                    assert(out[i] == inner[i] && out[j] == inner[j]);
                } else {
                    assert(out[i] == inner[i]);
                    assert(out[j] == sorted[n]);
                    if inner[i] != window {
                        assert(head.contains(inner[i]));
                        let m = choose|m: int| 0 <= m < head.len() && head[m] == inner[i];
                        assert(sorted[m].geometry.x <= sorted[n].geometry.x);
                    }
                }
            }
        }
    }
}

/// Sorting gives a list in ascending order of `x` that is as long as the
/// one that was sorted.
pub proof fn lemma_sort_by_x(windows: Seq<NiriWindowsView>)
    ensures
        spec_sorted_by_x(spec_sort_by_x(windows)),
        spec_sort_by_x(windows).len() == windows.len(),
    decreases windows.len(),
{
    if windows.len() > 0 {
        lemma_sort_by_x(windows.drop_last());
        lemma_insert_sorted(spec_sort_by_x(windows.drop_last()), windows.last());
    }
}

/// Sorts the windows from left to right. Windows at the same `x` keep
/// their order.
pub fn sort_by_x(windows: Vec<NiriWindows>) -> (r: Vec<NiriWindows>)
    ensures
        r.deep_view() == spec_sort_by_x(windows.deep_view()),
        spec_sorted_by_x(r.deep_view()),
        r.len() == windows.len(),
{
    let ghost before = windows.deep_view();
    let ghost all = windows@;
    let mut out: Vec<NiriWindows> = Vec::new();
    proof {
        lemma_sort_by_x(before);
        assert(before.take(0) =~= Seq::<NiriWindowsView>::empty());
        assert(out.deep_view() =~= Seq::<NiriWindowsView>::empty());
    }
    for window in it: windows
        invariant
            it.seq() == all,
            before.len() == all.len(),
            forall|k: int| 0 <= k < all.len() ==> before[k] == (#[trigger] all[k])@,
            out.deep_view() == spec_sort_by_x(before.take(it.index())),
    {
        let ghost sorted = out.deep_view();
        proof {
            assert(before.take(it.index() + 1).drop_last() =~= before.take(it.index()));
            assert(before.take(it.index() + 1).last() == window@);
        }
        let mut at: usize = out.len();
        while at > 0 && out[at - 1].geometry.x > window.geometry.x
            invariant
                at <= out.len(),
                out.deep_view() == sorted,
                forall|k: int| at <= k < sorted.len() ==> (#[trigger] sorted[k]).geometry.x
                    > window.geometry.x,
            decreases at,
        {
            proof {
                assert(sorted[at - 1] == out[at - 1]@);
            }
            at -= 1;
        }
        proof {
            if at > 0 {
                assert(sorted[at - 1] == out[at - 1]@);
            }
            lemma_insert_at(sorted, window@, at as int);
        }
        out.insert(at, window);
        proof {
            assert(out.deep_view() =~= sorted.insert(at as int, window@));
        }
    }
    proof {
        assert(before.take(all.len() as int) =~= before);
    }
    out
}

/// The windows that count, each cut down to the screen, in order.
pub open spec fn spec_keep_on_screen(
    windows: Seq<NiriWindowsView>,
    screen_width: i32,
    screen_height: i32,
) -> Seq<NiriWindowsView>
    decreases windows.len(),
{
    if windows.len() == 0 {
        windows
    } else {
        let head = spec_keep_on_screen(windows.drop_last(), screen_width, screen_height);
        match spec_on_screen(windows.last().geometry, screen_width, screen_height) {
            Some(geometry) => head.push(NiriWindowsView { geometry, ..windows.last() }),
            None => head,
        }
    }
}

/// Puts the selected windows in order from left to right, keeps those that
/// count and cuts each down to the screen.
pub fn arrange(windows: Vec<NiriWindows>, screen_width: i32, screen_height: i32) -> (r: Vec<
    NiriWindows,
>)
    ensures
        r.deep_view() == spec_keep_on_screen(
            spec_sort_by_x(windows.deep_view()),
            screen_width,
            screen_height,
        ),
{
    let sorted = sort_by_x(windows);
    let ghost before = sorted.deep_view();
    let ghost all = sorted@;
    let mut out: Vec<NiriWindows> = Vec::new();
    proof {
        assert(before.take(0) =~= Seq::<NiriWindowsView>::empty());
        assert(out.deep_view() =~= Seq::<NiriWindowsView>::empty());
    }
    for window in it: sorted
        invariant
            it.seq() == all,
            before.len() == all.len(),
            forall|k: int| 0 <= k < all.len() ==> before[k] == (#[trigger] all[k])@,
            out.deep_view() == spec_keep_on_screen(
                before.take(it.index()),
                screen_width,
                screen_height,
            ),
    {
        let ghost so_far = out.deep_view();
        proof {
            assert(before.take(it.index() + 1).drop_last() =~= before.take(it.index()));
            assert(before.take(it.index() + 1).last() == window@);
        }
        match on_screen(window.geometry, screen_width, screen_height) {
            Some(geometry) => {
                let kept = NiriWindows {
                    app_id: window.app_id,
                    title: window.title,
                    focused: window.focused,
                    setting: window.setting,
                    geometry,
                };
                out.push(kept);
                proof {
                    assert(out.deep_view() =~= so_far.push(kept@));
                }
            },
            None => {},
        }
    }
    proof {
        assert(before.take(all.len() as int) =~= before);
    }
    out
}

/// Whether the windows differ from those seen before.
pub fn windows_changed(previous: &Vec<NiriWindows>, windows: &Vec<NiriWindows>) -> (r: bool)
    ensures
        r == (previous.deep_view() != windows.deep_view()),
{
    if previous.len() != windows.len() {
        proof {
            assert(previous.deep_view().len() != windows.deep_view().len());
        }
        return true;
    }
    let mut i: usize = 0;
    while i < previous.len()
        invariant
            i <= previous.len(),
            previous.len() == windows.len(),
            forall|k: int| 0 <= k < i ==> previous.deep_view()[k] == windows.deep_view()[k],
        decreases previous.len() - i,
    {
        let a = &previous[i];
        let b = &windows[i];
        let same = a.app_id == b.app_id && a.title == b.title && a.focused == b.focused
            && a.setting == b.setting && a.geometry == b.geometry;
        if !same {
            proof {
                assert(previous.deep_view()[i as int] != windows.deep_view()[i as int]);
            }
            return true;
        }
        i += 1;
    }
    proof {
        assert(previous.deep_view() =~= windows.deep_view());
    }
    false
}

} // verus!
