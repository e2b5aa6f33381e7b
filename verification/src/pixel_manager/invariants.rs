//! Why no operation on the registry breaks it.

use vstd::prelude::*;
use super::{
    ApplicationView, ManagerView, WindowDataView, WindowView, lemma_index, spec_drop_windows,
};
use crate::types::rockchip_ebc::Hint;

verus! {

/// What dropping the listed windows keeps: windows that were there, none
/// of them listed, and every one that was not listed.
pub proof fn lemma_drop_windows_members(windows: Seq<WindowView>, listed: Set<Seq<char>>)
    ensures
        forall|k: int|
            0 <= k < spec_drop_windows(windows, listed).len() ==> !listed.contains(
                (#[trigger] spec_drop_windows(windows, listed)[k]).uid,
            ) && exists|w: int|
                0 <= w < windows.len() && #[trigger] windows[w] == spec_drop_windows(
                    windows,
                    listed,
                )[k],
        forall|w: int|
            0 <= w < windows.len() && !listed.contains((#[trigger] windows[w]).uid) ==> exists|
                k: int,
            |
                0 <= k < spec_drop_windows(windows, listed).len() && #[trigger] spec_drop_windows(
                    windows,
                    listed,
                )[k] == windows[w],
        spec_drop_windows(windows, listed).len() <= windows.len(),
    decreases windows.len(),
{
    if windows.len() > 0 {
        let head = windows.drop_last();
        let last = windows.last();
        lemma_drop_windows_members(head, listed);
        let a = spec_drop_windows(head, listed);
        let out = spec_drop_windows(windows, listed);
        assert forall|k: int| 0 <= k < out.len() implies !listed.contains((#[trigger] out[k]).uid)
            && exists|w: int| 0 <= w < windows.len() && #[trigger] windows[w] == out[k] by {
            if k < a.len() {
                assert(out[k] == a[k]);
                let w = choose|w: int| 0 <= w < head.len() && #[trigger] head[w] == a[k];
                assert(windows[w] == out[k]);
            } else {
                assert(windows[windows.len() - 1] == out[k]);
            }
        }
        assert forall|w: int|
            0 <= w < windows.len() && !listed.contains((#[trigger] windows[w]).uid) implies exists|
            k: int,
        | 0 <= k < out.len() && #[trigger] out[k] == windows[w] by {
            if w < head.len() {
                assert(head[w] == windows[w]);
                let k = choose|k: int| 0 <= k < a.len() && #[trigger] a[k] == head[w];
                assert(out[k] == windows[w]);
            } else {
                assert(out[out.len() - 1] == windows[w]);
            }
        }
    }
}

/// Dropping windows leaves no two with the same identifier, if there were
/// none before.
pub proof fn lemma_drop_windows_distinct(windows: Seq<WindowView>, listed: Set<Seq<char>>)
    requires
        forall|i: int, j: int|
            0 <= i < j < windows.len() ==> (#[trigger] windows[i]).uid != (#[trigger] windows[j]).uid,
    ensures
        forall|i: int, j: int|
            0 <= i < j < spec_drop_windows(windows, listed).len() ==> (#[trigger] spec_drop_windows(
                windows,
                listed,
            )[i]).uid != (#[trigger] spec_drop_windows(windows, listed)[j]).uid,
    decreases windows.len(),
{
    if windows.len() > 0 {
        let head = windows.drop_last();
        assert forall|i: int, j: int| 0 <= i < j < head.len() implies (#[trigger] head[i]).uid != (
        #[trigger] head[j]).uid by {
            assert(head[i] == windows[i] && head[j] == windows[j]);
        }
        lemma_drop_windows_distinct(head, listed);
        lemma_drop_windows_members(head, listed);
        let a = spec_drop_windows(head, listed);
        let out = spec_drop_windows(windows, listed);
        assert forall|i: int, j: int| 0 <= i < j < out.len() implies (#[trigger] out[i]).uid != (
        #[trigger] out[j]).uid by {
            if j < a.len() {
                assert(out[i] == a[i] && out[j] == a[j]);
            } else {
                assert(out[i] == a[i]);
                let w = choose|w: int| 0 <= w < head.len() && #[trigger] head[w] == a[i];
                assert(windows[w] == head[w]);
                assert(out[j] == windows[windows.len() - 1]);
            }
        }
    }
}

/// Adding an application without windows keeps the registry together.
pub proof fn lemma_app_add_wf(view: ManagerView, app: ApplicationView)
    requires
        view.wf(),
        app.windows.is_empty(),
    ensures
        view.app_add(app).wf(),
{
    let next = view.app_add(app);
    lemma_index(view, app.key());
    if view.app_index(app.key()) is None {
        let n = view.applications.len() as int;
        assert forall|i: int| 0 <= i < n implies next.applications[i] == view.applications[i] by {}
        assert(next.applications[n] == app);
        assert forall|w: int| 0 <= w < next.windows.len() implies next.has_app(
            (#[trigger] next.windows[w]).app_key,
        ) by {
            assert(view.has_app(view.windows[w].app_key));
            let a = choose|a: int|
                0 <= a < view.applications.len() && (#[trigger] view.applications[a]).key()
                    == view.windows[w].app_key;
            assert(next.applications[a].key() == next.windows[w].app_key);
        }
        assert forall|a: int, uid: Seq<char>| 0 <= a < next.applications.len() implies (
        #[trigger] next.applications[a].windows.contains(uid) <==> next.owns(
            next.applications[a].key(),
            uid,
        )) by {
            if a < n {
                assert(view.applications[a].windows.contains(uid) <==> view.owns(
                    view.applications[a].key(),
                    uid,
                ));
            } else {
                if next.owns(app.key(), uid) {
                    let w = choose|w: int|
                        0 <= w < next.windows.len() && (#[trigger] next.windows[w]).uid == uid
                            && next.windows[w].app_key == app.key();
                    assert(view.has_app(view.windows[w].app_key));
                }
            }
        }
    }
}

proof fn lemma_app_remove_keys(view: ManagerView, key: Seq<char>)
    requires
        view.wf(),
        view.app_index(key) is Some,
    ensures
        view.app_remove(key).keys_distinct(),
        forall|a: int|
            0 <= a < view.app_remove(key).applications.len() ==> (#[trigger] view.app_remove(
                key,
            ).applications[a]).key() != key,
{
    let next = view.app_remove(key);
    lemma_index(view, key);
    let i = view.app_index(key).unwrap();
    assert forall|a: int| 0 <= a < next.applications.len() implies (
    #[trigger] next.applications[a]).key() != key && next.applications[a]
        == view.applications[if a < i {
        a
    } else {
        a + 1
    }] by {
        if a < i {
            assert(view.applications[a].key() != view.applications[i].key());
        } else {
            assert(view.applications[i].key() != view.applications[a + 1].key());
        }
    }
    assert forall|a: int, b: int| 0 <= a < b < next.applications.len() implies (
    #[trigger] next.applications[a]).key() != (#[trigger] next.applications[b]).key() by {
        let oa = if a < i { a } else { a + 1 };
        let ob = if b < i { b } else { b + 1 };
        assert(view.applications[oa].key() != view.applications[ob].key());
    }
}

/// A window belongs to the application `key` exactly when that
/// application lists it.
proof fn lemma_listed(view: ManagerView, a: int, w: int)
    requires
        view.wf(),
        0 <= a < view.applications.len(),
        0 <= w < view.windows.len(),
    ensures
        view.applications[a].windows.contains(view.windows[w].uid) <==> view.windows[w].app_key
            == view.applications[a].key(),
{
    let uid = view.windows[w].uid;
    let k = view.applications[a].key();
    assert(view.applications[a].windows.contains(uid) <==> view.owns(k, uid));
    if view.owns(k, uid) {
        let w2 = choose|w2: int|
            0 <= w2 < view.windows.len() && (#[trigger] view.windows[w2]).uid == uid
                && view.windows[w2].app_key == k;
        if w < w2 {
            assert(view.windows[w].uid != view.windows[w2].uid);
        } else if w2 < w {
            assert(view.windows[w2].uid != view.windows[w].uid);
        }
    }
}

proof fn lemma_app_remove_windows(view: ManagerView, key: Seq<char>)
    requires
        view.wf(),
        view.app_index(key) is Some,
    ensures
        view.app_remove(key).windows_have_apps(),
{
    let next = view.app_remove(key);
    lemma_index(view, key);
    let i = view.app_index(key).unwrap();
    let listed = view.applications[i].windows;
    lemma_drop_windows_members(view.windows, listed);
    assert forall|w: int| 0 <= w < next.windows.len() implies next.has_app(
        (#[trigger] next.windows[w]).app_key,
    ) by {
        let win = next.windows[w];
        let ow = choose|ow: int| 0 <= ow < view.windows.len() && #[trigger] view.windows[ow] == win;
        assert(view.has_app(view.windows[ow].app_key));
        let a = choose|a: int|
            0 <= a < view.applications.len() && (#[trigger] view.applications[a]).key()
                == win.app_key;
        lemma_listed(view, i, ow);
        assert(a != i);
        let na = if a < i { a } else { a - 1 };
        assert(next.applications[na] == view.applications[a]);
        assert(next.applications[na].key() == win.app_key);
    }
}

proof fn lemma_app_remove_lists(view: ManagerView, key: Seq<char>)
    requires
        view.wf(),
        view.app_index(key) is Some,
    ensures
        view.app_remove(key).lists_match(),
{
    let next = view.app_remove(key);
    lemma_index(view, key);
    lemma_app_remove_keys(view, key);
    let i = view.app_index(key).unwrap();
    let listed = view.applications[i].windows;
    lemma_drop_windows_members(view.windows, listed);
    assert forall|a: int, uid: Seq<char>| 0 <= a < next.applications.len() implies (
    #[trigger] next.applications[a].windows.contains(uid) <==> next.owns(
        next.applications[a].key(),
        uid,
    )) by {
        let oa = if a < i { a } else { a + 1 };
        let k = view.applications[oa].key();
        assert(next.applications[a] == view.applications[oa]);
        assert(view.applications[oa].windows.contains(uid) <==> view.owns(k, uid));
        assert(k != key);
        if view.owns(k, uid) {
            let w = choose|w: int|
                0 <= w < view.windows.len() && (#[trigger] view.windows[w]).uid == uid
                    && view.windows[w].app_key == k;
            lemma_listed(view, i, w);
            assert(!listed.contains(view.windows[w].uid));
            let nk = choose|nk: int|
                0 <= nk < next.windows.len() && #[trigger] next.windows[nk] == view.windows[w];
            assert(next.windows[nk].uid == uid && next.windows[nk].app_key == k);
        }
        if next.owns(k, uid) {
            let nk = choose|nk: int|
                0 <= nk < next.windows.len() && (#[trigger] next.windows[nk]).uid == uid
                    && next.windows[nk].app_key == k;
            let w = choose|w: int|
                0 <= w < view.windows.len() && #[trigger] view.windows[w] == next.windows[nk];
            assert(view.windows[w].uid == uid && view.windows[w].app_key == k);
        }
    }
}

/// Removing an application takes exactly its windows along: afterwards no
/// application has the key, no window belongs to it, and every window of
/// another application is still there.
pub proof fn lemma_app_remove_cascades(view: ManagerView, key: Seq<char>)
    requires
        view.wf(),
    ensures
        !view.app_remove(key).has_app(key),
        forall|w: int|
            0 <= w < view.app_remove(key).windows.len() ==> (#[trigger] view.app_remove(
                key,
            ).windows[w]).app_key != key,
        forall|w: int|
            0 <= w < view.windows.len() && (#[trigger] view.windows[w]).app_key != key ==> exists|
                k: int,
            |
                0 <= k < view.app_remove(key).windows.len() && #[trigger] view.app_remove(
                    key,
                ).windows[k] == view.windows[w],
{
    let next = view.app_remove(key);
    lemma_index(view, key);
    if view.app_index(key) is Some {
        let i = view.app_index(key).unwrap();
        let listed = view.applications[i].windows;
        lemma_app_remove_keys(view, key);
        lemma_drop_windows_members(view.windows, listed);
        assert forall|w: int| 0 <= w < next.windows.len() implies (#[trigger] next.windows[w]).app_key
            != key by {
            let o = choose|o: int|
                0 <= o < view.windows.len() && #[trigger] view.windows[o] == next.windows[w];
            lemma_listed(view, i, o);
        }
        assert forall|w: int|
            0 <= w < view.windows.len() && (#[trigger] view.windows[w]).app_key != key implies exists|
            k: int,
        | 0 <= k < next.windows.len() && #[trigger] next.windows[k] == view.windows[w] by {
            lemma_listed(view, i, w);
        }
    } else {
        assert forall|w: int| 0 <= w < next.windows.len() implies (#[trigger] next.windows[w]).app_key
            != key by {
            assert(view.has_app(view.windows[w].app_key));
        }
    }
}

/// Removing an application keeps the registry together.
pub proof fn lemma_app_remove_wf(view: ManagerView, key: Seq<char>)
    requires
        view.wf(),
    ensures
        view.app_remove(key).wf(),
{
    if view.app_index(key) is Some {
        let i = view.app_index(key).unwrap();
        lemma_app_remove_keys(view, key);
        lemma_drop_windows_distinct(view.windows, view.applications[i].windows);
        lemma_app_remove_windows(view, key);
        lemma_app_remove_lists(view, key);
    }
}

/// Replacing an application's default hint keeps the registry together.
pub proof fn lemma_app_set_hint_wf(view: ManagerView, key: Seq<char>, hint: Option<Hint>)
    requires
        view.wf(),
    ensures
        view.app_set_hint(key, hint).wf(),
{
    let next = view.app_set_hint(key, hint);
    lemma_index(view, key);
    if view.app_index(key) is Some {
        let i = view.app_index(key).unwrap();
        assert forall|a: int| 0 <= a < next.applications.len() implies (
        #[trigger] next.applications[a]).key() == view.applications[a].key()
            && next.applications[a].windows == view.applications[a].windows by {}
        assert forall|a: int, b: int| 0 <= a < b < next.applications.len() implies (
        #[trigger] next.applications[a]).key() != (#[trigger] next.applications[b]).key() by {
            assert(view.applications[a].key() != view.applications[b].key());
        }
        assert forall|w: int| 0 <= w < next.windows.len() implies next.has_app(
            (#[trigger] next.windows[w]).app_key,
        ) by {
            assert(view.has_app(view.windows[w].app_key));
            let a = choose|a: int|
                0 <= a < view.applications.len() && (#[trigger] view.applications[a]).key()
                    == view.windows[w].app_key;
            assert(next.applications[a].key() == next.windows[w].app_key);
        }
        assert forall|a: int, uid: Seq<char>| 0 <= a < next.applications.len() implies (
        #[trigger] next.applications[a].windows.contains(uid) <==> next.owns(
            next.applications[a].key(),
            uid,
        )) by {
            assert(view.applications[a].windows.contains(uid) <==> view.owns(
                view.applications[a].key(),
                uid,
            ));
        }
    }
}

/// Adding a window keeps the registry together.
pub proof fn lemma_window_add_wf(view: ManagerView, window: WindowView)
    requires
        view.wf(),
    ensures
        view.window_add(window).wf(),
{
    let next = view.window_add(window);
    lemma_index(view, window.app_key);
    lemma_index(view, window.uid);
    if view.app_index(window.app_key) is Some && view.window_index(window.uid) is None {
        let i = view.app_index(window.app_key).unwrap();
        let n = view.windows.len() as int;
        assert forall|a: int| 0 <= a < next.applications.len() implies (
        #[trigger] next.applications[a]).key() == view.applications[a].key() by {}
        assert forall|a: int, b: int| 0 <= a < b < next.applications.len() implies (
        #[trigger] next.applications[a]).key() != (#[trigger] next.applications[b]).key() by {
            assert(view.applications[a].key() != view.applications[b].key());
        }
        assert forall|w: int| 0 <= w < n implies next.windows[w] == view.windows[w] by {}
        assert(next.windows[n] == window);
        assert forall|w: int| 0 <= w < next.windows.len() implies next.has_app(
            (#[trigger] next.windows[w]).app_key,
        ) by {
            if w < n {
                assert(view.has_app(view.windows[w].app_key));
                let a = choose|a: int|
                    0 <= a < view.applications.len() && (#[trigger] view.applications[a]).key()
                        == view.windows[w].app_key;
                assert(next.applications[a].key() == next.windows[w].app_key);
            } else {
                assert(next.applications[i].key() == window.app_key);
            }
        }
        assert forall|a: int, uid: Seq<char>| 0 <= a < next.applications.len() implies (
        #[trigger] next.applications[a].windows.contains(uid) <==> next.owns(
            next.applications[a].key(),
            uid,
        )) by {
            let k = view.applications[a].key();
            assert(view.applications[a].windows.contains(uid) <==> view.owns(k, uid));
            if a != i {
                assert(k != window.app_key) by {
                    if a < i {
                        assert(view.applications[a].key() != view.applications[i].key());
                    } else {
                        assert(view.applications[i].key() != view.applications[a].key());
                    }
                }
            }
            if view.owns(k, uid) {
                let w = choose|w: int|
                    0 <= w < view.windows.len() && (#[trigger] view.windows[w]).uid == uid
                        && view.windows[w].app_key == k;
                assert(next.windows[w].uid == uid && next.windows[w].app_key == k);
            }
            if next.owns(k, uid) {
                let w = choose|w: int|
                    0 <= w < next.windows.len() && (#[trigger] next.windows[w]).uid == uid
                        && next.windows[w].app_key == k;
                if w < n {
                    assert(view.windows[w].uid == uid && view.windows[w].app_key == k);
                }
            }
            if a == i && uid == window.uid {
                assert(next.windows[n].uid == uid && next.windows[n].app_key == k);
            }
        }
    }
}

/// Removing a window keeps the registry together.
pub proof fn lemma_window_remove_wf(view: ManagerView, uid: Seq<char>)
    requires
        view.wf(),
    ensures
        view.window_remove(uid).wf(),
{
    let next = view.window_remove(uid);
    lemma_index(view, uid);
    if view.window_index(uid) is Some {
        let w = view.window_index(uid).unwrap();
        let app_key = view.windows[w].app_key;
        lemma_index(view, app_key);
        assert(view.has_app(app_key));
        let i = view.app_index(app_key).unwrap();
        assert forall|a: int| 0 <= a < next.applications.len() implies (
        #[trigger] next.applications[a]).key() == view.applications[a].key() by {}
        assert forall|a: int, b: int| 0 <= a < b < next.applications.len() implies (
        #[trigger] next.applications[a]).key() != (#[trigger] next.applications[b]).key() by {
            assert(view.applications[a].key() != view.applications[b].key());
        }
        assert forall|v: int| 0 <= v < next.windows.len() implies #[trigger] next.windows[v]
            == view.windows[if v < w {
            v
        } else {
            v + 1
        }] by {}
        assert forall|a: int, b: int| 0 <= a < b < next.windows.len() implies (
        #[trigger] next.windows[a]).uid != (#[trigger] next.windows[b]).uid by {
            let oa = if a < w { a } else { a + 1 };
            let ob = if b < w { b } else { b + 1 };
            assert(view.windows[oa].uid != view.windows[ob].uid);
        }
        assert forall|v: int| 0 <= v < next.windows.len() implies next.has_app(
            (#[trigger] next.windows[v]).app_key,
        ) by {
            let ov = if v < w { v } else { v + 1 };
            assert(view.has_app(view.windows[ov].app_key));
            let a = choose|a: int|
                0 <= a < view.applications.len() && (#[trigger] view.applications[a]).key()
                    == view.windows[ov].app_key;
            assert(next.applications[a].key() == next.windows[v].app_key);
        }
        assert forall|a: int, x: Seq<char>| 0 <= a < next.applications.len() implies (
        #[trigger] next.applications[a].windows.contains(x) <==> next.owns(
            next.applications[a].key(),
            x,
        )) by {
            let k = view.applications[a].key();
            assert(view.applications[a].windows.contains(x) <==> view.owns(k, x));
            if a != i {
                assert(k != app_key) by {
                    if a < i {
                        assert(view.applications[a].key() != view.applications[i].key());
                    } else {
                        assert(view.applications[i].key() != view.applications[a].key());
                    }
                }
            }
            if view.owns(k, x) {
                let v = choose|v: int|
                    0 <= v < view.windows.len() && (#[trigger] view.windows[v]).uid == x
                        && view.windows[v].app_key == k;
                if v < w {
                    assert(view.windows[v].uid != view.windows[w].uid);
                    assert(next.windows[v].uid == x && next.windows[v].app_key == k);
                } else if v > w {
                    assert(view.windows[w].uid != view.windows[v].uid);
                    assert(next.windows[v - 1].uid == x && next.windows[v - 1].app_key == k);
                }
            }
            if next.owns(k, x) {
                let v = choose|v: int|
                    0 <= v < next.windows.len() && (#[trigger] next.windows[v]).uid == x
                        && next.windows[v].app_key == k;
                let ov = if v < w { v } else { v + 1 };
                assert(view.windows[ov].uid == x && view.windows[ov].app_key == k);
                if ov < w {
                    assert(view.windows[ov].uid != view.windows[w].uid);
                } else {
                    assert(view.windows[w].uid != view.windows[ov].uid);
                }
            }
        }
    }
}

/// Replacing a window's data keeps the registry together.
pub proof fn lemma_window_update_wf(view: ManagerView, uid: Seq<char>, data: WindowDataView)
    requires
        view.wf(),
    ensures
        view.window_update(uid, data).wf(),
{
    let next = view.window_update(uid, data);
    lemma_index(view, uid);
    if view.window_index(uid) is Some {
        let w = view.window_index(uid).unwrap();
        assert forall|v: int| 0 <= v < next.windows.len() implies (#[trigger] next.windows[v]).uid
            == view.windows[v].uid && next.windows[v].app_key == view.windows[v].app_key by {}
        assert forall|a: int, b: int| 0 <= a < b < next.windows.len() implies (
        #[trigger] next.windows[a]).uid != (#[trigger] next.windows[b]).uid by {
            assert(view.windows[a].uid != view.windows[b].uid);
        }
        assert forall|v: int| 0 <= v < next.windows.len() implies next.has_app(
            (#[trigger] next.windows[v]).app_key,
        ) by {
            assert(view.has_app(view.windows[v].app_key));
            let a = choose|a: int|
                0 <= a < view.applications.len() && (#[trigger] view.applications[a]).key()
                    == view.windows[v].app_key;
            assert(next.applications[a].key() == next.windows[v].app_key);
        }
        assert forall|a: int, x: Seq<char>| 0 <= a < next.applications.len() implies (
        #[trigger] next.applications[a].windows.contains(x) <==> next.owns(
            next.applications[a].key(),
            x,
        )) by {
            let k = view.applications[a].key();
            assert(view.applications[a].windows.contains(x) <==> view.owns(k, x));
            if view.owns(k, x) {
                let v = choose|v: int|
                    0 <= v < view.windows.len() && (#[trigger] view.windows[v]).uid == x
                        && view.windows[v].app_key == k;
                assert(next.windows[v].uid == x && next.windows[v].app_key == k);
            }
            if next.owns(k, x) {
                let v = choose|v: int|
                    0 <= v < next.windows.len() && (#[trigger] next.windows[v]).uid == x
                        && next.windows[v].app_key == k;
                assert(view.windows[v].uid == x && view.windows[v].app_key == k);
            }
        }
    }
}

} // verus!
