//! What the bridges to window managers decide: which windows count, what
//! they look like to the registry, and what has changed about them.

use vstd::prelude::*;
use vstd::string::*;

pub mod quill_niri;
pub mod sway;

verus! {

/// The name under which the bridge in use is made known: `generic` when
/// no bridge was started.
pub fn active_bridge_name(bridge: String) -> (r: String)
    ensures
        r@ == if bridge@.len() == 0 {
            "generic"@
        } else {
            bridge@
        },
{
    if bridge.as_str().unicode_len() == 0 {
        "generic".to_owned()
    } else {
        bridge
    }
}

} // verus!
