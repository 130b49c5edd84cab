//! The boot slot of the Android boot control, which is not switched yet.

use vstd::prelude::*;
use vstd::string::StringExecFns;

verus! {

/// The Android slot that is active: always slot "a", as switching is not
/// supported.
pub fn get_current_android_slot() -> (r: String)
    ensures
        r@ == "a"@,
{
    String::from_str("a")
}

/// Makes `slot` the active Android slot. Switching is not supported: nothing
/// happens.
pub fn change_active_android_slot(slot: &str) {
}

} // verus!
