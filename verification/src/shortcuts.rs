//! Keyboard accelerators for the application's actions.
use vstd::prelude::*;
use crate::strings::append_str;

verus! {

/// The accelerator string GTK reads for `key` with the platform's primary
/// modifier (`<Meta>` on macOS, `<Control>` elsewhere) and any further
/// modifiers, e.g. `<Control><Shift>n`.
pub fn accel(primary_mod: &str, extra_mods: &str, key: &str) -> (r: String)
    ensures
        r@ == primary_mod@ + extra_mods@ + key@,
{
    let mut r = String::new();
    append_str(&mut r, primary_mod);
    append_str(&mut r, extra_mods);
    append_str(&mut r, key);
    proof {
        assert(Seq::<char>::empty() + primary_mod@ =~= primary_mod@);
    }
    r
}

} // verus!
