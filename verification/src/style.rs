//! The app's stylesheets: which ones there are and where each lives, as
//! Sass sources and as compiled CSS. Compiling and loading them is the
//! caller's part.
use vstd::prelude::*;
use crate::strings::append_str;

verus! {

/// The stylesheets, by name, in the order they are combined.
pub const STYLESHEETS: [&'static str; 10] = [
    "base",
    "editor",
    "empty_state",
    "file_tree",
    "layout",
    "notebook",
    "rhyme_search",
    "settings",
    "status_bar",
    "welcome",
];

/// Where the stylesheet `name` with extension `ext` lives:
/// `assets/{ext}/{name}.{ext}` (`scss` for sources, `css` for output).
pub fn stylesheet_path(name: &str, ext: &str) -> (r: String)
    ensures
        r@ == "assets/"@ + ext@ + "/"@ + name@ + "."@ + ext@,
{
    let mut r = "assets/".to_owned();
    append_str(&mut r, ext);
    append_str(&mut r, "/");
    append_str(&mut r, name);
    append_str(&mut r, ".");
    append_str(&mut r, ext);
    r
}

} // verus!
