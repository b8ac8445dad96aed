use vstd::prelude::*;
use crate::models::Tag;

verus! {

/// The two looks a consumer can present.  The core only cares about one
/// consequence of the choice: which tag stands in for the reset
/// sentinel when events are applied to the display-side store.
#[derive(Clone, Copy, Debug, PartialEq, Eq, Structural, Hash)]
pub enum Theme {
    Dark,
    Light,
}

impl Default for Theme {
    fn default() -> (t: Theme)
        ensures
            t == Theme::Dark,
    {
        Theme::Dark
    }
}

impl Theme {
    /// The tag a consumer substitutes for the reset sentinel: light
    /// bars on a dark ground, dark bars on a light one.
    pub fn default_tag(&self) -> (t: Tag)
        ensures
            *self is Dark ==> t == Tag::white_spec(),
            *self is Light ==> t == (Tag { r: 0, g: 0, b: 0 }),
    {
        match self {
            Theme::Dark => Tag::white(),
            Theme::Light => Tag::from_rgb(0, 0, 0),
        }
    }
}

} // verus!
