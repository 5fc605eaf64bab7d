use vstd::prelude::*;

verus! {

/// The namespace of the named colours.
pub struct Color {}

/// A region that reacts to a click.
pub struct MouseArea {}

impl MouseArea {
    /// Runs `f` once, as a click on the area does.
    pub fn on_clicked<F: FnOnce()>(&self, f: F)
        requires
            f.requires(()),
        ensures
            f.ensures((), ()),
    {
        f();
    }
}

pub fn mouse_area() -> MouseArea {
    MouseArea {  }
}

/// The direction in which an element lays out its children.
#[derive(Clone, Debug)]
pub enum Flex {
    Horizontal,
    Vertical,
    Unset,
}

impl Default for Flex {
    fn default() -> (flex: Self)
        ensures
            flex is Unset,
    {
        Flex::Unset
    }
}

} // verus!
