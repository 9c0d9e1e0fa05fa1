//! Style wrapper enums: the alignment, clipping, and display choices a
//! stylesheet can declare for a node.
//!
//! These are the discrete style values; the numeric style structs carry
//! floating-point sizes and live with the rendering glue, outside the
//! verified core.

use vstd::prelude::*;

verus! {

/// Whether a node clips its contents at its boundary.
#[derive(Debug, Clone, Copy, PartialEq, Eq, Structural)]
pub enum Clipping {
    /// No clipping on either axis.
    NoClipping,
    /// Clip on the horizontal axis only.
    ClipX,
    /// Clip on the vertical axis only.
    ClipY,
    /// Clip on both axes.
    ClipXY,
}

impl Default for Clipping {
    /// Defaults to no clipping.
    fn default() -> (r: Clipping)
        ensures
            r == Clipping::NoClipping,
    {
        Clipping::NoClipping
    }
}

/// Cross-axis alignment of the wrapped lines of children.
#[derive(Debug, Clone, Copy, PartialEq, Eq, Structural)]
pub enum JustifyLines {
    /// Pack lines toward the start of the cross axis.
    FlexStart,
    /// Pack lines toward the end of the cross axis.
    FlexEnd,
    /// Pack lines toward the center of the cross axis.
    Center,
    /// Stretch the lines to share the cross axis.
    Stretch,
    /// Even gaps between lines, none at the ends.
    SpaceBetween,
    /// One layer of space at the ends and between lines.
    SpaceEvenly,
    /// Space on each side of each line.
    SpaceAround,
}

impl Default for JustifyLines {
    /// Defaults to packing lines at the start.
    fn default() -> (r: JustifyLines)
        ensures
            r == JustifyLines::FlexStart,
    {
        JustifyLines::FlexStart
    }
}

/// Main-axis alignment of children within a line.
#[derive(Debug, Clone, Copy, PartialEq, Eq, Structural)]
pub enum JustifyMain {
    /// Cluster children at the start of the main axis.
    FlexStart,
    /// Cluster children at the end of the main axis.
    FlexEnd,
    /// Cluster children in the center of the main axis.
    Center,
    /// Even gaps between children, none at the ends.
    SpaceBetween,
    /// One layer of space at the ends and between children.
    SpaceEvenly,
    /// Space on each side of each child.
    SpaceAround,
}

impl Default for JustifyMain {
    /// Defaults to clustering children at the start.
    fn default() -> (r: JustifyMain)
        ensures
            r == JustifyMain::FlexStart,
    {
        JustifyMain::FlexStart
    }
}

/// Default cross-axis alignment of children within each line.
#[derive(Debug, Clone, Copy, PartialEq, Eq, Structural)]
pub enum JustifyCross {
    /// Align children to the start of the cross axis.
    FlexStart,
    /// Align children to the end of the cross axis.
    FlexEnd,
    /// Align children to the center of the cross axis.
    Center,
    /// Stretch children to fill the cross axis.
    Stretch,
}

impl Default for JustifyCross {
    /// Defaults to aligning children at the start.
    fn default() -> (r: JustifyCross)
        ensures
            r == JustifyCross::FlexStart,
    {
        JustifyCross::FlexStart
    }
}

/// Cross-axis alignment of one node, overriding its parent's
/// [`JustifyCross`].
#[derive(Debug, Clone, Copy, PartialEq, Eq, Structural)]
pub enum JustifySelfCross {
    /// Adopt the parent's [`JustifyCross`] setting.
    Auto,
    /// Align self to the start of the cross axis.
    FlexStart,
    /// Align self to the end of the cross axis.
    FlexEnd,
    /// Align self to the center of the cross axis.
    Center,
    /// Stretch self to fill the cross axis.
    Stretch,
}

impl Default for JustifySelfCross {
    /// Defaults to adopting the parent's setting.
    fn default() -> (r: JustifySelfCross)
        ensures
            r == JustifySelfCross::Auto,
    {
        JustifySelfCross::Auto
    }
}

/// Whether a node takes part in layout and rendering.
#[derive(Debug, Clone, Copy, PartialEq, Eq, Structural)]
pub enum DisplayControl {
    /// The node is laid out and rendered.
    Display,
    /// The node is hidden and takes no space.
    Hide,
}

impl Default for DisplayControl {
    /// Defaults to displaying the node.
    fn default() -> (r: DisplayControl)
        ensures
            r == DisplayControl::Display,
    {
        DisplayControl::Display
    }
}

impl DisplayControl {
    /// True when the node is displayed.
    pub fn is_displayed(&self) -> (r: bool)
        ensures
            r == (*self == DisplayControl::Display),
    {
        match self {
            DisplayControl::Display => true,
            DisplayControl::Hide => false,
        }
    }
}

} // verus!
