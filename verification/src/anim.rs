//! The discrete parts of the motion vocabulary: how many times a motion
//! runs, which property it moves, the ends of a playback run, and how a
//! stagger picks its leading element.

use vstd::prelude::*;

verus! {

/// How many times a motion runs.
#[derive(Debug, Clone, Copy, PartialEq, Eq, Structural)]
pub enum Loop {
    Once,
    /// Exactly `n` iterations (`0` and `1` both mean once).
    Times(u32),
    Forever,
}

impl Loop {
    /// The iteration count, or `None` when it never ends.
    pub fn count(self) -> (r: Option<u32>)
        ensures
            r == match self {
                Loop::Once => Some(1u32),
                Loop::Times(n) => Some(if n == 0 { 1u32 } else { n }),
                Loop::Forever => None,
            },
    {
        match self {
            Loop::Once => Some(1),
            Loop::Times(n) => Some(if n < 1 { 1 } else { n }),
            Loop::Forever => None,
        }
    }
}

impl Default for Loop {
    fn default() -> (r: Loop)
        ensures
            r == Loop::Once,
    {
        Loop::Once
    }
}

/// One animatable property.
#[derive(Debug, Clone, Copy, PartialEq, Eq, Hash)]
pub enum Prop {
    Opacity,
    /// Horizontal offset in px, applied as a relative inset: the element
    /// moves, the layout does not.
    X,
    /// Vertical offset in px, same mechanism as `X`.
    Y,
    Width,
    Height,
    MarginTop,
    MarginRight,
    MarginBottom,
    MarginLeft,
    PadTop,
    PadRight,
    PadBottom,
    PadLeft,
    Radius,
    BorderWidth,
    Gap,
    FontSize,
    Background,
    BorderColor,
    TextColor,
    /// Turns in degrees, carried for the host to read back out of a frame.
    Rotate,
    /// A multiplier, carried for the host to read back out of a frame.
    Scale,
    /// Anything else to tween; its value never touches a style.
    Custom(&'static str),
}

impl Prop {
    /// Whether the property expects a colour value.
    pub fn is_color(self) -> (r: bool)
        ensures
            r == (self is Background || self is BorderColor || self is TextColor),
    {
        match self {
            Prop::Background | Prop::BorderColor | Prop::TextColor => true,
            _ => false,
        }
    }
}

/// The ends of a playback run.
#[derive(Debug, Clone, Copy, PartialEq, Eq, Structural)]
pub enum AnimatorEvent {
    /// Playback started (or restarted) from a stopped state.
    Begin,
    /// The playhead reached the end, or the start when running reversed.
    Complete,
}

/// Which element of a stagger goes first.
#[derive(Debug, Clone, Copy, PartialEq, Eq, Structural)]
pub enum StaggerFrom {
    First,
    Last,
    Center,
    /// A specific index leads and the rest ripple out from it.
    Index(usize),
}

impl Default for StaggerFrom {
    fn default() -> (r: StaggerFrom)
        ensures
            r == StaggerFrom::First,
    {
        StaggerFrom::First
    }
}

/// Restrict a grid stagger to one axis.
#[derive(Debug, Clone, Copy, PartialEq, Eq, Structural)]
pub enum StaggerAxis {
    X,
    Y,
}

} // verus!
