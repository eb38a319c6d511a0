//! Chat text as the server sends it: components, each with a style.

use vstd::prelude::*;

verus! {

/// How a component is drawn. `None` leaves a trait to the parent component.
#[derive(Clone, Debug)]
pub struct Style {
    pub bold: Option<bool>,
    pub italic: Option<bool>,
    pub underlined: Option<bool>,
    pub strikethrough: Option<bool>,
    pub obfuscated: Option<bool>,
    /// Whether the traits of the parent are dropped.
    pub reset: bool,
}

impl Style {
    /// The style is wholly left to the parent.
    pub open spec fn is_plain(&self) -> bool {
        &&& self.bold is None
        &&& self.italic is None
        &&& self.underlined is None
        &&& self.strikethrough is None
        &&& self.obfuscated is None
        &&& !self.reset
    }
}

impl Default for Style {
    /// The style that leaves everything to the parent.
    fn default() -> (s: Self)
        ensures
            s.is_plain(),
    {
        Style {
            bold: None,
            italic: None,
            underlined: None,
            strikethrough: None,
            obfuscated: None,
            reset: false,
        }
    }
}

/// A piece of chat text in its style.
#[derive(Clone, Debug)]
pub struct Component {
    pub text: String,
    pub style: Style,
}

/// What every kind of component holds: the components that follow it and
/// its style.
#[derive(Clone, Debug)]
pub struct BaseComponent {
    pub siblings: Vec<Component>,
    pub style: Style,
}

impl BaseComponent {
    /// A component without siblings, in the plain style.
    pub fn new() -> (c: Self)
        ensures
            c.siblings@.len() == 0,
            c.style.is_plain(),
    {
        Self { siblings: Vec::new(), style: Style::default() }
    }
}

impl Default for BaseComponent {
    fn default() -> (c: Self)
        ensures
            c.siblings@.len() == 0,
            c.style.is_plain(),
    {
        Self::new()
    }
}

} // verus!
