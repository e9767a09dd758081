//! The colours that the feedback is shown in.

use vstd::prelude::*;
use crate::guess::known_word_constraints::CharKnowledge;

verus! {

/// A colour of the interface, by what it is used for.
#[derive(Copy, Clone, PartialEq, Eq, Structural, Debug)]
pub enum Color {
    StandardForeground,
    Warning,
    Good,
    Error,
    Hidden,
}

impl Color {
    /// Number of colours.
    pub const COUNT: usize = 5;

    /// The place of the colour in the list of colours.
    pub open spec fn spec_repr(self) -> int {
        match self {
            Color::StandardForeground => 0,
            Color::Warning => 1,
            Color::Good => 2,
            Color::Error => 3,
            Color::Hidden => 4,
        }
    }

    /// The place of the colour in the list of colours.
    pub fn repr(self) -> (r: usize)
        ensures
            r == self.spec_repr(),
            r < 5,
    {
        match self {
            Color::StandardForeground => 0,
            Color::Warning => 1,
            Color::Good => 2,
            Color::Error => 3,
            Color::Hidden => 4,
        }
    }

    /// The colour at place `repr` of the list, if there is one.
    pub fn from_repr(repr: usize) -> (r: Option<Self>)
        ensures
            repr < 5 ==> (r matches Some(c) && c.spec_repr() == repr),
            repr >= 5 ==> r.is_none(),
    {
        match repr {
            0 => Some(Color::StandardForeground),
            1 => Some(Color::Warning),
            2 => Some(Color::Good),
            3 => Some(Color::Error),
            4 => Some(Color::Hidden),
            _ => None,
        }
    }
}

/// The colour that feedback of class `knowledge` is shown in.
pub open spec fn shown_in(knowledge: CharKnowledge) -> Color {
    match knowledge {
        CharKnowledge::Unknown => Color::StandardForeground,
        CharKnowledge::WrongPosition => Color::Warning,
        CharKnowledge::Correct => Color::Good,
        CharKnowledge::Missing => Color::Error,
    }
}

/// The colour that feedback of class `knowledge` is shown in.
pub fn color_for_knowledge(knowledge: CharKnowledge) -> (r: Color)
    ensures
        r == shown_in(knowledge),
{
    match knowledge {
        CharKnowledge::Unknown => Color::StandardForeground,
        CharKnowledge::WrongPosition => Color::Warning,
        CharKnowledge::Correct => Color::Good,
        CharKnowledge::Missing => Color::Error,
    }
}

impl CharKnowledge {
    /// The colour that the feedback is shown in.
    pub fn color(&self) -> (r: Color)
        ensures
            r == shown_in(*self),
    {
        color_for_knowledge(*self)
    }
}

} // verus!
