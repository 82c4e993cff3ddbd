//! The steps of the interactive front end and the states of its book toggle.
use vstd::prelude::*;

verus! {

/// The screens of the interactive front end, in the order they are visited.
#[derive(Debug, Clone, Copy, PartialEq, Eq, Structural)]
pub enum Screen {
    SelectInput,
    BookSelection,
    SelectOutput,
    End,
}

/// The place of a screen in the order of visits.
pub open spec fn screen_rank(s: Screen) -> int {
    match s {
        Screen::SelectInput => 0,
        Screen::BookSelection => 1,
        Screen::SelectOutput => 2,
        Screen::End => 3,
    }
}

impl Screen {
    /// The screen after this one; none after the last.
    pub fn next(self) -> (r: Option<Screen>)
        ensures
            screen_rank(self) < 3 <==> r is Some,
            r is Some ==> screen_rank(r->0) == screen_rank(self) + 1,
    {
        match self {
            Screen::SelectInput => Some(Screen::BookSelection),
            Screen::BookSelection => Some(Screen::SelectOutput),
            Screen::SelectOutput => Some(Screen::End),
            Screen::End => None,
        }
    }

    /// The screen before this one; none before the first.
    pub fn previous(self) -> (r: Option<Screen>)
        ensures
            screen_rank(self) > 0 <==> r is Some,
            r is Some ==> screen_rank(r->0) == screen_rank(self) - 1,
    {
        match self {
            Screen::SelectInput => None,
            Screen::BookSelection => Some(Screen::SelectInput),
            Screen::SelectOutput => Some(Screen::BookSelection),
            Screen::End => Some(Screen::SelectOutput),
        }
    }
}

/// The state in which a book toggle is drawn.
#[derive(Debug, Clone, Copy, PartialEq, Eq, Structural)]
pub enum Status {
    Active { is_toggled: bool },
    Hovered { is_toggled: bool },
    Disabled,
}

/// Why writing a book's output failed.
#[derive(Debug, Clone)]
pub enum RenderError {
    CreateOutputFileFailed(String),
    ParsingFailed(String),
}

impl RenderError {
    /// The message that the error carries.
    pub fn message(&self) -> (r: String)
        ensures
            r@ == match self {
                RenderError::CreateOutputFileFailed(s) => s@,
                RenderError::ParsingFailed(s) => s@,
            },
    {
        match self {
            RenderError::CreateOutputFileFailed(s) => s.clone(),
            RenderError::ParsingFailed(s) => s.clone(),
        }
    }
}

} // verus!
