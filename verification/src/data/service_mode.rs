//! The mode of a service.

use crate::text::same_text;
use vstd::prelude::*;

verus! {

/// The kind of vehicle that runs a service.
#[derive(Debug, PartialEq, Eq)]
pub enum ServiceMode {
    Bus,
    Train,
    Ferry,
    CableCar,
    Other(String),
}

/// What a `ServiceMode` holds.
pub enum ServiceModeView {
    Bus,
    Train,
    Ferry,
    CableCar,
    Other(Seq<char>),
}

impl View for ServiceMode {
    type V = ServiceModeView;

    open spec fn view(&self) -> ServiceModeView {
        match self {
            ServiceMode::Bus => ServiceModeView::Bus,
            ServiceMode::Train => ServiceModeView::Train,
            ServiceMode::Ferry => ServiceModeView::Ferry,
            ServiceMode::CableCar => ServiceModeView::CableCar,
            ServiceMode::Other(other) => ServiceModeView::Other(other@),
        }
    }
}

impl Clone for ServiceMode {
    fn clone(&self) -> (r: Self)
        ensures
            r == *self,
    {
        match self {
            ServiceMode::Bus => ServiceMode::Bus,
            ServiceMode::Train => ServiceMode::Train,
            ServiceMode::Ferry => ServiceMode::Ferry,
            ServiceMode::CableCar => ServiceMode::CableCar,
            ServiceMode::Other(other) => ServiceMode::Other(other.clone()),
        }
    }
}

/// The text that stands for a mode.
pub open spec fn mode_text(mode: ServiceModeView) -> Seq<char> {
    match mode {
        ServiceModeView::Bus => "Bus"@,
        ServiceModeView::Train => "Train"@,
        ServiceModeView::Ferry => "Ferry"@,
        ServiceModeView::CableCar => "Cable Car"@,
        ServiceModeView::Other(other) => other,
    }
}

/// The mode that a text stands for.
pub open spec fn mode_of_text(text: Seq<char>) -> ServiceModeView {
    if text == "Bus"@ {
        ServiceModeView::Bus
    } else if text == "Train"@ {
        ServiceModeView::Train
    } else if text == "Ferry"@ {
        ServiceModeView::Ferry
    } else if text == "Cable Car"@ {
        ServiceModeView::CableCar
    } else {
        ServiceModeView::Other(text)
    }
}

/// Every text is the text of the mode that it stands for.
pub proof fn lemma_mode_text_round_trip(text: Seq<char>)
    ensures
        mode_text(mode_of_text(text)) == text,
{
}

impl ServiceMode {
    /// The text that stands for the mode.
    pub fn to_str(&self) -> (text: String)
        ensures
            text@ == mode_text(self@),
    {
        match self {
            ServiceMode::Bus => "Bus".to_string(),
            ServiceMode::Train => "Train".to_string(),
            ServiceMode::Ferry => "Ferry".to_string(),
            ServiceMode::CableCar => "Cable Car".to_string(),
            ServiceMode::Other(other) => other.clone(),
        }
    }

    /// The mode that `s` stands for. A text that names none of the four
    /// known modes is kept as it is.
    pub fn from_str(s: &str) -> (mode: Self)
        ensures
            mode@ == mode_of_text(s@),
    {
        if same_text(s, "Bus") {
            ServiceMode::Bus
        } else if same_text(s, "Train") {
            ServiceMode::Train
        } else if same_text(s, "Ferry") {
            ServiceMode::Ferry
        } else if same_text(s, "Cable Car") {
            ServiceMode::CableCar
        } else {
            ServiceMode::Other(s.to_string())
        }
    }
}

} // verus!
