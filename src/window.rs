//! The panes of the screen, and the order in which focus moves through them.
use vstd::prelude::*;

verus! {

/// A pane that can hold the focus.
#[derive(Clone, Copy, Debug, PartialEq, Eq, Hash, Structural)]
pub enum Window {
    SearchBar,
    Shortcut,
    PaneTab,
    PaneWindow,
    Popup,
    Gauge,
    /// No pane.
    NoWindow,
}

/// The pane that focus moves to from `w`: search bar, shortcuts, pane tabs,
/// pane window, gauge; a popup hands focus back to the search bar.
pub open spec fn next_window(w: Window) -> Option<Window> {
    match w {
        Window::SearchBar => Some(Window::Shortcut),
        Window::Shortcut => Some(Window::PaneTab),
        Window::PaneTab => Some(Window::PaneWindow),
        Window::PaneWindow => Some(Window::Gauge),
        Window::Popup => Some(Window::SearchBar),
        Window::Gauge => None,
        Window::NoWindow => None,
    }
}

/// The pane that focus moves back to from `w`; a popup hands it to the gauge.
pub open spec fn prev_window(w: Window) -> Option<Window> {
    match w {
        Window::SearchBar => None,
        Window::Shortcut => Some(Window::SearchBar),
        Window::PaneTab => Some(Window::Shortcut),
        Window::PaneWindow => Some(Window::PaneTab),
        Window::Popup => Some(Window::Gauge),
        Window::Gauge => Some(Window::PaneWindow),
        Window::NoWindow => None,
    }
}

impl Window {
    pub fn next(&self) -> (r: Option<Window>)
        ensures
            r == next_window(*self),
    {
        match self {
            Window::SearchBar => Some(Window::Shortcut),
            Window::Shortcut => Some(Window::PaneTab),
            Window::PaneTab => Some(Window::PaneWindow),
            Window::PaneWindow => Some(Window::Gauge),
            Window::Popup => Some(Window::SearchBar),
            Window::Gauge => None,
            Window::NoWindow => None,
        }
    }

    pub fn prev(&self) -> (r: Option<Window>)
        ensures
            r == prev_window(*self),
    {
        match self {
            Window::SearchBar => None,
            Window::Shortcut => Some(Window::SearchBar),
            Window::PaneTab => Some(Window::Shortcut),
            Window::PaneWindow => Some(Window::PaneTab),
            Window::Popup => Some(Window::Gauge),
            Window::Gauge => Some(Window::PaneWindow),
            Window::NoWindow => None,
        }
    }

    /// The pane that focus starts from.
    pub fn first() -> (r: Window)
        ensures
            r == Window::SearchBar,
    {
        Window::SearchBar
    }

    /// The pane that focus ends at.
    pub fn last() -> (r: Window)
        ensures
            r == Window::Gauge,
    {
        Window::Gauge
    }
}

/// A tab of the pane window.
#[derive(Clone, Copy, Debug, PartialEq, Eq, Structural)]
pub enum PaneWindow {
    MusicPane,
    PlaylistPane,
    ArtistPane,
}

/// The position of a tab: music 0, playlists 1, artists 2.
pub open spec fn pane_index(p: PaneWindow) -> nat {
    match p {
        PaneWindow::MusicPane => 0,
        PaneWindow::PlaylistPane => 1,
        PaneWindow::ArtistPane => 2,
    }
}

/// The tab at position `i`, if there is one.
pub open spec fn pane_at(i: int) -> Option<PaneWindow> {
    if i == 0 {
        Some(PaneWindow::MusicPane)
    } else if i == 1 {
        Some(PaneWindow::PlaylistPane)
    } else if i == 2 {
        Some(PaneWindow::ArtistPane)
    } else {
        None
    }
}

impl PaneWindow {
    pub fn into_index(self) -> (r: usize)
        ensures
            r == pane_index(self),
    {
        match self {
            PaneWindow::MusicPane => 0,
            PaneWindow::PlaylistPane => 1,
            PaneWindow::ArtistPane => 2,
        }
    }

    pub fn try_from_index(index: usize) -> (r: Option<PaneWindow>)
        ensures
            r == pane_at(index as int),
    {
        if index == 0 {
            Some(PaneWindow::MusicPane)
        } else if index == 1 {
            Some(PaneWindow::PlaylistPane)
        } else if index == 2 {
            Some(PaneWindow::ArtistPane)
        } else {
            None
        }
    }

    pub fn first() -> (r: PaneWindow)
        ensures
            r == PaneWindow::MusicPane,
    {
        PaneWindow::MusicPane
    }

    pub fn last() -> (r: PaneWindow)
        ensures
            r == PaneWindow::ArtistPane,
    {
        PaneWindow::ArtistPane
    }

    /// The tab to the right, if any.
    pub fn next(self) -> (r: Option<PaneWindow>)
        ensures
            r == pane_at(pane_index(self) as int + 1),
    {
        Self::try_from_index(self.into_index() + 1)
    }

    /// The tab to the left, if any.
    pub fn prev(self) -> (r: Option<PaneWindow>)
        ensures
            r == pane_at(pane_index(self) as int - 1),
    {
        let i = self.into_index();
        if i == 0 {
            None
        } else {
            Self::try_from_index(i - 1)
        }
    }
}

} // verus!
