//! View-switching state of the application shell: a landing page, a fixed
//! list of registered tools opened by position, and a sidebar toggle. The
//! rendering host owns one of these and drives it from button presses.

use vstd::prelude::*;

verus! {

/// Which screen the shell is showing.
#[derive(Clone, Copy, PartialEq, Eq, Debug)]
pub enum AppView {
    /// The landing page listing the registered tools.
    LandingPage,
    /// The tool at this position in the registration list.
    SubApp(usize),
}

/// The shell's state: current screen, sidebar visibility, and how many tools
/// are registered.
pub struct AppShell {
    pub current_view: AppView,
    pub sidebar_open: bool,
    pub app_count: usize,
}

impl AppShell {
    /// An open tool, when one is shown, is one of the registered tools.
    pub open spec fn wf(self) -> bool {
        match self.current_view {
            AppView::SubApp(i) => i < self.app_count,
            AppView::LandingPage => true,
        }
    }

    /// A shell over a fixed number of registered tools starts on the landing
    /// page with the sidebar closed.
    pub fn new(app_count: usize) -> (s: Self)
        ensures
            s.current_view == AppView::LandingPage,
            !s.sidebar_open,
            s.app_count == app_count,
            s.wf(),
    {
        AppShell { current_view: AppView::LandingPage, sidebar_open: false, app_count }
    }

    /// Opens the tool at position i.
    pub fn select_app(&mut self, i: usize)
        requires
            old(self).wf(),
            i < old(self).app_count,
        ensures
            *final(self) == (AppShell { current_view: AppView::SubApp(i), ..*old(self) }),
            final(self).wf(),
    {
        self.current_view = AppView::SubApp(i);
    }

    /// Returns to the landing page.
    pub fn back_to_landing(&mut self)
        requires
            old(self).wf(),
        ensures
            *final(self) == (AppShell { current_view: AppView::LandingPage, ..*old(self) }),
            final(self).wf(),
    {
        self.current_view = AppView::LandingPage;
    }

    /// Shows or hides the sidebar.
    pub fn toggle_sidebar(&mut self)
        requires
            old(self).wf(),
        ensures
            *final(self) == (AppShell { sidebar_open: !old(self).sidebar_open, ..*old(self) }),
            final(self).wf(),
    {
        self.sidebar_open = !self.sidebar_open;
    }
}

} // verus!
