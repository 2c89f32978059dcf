//! The listener capability sets: the callbacks a view or a window exposes to
//! the toolkit, with no-op defaults, and the dispatcher that drains the
//! tree's decided events into a listener.
//!
//! The tree itself queues events rather than calling listeners mid-walk;
//! the embedder drains the queue with [`dispatch_view_events`] once a
//! mutation has finished. Callbacks therefore never observe the tree in the
//! middle of a walk, which is also why they must not be used to mutate
//! layout connectivity: the queue they are served from would be stale.

use vstd::prelude::*;

use crate::tree::{HView, HWnd, ViewEvent, ViewEventKind, Wm};

verus! {

/// View event handlers.
pub trait ViewListener {
    /// A view was added to a window.
    fn mount(&self, wm: Wm, view: HView) {
    }

    /// A view was removed from a window.
    fn unmount(&self, wm: Wm, view: HView) {
    }

    /// A view was repositioned: its global frame has been updated.
    fn position(&self, wm: Wm, view: HView) {
    }

    /// A view should update the properties of its associated layers and
    /// re-register them.
    fn update(&self, wm: Wm, view: HView) {
    }
}

/// A no-op implementation of `ViewListener`.
#[derive(Debug, Clone, Copy)]
pub struct DefaultViewListener;

impl ViewListener for DefaultViewListener {

}

/// Window event handlers.
pub trait WndListener {
    /// The user has attempted to close a window. Returns `true` if the
    /// window can be closed.
    fn close_requested(&self, wm: Wm, wnd: HWnd) -> bool {
        true
    }

    /// A window has been closed.
    fn close(&self, wm: Wm, wnd: HWnd) {
    }
}

/// A no-op implementation of `WndListener`.
#[derive(Debug, Clone, Copy)]
pub struct DefaultWndListener;

impl WndListener for DefaultWndListener {

}

/// Hand a drained batch of callback events to a listener, in the order the
/// tree decided them.
pub fn dispatch_view_events<L: ViewListener>(wm: Wm, events: &Vec<ViewEvent>, listener: &L) {
    let mut k: usize = 0;
    while k < events.len()
        decreases events@.len() - k,
    {
        let ev = events[k];
        match ev.kind {
            ViewEventKind::Mount => listener.mount(wm, HView { id: ev.view }),
            ViewEventKind::Unmount => listener.unmount(wm, HView { id: ev.view }),
            ViewEventKind::Position => listener.position(wm, HView { id: ev.view }),
            ViewEventKind::Update => listener.update(wm, HView { id: ev.view }),
        }
        k = k + 1;
    }
}

} // verus!
