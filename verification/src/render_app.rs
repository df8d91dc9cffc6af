//! The decisions of the render window, frame by frame: whether to render,
//! show the finished image, or discard it once the viewer has been closed.
//! The window itself and the rendering are driven from outside; this state
//! machine says which of them a frame asks for.

use vstd::prelude::*;

verus! {

/// What one frame of the render window asks for.
#[derive(Clone, Copy, Debug, PartialEq, Eq, Structural)]
pub enum FrameAction {
    /// An image was requested and none is finished: render (and save) it.
    Render,
    /// An image was requested and is finished: show it.
    ShowImage,
    /// The viewer was closed over a finished image: drop it.
    DiscardImage,
    /// Nothing was requested and nothing is held.
    Idle,
}

/// The flags of the render window.
#[derive(Clone, Copy, Debug, PartialEq, Eq, Structural)]
pub struct RenderAppState {
    /// The viewer asks for the image ("Render Image" is ticked).
    pub render_and_show: bool,
    /// The image of the current request is rendered.
    pub finished_rendering: bool,
    /// The image of the current request is saved.
    pub image_saved: bool,
}

/// The action a frame takes in state `s`.
pub open spec fn spec_next_action(s: RenderAppState) -> FrameAction {
    if s.render_and_show && !s.finished_rendering {
        FrameAction::Render
    } else if s.render_and_show {
        FrameAction::ShowImage
    } else if s.finished_rendering {
        FrameAction::DiscardImage
    } else {
        FrameAction::Idle
    }
}

/// The state after a render of the current request: rendered and saved.
pub open spec fn spec_after_render(s: RenderAppState) -> RenderAppState {
    RenderAppState { finished_rendering: true, image_saved: true, ..s }
}

/// The state after the finished image is dropped.
pub open spec fn spec_after_discard(s: RenderAppState) -> RenderAppState {
    RenderAppState { finished_rendering: false, image_saved: false, ..s }
}

/// The state after the viewer ticks or unticks "Render Image".
pub open spec fn spec_with_request(s: RenderAppState, requested: bool) -> RenderAppState {
    RenderAppState { render_and_show: requested, ..s }
}

impl RenderAppState {
    /// Every image that is rendered is saved at once, and dropped together
    /// with its saved mark.
    pub open spec fn wf(self) -> bool {
        self.image_saved == self.finished_rendering
    }

    /// The window as it opens: nothing requested, nothing rendered.
    pub fn new() -> (state: RenderAppState)
        ensures
            state.wf(),
            !state.render_and_show,
            !state.finished_rendering,
            !state.image_saved,
            spec_next_action(state) == FrameAction::Idle,
    {
        RenderAppState { render_and_show: false, finished_rendering: false, image_saved: false }
    }

    /// The action this frame takes.
    pub fn next_action(&self) -> (action: FrameAction)
        ensures
            action == spec_next_action(*self),
    {
        if self.render_and_show && !self.finished_rendering {
            FrameAction::Render
        } else if self.render_and_show {
            FrameAction::ShowImage
        } else if self.finished_rendering {
            FrameAction::DiscardImage
        } else {
            FrameAction::Idle
        }
    }

    /// Records that the image of the current request was rendered and saved;
    /// a state whose image is already rendered stays as it is.
    pub fn finish_render(&mut self)
        requires
            old(self).wf(),
        ensures
            *final(self) == spec_after_render(*old(self)),
            final(self).wf(),
            old(self).finished_rendering ==> *final(self) == *old(self),
    {
        self.finished_rendering = true;
        self.image_saved = true;
    }

    /// Drops the finished image, so that a new request renders anew.
    pub fn discard_image(&mut self)
        ensures
            *final(self) == spec_after_discard(*old(self)),
            final(self).wf(),
    {
        self.finished_rendering = false;
        self.image_saved = false;
    }

    /// The viewer ticks (`true`) or unticks (`false`) "Render Image"; closing
    /// the image viewer unticks it.
    pub fn set_render_and_show(&mut self, requested: bool)
        ensures
            *final(self) == spec_with_request(*old(self), requested),
            old(self).wf() ==> final(self).wf(),
    {
        self.render_and_show = requested;
    }
}

/// A request for an image is answered by exactly one render: from an idle
/// window, ticking "Render Image" asks for a render; once it is done, every
/// later frame shows the image and none renders again, until the viewer is
/// closed, which drops the image and leaves the window idle; ticking again
/// renders anew.
pub proof fn lemma_render_request_cycle(s: RenderAppState)
    requires
        s.wf(),
        spec_next_action(s) == FrameAction::Idle,
    ensures
        ({
            let requested = spec_with_request(s, true);
            let rendered = spec_after_render(requested);
            let closed = spec_with_request(rendered, false);
            let dropped = spec_after_discard(closed);
            &&& spec_next_action(requested) == FrameAction::Render
            &&& rendered.wf()
            &&& spec_next_action(rendered) == FrameAction::ShowImage
            &&& spec_after_render(rendered) == rendered
            &&& spec_next_action(closed) == FrameAction::DiscardImage
            &&& dropped.wf()
            &&& spec_next_action(dropped) == FrameAction::Idle
            &&& spec_next_action(spec_with_request(dropped, true)) == FrameAction::Render
        }),
{
}

/// Whatever the viewer does, a window whose image is finished never asks
/// for another render: only dropping the image lets a render happen again.
pub proof fn lemma_finished_never_renders(s: RenderAppState, requested: bool)
    requires
        s.wf(),
        s.finished_rendering,
    ensures
        spec_next_action(s) != FrameAction::Render,
        spec_next_action(spec_with_request(s, requested)) != FrameAction::Render,
        spec_next_action(spec_after_render(s)) != FrameAction::Render,
{
}

} // verus!
