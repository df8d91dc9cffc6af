use raytracing_in_rust::render_app::{FrameAction, RenderAppState};

#[test]
fn new_window_is_idle() {
    let state = RenderAppState::new();
    assert!(!state.render_and_show);
    assert!(!state.finished_rendering);
    assert!(!state.image_saved);
    assert_eq!(state.next_action(), FrameAction::Idle);
}

#[test]
fn request_renders_once_then_shows() {
    let mut state = RenderAppState::new();
    state.set_render_and_show(true);
    assert_eq!(state.next_action(), FrameAction::Render);
    state.finish_render();
    assert!(state.finished_rendering);
    assert!(state.image_saved);
    assert_eq!(state.next_action(), FrameAction::ShowImage);
    assert_eq!(state.next_action(), FrameAction::ShowImage);
}

#[test]
fn finishing_twice_changes_nothing() {
    let mut state = RenderAppState::new();
    state.set_render_and_show(true);
    state.finish_render();
    let before = state;
    state.finish_render();
    assert_eq!(state, before);
}

#[test]
fn closing_viewer_discards_then_idles() {
    let mut state = RenderAppState::new();
    state.set_render_and_show(true);
    state.finish_render();
    state.set_render_and_show(false);
    assert_eq!(state.next_action(), FrameAction::DiscardImage);
    state.discard_image();
    assert!(!state.finished_rendering);
    assert!(!state.image_saved);
    assert_eq!(state.next_action(), FrameAction::Idle);
    state.set_render_and_show(true);
    assert_eq!(state.next_action(), FrameAction::Render);
}

#[test]
fn finished_image_never_renders_again() {
    let mut state = RenderAppState::new();
    state.set_render_and_show(true);
    state.finish_render();
    state.set_render_and_show(false);
    assert_ne!(state.next_action(), FrameAction::Render);
    state.set_render_and_show(true);
    assert_ne!(state.next_action(), FrameAction::Render);
}
