use objviewer::ui::{apply_ui_action, CameraCommand, ToolbarButton, UiAction, UiState, ViewPreset};

#[test]
fn toolbar_starts_orthographic() {
    let ui = UiState::default();
    assert!(ui.orthographic);
    assert_eq!(ui.projection_label(), "正交视图");
}

#[test]
fn label_follows_projection() {
    let ui = UiState { orthographic: false };
    assert_eq!(ui.projection_label(), "透视视图");
}

#[test]
fn projection_button_flips_toolbar() {
    let mut ui = UiState::default();
    assert_eq!(ui.press(ToolbarButton::Projection), UiAction::ToggleProjection);
    assert!(!ui.orthographic);
    assert_eq!(ui.press(ToolbarButton::Projection), UiAction::ToggleProjection);
    assert!(ui.orthographic);
}

#[test]
fn other_buttons_keep_toolbar() {
    let mut ui = UiState::default();
    assert_eq!(ui.press(ToolbarButton::Reset), UiAction::SetView(ViewPreset::Default));
    assert_eq!(ui.press(ToolbarButton::View(ViewPreset::Top)), UiAction::SetView(ViewPreset::Top));
    assert_eq!(ui.press(ToolbarButton::Quit), UiAction::Quit);
    assert!(ui.orthographic);
}

#[test]
fn toggle_follows_camera() {
    let mut ui = UiState::default();
    ui.press(ToolbarButton::Projection);
    let d = apply_ui_action(&mut ui, true, UiAction::ToggleProjection);
    assert_eq!(d.command, CameraCommand::ToggleProjection);
    assert!(!d.orthographic);
    assert!(!ui.orthographic);
}

#[test]
fn toggle_corrects_a_disagreeing_toolbar() {
    let mut ui = UiState { orthographic: true };
    let d = apply_ui_action(&mut ui, true, UiAction::ToggleProjection);
    assert!(!d.orthographic);
    assert!(!ui.orthographic);
}

#[test]
fn views_and_reset_keep_toolbar_projection() {
    let mut ui = UiState { orthographic: false };
    let d = apply_ui_action(&mut ui, true, UiAction::SetView(ViewPreset::Default));
    assert_eq!(d.command, CameraCommand::Reset);
    assert!(!d.orthographic);
    let d = apply_ui_action(&mut ui, false, UiAction::SetView(ViewPreset::Left));
    assert_eq!(d.command, CameraCommand::Look(ViewPreset::Left));
    assert!(!d.orthographic);
    assert!(!ui.orthographic);
}

#[test]
fn idle_and_quit() {
    let mut ui = UiState::default();
    let d = apply_ui_action(&mut ui, false, UiAction::Idle);
    assert_eq!(d.command, CameraCommand::Keep);
    assert!(d.orthographic);
    let d = apply_ui_action(&mut ui, true, UiAction::Quit);
    assert_eq!(d.command, CameraCommand::Quit);
}

#[test]
fn two_clicks_restore_projection() {
    let mut ui = UiState::default();
    let mut camera = ui.orthographic;
    for _ in 0..2 {
        let a = ui.press(ToolbarButton::Projection);
        let d = apply_ui_action(&mut ui, camera, a);
        camera = d.orthographic;
    }
    assert!(camera);
    assert!(ui.orthographic);
}

#[test]
fn last_click_of_a_frame_wins() {
    let mut ui = UiState::default();
    let a = ui.press_all(&vec![ToolbarButton::View(ViewPreset::Front), ToolbarButton::Quit]);
    assert_eq!(a, UiAction::Quit);
    assert!(ui.orthographic);
    let a = ui.press_all(&vec![ToolbarButton::Projection, ToolbarButton::Reset]);
    assert_eq!(a, UiAction::SetView(ViewPreset::Default));
    assert!(!ui.orthographic);
}

#[test]
fn frame_without_clicks_is_idle() {
    let mut ui = UiState { orthographic: false };
    assert_eq!(ui.press_all(&vec![]), UiAction::Idle);
    assert!(!ui.orthographic);
}

#[test]
fn each_projection_click_flips() {
    let mut ui = UiState::default();
    let a = ui.press_all(&vec![ToolbarButton::Projection, ToolbarButton::Projection]);
    assert_eq!(a, UiAction::ToggleProjection);
    assert!(ui.orthographic);
}
