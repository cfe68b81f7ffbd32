//! The toolbar's state and what its buttons ask of the camera.
//!
//! Drawing the toolbar and moving the camera happen outside this module: the
//! toolbar reports which button was clicked, `UiState::press` says what that
//! asks for, and `apply_ui_action` turns the request into one command for
//! the camera together with the projection that camera and toolbar show
//! after the frame.
use vstd::prelude::*;

verus! {

/// UI state and callbacks.
pub struct UiState {
    /// Whether to show orthographic projection.
    pub orthographic: bool,
}

impl Default for UiState {
    fn default() -> (r: Self)
        ensures
            r.orthographic,
    {
        UiState { orthographic: true }
    }
}

/// View direction preset.
#[derive(Clone, Copy, PartialEq, Eq, Debug, Structural)]
pub enum ViewPreset {
    Default,
    Front,
    Back,
    Left,
    Right,
    Top,
    Bottom,
}

/// Action requested by UI.
#[derive(Clone, Copy, PartialEq, Eq, Debug, Structural)]
pub enum UiAction {
    Idle,
    ToggleProjection,
    SetView(ViewPreset),
    Quit,
}

/// A toolbar button.
#[derive(Clone, Copy, PartialEq, Eq, Debug, Structural)]
pub enum ToolbarButton {
    /// Switches between orthographic and perspective projection.
    Projection,
    /// Back to the default view.
    Reset,
    /// One of the six view directions.
    View(ViewPreset),
    /// Leaves the viewer.
    Quit,
}

/// What the camera is asked to do in one frame.
#[derive(Clone, Copy, PartialEq, Eq, Debug, Structural)]
pub enum CameraCommand {
    /// Nothing.
    Keep,
    /// Flip between orthographic and perspective.
    ToggleProjection,
    /// Every setting back to its default.
    Reset,
    /// Look from one of the six directions.
    Look(ViewPreset),
    /// Leave the viewer.
    Quit,
}

/// The camera command of a frame and the projection that camera and toolbar
/// both show once it has been carried out.
#[derive(Clone, Copy, PartialEq, Eq, Debug, Structural)]
pub struct FrameDecision {
    pub command: CameraCommand,
    pub orthographic: bool,
}

/// What a button asks for.
pub open spec fn button_action(b: ToolbarButton) -> UiAction {
    match b {
        ToolbarButton::Projection => UiAction::ToggleProjection,
        ToolbarButton::Reset => UiAction::SetView(ViewPreset::Default),
        ToolbarButton::View(p) => UiAction::SetView(p),
        ToolbarButton::Quit => UiAction::Quit,
    }
}

/// The camera command for an action.
pub open spec fn command_of(action: UiAction) -> CameraCommand {
    match action {
        UiAction::Idle => CameraCommand::Keep,
        UiAction::ToggleProjection => CameraCommand::ToggleProjection,
        UiAction::SetView(ViewPreset::Default) => CameraCommand::Reset,
        UiAction::SetView(p) => CameraCommand::Look(p),
        UiAction::Quit => CameraCommand::Quit,
    }
}

/// The projection shown after the frame: a toggle flips the camera's, any
/// other action leaves the toolbar's in force.
pub open spec fn projection_after(ui_orthographic: bool, camera_orthographic: bool, action: UiAction) -> bool {
    match action {
        UiAction::ToggleProjection => !camera_orthographic,
        _ => ui_orthographic,
    }
}

impl UiState {
    /// The label of the projection button.
    pub fn projection_label(&self) -> (r: &'static str)
        ensures
            r@ == if self.orthographic {
                "正交视图"@
            } else {
                "透视视图"@
            },
    {
        if self.orthographic {
            "正交视图"
        } else {
            "透视视图"
        }
    }

    /// A click on `button`: the projection button flips the toolbar's
    /// projection; returns the action that the click asks for.
    pub fn press(&mut self, button: ToolbarButton) -> (r: UiAction)
        ensures
            r == button_action(button),
            final(self).orthographic == if button == ToolbarButton::Projection {
                !old(self).orthographic
            } else {
                old(self).orthographic
            },
    {
        match button {
            ToolbarButton::Projection => {
                self.orthographic = !self.orthographic;
                UiAction::ToggleProjection
            },
            ToolbarButton::Reset => UiAction::SetView(ViewPreset::Default),
            ToolbarButton::View(p) => UiAction::SetView(p),
            ToolbarButton::Quit => UiAction::Quit,
        }
    }
}

/// The toolbar's projection after the clicks `clicked`, in order: each click
/// on the projection button flips it.
pub open spec fn orthographic_after_clicks(orthographic: bool, clicked: Seq<ToolbarButton>) -> bool
    decreases clicked.len(),
{
    if clicked.len() == 0 {
        orthographic
    } else {
        let prev = orthographic_after_clicks(orthographic, clicked.drop_last());
        if clicked.last() == ToolbarButton::Projection {
            !prev
        } else {
            prev
        }
    }
}

/// What a frame's clicks ask for: the last clicked button's action, nothing
/// without a click.
pub open spec fn frame_action(clicked: Seq<ToolbarButton>) -> UiAction {
    if clicked.len() == 0 {
        UiAction::Idle
    } else {
        button_action(clicked.last())
    }
}

impl UiState {
    /// The clicks of one frame, in the order the toolbar reports them; returns
    /// the action that the frame asks for.
    pub fn press_all(&mut self, clicked: &Vec<ToolbarButton>) -> (r: UiAction)
        ensures
            r == frame_action(clicked@),
            final(self).orthographic == orthographic_after_clicks(old(self).orthographic, clicked@),
    {
        let mut action = UiAction::Idle;
        let mut i: usize = 0;
        while i < clicked.len()
            invariant
                i <= clicked.len(),
                action == frame_action(clicked@.take(i as int)),
                self.orthographic == orthographic_after_clicks(
                    old(self).orthographic,
                    clicked@.take(i as int),
                ),
            decreases clicked.len() - i,
        {
            proof {
                assert(clicked@.take(i + 1).drop_last() =~= clicked@.take(i as int));
            }
            action = self.press(clicked[i]);
            i += 1;
        }
        assert(clicked@.take(clicked.len() as int) =~= clicked@);
        action
    }
}

/// A frame without a click on the projection button leaves the toolbar's
/// projection as it was.
pub proof fn law_projection_flips_only_on_its_button(orthographic: bool, clicked: Seq<ToolbarButton>)
    requires
        !clicked.contains(ToolbarButton::Projection),
    ensures
        orthographic_after_clicks(orthographic, clicked) == orthographic,
    decreases clicked.len(),
{
    if clicked.len() > 0 {
        let init = clicked.drop_last();
        if init.contains(ToolbarButton::Projection) {
            let j = choose|j: int| 0 <= j < init.len() && init[j] == ToolbarButton::Projection;
            assert(clicked[j] == init[j]);
        }
        assert(clicked[clicked.len() - 1] == clicked.last());
        law_projection_flips_only_on_its_button(orthographic, init);
    }
}

/// Each toolbar button asks for its own action: the projection button for a
/// toggle, the reset button for the default view, a view button for exactly
/// its view, the quit button for quitting.
pub proof fn law_buttons_ask_for_their_action(p: ViewPreset)
    ensures
        button_action(ToolbarButton::Projection) == UiAction::ToggleProjection,
        button_action(ToolbarButton::Reset) == UiAction::SetView(ViewPreset::Default),
        button_action(ToolbarButton::View(p)) == UiAction::SetView(p),
        button_action(ToolbarButton::Quit) == UiAction::Quit,
{
}

/// Two different view buttons ask for different views.
pub proof fn law_view_buttons_are_distinct(p: ViewPreset, q: ViewPreset)
    requires
        p != q,
    ensures
        button_action(ToolbarButton::View(p)) != button_action(ToolbarButton::View(q)),
{
}

/// Each action gives the camera its own command: a view request turns the
/// camera to exactly that view, the default view resets it, a toggle toggles,
/// quitting quits, and no action keeps it.
pub proof fn law_actions_command_the_camera(p: ViewPreset)
    ensures
        command_of(UiAction::SetView(p)) == if p == ViewPreset::Default {
            CameraCommand::Reset
        } else {
            CameraCommand::Look(p)
        },
        command_of(UiAction::ToggleProjection) == CameraCommand::ToggleProjection,
        command_of(UiAction::Quit) == CameraCommand::Quit,
        command_of(UiAction::Idle) == CameraCommand::Keep,
{
}

/// After a toggle, camera and toolbar show the opposite of the camera's
/// projection before it; after any other action, the toolbar's projection.
pub proof fn law_projection_after_action(ui_orthographic: bool, camera_orthographic: bool, action: UiAction)
    ensures
        projection_after(ui_orthographic, camera_orthographic, action) == if action
            == UiAction::ToggleProjection {
            !camera_orthographic
        } else {
            ui_orthographic
        },
{
}

/// The last click of a frame decides its action, and only a click on the
/// projection button flips the toolbar's projection.
pub proof fn law_last_click_decides(orthographic: bool, clicked: Seq<ToolbarButton>, b: ToolbarButton)
    ensures
        frame_action(Seq::<ToolbarButton>::empty()) == UiAction::Idle,
        frame_action(clicked.push(b)) == button_action(b),
        orthographic_after_clicks(orthographic, clicked.push(b)) == if b
            == ToolbarButton::Projection {
            !orthographic_after_clicks(orthographic, clicked)
        } else {
            orthographic_after_clicks(orthographic, clicked)
        },
{
    assert(clicked.push(b).drop_last() =~= clicked);
}

/// Carries out a frame's action on the toolbar and decides the camera's part:
/// a toggle flips the camera's projection and the toolbar follows it; for
/// every other action the camera takes the toolbar's projection once its
/// command is done.
pub fn apply_ui_action(ui: &mut UiState, camera_orthographic: bool, action: UiAction) -> (d:
    FrameDecision)
    ensures
        d.command == command_of(action),
        d.orthographic == projection_after(old(ui).orthographic, camera_orthographic, action),
        final(ui).orthographic == d.orthographic,
{
    let command = match action {
        UiAction::Idle => CameraCommand::Keep,
        UiAction::ToggleProjection => CameraCommand::ToggleProjection,
        UiAction::SetView(ViewPreset::Default) => CameraCommand::Reset,
        UiAction::SetView(p) => CameraCommand::Look(p),
        UiAction::Quit => CameraCommand::Quit,
    };
    if let UiAction::ToggleProjection = action {
        ui.orthographic = !camera_orthographic;
    }
    FrameDecision { command, orthographic: ui.orthographic }
}

/// One click on the projection button, with toolbar and camera agreeing
/// before it, switches the projection exactly once.
pub proof fn law_projection_click_switches_once(orthographic: bool)
    ensures
        projection_after(!orthographic, orthographic, button_action(ToolbarButton::Projection))
            == !orthographic,
{
}

/// Two projection toggles give back the projection one started with.
pub proof fn law_two_toggles_restore(orthographic: bool)
    ensures
        ({
            let once = projection_after(orthographic, orthographic, UiAction::ToggleProjection);
            projection_after(once, once, UiAction::ToggleProjection) == orthographic
        }),
{
}

/// Resetting the view or choosing a view direction keeps the toolbar's
/// projection.
pub proof fn law_views_keep_projection(ui_orthographic: bool, camera_orthographic: bool, preset: ViewPreset)
    ensures
        projection_after(ui_orthographic, camera_orthographic, UiAction::SetView(preset))
            == ui_orthographic,
{
}

} // verus!
