//! Widget components and the per-widget rules of the interaction state machine.
use vstd::prelude::*;

use crate::mask::MouseButtonMask;
use crate::{Entity, MouseButton};

verus! {

/// A two-state widget: toggled or not.
#[derive(Clone, Copy, Debug, Default, PartialEq, Eq, Structural)]
pub struct ToggleButton {
    pub toggled: bool,
}

/// Marker: the widget acts when a button is released over it, not when pressed.
#[derive(Clone, Copy, Debug, Default, PartialEq, Eq, Structural)]
pub struct ActionOnRelease;

/// Toggle widgets that share a key are mutually exclusive.
#[derive(Clone, Debug, Default)]
pub struct ToggleButtonGroup(pub String);

/// A disabled widget takes part in no interaction.
#[derive(Clone, Copy, Debug, Default, PartialEq, Eq, Structural)]
pub struct Disabled(pub bool);

/// What a widget looks like; derived by the state machine.
#[derive(Clone, Copy, Debug, Default, PartialEq, Eq, Structural)]
pub enum ButtonVisualState {
    #[default]
    Normal,
    Disabled,
    /// Pressed, or toggled on.
    Pressed,
    NormalHovered,
    PressedHovered,
}

/// Which button, if any, holds the widget down, and whether the pointer is over it.
#[derive(Clone, Copy, Debug, Default, PartialEq, Eq, Structural)]
pub struct ButtonInternalState {
    pub pressing: Option<MouseButton>,
    pub hovering: bool,
}

/// Asks for a click on a widget from code rather than from the pointer.
#[derive(Clone, Copy, Debug, PartialEq, Eq, Structural)]
pub struct ProgrammaticClick(pub Entity);

/// What a click handler is told about a click.
#[derive(Clone, Debug)]
pub struct ButtonClickInfo {
    pub entity: Entity,
    pub name: Option<String>,
    pub mouse_button: Option<MouseButton>,
    pub toggle_state: Option<bool>,
}

/// The host's pointer signal for the primary button over one widget.
#[derive(Clone, Copy, Debug, PartialEq, Eq, Structural)]
pub enum Interaction {
    Pressed,
    Hovered,
    Idle,
}

/// The components of one widget entity that the state machine reads and writes.
pub struct ButtonQuery {
    pub entity: Entity,
    pub name: Option<String>,
    pub toggle: Option<ToggleButton>,
    pub action_on_release: Option<ActionOnRelease>,
    pub mouse_button_mask: Option<MouseButtonMask>,
    pub toggle_group: Option<ToggleButtonGroup>,
    pub disabled: Disabled,
    pub visual_state: ButtonVisualState,
    pub internal_state: ButtonInternalState,
}

/// Whether a widget with the given mask reacts to `b`: with a mask, the
/// buttons in it; without one, the left button alone.
pub open spec fn accepts_button(mask: Option<MouseButtonMask>, b: MouseButton) -> bool {
    match mask {
        Some(m) => m@.contains(b),
        None => b == MouseButton::Left,
    }
}

/// Whether the widget shows as pressed: a toggle widget when toggled on, any
/// other widget while a button it reacts to holds it down.
pub open spec fn shows_pressed(w: ButtonQuery) -> bool {
    match w.toggle {
        Some(t) => t.toggled,
        None => match w.internal_state.pressing {
            Some(b) => accepts_button(w.mouse_button_mask, b),
            None => false,
        },
    }
}

pub open spec fn appearance(pressed: bool, hovered: bool) -> ButtonVisualState {
    if pressed {
        if hovered {
            ButtonVisualState::PressedHovered
        } else {
            ButtonVisualState::Pressed
        }
    } else if hovered {
        ButtonVisualState::NormalHovered
    } else {
        ButtonVisualState::Normal
    }
}

/// The visual state a widget's components call for: disabled first, then
/// pressed or toggled, then hovered.
pub open spec fn visual_state_of(w: ButtonQuery) -> ButtonVisualState {
    if w.disabled.0 {
        ButtonVisualState::Disabled
    } else {
        appearance(shows_pressed(w), w.internal_state.hovering)
    }
}

/// A toggle widget of a group that is already on; clicking it again does nothing.
pub open spec fn selected_in_group(w: ButtonQuery) -> bool {
    match w.toggle {
        Some(t) => w.toggle_group.is_some() && t.toggled,
        None => false,
    }
}

/// Whether a press (`is_press`) or release of `b` is the kind of event the
/// widget acts on: it is enabled, `b` is one of its buttons, the event has the
/// widget's timing, and a release lands over the widget.
pub open spec fn event_triggers(w: ButtonQuery, b: MouseButton, is_press: bool) -> bool {
    &&& !w.disabled.0
    &&& accepts_button(w.mouse_button_mask, b)
    &&& is_press == w.action_on_release.is_none()
    &&& (w.action_on_release.is_some() ==> w.internal_state.hovering)
}

/// Whether a press (`is_press`) or release of `b` on the widget is a click.
pub open spec fn click_qualifies(w: ButtonQuery, b: MouseButton, is_press: bool) -> bool {
    &&& event_triggers(w, b, is_press)
    &&& !selected_in_group(w)
}

/// A toggle widget that has a group.
pub open spec fn grouped(w: ButtonQuery) -> bool {
    w.toggle.is_some() && w.toggle_group.is_some()
}

/// A toggle widget that is on.
pub open spec fn toggled_on(w: ButtonQuery) -> bool {
    match w.toggle {
        Some(t) => t.toggled,
        None => false,
    }
}

pub open spec fn group_key(w: ButtonQuery) -> Seq<char> {
    w.toggle_group.unwrap().0@
}

/// The widget after a click: a toggle widget flips, any other is unchanged.
pub open spec fn clicked(w: ButtonQuery) -> ButtonQuery {
    match w.toggle {
        Some(t) => ButtonQuery { toggle: Some(ToggleButton { toggled: !t.toggled }), ..w },
        None => w,
    }
}

/// Whether `b` triggers a widget with the given mask.
pub fn accepts(mask: &Option<MouseButtonMask>, b: &MouseButton) -> (r: bool)
    ensures
        r == accepts_button(*mask, *b),
{
    match mask {
        Some(m) => m.contains(b),
        None => *b == MouseButton::Left,
    }
}

pub fn clone_name(name: &Option<String>) -> (r: Option<String>)
    ensures
        r == *name,
{
    match name {
        Some(s) => Some(s.clone()),
        None => None,
    }
}

impl ButtonQuery {
    /// The visual state the widget's components call for.
    pub fn compute_visual_state(&self) -> (r: ButtonVisualState)
        ensures
            r == visual_state_of(*self),
    {
        if self.disabled.0 {
            return ButtonVisualState::Disabled;
        }
        let pressed = match &self.toggle {
            Some(t) => t.toggled,
            None => match &self.internal_state.pressing {
                Some(b) => accepts(&self.mouse_button_mask, b),
                None => false,
            },
        };
        let hovered = self.internal_state.hovering;
        if pressed {
            if hovered {
                ButtonVisualState::PressedHovered
            } else {
                ButtonVisualState::Pressed
            }
        } else if hovered {
            ButtonVisualState::NormalHovered
        } else {
            ButtonVisualState::Normal
        }
    }

    /// Recomputes and stores the widget's visual state.
    pub fn refresh_visual_state(&mut self)
        ensures
            *final(self) == (ButtonQuery { visual_state: visual_state_of(*old(self)), ..*old(self) }),
    {
        self.visual_state = self.compute_visual_state();
    }

    /// Whether a press (`is_press`) or release of `b` on this widget is a click.
    pub fn qualifies(&self, b: &MouseButton, is_press: bool) -> (r: bool)
        ensures
            r == click_qualifies(*self, *b, is_press),
    {
        if self.disabled.0 {
            return false;
        }
        if !accepts(&self.mouse_button_mask, b) {
            return false;
        }
        let on_release = self.action_on_release.is_some();
        if is_press && on_release {
            return false;
        }
        if !is_press && !on_release {
            return false;
        }
        if on_release && !self.internal_state.hovering {
            return false;
        }
        if let Some(t) = &self.toggle {
            if self.toggle_group.is_some() && t.toggled {
                return false;
            }
        }
        true
    }

    /// Resolves a press or release of `b`: when it is a click, flips a toggle
    /// widget and returns what the click handler is told.
    pub fn resolve_click(&mut self, b: MouseButton, is_press: bool) -> (r: Option<ButtonClickInfo>)
        ensures
            r.is_some() == click_qualifies(*old(self), b, is_press),
            r.is_some() ==> *final(self) == clicked(*old(self)),
            r.is_none() ==> *final(self) == *old(self),
            r matches Some(info) ==> {
                &&& info.entity == old(self).entity
                &&& info.name == old(self).name
                &&& info.mouse_button == Some(b)
                &&& info.toggle_state == match final(self).toggle {
                    Some(t) => Some(t.toggled),
                    None => None,
                }
            },
    {
        if !self.qualifies(&b, is_press) {
            return None;
        }
        let mut info = ButtonClickInfo {
            entity: self.entity,
            name: clone_name(&self.name),
            mouse_button: Some(b),
            toggle_state: None,
        };
        if let Some(t) = &self.toggle {
            let flipped = !t.toggled;
            self.toggle = Some(ToggleButton { toggled: flipped });
            info.toggle_state = Some(flipped);
        }
        Some(info)
    }
}

/// Appearance table of a widget drawn with images: one image per visual state.
#[derive(Clone, Debug, Default)]
pub struct ImageButton<I> {
    pub normal: I,
    pub disabled: I,
    pub pressed: I,
    pub normal_hovered: I,
    pub pressed_hovered: I,
}

/// The slot of an appearance table that a visual state selects.
pub open spec fn slot_for<A>(
    state: ButtonVisualState,
    normal: A,
    disabled: A,
    pressed: A,
    hovered: A,
    pressed_hovered: A,
) -> A {
    match state {
        ButtonVisualState::Normal => normal,
        ButtonVisualState::Disabled => disabled,
        ButtonVisualState::Pressed => pressed,
        ButtonVisualState::NormalHovered => hovered,
        ButtonVisualState::PressedHovered => pressed_hovered,
    }
}

impl<I: Clone> ImageButton<I> {
    pub open spec fn slot(&self, state: ButtonVisualState) -> I {
        slot_for(state, self.normal, self.disabled, self.pressed, self.normal_hovered, self.pressed_hovered)
    }

    /// The same image in every state.
    pub fn normal(normal: I) -> (r: Self)
        ensures
            cloned(normal, r.normal) && cloned(normal, r.disabled) && cloned(normal, r.pressed),
            cloned(normal, r.normal_hovered) && cloned(normal, r.pressed_hovered),
    {
        ImageButton {
            normal: normal.clone(),
            disabled: normal.clone(),
            pressed: normal.clone(),
            normal_hovered: normal.clone(),
            pressed_hovered: normal.clone(),
        }
    }

    /// One image when the pointer is over the widget and not pressing it,
    /// another in every other state.
    pub fn normal_hovered(normal: I, hovered: I) -> (r: Self)
        ensures
            cloned(normal, r.normal) && cloned(normal, r.disabled) && cloned(normal, r.pressed),
            cloned(hovered, r.normal_hovered) && cloned(normal, r.pressed_hovered),
    {
        ImageButton {
            normal: normal.clone(),
            disabled: normal.clone(),
            pressed: normal.clone(),
            normal_hovered: hovered.clone(),
            pressed_hovered: normal.clone(),
        }
    }

    /// One image while pressed or toggled on, another otherwise.
    pub fn normal_pressed(normal: I, pressed: I) -> (r: Self)
        ensures
            cloned(normal, r.normal) && cloned(normal, r.disabled) && cloned(pressed, r.pressed),
            cloned(normal, r.normal_hovered) && cloned(pressed, r.pressed_hovered),
    {
        ImageButton {
            normal: normal.clone(),
            disabled: normal.clone(),
            pressed: pressed.clone(),
            normal_hovered: normal.clone(),
            pressed_hovered: pressed.clone(),
        }
    }

    /// Separate images for normal, disabled and pressed (or toggled on).
    pub fn normal_disabled_pressed(normal: I, disabled: I, pressed: I) -> (r: Self)
        ensures
            cloned(normal, r.normal) && r.disabled == disabled && cloned(pressed, r.pressed),
            cloned(normal, r.normal_hovered) && cloned(pressed, r.pressed_hovered),
    {
        ImageButton {
            normal: normal.clone(),
            disabled,
            pressed: pressed.clone(),
            normal_hovered: normal.clone(),
            pressed_hovered: pressed.clone(),
        }
    }

    /// The image to show in `state`.
    pub fn image_for(&self, state: ButtonVisualState) -> (r: I)
        ensures
            cloned(self.slot(state), r),
    {
        match state {
            ButtonVisualState::Normal => self.normal.clone(),
            ButtonVisualState::Disabled => self.disabled.clone(),
            ButtonVisualState::Pressed => self.pressed.clone(),
            ButtonVisualState::NormalHovered => self.normal_hovered.clone(),
            ButtonVisualState::PressedHovered => self.pressed_hovered.clone(),
        }
    }
}

/// Appearance table of a widget drawn with a background color.
#[derive(Clone, Copy, Debug, Default)]
pub struct ColorButton<C> {
    pub normal: C,
    pub disabled: C,
    pub pressed: C,
    pub hovered: C,
    pub pressed_hovered: C,
}

impl<C: Copy> ColorButton<C> {
    pub open spec fn slot(&self, state: ButtonVisualState) -> C {
        slot_for(state, self.normal, self.disabled, self.pressed, self.hovered, self.pressed_hovered)
    }

    /// The same color in every state.
    pub fn new(normal: C) -> (r: Self)
        ensures
            r.normal == normal && r.disabled == normal && r.pressed == normal,
            r.hovered == normal && r.pressed_hovered == normal,
    {
        ColorButton { normal, disabled: normal, pressed: normal, hovered: normal, pressed_hovered: normal }
    }

    /// The color to show in `state`.
    pub fn color_for(&self, state: ButtonVisualState) -> (r: C)
        ensures
            r == self.slot(state),
    {
        match state {
            ButtonVisualState::Normal => self.normal,
            ButtonVisualState::Disabled => self.disabled,
            ButtonVisualState::Pressed => self.pressed,
            ButtonVisualState::NormalHovered => self.hovered,
            ButtonVisualState::PressedHovered => self.pressed_hovered,
        }
    }
}

/// A widget that acts on release acts only on a release that lands over it,
/// never on a press.
pub proof fn lemma_release_action_needs_release_inside(w: ButtonQuery, b: MouseButton, is_press: bool)
    requires
        w.action_on_release.is_some(),
    ensures
        event_triggers(w, b, is_press) ==> !is_press && w.internal_state.hovering,
{
}

/// A widget whose mask holds the right button alone acts on right-button
/// events and never on any other button, the left one included.
pub proof fn lemma_right_mask_only(w: ButtonQuery, b: MouseButton, is_press: bool)
    requires
        w.mouse_button_mask matches Some(m) && m@ == seq![MouseButton::Right],
    ensures
        event_triggers(w, b, is_press) ==> b == MouseButton::Right,
        !w.disabled.0 && is_press == w.action_on_release.is_none()
            && (w.action_on_release.is_some() ==> w.internal_state.hovering)
            ==> event_triggers(w, MouseButton::Right, is_press),
{
    let m = w.mouse_button_mask.unwrap();
    if m@.contains(b) {
        let k = choose|k: int| 0 <= k < m@.len() && m@[k] == b;
        assert(k == 0);
    }
    assert(m@[0] == MouseButton::Right);
}

/// A disabled widget acts on no event, and shows as disabled.
pub proof fn lemma_disabled_inert(w: ButtonQuery, b: MouseButton, is_press: bool)
    requires
        w.disabled.0,
    ensures
        !event_triggers(w, b, is_press),
        !click_qualifies(w, b, is_press),
        visual_state_of(w) == ButtonVisualState::Disabled,
{
}

} // verus!
