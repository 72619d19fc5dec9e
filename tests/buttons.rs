use ui_builder::buttons::{
    ActionOnRelease, ButtonInternalState, ButtonQuery, ButtonVisualState, ColorButton, Disabled,
    ImageButton, Interaction, ToggleButton, ToggleButtonGroup,
};
use ui_builder::frame::{button_system, FrameInput, FrameOutput};
use ui_builder::mask::MouseButtonMask;
use ui_builder::{Entity, MouseButton};

fn widget(id: u64) -> ButtonQuery {
    ButtonQuery {
        entity: Entity(id),
        name: None,
        toggle: None,
        action_on_release: None,
        mouse_button_mask: None,
        toggle_group: None,
        disabled: Disabled(false),
        visual_state: ButtonVisualState::Normal,
        internal_state: ButtonInternalState { pressing: None, hovering: false },
    }
}

fn toggle(id: u64, group: &str, toggled: bool) -> ButtonQuery {
    let mut w = widget(id);
    w.toggle = Some(ToggleButton { toggled });
    w.toggle_group = Some(ToggleButtonGroup(group.to_string()));
    w
}

fn input() -> FrameInput {
    FrameInput {
        interactions: vec![],
        just_pressed: vec![],
        just_released: vec![],
        toggle_changed: vec![],
        disabled_changed: vec![],
    }
}

fn signal(e: u64, i: Interaction) -> FrameInput {
    let mut f = input();
    f.interactions.push((Entity(e), i));
    f
}

fn run(ws: &mut Vec<ButtonQuery>, f: FrameInput) -> FrameOutput {
    button_system(ws, &f)
}

#[test]
fn toggle_group_click_moves_selection() {
    let mut a = toggle(1, "g", false);
    a.name = Some("a".to_string());
    let b = toggle(2, "g", true);
    let mut ws = vec![a, b];
    run(&mut ws, signal(1, Interaction::Hovered));
    let out = run(&mut ws, signal(1, Interaction::Pressed));
    assert_eq!(ws[0].toggle, Some(ToggleButton { toggled: true }));
    assert_eq!(ws[1].toggle, Some(ToggleButton { toggled: false }));
    assert_eq!(out.clicks.len(), 2);
    assert_eq!(out.clicks[0].entity, Entity(1));
    assert_eq!(out.clicks[0].name, Some("a".to_string()));
    assert_eq!(out.clicks[0].mouse_button, Some(MouseButton::Left));
    assert_eq!(out.clicks[0].toggle_state, Some(true));
    assert_eq!(out.clicks[1].entity, Entity(2));
    assert_eq!(out.clicks[1].mouse_button, None);
    assert_eq!(out.clicks[1].toggle_state, Some(false));
    assert_eq!(ws[0].visual_state, ButtonVisualState::PressedHovered);
    assert_eq!(ws[1].visual_state, ButtonVisualState::Normal);
}

#[test]
fn selected_group_member_ignores_clicks() {
    let mut ws = vec![toggle(1, "g", true), toggle(2, "g", false)];
    let out = run(&mut ws, signal(1, Interaction::Pressed));
    assert!(out.clicks.is_empty());
    assert_eq!(ws[0].toggle, Some(ToggleButton { toggled: true }));
    assert_eq!(out.events.len(), 1);
}

#[test]
fn toggle_without_group_flips_both_ways() {
    let mut w = widget(1);
    w.toggle = Some(ToggleButton { toggled: false });
    let mut ws = vec![w];
    let out = run(&mut ws, signal(1, Interaction::Pressed));
    assert_eq!(out.clicks[0].toggle_state, Some(true));
    let mut f = input();
    f.just_released.push(MouseButton::Left);
    run(&mut ws, f);
    let out = run(&mut ws, signal(1, Interaction::Pressed));
    assert_eq!(out.clicks[0].toggle_state, Some(false));
    assert_eq!(ws[0].toggle, Some(ToggleButton { toggled: false }));
}

#[test]
fn external_toggle_write_untoggles_group() {
    let mut ws = vec![toggle(1, "g", true), toggle(2, "g", true), toggle(3, "h", true)];
    let mut f = input();
    f.toggle_changed.push(Entity(2));
    let out = run(&mut ws, f);
    assert_eq!(ws[0].toggle, Some(ToggleButton { toggled: false }));
    assert_eq!(ws[1].toggle, Some(ToggleButton { toggled: true }));
    assert_eq!(ws[2].toggle, Some(ToggleButton { toggled: true }));
    assert_eq!(out.clicks.len(), 1);
    assert_eq!(out.clicks[0].entity, Entity(1));
    assert_eq!(ws[1].visual_state, ButtonVisualState::Pressed);
}

#[test]
fn action_on_release_fires_on_release_inside_only() {
    let mut w = widget(1);
    w.action_on_release = Some(ActionOnRelease);
    let mut ws = vec![w];
    run(&mut ws, signal(1, Interaction::Hovered));
    let out = run(&mut ws, signal(1, Interaction::Pressed));
    assert!(out.clicks.is_empty());
    assert_eq!(ws[0].internal_state.pressing, Some(MouseButton::Left));
    assert_eq!(ws[0].visual_state, ButtonVisualState::PressedHovered);
    let mut f = input();
    f.just_released.push(MouseButton::Left);
    let out = run(&mut ws, f);
    assert_eq!(out.clicks.len(), 1);
    assert_eq!(out.clicks[0].mouse_button, Some(MouseButton::Left));
    assert_eq!(ws[0].internal_state.pressing, None);
}

#[test]
fn action_on_release_outside_is_cancelled() {
    let mut w = widget(1);
    w.action_on_release = Some(ActionOnRelease);
    let mut ws = vec![w];
    run(&mut ws, signal(1, Interaction::Pressed));
    run(&mut ws, signal(1, Interaction::Idle));
    let mut f = input();
    f.just_released.push(MouseButton::Left);
    let out = run(&mut ws, f);
    assert!(out.clicks.is_empty());
    assert_eq!(out.events.len(), 1);
    assert!(!out.events[0].is_press);
}

#[test]
fn right_mask_fires_on_right_not_left() {
    let mut w = widget(1);
    w.mouse_button_mask = Some(MouseButtonMask::new(&[MouseButton::Right]));
    let mut ws = vec![w];
    run(&mut ws, signal(1, Interaction::Hovered));
    let out = run(&mut ws, signal(1, Interaction::Pressed));
    assert!(out.clicks.is_empty());
    assert_eq!(ws[0].visual_state, ButtonVisualState::NormalHovered);
    let mut f = input();
    f.just_released.push(MouseButton::Left);
    run(&mut ws, f);
    let mut f = input();
    f.just_pressed.push(MouseButton::Right);
    let out = run(&mut ws, f);
    assert_eq!(out.clicks.len(), 1);
    assert_eq!(out.clicks[0].mouse_button, Some(MouseButton::Right));
    assert_eq!(ws[0].internal_state.pressing, Some(MouseButton::Right));
}

#[test]
fn unmasked_widget_ignores_right_button() {
    let mut ws = vec![widget(1)];
    run(&mut ws, signal(1, Interaction::Hovered));
    let mut f = input();
    f.just_pressed.push(MouseButton::Right);
    let out = run(&mut ws, f);
    assert_eq!(out.events.len(), 1);
    assert!(out.clicks.is_empty());
    assert_eq!(ws[0].internal_state.pressing, Some(MouseButton::Right));
}

#[test]
fn second_button_ignored_while_first_held() {
    let mut ws = vec![widget(1)];
    run(&mut ws, signal(1, Interaction::Hovered));
    run(&mut ws, signal(1, Interaction::Pressed));
    let mut f = input();
    f.just_pressed.push(MouseButton::Right);
    let out = run(&mut ws, f);
    assert!(out.events.is_empty());
    assert_eq!(ws[0].internal_state.pressing, Some(MouseButton::Left));
    let mut f = input();
    f.just_released.push(MouseButton::Right);
    let out = run(&mut ws, f);
    assert!(out.events.is_empty());
    assert_eq!(ws[0].internal_state.pressing, Some(MouseButton::Left));
    let mut f = input();
    f.just_released.push(MouseButton::Left);
    let out = run(&mut ws, f);
    assert_eq!(out.events.len(), 1);
    assert_eq!(ws[0].internal_state.pressing, None);
}

#[test]
fn disabled_widget_never_clicks() {
    let mut w = widget(1);
    w.disabled = Disabled(true);
    let mut ws = vec![w];
    let mut f = signal(1, Interaction::Pressed);
    f.disabled_changed.push(Entity(1));
    let out = run(&mut ws, f);
    assert!(out.clicks.is_empty());
    assert_eq!(ws[0].visual_state, ButtonVisualState::Disabled);
}

#[test]
fn disabled_flag_change_updates_visual() {
    let mut ws = vec![widget(1), widget(2)];
    ws[0].disabled = Disabled(true);
    let mut f = input();
    f.disabled_changed.push(Entity(1));
    let out = run(&mut ws, f);
    assert_eq!(ws[0].visual_state, ButtonVisualState::Disabled);
    assert_eq!(ws[1].visual_state, ButtonVisualState::Normal);
    assert_eq!(out.visual_changed, vec![Entity(1)]);
}

#[test]
fn hover_enter_and_leave() {
    let mut ws = vec![widget(1)];
    run(&mut ws, signal(1, Interaction::Hovered));
    assert!(ws[0].internal_state.hovering);
    assert_eq!(ws[0].visual_state, ButtonVisualState::NormalHovered);
    run(&mut ws, signal(1, Interaction::Idle));
    assert!(!ws[0].internal_state.hovering);
    assert_eq!(ws[0].visual_state, ButtonVisualState::Normal);
}

#[test]
fn pressed_outside_shows_pressed() {
    let mut ws = vec![widget(1)];
    let out = run(&mut ws, signal(1, Interaction::Pressed));
    assert_eq!(out.clicks.len(), 1);
    assert_eq!(ws[0].visual_state, ButtonVisualState::Pressed);
}

#[test]
fn mask_holds_its_buttons() {
    let m = MouseButtonMask::new(&[MouseButton::Right, MouseButton::Other(7)]);
    assert!(m.contains(&MouseButton::Right));
    assert!(m.contains(&MouseButton::Other(7)));
    assert!(!m.contains(&MouseButton::Left));
    assert!(!m.contains(&MouseButton::Other(8)));
    let empty = MouseButtonMask::new(&[]);
    assert!(!empty.contains(&MouseButton::Left));
}

#[test]
fn visual_state_precedence() {
    let mut w = widget(1);
    w.internal_state = ButtonInternalState { pressing: Some(MouseButton::Left), hovering: true };
    assert_eq!(w.compute_visual_state(), ButtonVisualState::PressedHovered);
    w.internal_state.pressing = Some(MouseButton::Middle);
    assert_eq!(w.compute_visual_state(), ButtonVisualState::NormalHovered);
    w.mouse_button_mask = Some(MouseButtonMask::new(&[MouseButton::Middle]));
    assert_eq!(w.compute_visual_state(), ButtonVisualState::PressedHovered);
    w.internal_state.hovering = false;
    assert_eq!(w.compute_visual_state(), ButtonVisualState::Pressed);
    w.disabled = Disabled(true);
    assert_eq!(w.compute_visual_state(), ButtonVisualState::Disabled);
    let mut t = toggle(2, "g", true);
    t.internal_state.pressing = None;
    assert_eq!(t.compute_visual_state(), ButtonVisualState::Pressed);
}

#[test]
fn color_table_picks_slot() {
    let mut c = ColorButton::new(1u32);
    assert_eq!(c.color_for(ButtonVisualState::PressedHovered), 1);
    c.hovered = 2;
    c.disabled = 3;
    assert_eq!(c.color_for(ButtonVisualState::NormalHovered), 2);
    assert_eq!(c.color_for(ButtonVisualState::Disabled), 3);
    assert_eq!(c.color_for(ButtonVisualState::Normal), 1);
}

#[test]
fn image_table_constructors() {
    let i = ImageButton::normal_hovered("n".to_string(), "h".to_string());
    assert_eq!(i.image_for(ButtonVisualState::NormalHovered), "h");
    assert_eq!(i.image_for(ButtonVisualState::PressedHovered), "n");
    let p = ImageButton::normal_pressed(1u8, 2u8);
    assert_eq!(p.image_for(ButtonVisualState::Pressed), 2);
    assert_eq!(p.image_for(ButtonVisualState::PressedHovered), 2);
    assert_eq!(p.image_for(ButtonVisualState::NormalHovered), 1);
    let d = ImageButton::normal_disabled_pressed(1u8, 5u8, 2u8);
    assert_eq!(d.image_for(ButtonVisualState::Disabled), 5);
    let n = ImageButton::normal(9u8);
    assert_eq!(n.image_for(ButtonVisualState::Disabled), 9);
}

#[test]
fn empty_frame_does_nothing() {
    let mut ws: Vec<ButtonQuery> = vec![];
    let mut f = input();
    f.just_pressed.push(MouseButton::Right);
    f.just_released.push(MouseButton::Left);
    let out = run(&mut ws, f);
    assert!(out.events.is_empty());
    assert!(out.clicks.is_empty());
    assert!(out.visual_changed.is_empty());
}

#[test]
fn right_press_takes_every_hovered_free_widget() {
    let mut ws = vec![widget(1), widget(2), widget(3)];
    let mut f = input();
    f.interactions.push((Entity(1), Interaction::Hovered));
    f.interactions.push((Entity(2), Interaction::Hovered));
    run(&mut ws, f);
    ws[1].internal_state.pressing = Some(MouseButton::Middle);
    let mut f = input();
    f.just_pressed.push(MouseButton::Left);
    f.just_pressed.push(MouseButton::Right);
    f.just_pressed.push(MouseButton::Middle);
    let out = run(&mut ws, f);
    assert_eq!(ws[0].internal_state.pressing, Some(MouseButton::Right));
    assert_eq!(ws[1].internal_state.pressing, Some(MouseButton::Middle));
    assert_eq!(ws[2].internal_state.pressing, None);
    assert_eq!(out.events.len(), 1);
    assert_eq!(out.events[0].entity, Entity(1));
    assert_eq!(out.events[0].button, MouseButton::Right);
}

#[test]
fn release_clears_every_widget_held_by_the_button() {
    let mut a = widget(1);
    a.mouse_button_mask = Some(MouseButtonMask::new(&[MouseButton::Right]));
    let mut ws = vec![a, widget(2)];
    let mut f = input();
    f.interactions.push((Entity(1), Interaction::Hovered));
    f.interactions.push((Entity(2), Interaction::Hovered));
    run(&mut ws, f);
    let mut f = input();
    f.just_pressed.push(MouseButton::Right);
    let out = run(&mut ws, f);
    assert_eq!(out.clicks.len(), 1);
    assert_eq!(ws[0].visual_state, ButtonVisualState::PressedHovered);
    assert_eq!(ws[1].internal_state.pressing, Some(MouseButton::Right));
    let mut f = input();
    f.just_released.push(MouseButton::Right);
    let out = run(&mut ws, f);
    assert_eq!(out.events.len(), 2);
    assert!(out.clicks.is_empty());
    assert_eq!(ws[0].internal_state.pressing, None);
    assert_eq!(ws[1].internal_state.pressing, None);
    assert_eq!(ws[0].visual_state, ButtonVisualState::NormalHovered);
}

#[test]
fn external_write_with_signal_still_untoggles_group() {
    let mut ws = vec![toggle(1, "g", true), toggle(2, "g", true)];
    let mut f = signal(2, Interaction::Hovered);
    f.toggle_changed.push(Entity(2));
    let out = run(&mut ws, f);
    assert_eq!(ws[0].toggle, Some(ToggleButton { toggled: false }));
    assert_eq!(ws[1].toggle, Some(ToggleButton { toggled: true }));
    assert_eq!(out.clicks.len(), 1);
    assert_eq!(out.clicks[0].entity, Entity(1));
    assert_eq!(ws[1].visual_state, ButtonVisualState::PressedHovered);
}
