use sludge::input::{next_axis_direction, ButtonInput, InputBinding, InputEffect, KeyCode, KeyMods, MouseButton};

#[derive(Hash, Eq, PartialEq, Copy, Clone, Debug)]
enum Buttons {
    A,
    B,
    Select,
    Start,
}

#[derive(Hash, Eq, PartialEq, Copy, Clone, Debug)]
enum Axes {
    Horz,
    Vert,
}

fn make_input_binding() -> InputBinding<Axes, Buttons> {
    InputBinding::<Axes, Buttons>::new()
        .bind_key_to_button(KeyCode::Z, Buttons::A)
        .bind_key_to_button(KeyCode::X, Buttons::B)
        .bind_key_to_button(KeyCode::Enter, Buttons::Start)
        .bind_key_to_button(KeyCode::RightShift, Buttons::Select)
        .bind_key_to_button(KeyCode::LeftShift, Buttons::Select)
        .bind_key_to_axis(KeyCode::Up, Axes::Vert, true)
        .bind_key_to_axis(KeyCode::Down, Axes::Vert, false)
        .bind_key_to_axis(KeyCode::Left, Axes::Horz, false)
        .bind_key_to_axis(KeyCode::Right, Axes::Horz, true)
}

#[test]
fn test_input_bindings() {
    let ib = make_input_binding();
    assert_eq!(ib.resolve(KeyCode::Z), Some(InputEffect::Button(Buttons::A)));
    assert_eq!(ib.resolve(KeyCode::X), Some(InputEffect::Button(Buttons::B)));
    assert_eq!(ib.resolve(KeyCode::Enter), Some(InputEffect::Button(Buttons::Start)));
    assert_eq!(ib.resolve(KeyCode::RightShift), Some(InputEffect::Button(Buttons::Select)));
    assert_eq!(ib.resolve(KeyCode::LeftShift), Some(InputEffect::Button(Buttons::Select)));

    assert_eq!(ib.resolve(KeyCode::Up), Some(InputEffect::Axis(Axes::Vert, true)));
    assert_eq!(ib.resolve(KeyCode::Down), Some(InputEffect::Axis(Axes::Vert, false)));
    assert_eq!(ib.resolve(KeyCode::Left), Some(InputEffect::Axis(Axes::Horz, false)));
    assert_eq!(ib.resolve(KeyCode::Right), Some(InputEffect::Axis(Axes::Horz, true)));

    assert_eq!(ib.resolve(KeyCode::Q), None);
    assert_eq!(ib.resolve(KeyCode::W), None);
}

#[test]
fn test_button_edge_transitions() {
    let mut im: ButtonInput<Buttons> = ButtonInput::new();

    // Push a key, confirm it's transitioned.
    assert!(!im.get_button_down(Buttons::A));
    im.update_button_down(Buttons::A);
    assert!(im.get_button_down(Buttons::A));
    assert!(im.get_button_pressed(Buttons::A));
    assert!(!im.get_button_released(Buttons::A));

    // Update, confirm it's still down but wasn't pressed this frame.
    im.update();
    assert!(im.get_button_down(Buttons::A));
    assert!(!im.get_button_pressed(Buttons::A));
    assert!(!im.get_button_released(Buttons::A));

    // Release it.
    im.update_button_up(Buttons::A);
    assert!(im.get_button_up(Buttons::A));
    assert!(!im.get_button_pressed(Buttons::A));
    assert!(im.get_button_released(Buttons::A));
    im.update();
    assert!(im.get_button_up(Buttons::A));
    assert!(!im.get_button_pressed(Buttons::A));
    assert!(!im.get_button_released(Buttons::A));
}

#[test]
fn input_button_events_are_level_triggers() {
    let mut im: ButtonInput<Buttons> = ButtonInput::new();
    im.update_button_down(Buttons::A);
    assert!(im.get_button_down(Buttons::A));
    im.update_button_up(Buttons::A);
    assert!(!im.get_button_down(Buttons::A));
    assert!(im.get_button_up(Buttons::A));
    assert!(im.get_button_up(Buttons::B));
}

#[test]
fn input_rebinding_replaces_the_old_effect() {
    let ib = InputBinding::<Axes, Buttons>::new()
        .bind_key_to_button(KeyCode::Space, Buttons::A)
        .bind_key_to_axis(KeyCode::Space, Axes::Horz, true)
        .bind_mouse_to_button(MouseButton::Left, Buttons::B);
    assert_eq!(ib.resolve(KeyCode::Space), Some(InputEffect::Axis(Axes::Horz, true)));
    assert_eq!(ib.resolve(KeyCode::A), None);
}

#[test]
fn input_reset_puts_every_button_up() {
    let mut im: ButtonInput<Buttons> = ButtonInput::new();
    im.update_button_down(Buttons::A);
    im.update();
    im.update_button_down(Buttons::Start);
    im.reset_input_state();
    assert!(im.get_button_up(Buttons::A));
    assert!(im.get_button_up(Buttons::Start));
    assert!(!im.get_button_pressed(Buttons::Start));
    assert!(!im.get_button_released(Buttons::A));
}

#[test]
fn input_key_mods_default_to_none_held() {
    let mods = KeyMods::default();
    assert!(!mods.shift && !mods.ctrl && !mods.alt && !mods.logo);
}

#[test]
fn test_input_events() {
    // The button half runs against the verified button state; of the axis
    // half, the direction of the raw axis is the verified part (the smoothed
    // axis value is floating point).
    let mut im: ButtonInput<Buttons> = ButtonInput::new();
    im.update_button_down(Buttons::A);
    assert!(im.get_button_down(Buttons::A));
    im.update_button_up(Buttons::A);
    assert!(!im.get_button_down(Buttons::A));
    assert!(im.get_button_up(Buttons::A));

    // Push the 'up' button: the raw axis heads up.
    let mut raw = next_axis_direction(0, true, true);
    assert!(raw > 0);
    // Release it.
    raw = next_axis_direction(raw, true, false);
    assert_eq!(raw, 0);
    // 'Down', then 'up' while 'down' is held, then release 'up': still down.
    raw = next_axis_direction(raw, false, true);
    raw = next_axis_direction(raw, true, true);
    raw = next_axis_direction(raw, false, true);
    raw = next_axis_direction(raw, true, false);
    assert!(raw < 0);
    raw = next_axis_direction(raw, false, false);
    assert_eq!(raw, 0);
}
