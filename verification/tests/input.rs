use oracle::input::{id, InputState, Key};

const RECT: [f32; 4] = [10.0, 10.0, 100.0, 40.0];

/// The window's part: where the pointer is, and the hit test that decides `inside`.
struct Window {
    pointer: [f32; 2],
    pointer_in_window: bool,
    input: InputState,
}

impl Window {
    fn at(x: f32, y: f32) -> Self {
        Window { pointer: [x, y], pointer_in_window: true, input: InputState::new() }
    }

    fn inside(&self, rect: [f32; 4]) -> bool {
        self.pointer_in_window
            && self.pointer[0] >= rect[0]
            && self.pointer[0] <= rect[0] + rect[2]
            && self.pointer[1] >= rect[1]
            && self.pointer[1] <= rect[1] + rect[3]
    }

    fn interact(&mut self, widget: u64, rect: [f32; 4]) -> oracle::input::Response {
        let inside = self.inside(rect);
        self.input.interact(widget, inside)
    }
}

fn widget() -> u64 {
    id("button", "test")
}

#[test]
fn ids_are_stable_and_distinct() {
    assert_eq!(id("card", "a"), id("card", "a"));
    assert_ne!(id("card", "a"), id("card", "b"));
    assert_ne!(id("card", "a"), id("rail", "a"));
}

#[test]
fn the_pointer_must_be_inside_to_hover() {
    let mut window = Window::at(50.0, 30.0);
    assert!(window.interact(widget(), RECT).hovered);

    window.pointer = [200.0, 30.0];
    assert!(!window.interact(widget(), RECT).hovered);
}

#[test]
fn a_click_needs_press_and_release_on_the_same_widget() {
    let mut window = Window::at(50.0, 30.0);

    window.input.down = true;
    window.input.just_pressed = true;
    let pressing = window.interact(widget(), RECT);
    assert!(pressing.pressed);
    assert!(!pressing.clicked, "a press alone is not a click");
    window.input.end_frame();

    window.input.down = false;
    window.input.just_released = true;
    assert!(window.interact(widget(), RECT).clicked);
}

#[test]
fn sliding_off_a_pressed_widget_cancels_the_click() {
    // The behaviour every button on every platform has, and the reason capture exists.
    let mut window = Window::at(50.0, 30.0);

    window.input.down = true;
    window.input.just_pressed = true;
    window.interact(widget(), RECT);
    window.input.end_frame();

    window.pointer = [400.0, 300.0];
    window.input.down = false;
    window.input.just_released = true;
    assert!(!window.interact(widget(), RECT).clicked);
}

#[test]
fn releasing_over_a_widget_the_press_did_not_start_on_is_not_a_click() {
    let mut window = Window::at(500.0, 500.0);
    let other = id("button", "other");

    window.input.down = true;
    window.input.just_pressed = true;
    window.interact(other, [400.0, 400.0, 200.0, 200.0]);
    window.input.end_frame();

    window.pointer = [50.0, 30.0];
    window.input.down = false;
    window.input.just_released = true;
    assert!(!window.interact(widget(), RECT).clicked);
}

#[test]
fn one_shot_events_do_not_survive_the_frame() {
    let mut input = InputState::new();
    input.just_pressed = true;
    input.just_released = true;
    input.typed = "abc".to_string();
    input.keys = vec![Key::Enter];

    input.end_frame();

    assert!(!input.just_pressed);
    assert!(!input.just_released);
    assert!(input.typed.is_empty());
    assert!(input.keys.is_empty());
}

#[test]
fn a_press_that_claims_no_field_drops_focus() {
    let mut input = InputState::new();
    let field = id("field", "name");

    input.focus_on(field);
    input.end_frame();
    assert!(input.has_focus(field));

    // A press somewhere no field claimed.
    input.just_released = true;
    input.end_frame();
    assert!(!input.has_focus(field), "clicking away must drop focus");
}

#[test]
fn focusing_a_field_survives_the_same_frames_press() {
    let mut input = InputState::new();
    let field = id("field", "name");

    // What a field does when it is clicked: claim focus during the frame.
    input.just_released = true;
    input.focus_on(field);
    input.end_frame();

    assert!(input.has_focus(field));
}

#[test]
fn focus_survives_a_frame_with_no_press_at_all() {
    let mut input = InputState::new();
    let field = id("field", "name");

    input.focus_on(field);
    input.end_frame();
    input.end_frame();
    input.end_frame();

    assert!(input.has_focus(field), "focus must not decay on idle frames");
}

#[test]
fn typing_appends_and_backspace_removes() {
    let mut input = InputState::new();
    let mut value = String::from("ab");

    input.typed = "cd".into();
    assert!(input.edit(&mut value));
    assert_eq!(value, "abcd");

    input.typed.clear();
    input.keys.push(Key::Backspace);
    assert!(input.edit(&mut value));
    assert_eq!(value, "abc");
}

#[test]
fn control_characters_are_not_inserted() {
    let input = InputState { typed: "a\u{7}\u{1b}b".into(), ..InputState::new() };
    let mut value = String::new();

    input.edit(&mut value);

    assert_eq!(value, "ab", "bell and escape must not reach the field");
}

#[test]
fn backspace_on_an_empty_field_changes_nothing() {
    let mut input = InputState::new();
    let mut value = String::new();

    input.keys.push(Key::Backspace);
    assert!(!input.edit(&mut value));
    assert!(value.is_empty());
}

#[test]
fn a_pointer_outside_the_window_hovers_nothing() {
    let mut window = Window::at(50.0, 30.0);
    window.pointer_in_window = false;
    assert!(!window.interact(widget(), RECT).hovered);
}

#[test]
fn focusing_the_focused_field_again_does_not_restart_the_caret() {
    let mut input = InputState::new();
    let field = id("field", "name");
    assert!(input.focus_on(field));
    assert!(!input.focus_on(field));
    input.blur();
    assert!(!input.has_focus(field));
    assert!(input.focus_on(field));
    assert!(input.pressed_key(Key::Enter) == false);
}
