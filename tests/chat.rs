use mehlon::chat::{ChatWindow, ChatWindowEvent, ElementState, KeyboardInput, VirtualKeyCode};

#[test]
fn typing_builds_the_line() {
    let mut w = ChatWindow::new();
    assert_eq!(w.text(), "");
    assert_eq!(w.handle_character('h'), ChatWindowEvent::Nothing);
    assert_eq!(w.handle_character('i'), ChatWindowEvent::Nothing);
    assert_eq!(w.text(), "hi");
}

#[test]
fn backspace_removes_last_character() {
    let mut w = ChatWindow::with_text("abc".to_owned());
    assert_eq!(w.handle_character('\x08'), ChatWindowEvent::Nothing);
    assert_eq!(w.text(), "ab");
    let mut e = ChatWindow::new();
    assert_eq!(e.handle_character('\x08'), ChatWindowEvent::Nothing);
    assert_eq!(e.text(), "");
}

#[test]
fn newline_sends() {
    let mut w = ChatWindow::with_text("hello".to_owned());
    assert_eq!(w.handle_character('\n'), ChatWindowEvent::SendChat);
    assert_eq!(w.text(), "hello");
}

#[test]
fn keys_close_or_send() {
    let mut w = ChatWindow::with_text("x".to_owned());
    let esc = KeyboardInput { virtual_keycode: Some(VirtualKeyCode::Escape), state: ElementState::Pressed };
    let ret = KeyboardInput { virtual_keycode: Some(VirtualKeyCode::Return), state: ElementState::Pressed };
    let ret_up = KeyboardInput { virtual_keycode: Some(VirtualKeyCode::Return), state: ElementState::Released };
    let other = KeyboardInput { virtual_keycode: Some(VirtualKeyCode::Other), state: ElementState::Pressed };
    let unknown = KeyboardInput { virtual_keycode: None, state: ElementState::Pressed };
    assert_eq!(w.handle_kinput(&esc), ChatWindowEvent::CloseChatWindow);
    assert_eq!(w.handle_kinput(&ret), ChatWindowEvent::SendChat);
    assert_eq!(w.handle_kinput(&ret_up), ChatWindowEvent::Nothing);
    assert_eq!(w.handle_kinput(&other), ChatWindowEvent::Nothing);
    assert_eq!(w.handle_kinput(&unknown), ChatWindowEvent::Nothing);
    assert_eq!(w.text(), "x");
}
