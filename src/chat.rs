use vstd::prelude::*;

verus! {

/// Relies on `String::push`: appends the character to the end.
pub assume_specification[ String::push ](s: &mut String, ch: char)
    ensures
        final(s)@ == old(s)@.push(ch),
;

/// Relies on `String::pop`: removes and returns the last character, or
/// returns `None` and leaves the string as it is when it is empty.
pub assume_specification[ String::pop ](s: &mut String) -> (r: Option<char>)
    ensures
        old(s)@.len() == 0 ==> r is None && final(s)@ == old(s)@,
        old(s)@.len() > 0 ==> r == Some(old(s)@.last()) && final(s)@ == old(s)@.drop_last(),
;

/// The line of chat being typed.
pub struct ChatWindow {
    text: String,
}

/// What the chat window asks of its host after an input.
#[derive(Clone, Copy, Debug, PartialEq, Eq, Structural)]
pub enum ChatWindowEvent {
    CloseChatWindow,
    SendChat,
    /// Nothing to do.
    Nothing,
}

/// The keys that the chat window reacts to.
#[derive(Clone, Copy, Debug, PartialEq, Eq, Structural)]
pub enum VirtualKeyCode {
    Escape,
    Return,
    /// Any other key.
    Other,
}

/// Whether a key went down or up.
#[derive(Clone, Copy, Debug, PartialEq, Eq, Structural)]
pub enum ElementState {
    Pressed,
    Released,
}

/// A keyboard event: the key, when it is known, and its new state.
#[derive(Clone, Copy, Debug, PartialEq, Eq, Structural)]
pub struct KeyboardInput {
    pub virtual_keycode: Option<VirtualKeyCode>,
    pub state: ElementState,
}

/// The line after typing character `c`: a newline leaves it as is, a
/// backspace removes its last character (if any), any other character is
/// appended.
pub open spec fn text_after_char(t: Seq<char>, c: char) -> Seq<char> {
    if c == '\n' {
        t
    } else if c == '\x08' {
        if t.len() == 0 { t } else { t.drop_last() }
    } else {
        t.push(c)
    }
}

impl ChatWindow {
    pub closed spec fn view(&self) -> Seq<char> {
        self.text@
    }

    /// An empty chat window.
    pub fn new() -> (r: ChatWindow)
        ensures
            r.view() == Seq::<char>::empty(),
    {
        ChatWindow::with_text(String::new())
    }

    /// A chat window holding `text`.
    pub fn with_text(text: String) -> (r: ChatWindow)
        ensures
            r.view() == text@,
    {
        ChatWindow { text }
    }

    /// The line typed so far.
    pub fn text(&self) -> (r: &str)
        ensures
            r@ == self.view(),
    {
        self.text.as_str()
    }

    /// Handles a typed character: a newline asks to send the line, a
    /// backspace removes the last character, anything else is appended.
    pub fn handle_character(&mut self, input: char) -> (r: ChatWindowEvent)
        ensures
            final(self).view() == text_after_char(old(self).view(), input),
            r == (if input == '\n' {
                ChatWindowEvent::SendChat
            } else {
                ChatWindowEvent::Nothing
            }),
    {
        if input == '\n' {
            return ChatWindowEvent::SendChat;
        }
        if input == '\x08' {
            self.text.pop();
            return ChatWindowEvent::Nothing;
        }
        self.text.push(input);
        ChatWindowEvent::Nothing
    }

    /// Handles a key event: pressing escape closes the window, pressing
    /// return sends the line; the line itself is left as is.
    pub fn handle_kinput(&mut self, input: &KeyboardInput) -> (r: ChatWindowEvent)
        ensures
            final(self).view() == old(self).view(),
            r == (if input.state == ElementState::Pressed && input.virtual_keycode == Some(
                VirtualKeyCode::Escape,
            ) {
                ChatWindowEvent::CloseChatWindow
            } else if input.state == ElementState::Pressed && input.virtual_keycode == Some(
                VirtualKeyCode::Return,
            ) {
                ChatWindowEvent::SendChat
            } else {
                ChatWindowEvent::Nothing
            }),
    {
        match (input.virtual_keycode, input.state) {
            (Some(VirtualKeyCode::Escape), ElementState::Pressed) => ChatWindowEvent::CloseChatWindow,
            (Some(VirtualKeyCode::Return), ElementState::Pressed) => ChatWindowEvent::SendChat,
            _ => ChatWindowEvent::Nothing,
        }
    }
}

} // verus!
