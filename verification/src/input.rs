//! The discrete part of pointer and keyboard input: which widget a press belongs to, which
//! field has the keyboard, and what typing does to a field. Hit-testing and the springs
//! that animate hover are the window's part.
use vstd::prelude::*;
use crate::text::{chars_of, string_of};
use std::collections::hash_map::DefaultHasher;
use std::hash::{BuildHasher, BuildHasherDefault};

verus! {

/// A key on the keyboard, as the interface reads it.
#[derive(Clone, Copy, Debug, PartialEq, Eq, Structural)]
pub enum Key {
    Escape,
    Enter,
    Tab,
    Backspace,
    Delete,
    Left,
    Right,
    Up,
    Down,
    Home,
    End,
    Char(char),
}

/// What `DefaultHasher`, as `BuildHasherDefault` makes it, finishes with after hashing a
/// pair of strings. Every `DefaultHasher::new` starts from the same state, so this is a
/// function of the two texts for a given build of std.
pub uninterp spec fn default_hash_pair(kind: Seq<char>, key: Seq<char>) -> u64;

/// Calls `BuildHasher::hash_one` of `BuildHasherDefault<DefaultHasher>` on a pair of
/// strings, which hashes the first and then the second. Its result is named
/// `default_hash_pair`; nothing more is claimed of it.
#[verifier::external_body]
fn hash_pair(kind: &str, key: &str) -> (h: u64)
    ensures
        h == default_hash_pair(kind@, key@),
{
    BuildHasherDefault::<DefaultHasher>::default().hash_one((kind, key))
}

/// The identity of a widget from the kind of thing it is and the key of what it shows, so
/// call sites can write `id("card", project.id)`.
pub fn id(kind: &str, key: &str) -> (r: u64)
    ensures
        r == default_hash_pair(kind@, key@),
{
    hash_pair(kind, key)
}

/// Unicode's control characters (general category `Cc`), the ones `char::is_control`
/// reports.
pub open spec fn is_control(c: char) -> bool {
    (c as u32) <= 0x1f || (0x7f <= (c as u32) && (c as u32) <= 0x9f)
}

fn control(c: char) -> (r: bool)
    ensures
        r == is_control(c),
{
    let n = c as u32;
    n <= 0x1f || (0x7f <= n && n <= 0x9f)
}

/// The characters of typed text that are inserted into a field: all but control
/// characters, in order.
pub open spec fn printable(s: Seq<char>) -> Seq<char>
    decreases s.len(),
{
    if s.len() == 0 {
        s
    } else if is_control(s.last()) {
        printable(s.drop_last())
    } else {
        printable(s.drop_last()).push(s.last())
    }
}

/// One frame of input, as far as it decides anything: the button, this frame's one-shot
/// events, the widget a press started on, and the field that has the keyboard.
pub struct InputState {
    pub down: bool,
    /// Set on the frame the button went down.
    pub just_pressed: bool,
    /// Set on the frame it came back up.
    pub just_released: bool,
    /// Typed characters this frame, in order.
    pub typed: String,
    pub keys: Vec<Key>,
    /// Which widget the press started on. A click only counts if it ends on the same one,
    /// which is what lets a user press a button and slide off to cancel.
    pub captured: Option<u64>,
    /// Which text field has the keyboard, if any.
    pub focus: Option<u64>,
    /// Set when a field claimed the press this frame. A press that no field claimed drops
    /// focus.
    pub focus_taken: bool,
}

/// What a widget learned about the pointer this frame.
pub struct Response {
    pub hovered: bool,
    pub pressed: bool,
    /// True on the frame the pointer was released inside the widget.
    pub clicked: bool,
}

impl InputState {
    pub fn new() -> (r: InputState)
        ensures
            !r.down && !r.just_pressed && !r.just_released,
            r.typed@.len() == 0,
            r.keys@.len() == 0,
            r.captured is None,
            r.focus is None,
            !r.focus_taken,
    {
        InputState {
            down: false,
            just_pressed: false,
            just_released: false,
            typed: String::new(),
            keys: Vec::new(),
            captured: None,
            focus: None,
            focus_taken: false,
        }
    }

    /// What a widget sees this frame, given whether the pointer is inside it. A press inside
    /// a widget captures the pointer for it; it reads as pressed while the button is down
    /// and as clicked on the release, only if the pointer is still inside and the press
    /// started on it.
    pub fn interact(&mut self, widget: u64, inside: bool) -> (r: Response)
        ensures
            final(self).captured == if inside && old(self).just_pressed {
                Some(widget)
            } else {
                old(self).captured
            },
            r.hovered == inside,
            r.pressed == (inside && old(self).down && final(self).captured == Some(widget)),
            r.clicked == (inside && old(self).just_released && final(self).captured == Some(
                widget,
            )),
            final(self).down == old(self).down,
            final(self).just_pressed == old(self).just_pressed,
            final(self).just_released == old(self).just_released,
            final(self).typed == old(self).typed,
            final(self).keys == old(self).keys,
            final(self).focus == old(self).focus,
            final(self).focus_taken == old(self).focus_taken,
    {
        if inside && self.just_pressed {
            self.captured = Some(widget);
        }
        let held = match self.captured {
            Some(c) => c == widget,
            None => false,
        };
        Response {
            hovered: inside,
            pressed: inside && self.down && held,
            clicked: inside && self.just_released && held,
        }
    }

    /// Called at the end of a frame. A release no field claimed drops focus; the one-shot
    /// events are cleared; the capture ends once the button is up.
    pub fn end_frame(&mut self)
        ensures
            final(self).focus == if old(self).just_released && !old(self).focus_taken {
                None
            } else {
                old(self).focus
            },
            !final(self).focus_taken,
            !final(self).just_pressed,
            !final(self).just_released,
            final(self).typed@.len() == 0,
            final(self).keys@.len() == 0,
            final(self).down == old(self).down,
            final(self).captured == if old(self).down {
                old(self).captured
            } else {
                None
            },
    {
        if self.just_released && !self.focus_taken {
            self.focus = None;
        }
        self.focus_taken = false;
        self.just_pressed = false;
        self.just_released = false;
        self.typed = String::new();
        self.keys = Vec::new();
        if !self.down {
            self.captured = None;
        }
    }

    /// Whether a key was pressed this frame.
    pub fn pressed_key(&self, key: Key) -> (r: bool)
        ensures
            r == self.keys@.contains(key),
    {
        let mut i: usize = 0;
        while i < self.keys.len()
            invariant
                i <= self.keys@.len(),
                forall|j: int| 0 <= j < i ==> self.keys@[j] != key,
            decreases self.keys@.len() - i,
        {
            if self.keys[i] == key {
                return true;
            }
            i += 1;
        }
        false
    }

    /// Gives the keyboard to a field and claims this frame's press. Returns whether focus
    /// moved, in which case the caret restarts so it is visible immediately.
    pub fn focus_on(&mut self, widget: u64) -> (moved: bool)
        ensures
            final(self).focus == Some(widget),
            final(self).focus_taken,
            moved == (old(self).focus != Some(widget)),
            final(self).down == old(self).down,
            final(self).just_pressed == old(self).just_pressed,
            final(self).just_released == old(self).just_released,
            final(self).typed == old(self).typed,
            final(self).keys == old(self).keys,
            final(self).captured == old(self).captured,
    {
        self.focus_taken = true;
        let moved = match self.focus {
            Some(f) => f != widget,
            None => true,
        };
        self.focus = Some(widget);
        moved
    }

    pub fn blur(&mut self)
        ensures
            final(self).focus is None,
            final(self).focus_taken == old(self).focus_taken,
            final(self).captured == old(self).captured,
            final(self).down == old(self).down,
            final(self).just_pressed == old(self).just_pressed,
            final(self).just_released == old(self).just_released,
            final(self).typed == old(self).typed,
            final(self).keys == old(self).keys,
    {
        self.focus = None;
    }

    pub fn has_focus(&self, widget: u64) -> (r: bool)
        ensures
            r == (self.focus == Some(widget)),
    {
        match self.focus {
            Some(f) => f == widget,
            None => false,
        }
    }

    /// Applies this frame's typing to a field: a backspace removes the last character, then
    /// every typed character that is not a control character is appended. Reports whether
    /// the text changed, in which case the caret restarts.
    pub fn edit(&self, value: &mut String) -> (changed: bool)
        ensures
            ({
                let erased = self.keys@.contains(Key::Backspace) && old(value)@.len() > 0;
                let kept = if erased {
                    old(value)@.drop_last()
                } else {
                    old(value)@
                };
                &&& final(value)@ == kept + printable(self.typed@)
                &&& changed == (erased || printable(self.typed@).len() > 0)
            }),
    {
        let mut text = chars_of(value.as_str());
        let mut changed = false;
        if self.pressed_key(Key::Backspace) && text.len() > 0 {
            text.pop();
            changed = true;
        }
        let ghost kept = text@;
        let typed = chars_of(self.typed.as_str());
        let mut i: usize = 0;
        while i < typed.len()
            invariant
                i <= typed@.len(),
                typed@ == self.typed@,
                text@ == kept + printable(typed@.take(i as int)),
                changed == ((self.keys@.contains(Key::Backspace) && old(value)@.len() > 0)
                    || printable(typed@.take(i as int)).len() > 0),
            decreases typed@.len() - i,
        {
            let c = typed[i];
            assert(typed@.take(i + 1).drop_last() =~= typed@.take(i as int));
            if !control(c) {
                text.push(c);
                assert(kept + printable(typed@.take(i + 1)) =~= (kept + printable(
                    typed@.take(i as int),
                )).push(c));
                changed = true;
            }
            i += 1;
        }
        assert(typed@.take(typed@.len() as int) =~= typed@);
        *value = string_of(text.as_slice());
        changed
    }
}

} // verus!
