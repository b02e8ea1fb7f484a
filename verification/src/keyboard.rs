//! Keyboard state of the client's renderer: which keys are down now and
//! were down at the end of the previous frame.
use vstd::prelude::*;

verus! {

/// Keys the client reacts to.
#[derive(Debug, Clone, Copy, PartialEq, Eq, Structural)]
pub enum KeyCode {
    A,
    C,
    D,
    W,
    Up,
    Left,
    Right,
    LCtrl,
    Enter,
    Escape,
}

/// The scan code of a key.
pub open spec fn scan_code(k: KeyCode) -> u8 {
    match k {
        KeyCode::A => 38,
        KeyCode::C => 54,
        KeyCode::D => 40,
        KeyCode::W => 25,
        KeyCode::Up => 111,
        KeyCode::Left => 113,
        KeyCode::Right => 114,
        KeyCode::LCtrl => 37,
        KeyCode::Enter => 36,
        KeyCode::Escape => 9,
    }
}

impl KeyCode {
    /// The scan code of this key.
    pub fn code(&self) -> (c: u8)
        ensures
            c == scan_code(*self),
    {
        match self {
            KeyCode::A => 38,
            KeyCode::C => 54,
            KeyCode::D => 40,
            KeyCode::W => 25,
            KeyCode::Up => 111,
            KeyCode::Left => 113,
            KeyCode::Right => 114,
            KeyCode::LCtrl => 37,
            KeyCode::Enter => 36,
            KeyCode::Escape => 9,
        }
    }
}

/// The abstract keyboard state: per scan code, whether the key is down now
/// and whether it was down at the end of the previous frame.
pub struct KeyboardView {
    pub down: Seq<bool>,
    pub was_down: Seq<bool>,
}

/// Keyboard state over the 256 scan codes.
pub struct KeyboardState {
    down: Vec<bool>,
    was_down: Vec<bool>,
}

impl View for KeyboardState {
    type V = KeyboardView;

    closed spec fn view(&self) -> KeyboardView {
        KeyboardView { down: self.down@, was_down: self.was_down@ }
    }
}

/// All 256 keys up.
pub open spec fn all_up() -> Seq<bool> {
    Seq::new(256, |i: int| false)
}

impl KeyboardState {
    pub closed spec fn wf(&self) -> bool {
        self.down@.len() == 256 && self.was_down@.len() == 256
    }

    /// No key down, now or before.
    pub fn new() -> (k: KeyboardState)
        ensures
            k.wf(),
            k@.down == all_up(),
            k@.was_down == all_up(),
    {
        let mut down: Vec<bool> = Vec::new();
        let mut i: usize = 0;
        while i < 256
            invariant
                i <= 256,
                down@ == Seq::new(i as nat, |j: int| false),
            decreases 256 - i,
        {
            down.push(false);
            i = i + 1;
            assert(down@ =~= Seq::new(i as nat, |j: int| false));
        }
        let was_down = down.clone();
        assert(was_down@ =~= all_up());
        KeyboardState { down, was_down }
    }

    /// Whether the key with scan code `code` is down.
    pub fn key_down(&self, code: u8) -> (r: bool)
        requires
            self.wf(),
        ensures
            r == self@.down[code as int],
    {
        self.down[code as usize]
    }

    /// Whether the key went down during this frame.
    pub fn key_pressed(&self, code: u8) -> (r: bool)
        requires
            self.wf(),
        ensures
            r == (self@.down[code as int] && !self@.was_down[code as int]),
    {
        self.down[code as usize] && !self.was_down[code as usize]
    }

    /// Whether the key went up during this frame.
    pub fn key_released(&self, code: u8) -> (r: bool)
        requires
            self.wf(),
        ensures
            r == (!self@.down[code as int] && self@.was_down[code as int]),
    {
        !self.down[code as usize] && self.was_down[code as usize]
    }

    /// Records a key going down or up.
    pub fn set_key(&mut self, code: u8, down: bool)
        requires
            old(self).wf(),
        ensures
            final(self).wf(),
            final(self)@ == (KeyboardView { down: old(self)@.down.update(code as int, down), ..old(self)@ }),
    {
        self.down.set(code as usize, down);
    }

    /// Lets go of every key, as when the window loses focus.
    pub fn release_all(&mut self)
        requires
            old(self).wf(),
        ensures
            final(self).wf(),
            final(self)@ == (KeyboardView { down: all_up(), ..old(self)@ }),
    {
        let mut i: usize = 0;
        while i < 256
            invariant
                i <= 256,
                self.down@.len() == 256,
                self.was_down@ == old(self)@.was_down,
                self.was_down@.len() == 256,
                forall|j: int| 0 <= j < i ==> !#[trigger] self.down@[j],
            decreases 256 - i,
        {
            self.down.set(i, false);
            i = i + 1;
        }
        assert(self.down@ =~= all_up());
    }

    /// Ends a frame: the current keys become the previous frame's keys.
    pub fn end_frame(&mut self)
        requires
            old(self).wf(),
        ensures
            final(self).wf(),
            final(self)@ == (KeyboardView { was_down: old(self)@.down, ..old(self)@ }),
    {
        self.was_down = self.down.clone();
        assert(self.was_down@ =~= self.down@);
    }

    /// The button bits of the local player's input: bit 0 for turning left
    /// (scan codes 1 or 82), bit 1 for turning right (4 or 83), bit 2 for
    /// thrust (23 or 84).
    pub fn input_buttons(&self) -> (b: u8)
        requires
            self.wf(),
        ensures
            b == (if self@.down[1] || self@.down[82] { 1u8 } else { 0u8 }) + (if self@.down[4] || self@.down[83] {
                2u8
            } else {
                0u8
            }) + (if self@.down[23] || self@.down[84] { 4u8 } else { 0u8 }),
    {
        let mut buttons: u8 = 0;
        if self.down[1] || self.down[82] {
            buttons = buttons + 1;
        }
        if self.down[4] || self.down[83] {
            buttons = buttons + 2;
        }
        if self.down[23] || self.down[84] {
            buttons = buttons + 4;
        }
        buttons
    }

    /// Whether Ctrl-C is down, which ends the client.
    pub fn quit_requested(&self) -> (r: bool)
        requires
            self.wf(),
        ensures
            r == (self@.down[scan_code(KeyCode::C) as int] && self@.down[scan_code(KeyCode::LCtrl) as int]),
    {
        self.down[54] && self.down[37]
    }
}

/// A key is never both pressed and released in the same frame, and a key
/// held through the frame is neither.
pub proof fn lemma_press_release_exclusive(k: KeyboardView, code: u8)
    requires
        k.down.len() == 256,
        k.was_down.len() == 256,
    ensures
        !((k.down[code as int] && !k.was_down[code as int]) && (!k.down[code as int] && k.was_down[code as int])),
        k.down[code as int] && k.was_down[code as int] ==> !(k.down[code as int] && !k.was_down[code as int]),
{
}

} // verus!
