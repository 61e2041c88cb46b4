//! Abstract input: physical keys and mouse buttons bound to logical axes and
//! buttons, and the pressed state of logical buttons with edge detection.
use vstd::prelude::*;

verus! {

/// A physical keyboard key.
#[derive(Debug, Copy, Clone, PartialEq, Eq, Hash, Structural)]
pub enum KeyCode {
    Space,
    Apostrophe,
    Comma,
    Minus,
    Period,
    Slash,
    Key0,
    Key1,
    Key2,
    Key3,
    Key4,
    Key5,
    Key6,
    Key7,
    Key8,
    Key9,
    Semicolon,
    Equal,
    A,
    B,
    C,
    D,
    E,
    F,
    G,
    H,
    I,
    J,
    K,
    L,
    M,
    N,
    O,
    P,
    Q,
    R,
    S,
    T,
    U,
    V,
    W,
    X,
    Y,
    Z,
    LeftBracket,
    Backslash,
    RightBracket,
    GraveAccent,
    World1,
    World2,
    Escape,
    Enter,
    Tab,
    Backspace,
    Insert,
    Delete,
    Right,
    Left,
    Down,
    Up,
    PageUp,
    PageDown,
    Home,
    End,
    CapsLock,
    ScrollLock,
    NumLock,
    PrintScreen,
    Pause,
    F1,
    F2,
    F3,
    F4,
    F5,
    F6,
    F7,
    F8,
    F9,
    F10,
    F11,
    F12,
    F13,
    F14,
    F15,
    F16,
    F17,
    F18,
    F19,
    F20,
    F21,
    F22,
    F23,
    F24,
    F25,
    Kp0,
    Kp1,
    Kp2,
    Kp3,
    Kp4,
    Kp5,
    Kp6,
    Kp7,
    Kp8,
    Kp9,
    KpDecimal,
    KpDivide,
    KpMultiply,
    KpSubtract,
    KpAdd,
    KpEnter,
    KpEqual,
    LeftShift,
    LeftControl,
    LeftAlt,
    LeftSuper,
    RightShift,
    RightControl,
    RightAlt,
    RightSuper,
    Menu,
    Unknown,
}

/// The modifier keys held with a key event.
#[derive(Debug, Copy, Clone, PartialEq, Eq, Structural)]
pub struct KeyMods {
    pub shift: bool,
    pub ctrl: bool,
    pub alt: bool,
    pub logo: bool,
}

impl Default for KeyMods {
    fn default() -> (r: Self)
        ensures
            r == (KeyMods { shift: false, ctrl: false, alt: false, logo: false }),
    {
        KeyMods { shift: false, ctrl: false, alt: false, logo: false }
    }
}

/// A physical mouse button.
#[derive(Debug, Hash, Eq, PartialEq, Copy, Clone, Structural)]
pub enum MouseButton {
    Left,
    Right,
    Middle,
}

/// A physical input that can be bound.
#[derive(Debug, Hash, Eq, PartialEq, Copy, Clone, Structural)]
pub enum InputType {
    KeyEvent(KeyCode),
    MouseButtonEvent(MouseButton),
}

/// What a bound physical input drives: one direction of a logical axis, or
/// a logical button.
#[derive(Debug, Copy, Clone, PartialEq)]
pub enum InputEffect<Axes, Buttons> {
    Axis(Axes, bool),
    Button(Buttons),
}


/// `b` is a clone of `a`: same variant and direction, cloned axis or button.
pub open spec fn effect_cloned<Axes: Clone, Buttons: Clone>(
    a: InputEffect<Axes, Buttons>,
    b: InputEffect<Axes, Buttons>,
) -> bool {
    match (a, b) {
        (InputEffect::Axis(x, p), InputEffect::Axis(y, q)) => p == q && cloned(x, y),
        (InputEffect::Button(x), InputEffect::Button(y)) => cloned(x, y),
        _ => false,
    }
}

/// A mapping from physical inputs to logical axes and buttons.
pub struct InputBinding<Axes, Buttons> {
    bindings: Vec<(InputType, InputEffect<Axes, Buttons>)>,
}

impl<Axes: Clone, Buttons: Clone> InputBinding<Axes, Buttons> {
    /// The bindings, by physical input.
    pub closed spec fn bindings(&self) -> Map<InputType, InputEffect<Axes, Buttons>> {
        Map::new(
            |k: InputType| exists|i: int| 0 <= i < self.bindings@.len() && #[trigger] self.bindings@[i].0 == k,
            |k: InputType|
                self.bindings@[choose|i: int| 0 <= i < self.bindings@.len() && #[trigger] self.bindings@[i].0 == k].1,
        )
    }

    /// No physical input is bound twice.
    pub closed spec fn wf(&self) -> bool {
        forall|i: int, j: int|
            0 <= i < j < self.bindings@.len() ==> (#[trigger] self.bindings@[i]).0 != (#[trigger] self.bindings@[j]).0
    }

    /// No bindings.
    pub fn new() -> (r: Self)
        ensures
            r.wf(),
            r.bindings() == Map::<InputType, InputEffect<Axes, Buttons>>::empty(),
    {
        let r = InputBinding { bindings: Vec::new() };
        assert(r.bindings() =~= Map::<InputType, InputEffect<Axes, Buttons>>::empty());
        r
    }

    /// The position of the binding of `input`, if any.
    fn find(&self, input: InputType) -> (r: Option<usize>)
        requires
            self.wf(),
        ensures
            match r {
                Some(i) => i < self.bindings@.len() && self.bindings@[i as int].0 == input,
                None => !self.bindings().contains_key(input),
            },
    {
        let mut i: usize = 0;
        while i < self.bindings.len()
            invariant
                0 <= i <= self.bindings@.len(),
                forall|j: int| 0 <= j < i ==> (#[trigger] self.bindings@[j]).0 != input,
            decreases self.bindings@.len() - i,
        {
            if self.bindings[i].0 == input {
                return Some(i);
            }
            i = i + 1;
        }
        None
    }

    /// Binds `input` to `effect`, replacing any earlier binding of `input`.
    fn bind(self, input: InputType, effect: InputEffect<Axes, Buttons>) -> (r: Self)
        requires
            self.wf(),
        ensures
            r.wf(),
            r.bindings() == self.bindings().insert(input, effect),
    {
        let ghost before = self;
        let mut this = self;
        match this.find(input) {
            Some(i) => {
                this.bindings.set(i, (input, effect));
                proof {
                    assert forall|k: InputType| #![auto] this.bindings().contains_key(k) == before.bindings().insert(input, effect).contains_key(k) by {
                        if before.bindings().contains_key(k) {
                            let j = choose|j: int| 0 <= j < before.bindings@.len() && #[trigger] before.bindings@[j].0 == k;
                            assert(this.bindings@[j].0 == k);
                        }
                        if k == input {
                            assert(this.bindings@[i as int].0 == k);
                        }
                    }
                    assert forall|k: InputType| #[trigger] this.bindings().contains_key(k) implies this.bindings()[k] == before.bindings().insert(input, effect)[k] by {
                        let j = choose|j: int| 0 <= j < this.bindings@.len() && #[trigger] this.bindings@[j].0 == k;
                        if k != input {
                            let j0 = choose|j0: int| 0 <= j0 < before.bindings@.len() && #[trigger] before.bindings@[j0].0 == k;
                            assert(j == j0);
                        } else {
                            assert(j == i);
                        }
                    }
                    assert(this.bindings() =~= before.bindings().insert(input, effect));
                }
                this
            },
            None => {
                this.bindings.push((input, effect));
                proof {
                    let n = before.bindings@.len() as int;
                    assert forall|k: InputType| #![auto] this.bindings().contains_key(k) == before.bindings().insert(input, effect).contains_key(k) by {
                        if before.bindings().contains_key(k) {
                            let j = choose|j: int| 0 <= j < before.bindings@.len() && #[trigger] before.bindings@[j].0 == k;
                            assert(this.bindings@[j].0 == k);
                        }
                        if k == input {
                            assert(this.bindings@[n].0 == k);
                        }
                        if this.bindings().contains_key(k) && k != input {
                            let j = choose|j: int| 0 <= j < this.bindings@.len() && #[trigger] this.bindings@[j].0 == k;
                            assert(before.bindings@[j].0 == k);
                        }
                    }
                    assert forall|k: InputType| #[trigger] this.bindings().contains_key(k) implies this.bindings()[k] == before.bindings().insert(input, effect)[k] by {
                        let j = choose|j: int| 0 <= j < this.bindings@.len() && #[trigger] this.bindings@[j].0 == k;
                        if k != input {
                            assert(j < n);
                            let j0 = choose|j0: int| 0 <= j0 < before.bindings@.len() && #[trigger] before.bindings@[j0].0 == k;
                            assert(j == j0);
                        } else {
                            assert(j == n);
                        }
                    }
                    assert(this.bindings() =~= before.bindings().insert(input, effect));
                }
                this
            },
        }
    }

    /// Binds `keycode` to the `positive` (or negative) direction of `axis`.
    pub fn bind_key_to_axis(self, keycode: KeyCode, axis: Axes, positive: bool) -> (r: Self)
        requires
            self.wf(),
        ensures
            r.wf(),
            r.bindings() == self.bindings().insert(
                InputType::KeyEvent(keycode),
                InputEffect::Axis(axis, positive),
            ),
    {
        self.bind(InputType::KeyEvent(keycode), InputEffect::Axis(axis, positive))
    }

    /// Binds `keycode` to `button`.
    pub fn bind_key_to_button(self, keycode: KeyCode, button: Buttons) -> (r: Self)
        requires
            self.wf(),
        ensures
            r.wf(),
            r.bindings() == self.bindings().insert(InputType::KeyEvent(keycode), InputEffect::Button(button)),
    {
        self.bind(InputType::KeyEvent(keycode), InputEffect::Button(button))
    }

    /// Binds `mouse_button` to `button`.
    pub fn bind_mouse_to_button(self, mouse_button: MouseButton, button: Buttons) -> (r: Self)
        requires
            self.wf(),
        ensures
            r.wf(),
            r.bindings() == self.bindings().insert(
                InputType::MouseButtonEvent(mouse_button),
                InputEffect::Button(button),
            ),
    {
        self.bind(InputType::MouseButtonEvent(mouse_button), InputEffect::Button(button))
    }

    /// The logical effect that `keycode` is bound to, if any (a clone of it).
    pub fn resolve(&self, keycode: KeyCode) -> (r: Option<InputEffect<Axes, Buttons>>)
        requires
            self.wf(),
        ensures
            r is Some <==> self.bindings().contains_key(InputType::KeyEvent(keycode)),
            r matches Some(e) ==> effect_cloned(self.bindings()[InputType::KeyEvent(keycode)], e),
    {
        match self.find(InputType::KeyEvent(keycode)) {
            Some(i) => {
                proof {
                    let k = InputType::KeyEvent(keycode);
                    assert(self.bindings().contains_key(k));
                    let j = choose|j: int| 0 <= j < self.bindings@.len() && #[trigger] self.bindings@[j].0 == k;
                    assert(j == i);
                }
                let e = match &self.bindings[i].1 {
                    InputEffect::Axis(a, p) => InputEffect::Axis(a.clone(), *p),
                    InputEffect::Button(b) => InputEffect::Button(b.clone()),
                };
                Some(e)
            },
            None => None,
        }
    }
}


/// The direction an axis heads in after one of its inputs starts or stops:
/// -1, 0 or +1. A start heads it the input's way; a stop lets it rest only
/// when it was heading the stopped input's way.
pub fn next_axis_direction(direction: i8, positive: bool, started: bool) -> (r: i8)
    requires
        -1 <= direction <= 1,
    ensures
        -1 <= r <= 1,
        started ==> r == if positive {
            1i8
        } else {
            -1i8
        },
        !started ==> r == if (positive && direction > 0) || (!positive && direction < 0) {
            0
        } else {
            direction
        },
{
    if started {
        if positive {
            1
        } else {
            -1
        }
    } else if (positive && direction > 0) || (!positive && direction < 0) {
        0
    } else {
        direction
    }
}

#[derive(Debug, Copy, Clone)]
struct ButtonState {
    pressed: bool,
    pressed_last_frame: bool,
}

/// The state of logical buttons: whether each is down now and whether it was
/// down at the end of the previous frame.
pub struct ButtonInput<Buttons> {
    buttons: Vec<(Buttons, ButtonState)>,
}

impl<Buttons: Eq + std::hash::Hash + Clone> ButtonInput<Buttons> {
    /// Per button seen so far: (down now, down at the end of the last frame).
    pub closed spec fn states(&self) -> Map<Buttons, (bool, bool)> {
        Map::new(
            |b: Buttons| exists|i: int| 0 <= i < self.buttons@.len() && #[trigger] self.buttons@[i].0 == b,
            |b: Buttons|
                {
                    let i = choose|i: int| 0 <= i < self.buttons@.len() && #[trigger] self.buttons@[i].0 == b;
                    (self.buttons@[i].1.pressed, self.buttons@[i].1.pressed_last_frame)
                },
        )
    }

    /// Whether `b` is down.
    pub open spec fn is_down(&self, b: Buttons) -> bool {
        self.states().contains_key(b) && self.states()[b].0
    }

    /// Whether `b` was down at the end of the last frame.
    pub open spec fn was_down(&self, b: Buttons) -> bool {
        self.states().contains_key(b) && self.states()[b].1
    }

    /// No button is recorded twice.
    pub closed spec fn wf(&self) -> bool {
        forall|i: int, j: int|
            0 <= i < j < self.buttons@.len() ==> (#[trigger] self.buttons@[i]).0 != (#[trigger] self.buttons@[j]).0
    }

    /// No button seen yet.
    pub fn new() -> (r: Self)
        ensures
            r.wf(),
            r.states() == Map::<Buttons, (bool, bool)>::empty(),
    {
        let r = ButtonInput { buttons: Vec::new() };
        assert(r.states() =~= Map::<Buttons, (bool, bool)>::empty());
        r
    }

    fn find(&self, button: &Buttons) -> (r: Option<usize>)
        requires
            self.wf(),
            vstd::laws_eq::obeys_concrete_eq::<Buttons>(),
        ensures
            match r {
                Some(i) => i < self.buttons@.len() && self.buttons@[i as int].0 == *button,
                None => !self.states().contains_key(*button),
            },
    {
        proof {
            reveal(vstd::laws_eq::obeys_concrete_eq);
        }
        let mut i: usize = 0;
        while i < self.buttons.len()
            invariant
                0 <= i <= self.buttons@.len(),
                vstd::laws_eq::obeys_concrete_eq::<Buttons>(),
                forall|j: int| 0 <= j < i ==> (#[trigger] self.buttons@[j]).0 != *button,
            decreases self.buttons@.len() - i,
        {
            proof {
                reveal(vstd::laws_eq::obeys_concrete_eq);
            }
            if self.buttons[i].0 == *button {
                return Some(i);
            }
            i = i + 1;
        }
        None
    }

    proof fn lemma_state_at(&self, i: int)
        requires
            self.wf(),
            0 <= i < self.buttons@.len(),
        ensures
            self.states().contains_key(self.buttons@[i].0),
            self.states()[self.buttons@[i].0] == (self.buttons@[i].1.pressed, self.buttons@[i].1.pressed_last_frame),
    {
        let b = self.buttons@[i].0;
        let j = choose|j: int| 0 <= j < self.buttons@.len() && #[trigger] self.buttons@[j].0 == b;
        assert(j == i);
    }

    /// Records `button` as down (`started`) or up, keeping its state at the
    /// end of the last frame.
    fn set_pressed(&mut self, button: Buttons, started: bool)
        requires
            old(self).wf(),
            vstd::laws_eq::obeys_concrete_eq::<Buttons>(),
        ensures
            final(self).wf(),
            final(self).states() == old(self).states().insert(button, (started, old(self).was_down(button))),
    {
        let ghost before = *self;
        match self.find(&button) {
            Some(i) => {
                proof {
                    before.lemma_state_at(i as int);
                }
                let last = self.buttons[i].1.pressed_last_frame;
                self.buttons.set(i, (button, ButtonState { pressed: started, pressed_last_frame: last }));
                proof {
                    assert forall|k: Buttons| #![auto] self.states().contains_key(k) == before.states().contains_key(k) by {
                        if before.states().contains_key(k) {
                            let j = choose|j: int| 0 <= j < before.buttons@.len() && #[trigger] before.buttons@[j].0 == k;
                            assert(self.buttons@[j].0 == k);
                        }
                        if self.states().contains_key(k) {
                            let j = choose|j: int| 0 <= j < self.buttons@.len() && #[trigger] self.buttons@[j].0 == k;
                            assert(before.buttons@[j].0 == k);
                        }
                    }
                    assert forall|k: Buttons| #[trigger] self.states().contains_key(k) implies self.states()[k]
                        == before.states().insert(button, (started, before.was_down(button)))[k] by {
                        let j = choose|j: int| 0 <= j < self.buttons@.len() && #[trigger] self.buttons@[j].0 == k;
                        self.lemma_state_at(j);
                        if j != i {
                            before.lemma_state_at(j);
                        }
                    }
                    assert(self.states() =~= before.states().insert(button, (started, before.was_down(button))));
                }
            },
            None => {
                self.buttons.push((button, ButtonState { pressed: started, pressed_last_frame: false }));
                proof {
                    let n = before.buttons@.len() as int;
                    assert forall|k: Buttons| #![auto] self.states().contains_key(k) == before.states().insert(button, (started, false)).contains_key(k) by {
                        if before.states().contains_key(k) {
                            let j = choose|j: int| 0 <= j < before.buttons@.len() && #[trigger] before.buttons@[j].0 == k;
                            assert(self.buttons@[j].0 == k);
                        }
                        if k == button {
                            assert(self.buttons@[n].0 == k);
                        }
                        if self.states().contains_key(k) && k != button {
                            let j = choose|j: int| 0 <= j < self.buttons@.len() && #[trigger] self.buttons@[j].0 == k;
                            assert(before.buttons@[j].0 == k);
                        }
                    }
                    assert forall|k: Buttons| #[trigger] self.states().contains_key(k) implies self.states()[k]
                        == before.states().insert(button, (started, false))[k] by {
                        let j = choose|j: int| 0 <= j < self.buttons@.len() && #[trigger] self.buttons@[j].0 == k;
                        self.lemma_state_at(j);
                        if j < n {
                            before.lemma_state_at(j);
                        }
                    }
                    assert(self.states() =~= before.states().insert(button, (started, false)));
                }
            },
        }
    }

    /// Records that `button` went down.
    pub fn update_button_down(&mut self, button: Buttons)
        requires
            old(self).wf(),
            vstd::laws_eq::obeys_concrete_eq::<Buttons>(),
        ensures
            final(self).wf(),
            final(self).states() == old(self).states().insert(button, (true, old(self).was_down(button))),
    {
        self.set_pressed(button, true)
    }

    /// Records that `button` went up.
    pub fn update_button_up(&mut self, button: Buttons)
        requires
            old(self).wf(),
            vstd::laws_eq::obeys_concrete_eq::<Buttons>(),
        ensures
            final(self).wf(),
            final(self).states() == old(self).states().insert(button, (false, old(self).was_down(button))),
    {
        self.set_pressed(button, false)
    }

    /// Ends a frame: every button's state now is its state at the end of the
    /// last frame.
    pub fn update(&mut self)
        requires
            old(self).wf(),
        ensures
            final(self).wf(),
            final(self).states().dom() == old(self).states().dom(),
            forall|b: Buttons| #[trigger] final(self).states().contains_key(b) ==> final(self).states()[b] == (
                old(self).states()[b].0,
                old(self).states()[b].0,
            ),
            forall|b: Buttons|
                #![trigger final(self).is_down(b)]
                #![trigger final(self).was_down(b)]
                final(self).is_down(b) == final(self).was_down(b) && final(self).is_down(b) == old(
                    self,
                ).is_down(b),
    {
        let ghost before = *self;
        let mut i: usize = 0;
        while i < self.buttons.len()
            invariant
                0 <= i <= self.buttons@.len(),
                self.buttons@.len() == before.buttons@.len(),
                before.wf(),
                forall|j: int| 0 <= j < self.buttons@.len() ==> (#[trigger] self.buttons@[j]).0 == before.buttons@[j].0,
                forall|j: int| 0 <= j < i ==> (#[trigger] self.buttons@[j]).1.pressed == before.buttons@[j].1.pressed
                    && self.buttons@[j].1.pressed_last_frame == before.buttons@[j].1.pressed,
                forall|j: int| i <= j < self.buttons@.len() ==> #[trigger] self.buttons@[j] == before.buttons@[j],
            decreases self.buttons@.len() - i,
        {
            let p = self.buttons[i].1.pressed;
            self.buttons[i].1.pressed_last_frame = p;
            i = i + 1;
        }
        proof {
            assert forall|b: Buttons| #![auto] self.states().contains_key(b) == before.states().contains_key(b) by {
                if before.states().contains_key(b) {
                    let j = choose|j: int| 0 <= j < before.buttons@.len() && #[trigger] before.buttons@[j].0 == b;
                    assert(self.buttons@[j].0 == b);
                }
                if self.states().contains_key(b) {
                    let j = choose|j: int| 0 <= j < self.buttons@.len() && #[trigger] self.buttons@[j].0 == b;
                    assert(before.buttons@[j].0 == b);
                }
            }
            assert(self.states().dom() =~= before.states().dom());
            assert forall|b: Buttons| #[trigger] self.states().contains_key(b) implies self.states()[b] == (
                before.states()[b].0,
                before.states()[b].0,
            ) by {
                let j = choose|j: int| 0 <= j < self.buttons@.len() && #[trigger] self.buttons@[j].0 == b;
                self.lemma_state_at(j);
                before.lemma_state_at(j);
            }
        }
    }
    fn get_button(&self, button: &Buttons) -> (r: (bool, bool))
        requires
            self.wf(),
            vstd::laws_eq::obeys_concrete_eq::<Buttons>(),
        ensures
            r == (self.is_down(*button), self.was_down(*button)),
    {
        match self.find(button) {
            Some(i) => {
                proof {
                    self.lemma_state_at(i as int);
                }
                (self.buttons[i].1.pressed, self.buttons[i].1.pressed_last_frame)
            },
            None => (false, false),
        }
    }

    /// Whether `button` is down (a level trigger).
    pub fn get_button_down(&self, button: Buttons) -> (r: bool)
        requires
            self.wf(),
            vstd::laws_eq::obeys_concrete_eq::<Buttons>(),
        ensures
            r == self.is_down(button),
    {
        self.get_button(&button).0
    }

    /// Whether `button` is up (a level trigger).
    pub fn get_button_up(&self, button: Buttons) -> (r: bool)
        requires
            self.wf(),
            vstd::laws_eq::obeys_concrete_eq::<Buttons>(),
        ensures
            r == !self.is_down(button),
    {
        !self.get_button(&button).0
    }

    /// Whether `button` went down this frame (an edge trigger).
    pub fn get_button_pressed(&self, button: Buttons) -> (r: bool)
        requires
            self.wf(),
            vstd::laws_eq::obeys_concrete_eq::<Buttons>(),
        ensures
            r == (self.is_down(button) && !self.was_down(button)),
    {
        let b = self.get_button(&button);
        b.0 && !b.1
    }

    /// Whether `button` went up this frame (an edge trigger).
    pub fn get_button_released(&self, button: Buttons) -> (r: bool)
        requires
            self.wf(),
            vstd::laws_eq::obeys_concrete_eq::<Buttons>(),
        ensures
            r == (!self.is_down(button) && self.was_down(button)),
    {
        let b = self.get_button(&button);
        !b.0 && b.1
    }

    /// Puts every button up, now and in the last frame.
    pub fn reset_input_state(&mut self)
        requires
            old(self).wf(),
        ensures
            final(self).wf(),
            final(self).states().dom() == old(self).states().dom(),
            forall|b: Buttons| #[trigger] final(self).states().contains_key(b) ==> final(self).states()[b] == (
                false,
                false,
            ),
    {
        let ghost before = *self;
        let mut i: usize = 0;
        while i < self.buttons.len()
            invariant
                0 <= i <= self.buttons@.len(),
                self.buttons@.len() == before.buttons@.len(),
                before.wf(),
                forall|j: int| 0 <= j < self.buttons@.len() ==> (#[trigger] self.buttons@[j]).0 == before.buttons@[j].0,
                forall|j: int| 0 <= j < i ==> !(#[trigger] self.buttons@[j]).1.pressed
                    && !self.buttons@[j].1.pressed_last_frame,
            decreases self.buttons@.len() - i,
        {
            self.buttons[i].1.pressed = false;
            self.buttons[i].1.pressed_last_frame = false;
            i = i + 1;
        }
        proof {
            assert forall|b: Buttons| #![auto] self.states().contains_key(b) == before.states().contains_key(b) by {
                if before.states().contains_key(b) {
                    let j = choose|j: int| 0 <= j < before.buttons@.len() && #[trigger] before.buttons@[j].0 == b;
                    assert(self.buttons@[j].0 == b);
                }
                if self.states().contains_key(b) {
                    let j = choose|j: int| 0 <= j < self.buttons@.len() && #[trigger] self.buttons@[j].0 == b;
                    assert(before.buttons@[j].0 == b);
                }
            }
            assert(self.states().dom() =~= before.states().dom());
            assert forall|b: Buttons| #[trigger] self.states().contains_key(b) implies self.states()[b] == (false, false) by {
                let j = choose|j: int| 0 <= j < self.buttons@.len() && #[trigger] self.buttons@[j].0 == b;
                self.lemma_state_at(j);
            }
        }
    }
}

} // verus!
