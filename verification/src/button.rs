use vstd::prelude::*;

verus! {

/// State of the single user button, shared between tasks as one raw byte.
#[derive(Clone, Copy, PartialEq, Eq, Structural, Debug)]
pub enum ButtonState {
    Pressed,
    Released,
}

impl ButtonState {
    /// The raw byte under which this state is stored in the shared flag.
    pub open spec fn spec_raw(&self) -> u8 {
        match self {
            ButtonState::Pressed => 0,
            ButtonState::Released => 1,
        }
    }

    /// Encodes the state as the raw byte kept in the shared flag.
    pub fn to_raw(&self) -> (r: u8)
        ensures
            r == self.spec_raw(),
    {
        match self {
            ButtonState::Pressed => 0,
            ButtonState::Released => 1,
        }
    }

    /// Decodes the raw byte of the shared flag; bytes other than the two
    /// states' encodings are invalid and excluded.
    pub fn from(value: u8) -> (r: ButtonState)
        requires
            value <= 1,
        ensures
            r.spec_raw() == value,
    {
        if value == 0 {
            ButtonState::Pressed
        } else {
            ButtonState::Released
        }
    }

    pub fn to_printable(&self) -> (r: &'static str)
        ensures
            *self == ButtonState::Pressed ==> r@ == "Button::Pressed"@,
            *self == ButtonState::Released ==> r@ == "Button::Released"@,
    {
        match self {
            ButtonState::Pressed => "Button::Pressed",
            ButtonState::Released => "Button::Released",
        }
    }
}

impl Default for ButtonState {
    fn default() -> (r: Self)
        ensures
            r == ButtonState::Released,
    {
        ButtonState::Released
    }
}

} // verus!
