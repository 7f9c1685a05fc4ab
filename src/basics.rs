//! Small functions, each with tests of its own: arithmetic, greetings, a bounded guess and
//! rectangles that hold one another.
use vstd::prelude::*;

verus! {

/// `a` plus two.
pub fn add_two(a: i32) -> (r: i32)
    requires
        a <= i32::MAX - 2,
    ensures
        r == a + 2,
{
    a + 2
}

/// A greeting that leaves the name out.
pub fn greeting_nameless(name: &str) -> (r: String)
    ensures
        r@ == "Hello!"@,
{
    "Hello!".to_owned()
}

/// A greeting of `name`: `Hello, <name>!`.
pub fn greeting(name: &str) -> (r: String)
    ensures
        r@ == "Hello, "@ + name@ + "!"@,
{
    let mut r = "Hello, ".to_owned();
    r.append(name);
    r.append("!");
    r
}

/// A guess between 1 and 100.
pub struct Guess {
    value: i32,
}

impl View for Guess {
    type V = i32;

    closed spec fn view(&self) -> i32 {
        self.value
    }
}

impl Guess {
    /// The guess `value`, which must lie between 1 and 100.
    pub fn new(value: i32) -> (r: Guess)
        requires
            1 <= value <= 100,
        ensures
            r@ == value,
    {
        Guess { value }
    }
}

/// A rectangle by its sides.
#[derive(Clone, Copy, Debug, PartialEq, Eq, Structural)]
pub struct Rectangle {
    pub width: u32,
    pub height: u32,
}

impl Rectangle {
    /// `other` fits strictly inside this rectangle, side by side.
    pub fn can_hold(&self, other: &Rectangle) -> (r: bool)
        ensures
            r == (self.width > other.width && self.height > other.height),
    {
        self.width > other.width && self.height > other.height
    }

    /// A faulty variant of `can_hold` that compares the widths the wrong way round.
    pub fn can_hold_err(&self, other: &Rectangle) -> (r: bool)
        ensures
            r == (self.width < other.width && self.height > other.height),
    {
        self.width < other.width && self.height > other.height
    }
}

} // verus!
