//! The direction in which a diagram flows.
use crate::text;
use crate::text::{chars_of, is, to_upper, trimmed};
use vstd::prelude::*;

verus! {

#[derive(Debug, Clone, Copy, PartialEq, Eq, Structural)]
pub enum Direction {
    TopToBottom,
    BottomToTop,
    LeftToRight,
    RightToLeft,
}

impl Default for Direction {
    fn default() -> (r: Self)
        ensures
            r == Direction::TopToBottom,
    {
        Direction::TopToBottom
    }
}

impl Direction {
    /// The direction called `dir`; from top to bottom where it names none.
    pub open spec fn named(dir: Seq<char>) -> Direction {
        let d = text::upper_all(text::trim(dir));
        if d == "BT"@ {
            Direction::BottomToTop
        } else if d == "LR"@ {
            Direction::LeftToRight
        } else if d == "RL"@ {
            Direction::RightToLeft
        } else {
            Direction::TopToBottom
        }
    }

    /// The canonical name of the direction.
    pub open spec fn name(self) -> Seq<char> {
        match self {
            Direction::TopToBottom => "TB"@,
            Direction::BottomToTop => "BT"@,
            Direction::LeftToRight => "LR"@,
            Direction::RightToLeft => "RL"@,
        }
    }

    pub fn parse(dir: &str) -> (r: Direction)
        ensures
            r == Direction::named(dir@),
    {
        let c = chars_of(dir);
        let d = to_upper(trimmed(&c));
        if is(&d, "BT") {
            Direction::BottomToTop
        } else if is(&d, "LR") {
            Direction::LeftToRight
        } else if is(&d, "RL") {
            Direction::RightToLeft
        } else {
            Direction::TopToBottom
        }
    }

    pub fn as_str(&self) -> (r: &'static str)
        ensures
            r@ == self.name(),
    {
        match self {
            Direction::TopToBottom => "TB",
            Direction::BottomToTop => "BT",
            Direction::LeftToRight => "LR",
            Direction::RightToLeft => "RL",
        }
    }
}

} // verus!
