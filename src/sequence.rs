//! Positions in the stream of replication files: `AAA/BBB/CCC`, each part
//! from 0 to 999.
use vstd::prelude::*;
use crate::text::{digit_value, is_digit};

verus! {

/// A replication file's sequence number, in its three parts.
#[derive(Debug, Clone, Copy, PartialEq, Eq, Structural)]
pub struct SequencePosition {
    pub top: u16,
    pub middle: u16,
    pub bottom: u16,
}

impl SequencePosition {
    pub open spec fn valid(&self) -> bool {
        self.top <= 999 && self.middle <= 999 && self.bottom <= 999
    }

    /// The sequence number that the position stands for.
    pub open spec fn number(&self) -> int {
        self.top * 1_000_000 + self.middle * 1000 + self.bottom
    }

    /// The position that follows, or `None` after `999/999/999`.
    pub fn next(&self) -> (r: Option<SequencePosition>)
        requires
            self.valid(),
        ensures
            r matches Some(q) ==> q.valid() && q.number() == self.number() + 1,
            r is None <==> self.number() == 999_999_999,
    {
        if self.bottom < 999 {
            Some(SequencePosition { top: self.top, middle: self.middle, bottom: self.bottom + 1 })
        } else if self.middle < 999 {
            Some(SequencePosition { top: self.top, middle: self.middle + 1, bottom: 0 })
        } else if self.top < 999 {
            Some(SequencePosition { top: self.top + 1, middle: 0, bottom: 0 })
        } else {
            None
        }
    }
}

/// The value of three decimal digits.
pub open spec fn three_digits(s: Seq<char>, at: int) -> Option<int> {
    if is_digit(s[at]) && is_digit(s[at + 1]) && is_digit(s[at + 2]) {
        Some(100 * digit_value(s[at]) + 10 * digit_value(s[at + 1]) + digit_value(s[at + 2]))
    } else {
        None
    }
}

/// The position that `AAA/BBB/CCC` writes, with three digits in each part.
pub open spec fn position_of(s: Seq<char>) -> Option<SequencePosition> {
    if s.len() == 11 && s[3] == '/' && s[7] == '/' && three_digits(s, 0) is Some && three_digits(s, 4)
        is Some && three_digits(s, 8) is Some {
        Some(
            SequencePosition {
                top: three_digits(s, 0)->Some_0 as u16,
                middle: three_digits(s, 4)->Some_0 as u16,
                bottom: three_digits(s, 8)->Some_0 as u16,
            },
        )
    } else {
        None
    }
}

fn read_three_digits(s: &str, at: usize) -> (r: Option<u16>)
    requires
        at <= 8,
        s@.len() == 11,
    ensures
        r matches Some(v) ==> three_digits(s@, at as int) == Some(v as int),
        r is None ==> three_digits(s@, at as int) is None,
{
    let a = s.get_char(at);
    let b = s.get_char(at + 1);
    let c = s.get_char(at + 2);
    if '0' <= a && a <= '9' && '0' <= b && b <= '9' && '0' <= c && c <= '9' {
        let v = 100 * (a as u32 - '0' as u32) + 10 * (b as u32 - '0' as u32) + (c as u32 - '0' as u32);
        Some(v as u16)
    } else {
        None
    }
}

/// Reads a position written `AAA/BBB/CCC`.
pub fn parse_position(s: &str) -> (r: Option<SequencePosition>)
    ensures
        r == position_of(s@),
        r matches Some(p) ==> p.valid(),
{
    if s.unicode_len() != 11 || s.get_char(3) != '/' || s.get_char(7) != '/' {
        return None;
    }
    let top = match read_three_digits(s, 0) {
        Some(v) => v,
        None => {
            return None;
        },
    };
    let middle = match read_three_digits(s, 4) {
        Some(v) => v,
        None => {
            return None;
        },
    };
    let bottom = match read_three_digits(s, 8) {
        Some(v) => v,
        None => {
            return None;
        },
    };
    Some(SequencePosition { top, middle, bottom })
}

} // verus!
