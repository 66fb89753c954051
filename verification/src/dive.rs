//! Steering the submarine: parsing movement commands ("forward 5",
//! "down 3", "up 2", in any letter case) and following a course, either
//! directly or with an aim that the vertical commands adjust.

use vstd::prelude::*;
use crate::text::{chars_of, int_written, lower_char, next_token, parse_i64_range, skip_ws, token_end};

verus! {

/// Why a command line could not be read.
#[derive(Debug, PartialEq, Eq, Structural)]
pub enum MyError {
    InvalidDirection,
    InvalidIntParse,
}

impl MyError {
    /// A short description of the error.
    pub fn message(&self) -> (r: &'static str)
        ensures
            *self is InvalidDirection ==> r@ == "Invalid Direction"@,
            *self is InvalidIntParse ==> r@ == "i64 Parsing Error"@,
    {
        match self {
            MyError::InvalidDirection => "Invalid Direction",
            MyError::InvalidIntParse => "i64 Parsing Error",
        }
    }
}

/// The three ways the submarine can move.
#[derive(Debug, PartialEq, Eq, Structural, Clone, Copy)]
pub enum Direction {
    Forward,
    Up,
    Down,
}

/// One movement command.
#[derive(Debug, PartialEq, Eq, Structural, Clone, Copy)]
pub struct Command {
    pub direction: Direction,
    pub magnitude: i64,
}

/// The first token of `s`, lower-cased.
pub open spec fn first_word(s: Seq<char>) -> Seq<char> {
    let a = skip_ws(s, 0);
    let b = token_end(s, a);
    Seq::new((b - a) as nat, |k: int| lower_char(s[a + k]))
}

/// The direction the first token names, if any.
pub open spec fn direction_written(s: Seq<char>) -> Option<Direction> {
    if first_word(s) == "forward"@ {
        Some(Direction::Forward)
    } else if first_word(s) == "up"@ {
        Some(Direction::Up)
    } else if first_word(s) == "down"@ {
        Some(Direction::Down)
    } else {
        None
    }
}

/// Bounds of the second token of `s`.
pub open spec fn second_token(s: Seq<char>) -> (int, int) {
    let a2 = skip_ws(s, token_end(s, skip_ws(s, 0)));
    (a2, token_end(s, a2))
}

/// A line holds at least two whitespace-separated tokens.
pub open spec fn has_two_tokens(s: Seq<char>) -> bool {
    skip_ws(s, 0) < s.len() && second_token(s).0 < s.len()
}

impl Command {
    /// Read a command from a line: a direction word, then a magnitude.
    /// The line must hold at least two tokens; an unknown direction or an
    /// unreadable number is reported as an error.
    pub fn from_string(text: String) -> (r: Result<Command, MyError>)
        requires
            has_two_tokens(text@),
        ensures
            match r {
                Ok(c) => direction_written(text@) == Some(c.direction) && int_written(
                    text@,
                    second_token(text@).0,
                    second_token(text@).1,
                ) == Some(c.magnitude as int),
                Err(e) => match e {
                    MyError::InvalidDirection => direction_written(text@) is None,
                    MyError::InvalidIntParse => direction_written(text@) is Some && (match
                        int_written(text@, second_token(text@).0, second_token(text@).1) {
                        Some(x) => !(i64::MIN <= x <= i64::MAX),
                        None => true,
                    }),
                },
            },
    {
        let v = chars_of(text.as_str());
        let (a, b) = match next_token(&v, 0) {
            Some(t) => t,
            None => {
                proof {
                    assert(false);
                }
                return Err(MyError::InvalidDirection);
            },
        };
        let direction = if crate::text::token_matches(&v, a, b, "forward") {
            Direction::Forward
        } else if crate::text::token_matches(&v, a, b, "up") {
            Direction::Up
        } else if crate::text::token_matches(&v, a, b, "down") {
            Direction::Down
        } else {
            proof {
                reveal_strlit("forward");
                reveal_strlit("up");
                reveal_strlit("down");
            }
            return Err(MyError::InvalidDirection);
        };
        proof {
            reveal_strlit("forward");
            reveal_strlit("up");
            reveal_strlit("down");
            assert(direction_written(text@) == Some(direction));
        }
        let (a2, b2) = match next_token(&v, b) {
            Some(t) => t,
            None => {
                proof {
                    assert(false);
                }
                return Err(MyError::InvalidIntParse);
            },
        };
        match parse_i64_range(&v, a2, b2) {
            Some(m) => Ok(Command { direction, magnitude: m }),
            None => Err(MyError::InvalidIntParse),
        }
    }
}

/// Horizontal position after the first `n` commands.
pub open spec fn forward_after(s: Seq<Command>, n: int) -> int
    decreases n,
{
    if n <= 0 {
        0
    } else {
        forward_after(s, n - 1) + if s[n - 1].direction is Forward {
            s[n - 1].magnitude as int
        } else {
            0
        }
    }
}

/// Depth after the first `n` commands when up and down change it directly.
pub open spec fn depth_after(s: Seq<Command>, n: int) -> int
    decreases n,
{
    if n <= 0 {
        0
    } else {
        depth_after(s, n - 1) + match s[n - 1].direction {
            Direction::Forward => 0,
            Direction::Down => s[n - 1].magnitude as int,
            Direction::Up => -(s[n - 1].magnitude as int),
        }
    }
}

/// Aim after the first `n` commands: up and down steer it.
pub open spec fn aim_after(s: Seq<Command>, n: int) -> int
    decreases n,
{
    if n <= 0 {
        0
    } else {
        aim_after(s, n - 1) + match s[n - 1].direction {
            Direction::Forward => 0,
            Direction::Down => s[n - 1].magnitude as int,
            Direction::Up => -(s[n - 1].magnitude as int),
        }
    }
}

/// Depth after the first `n` commands when moving forward dives by the
/// aim times the magnitude.
pub open spec fn aimed_depth_after(s: Seq<Command>, n: int) -> int
    decreases n,
{
    if n <= 0 {
        0
    } else {
        aimed_depth_after(s, n - 1) + if s[n - 1].direction is Forward {
            aim_after(s, n - 1) * s[n - 1].magnitude
        } else {
            0
        }
    }
}

/// Every value the direct course passes through fits in an `i64`.
pub open spec fn course_fits(s: Seq<Command>, n: int) -> bool
    decreases n,
{
    if n <= 0 {
        true
    } else {
        course_fits(s, n - 1) && i64::MIN <= forward_after(s, n) <= i64::MAX && i64::MIN
            <= depth_after(s, n) <= i64::MAX
    }
}

/// Every value the aimed course passes through fits in an `i64`,
/// including the product of aim and magnitude at each forward step.
pub open spec fn aimed_course_fits(s: Seq<Command>, n: int) -> bool
    decreases n,
{
    if n <= 0 {
        true
    } else {
        aimed_course_fits(s, n - 1) && i64::MIN <= forward_after(s, n) <= i64::MAX && i64::MIN
            <= aim_after(s, n) <= i64::MAX && i64::MIN <= aimed_depth_after(s, n) <= i64::MAX && (
        s[n - 1].direction is Forward ==> i64::MIN <= aim_after(s, n - 1) * s[n - 1].magnitude
            <= i64::MAX)
    }
}

/// Follow the commands directly: forward moves, down and up change the
/// depth.  Returns the final horizontal position and depth.
pub fn travel(commands: &Vec<Command>) -> (r: (i64, i64))
    requires
        course_fits(commands@, commands@.len() as int),
    ensures
        r.0 == forward_after(commands@, commands@.len() as int),
        r.1 == depth_after(commands@, commands@.len() as int),
{
    let mut forward: i64 = 0;
    let mut depth: i64 = 0;
    let mut i: usize = 0;
    while i < commands.len()
        invariant
            0 <= i <= commands@.len(),
            course_fits(commands@, commands@.len() as int),
            forward == forward_after(commands@, i as int),
            depth == depth_after(commands@, i as int),
        decreases commands@.len() - i,
    {
        proof {
            lemma_course_fits_prefix(commands@, i + 1, commands@.len() as int);
        }
        let c = commands[i];
        match c.direction {
            Direction::Forward => {
                forward = forward + c.magnitude;
            },
            Direction::Down => {
                depth = depth + c.magnitude;
            },
            Direction::Up => {
                depth = depth - c.magnitude;
            },
        }
        i = i + 1;
    }
    (forward, depth)
}

proof fn lemma_course_fits_prefix(s: Seq<Command>, i: int, j: int)
    requires
        i <= j,
        course_fits(s, j),
    ensures
        course_fits(s, i),
    decreases j - i,
{
    if i < j {
        lemma_course_fits_prefix(s, i + 1, j);
    }
}

proof fn lemma_aimed_course_fits_prefix(s: Seq<Command>, i: int, j: int)
    requires
        i <= j,
        aimed_course_fits(s, j),
    ensures
        aimed_course_fits(s, i),
    decreases j - i,
{
    if i < j {
        lemma_aimed_course_fits_prefix(s, i + 1, j);
    }
}

/// Follow the commands with an aim: down and up steer, forward moves and
/// dives by aim times magnitude.  Returns position, depth and final aim.
pub fn travel_with_aim(commands: &Vec<Command>) -> (r: (i64, i64, i64))
    requires
        aimed_course_fits(commands@, commands@.len() as int),
    ensures
        r.0 == forward_after(commands@, commands@.len() as int),
        r.1 == aimed_depth_after(commands@, commands@.len() as int),
        r.2 == aim_after(commands@, commands@.len() as int),
{
    let mut forward: i64 = 0;
    let mut depth: i64 = 0;
    let mut aim: i64 = 0;
    let mut i: usize = 0;
    while i < commands.len()
        invariant
            0 <= i <= commands@.len(),
            aimed_course_fits(commands@, commands@.len() as int),
            forward == forward_after(commands@, i as int),
            depth == aimed_depth_after(commands@, i as int),
            aim == aim_after(commands@, i as int),
        decreases commands@.len() - i,
    {
        proof {
            lemma_aimed_course_fits_prefix(commands@, i + 1, commands@.len() as int);
        }
        let c = commands[i];
        match c.direction {
            Direction::Forward => {
                forward = forward + c.magnitude;
                depth = depth + aim * c.magnitude;
            },
            Direction::Down => {
                aim = aim + c.magnitude;
            },
            Direction::Up => {
                aim = aim - c.magnitude;
            },
        }
        i = i + 1;
    }
    (forward, depth, aim)
}


/// Does the direct course stay inside `i64` the whole way?  Callers test
/// this before `travel`.
pub fn course_fits_check(commands: &Vec<Command>) -> (r: bool)
    ensures
        r == course_fits(commands@, commands@.len() as int),
{
    let mut forward: i64 = 0;
    let mut depth: i64 = 0;
    let mut i: usize = 0;
    while i < commands.len()
        invariant
            0 <= i <= commands@.len(),
            course_fits(commands@, i as int),
            forward == forward_after(commands@, i as int),
            depth == depth_after(commands@, i as int),
        decreases commands@.len() - i,
    {
        let c = commands[i];
        let f2: i128 = forward as i128 + (match c.direction {
            Direction::Forward => c.magnitude,
            _ => 0,
        }) as i128;
        let d2: i128 = depth as i128 + (match c.direction {
            Direction::Forward => 0i128,
            Direction::Down => c.magnitude as i128,
            Direction::Up => -(c.magnitude as i128),
        });
        if f2 > i64::MAX as i128 || f2 < i64::MIN as i128 || d2 > i64::MAX as i128 || d2
            < i64::MIN as i128 {
            proof {
                lemma_course_unfit(commands@, i + 1, commands@.len() as int);
            }
            return false;
        }
        forward = f2 as i64;
        depth = d2 as i64;
        i = i + 1;
    }
    true
}

/// Does the aimed course, including every aim-times-magnitude product,
/// stay inside `i64`?  Callers test this before `travel_with_aim`.
pub fn aimed_course_fits_check(commands: &Vec<Command>) -> (r: bool)
    ensures
        r == aimed_course_fits(commands@, commands@.len() as int),
{
    let mut forward: i64 = 0;
    let mut depth: i64 = 0;
    let mut aim: i64 = 0;
    let mut i: usize = 0;
    while i < commands.len()
        invariant
            0 <= i <= commands@.len(),
            aimed_course_fits(commands@, i as int),
            forward == forward_after(commands@, i as int),
            depth == aimed_depth_after(commands@, i as int),
            aim == aim_after(commands@, i as int),
        decreases commands@.len() - i,
    {
        let c = commands[i];
        match c.direction {
            Direction::Forward => {
                let f2: i128 = forward as i128 + c.magnitude as i128;
                proof {
                    assert(-0x4000_0000_0000_0000_0000_0000_0000_0000i128 <= aim as i128
                        * c.magnitude as i128
                        <= 0x4000_0000_0000_0000_0000_0000_0000_0000i128) by (nonlinear_arith)
                        requires
                            -0x8000_0000_0000_0000i128 <= aim as i128 <= 0x7FFF_FFFF_FFFF_FFFFi128
                                && -0x8000_0000_0000_0000i128 <= c.magnitude as i128
                                <= 0x7FFF_FFFF_FFFF_FFFFi128,
                    ;
                }
                let p: i128 = aim as i128 * c.magnitude as i128;
                if f2 > i64::MAX as i128 || f2 < i64::MIN as i128 || p > i64::MAX as i128 || p
                    < i64::MIN as i128 {
                    proof {
                        lemma_aimed_unfit(commands@, i + 1, commands@.len() as int);
                    }
                    return false;
                }
                let d2: i128 = depth as i128 + p;
                if d2 > i64::MAX as i128 || d2 < i64::MIN as i128 {
                    proof {
                        lemma_aimed_unfit(commands@, i + 1, commands@.len() as int);
                    }
                    return false;
                }
                forward = f2 as i64;
                depth = d2 as i64;
            },
            Direction::Down => {
                let a2: i128 = aim as i128 + c.magnitude as i128;
                if a2 > i64::MAX as i128 || a2 < i64::MIN as i128 {
                    proof {
                        lemma_aimed_unfit(commands@, i + 1, commands@.len() as int);
                    }
                    return false;
                }
                aim = a2 as i64;
            },
            Direction::Up => {
                let a2: i128 = aim as i128 - c.magnitude as i128;
                if a2 > i64::MAX as i128 || a2 < i64::MIN as i128 {
                    proof {
                        lemma_aimed_unfit(commands@, i + 1, commands@.len() as int);
                    }
                    return false;
                }
                aim = a2 as i64;
            },
        }
        i = i + 1;
    }
    true
}

/// A course broken at one step stays broken to the end.
proof fn lemma_course_unfit(s: Seq<Command>, i: int, j: int)
    requires
        i <= j,
        !course_fits(s, i),
    ensures
        !course_fits(s, j),
    decreases j - i,
{
    if i < j {
        lemma_course_unfit(s, i + 1, j);
    }
}

proof fn lemma_aimed_unfit(s: Seq<Command>, i: int, j: int)
    requires
        i <= j,
        !aimed_course_fits(s, i),
    ensures
        !aimed_course_fits(s, j),
    decreases j - i,
{
    if i < j {
        lemma_aimed_unfit(s, i + 1, j);
    }
}

} // verus!

