//! The decisions of a gravitational N-body simulation, verified with Verus.
//!
//! A simulation advances point masses tick by tick, either over every pair
//! of bodies or with a Barnes-Hut octree. This library holds what such a
//! simulation decides, and leaves to its caller what it computes in floating
//! point: the caller measures and adds up, the library says what is to be
//! measured and added.
//!
//! - this module: the start-up arguments;
//! - `octant`: the key that says, level by level, in which octant a position
//!   lies;
//! - `octtree`: the octree as an arena of nodes, and the insertion of a body;
//! - `cells`: which bodies lie in which cell;
//! - `walk`: the force evaluation of one body as a walk over the tree;
//! - `accounting`: that a walk counts every other body exactly once;
//! - `nbodies`: the order of the pairwise step, and the tree of a tick;
//! - `body`: the mass of a new body, and the boundary policy.
use vstd::prelude::*;

pub mod accounting;
pub mod body;
pub mod cells;
pub mod nbodies;
pub mod octant;
pub mod octtree;
pub mod walk;

verus! {

/// Why a list of start-up arguments was turned down.
#[derive(Clone, Copy, Debug, PartialEq, Eq, Structural)]
pub enum ArgError {
    /// The list does not hold exactly two arguments.
    Usage,
    /// An argument is not a decimal integer below 2^32.
    NotAnInteger,
    /// The first argument is neither 1 (naive) nor 2 (with tree).
    Mode,
}

impl ArgError {
    /// The text shown to the user for this error.
    pub open spec fn spec_message(self) -> Seq<char> {
        match self {
            ArgError::Usage =>
                "usage: n_body_sim <1 (naive) or 2 (with tree)> <number of bodies to simulate>"@,
            ArgError::NotAnInteger => "error: please provide only integers < 2^32"@,
            ArgError::Mode => "error: first argument must be 1 or 2"@,
        }
    }

    /// The text shown to the user for this error.
    pub fn message(&self) -> (s: &'static str)
        ensures
            s@ == self.spec_message(),
    {
        match self {
            ArgError::Usage =>
                "usage: n_body_sim <1 (naive) or 2 (with tree)> <number of bodies to simulate>",
            ArgError::NotAnInteger => "error: please provide only integers < 2^32",
            ArgError::Mode => "error: first argument must be 1 or 2",
        }
    }
}

/// Whether `c` is one of the ASCII digits `0` to `9`.
pub open spec fn is_digit(c: char) -> bool {
    48 <= c as u32 <= 57
}

/// The number a digit stands for; 0 for any other character.
pub open spec fn digit_value(c: char) -> nat {
    if is_digit(c) {
        (c as u32 - 48) as nat
    } else {
        0
    }
}

/// The number that a sequence of digits denotes in base ten, most
/// significant digit first.
pub open spec fn digits_value(s: Seq<char>) -> nat
    decreases s.len(),
{
    if s.len() == 0 {
        0
    } else {
        digits_value(s.drop_last()) * 10 + digit_value(s.last())
    }
}

/// Whether every character of `s` is a digit.
pub open spec fn all_digits(s: Seq<char>) -> bool {
    forall|i: int| 0 <= i < s.len() ==> is_digit(#[trigger] s[i])
}

/// The text without one leading `+`, if it has one.
pub open spec fn unsigned_part(s: Seq<char>) -> Seq<char> {
    if s.len() > 0 && s[0] == '+' {
        s.subrange(1, s.len() as int)
    } else {
        s
    }
}

/// The number that an argument denotes: an optional `+`, then one or more
/// digits whose value is below 2^32. Anything else denotes no number.
pub open spec fn spec_parsenum(s: Seq<char>) -> Option<u32> {
    let d = unsigned_part(s);
    if d.len() > 0 && all_digits(d) && digits_value(d) <= u32::MAX {
        Some(digits_value(d) as u32)
    } else {
        None
    }
}

/// What a list of arguments is validated to: the two numbers, in order, or
/// the reason for turning the list down.
pub open spec fn spec_parsearg(args: Seq<Seq<char>>) -> Result<Seq<u32>, ArgError> {
    if args.len() != 2 {
        Err(ArgError::Usage)
    } else {
        match (spec_parsenum(args[0]), spec_parsenum(args[1])) {
            (Some(mode), Some(count)) => if mode == 1 || mode == 2 {
                Ok(seq![mode, count])
            } else {
                Err(ArgError::Mode)
            },
            _ => Err(ArgError::NotAnInteger),
        }
    }
}

/// A number is never smaller than the number that a prefix of its digits
/// denotes.
proof fn lemma_digits_value_prefix(s: Seq<char>, k: int)
    requires
        0 <= k <= s.len(),
    ensures
        digits_value(s.subrange(0, k)) <= digits_value(s),
    decreases s.len(),
{
    if k == s.len() {
        assert(s.subrange(0, k) =~= s);
    } else {
        lemma_digits_value_prefix(s.drop_last(), k);
        assert(s.drop_last().subrange(0, k) =~= s.subrange(0, k));
    }
}

/// Reads one argument as an unsigned 32-bit integer.
pub fn parsenum(s: &str) -> (r: Result<u32, ArgError>)
    ensures
        match spec_parsenum(s@) {
            Some(n) => r == Ok::<u32, ArgError>(n),
            None => r == Err::<u32, ArgError>(ArgError::NotAnInteger),
        },
{
    let len: usize = s.unicode_len();
    let start: usize = if len > 0 && s.get_char(0) == '+' {
        1
    } else {
        0
    };
    if start == len {
        return Err(ArgError::NotAnInteger);
    }
    let ghost body = unsigned_part(s@);
    assert(body =~= s@.subrange(start as int, len as int));
    let mut i: usize = start;
    let mut acc: u32 = 0;
    while i < len
        invariant
            start <= i <= len,
            len == s@.len(),
            body == unsigned_part(s@),
            body == s@.subrange(start as int, len as int),
            all_digits(body.subrange(0, i - start)),
            acc == digits_value(body.subrange(0, i - start)),
        decreases len - i,
    {
        let c: char = s.get_char(i);
        let code: u32 = c as u32;
        assert(body[i - start] == c);
        if code < 48 || code > 57 {
            return Err(ArgError::NotAnInteger);
        }
        let d: u32 = code - 48;
        let ghost next = body.subrange(0, i - start + 1);
        proof {
            assert(next.drop_last() =~= body.subrange(0, i - start));
            assert(next.last() == c);
            assert(digits_value(next) == acc * 10 + d);
            lemma_digits_value_prefix(body, i - start + 1);
        }
        if acc > (u32::MAX - d) / 10 {
            return Err(ArgError::NotAnInteger);
        }
        acc = acc * 10 + d;
        i += 1;
        assert(all_digits(next)) by {
            assert forall|j: int| 0 <= j < next.len() implies is_digit(#[trigger] next[j]) by {
                if j < next.len() - 1 {
                    assert(next[j] == body.subrange(0, i - start - 1)[j]);
                }
            }
        }
    }
    assert(body.subrange(0, i - start) =~= body);
    Ok(acc)
}

/// How a tick computes the forces.
#[derive(Clone, Copy, Debug, PartialEq, Eq, Structural)]
pub enum Mode {
    /// Every pair of bodies.
    Naive,
    /// The Barnes-Hut tree.
    Tree,
}

/// What a valid list of arguments asks for.
#[derive(Clone, Copy, Debug, PartialEq, Eq, Structural)]
pub struct Settings {
    pub mode: Mode,
    pub body_count: u32,
}

/// The settings behind a list of arguments: the first argument chooses the
/// mode, 1 for naive and 2 for the tree; the second is the number of
/// bodies.
pub open spec fn spec_settings(args: Seq<Seq<char>>) -> Result<Settings, ArgError> {
    match spec_parsearg(args) {
        Ok(num) => Ok(
            Settings {
                mode: if num[0] == 1 {
                    Mode::Naive
                } else {
                    Mode::Tree
                },
                body_count: num[1],
            },
        ),
        Err(e) => Err(e),
    }
}

/// Validates the list of start-up arguments and reads the settings of the
/// simulation from it.
pub fn settings(args: &Vec<String>) -> (r: Result<Settings, ArgError>)
    ensures
        r == spec_settings(args@.map_values(|a: String| a@)),
{
    match parsearg(args) {
        Ok(num) => {
            let mode = if num[0] == 1 {
                Mode::Naive
            } else {
                Mode::Tree
            };
            Ok(Settings { mode, body_count: num[1] })
        },
        Err(e) => Err(e),
    }
}

/// Validates the list of start-up arguments: exactly two unsigned 32-bit
/// integers, the first of them 1 or 2. Returns the two numbers in order.
pub fn parsearg(args: &Vec<String>) -> (r: Result<Vec<u32>, ArgError>)
    ensures
        match r {
            Ok(v) => spec_parsearg(args@.map_values(|a: String| a@)) == Ok::<Seq<u32>, ArgError>(
                v@,
            ),
            Err(e) => spec_parsearg(args@.map_values(|a: String| a@)) == Err::<
                Seq<u32>,
                ArgError,
            >(e),
        },
{
    if args.len() != 2 {
        return Err(ArgError::Usage);
    }
    let first = parsenum(args[0].as_str());
    let second = parsenum(args[1].as_str());
    match (first, second) {
        (Ok(mode), Ok(count)) => {
            if mode == 1 || mode == 2 {
                let mut num: Vec<u32> = Vec::new();
                num.push(mode);
                num.push(count);
                assert(num@ =~= seq![mode, count]);
                Ok(num)
            } else {
                Err(ArgError::Mode)
            }
        },
        _ => Err(ArgError::NotAnInteger),
    }
}

} // verus!
