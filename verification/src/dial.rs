use vstd::prelude::*;
use vstd::string::*;
use crate::pattern::{captures, first_captures};
use crate::text::{number, parse_number};

verus! {

/// A turn of the dial: to the right or to the left, by a number of steps.
#[derive(Clone, Copy, Debug, PartialEq, Eq, Structural)]
pub struct Turn {
    pub right: bool,
    pub steps: i32,
}

/// Why a line gives no turn.
#[derive(Debug, PartialEq, Eq, Structural)]
pub enum ParseTurnError {
    /// The steps are no number that fits.
    InvalidNumber,
}

/// The pattern of a turn: a direction and a number of steps.
pub open spec fn turn_pattern() -> Seq<char> {
    r"([R|L])(\d+)"@
}

/// The turn that the groups of a match give: to the right if the first group is `R`.
pub open spec fn turn_of(groups: Option<Seq<Option<Seq<u8>>>>) -> Result<Option<Turn>, ParseTurnError> {
    match groups {
        None => Ok(None),
        Some(g) => if g.len() >= 3 && g[1] is Some && g[2] is Some {
            match number(g[2]->Some_0, i32::MAX as nat) {
                Some(n) => Ok(Some(Turn { right: g[1]->Some_0 == seq![82u8], steps: n as i32 })),
                None => Err(ParseTurnError::InvalidNumber),
            }
        } else {
            Ok(None)
        },
    }
}

/// The turn that the groups of a match give.
pub fn read_groups(groups: &Option<Vec<Option<Vec<u8>>>>) -> (out: Result<Option<Turn>, ParseTurnError>)
    ensures
        out == turn_of(
            match groups {
                Some(g) => Some(crate::pattern::group_views(g@)),
                None => None,
            },
        ),
{
    match groups {
        None => Ok(None),
        Some(g) => {
            if g.len() < 3 {
                return Ok(None);
            }
            match (&g[1], &g[2]) {
                (Some(direction), Some(steps)) => {
                    let right = direction.len() == 1 && direction[0] == 82;
                    proof {
                        if right {
                            assert(direction@ =~= seq![82u8]);
                        } else if direction@ == seq![82u8] {
                            assert(direction@.len() == 1);
                            assert(direction@[0] == seq![82u8][0]);
                        }
                    }
                    match parse_number(steps, 0x7fff_ffff) {
                        Some(n) => Ok(Some(Turn { right, steps: n as i32 })),
                        None => Err(ParseTurnError::InvalidNumber),
                    }
                },
                _ => Ok(None),
            }
        },
    }
}

/// Reads the turn of a line, if the line holds one.
pub fn read_turn(line: &str) -> (out: Result<Option<Turn>, ParseTurnError>)
    ensures
        out == turn_of(first_captures(turn_pattern(), line.spec_bytes())),
{
    let text = line.as_bytes_vec();
    let groups = captures(r"([R|L])(\d+)", &text);
    read_groups(&groups)
}

/// The remainder of a division that takes the sign of what is divided.
pub open spec fn remainder(a: int, m: int) -> int {
    if a >= 0 {
        a % m
    } else {
        -((-a) % m)
    }
}

/// The signed steps of a turn.
pub open spec fn signed(t: Turn) -> int {
    if t.right {
        t.steps as int
    } else {
        -(t.steps as int)
    }
}

/// Where the dial stands after a turn, counted as the remainder that takes the sign
/// of the sum.
pub open spec fn landed(current: int, t: Turn) -> int {
    remainder(current + signed(t), 100)
}

/// Where the dial stands after a turn.
pub fn land(current: i32, turn: &Turn) -> (out: i32)
    requires
        -100 < current < 100,
        0 <= turn.steps,
    ensures
        out == landed(current as int, *turn),
        -100 < out < 100,
{
    let value: i64 = if turn.right { turn.steps as i64 } else { 0 - turn.steps as i64 };
    let sum: i64 = current as i64 + value;
    if sum >= 0 {
        (sum % 100) as i32
    } else {
        (0 - ((0 - sum) % 100)) as i32
    }
}

/// Where the dial stands after the first `n` turns, from 50.
pub open spec fn position(turns: Seq<Turn>, n: nat) -> int
    decreases n,
{
    if n == 0 {
        50
    } else {
        landed(position(turns, (n - 1) as nat), turns[n - 1])
    }
}

/// The number of the first `n` turns after which the dial stands at zero.
pub open spec fn stops(turns: Seq<Turn>, n: nat) -> nat
    decreases n,
{
    if n == 0 {
        0
    } else {
        stops(turns, (n - 1) as nat) + if position(turns, n) == 0 {
            1nat
        } else {
            0nat
        }
    }
}

/// The number of turns after which the dial stands at zero.
pub fn count_stops(turns: &Vec<Turn>) -> (out: usize)
    requires
        forall|i: int| 0 <= i < turns@.len() ==> 0 <= (#[trigger] turns@[i]).steps,
    ensures
        out == stops(turns@, turns@.len()),
{
    let mut current: i32 = 50;
    let mut count: usize = 0;
    let mut i: usize = 0;
    while i < turns.len()
        invariant
            i <= turns@.len(),
            forall|i: int| 0 <= i < turns@.len() ==> 0 <= (#[trigger] turns@[i]).steps,
            -100 < current < 100,
            current == position(turns@, i as nat),
            count == stops(turns@, i as nat),
            count <= i,
        decreases turns@.len() - i,
    {
        current = land(current, &turns[i]);
        if current == 0 {
            count += 1;
        }
        i += 1;
    }
    count
}

/// How often the dial points at zero during a turn from `current`: once when it
/// first reaches zero, and once more for every hundred steps after that.
pub open spec fn passes(current: int, t: Turn) -> int {
    let first = if current == 0 {
        100
    } else if t.right {
        100 - current
    } else {
        current
    };
    if t.steps < first {
        0
    } else {
        1 + (t.steps - first) / 100
    }
}

/// Where the dial stands after a turn, from 0 to 99.
pub open spec fn pointed(current: int, t: Turn) -> int {
    (current + signed(t)) % 100
}

/// Where the dial stands after the first `n` turns, from 50, from 0 to 99.
pub open spec fn pointer(turns: Seq<Turn>, n: nat) -> int
    decreases n,
{
    if n == 0 {
        50
    } else {
        pointed(pointer(turns, (n - 1) as nat), turns[n - 1])
    }
}

/// How often the dial points at zero during the first `n` turns.
pub open spec fn clicks(turns: Seq<Turn>, n: nat) -> int
    decreases n,
{
    if n == 0 {
        0
    } else {
        clicks(turns, (n - 1) as nat) + passes(pointer(turns, (n - 1) as nat), turns[n - 1])
    }
}

/// How often the dial points at zero during the turns.
pub fn count_clicks(turns: &Vec<Turn>) -> (out: u64)
    requires
        forall|i: int| 0 <= i < turns@.len() ==> 0 <= (#[trigger] turns@[i]).steps,
        turns@.len() <= 0xffff_ffff,
    ensures
        out == clicks(turns@, turns@.len()),
{
    let mut current: i64 = 50;
    let mut count: u64 = 0;
    let mut i: usize = 0;
    while i < turns.len()
        invariant
            i <= turns@.len(),
            turns@.len() <= 0xffff_ffff,
            forall|i: int| 0 <= i < turns@.len() ==> 0 <= (#[trigger] turns@[i]).steps,
            0 <= current < 100,
            current == pointer(turns@, i as nat),
            count == clicks(turns@, i as nat),
            count <= i * 0x8000_0000,
        decreases turns@.len() - i,
    {
        let t = turns[i];
        let steps = t.steps as i64;
        let first: i64 = if current == 0 {
            100
        } else if t.right {
            100 - current
        } else {
            current
        };
        let more: u64 = if steps < first {
            0
        } else {
            (1 + (steps - first) / 100) as u64
        };
        proof {
            assert((i + 1) * 0x8000_0000 == i * 0x8000_0000 + 0x8000_0000) by (nonlinear_arith);
            assert(i * 0x8000_0000 <= 0xffff_ffff * 0x8000_0000) by (nonlinear_arith)
                requires
                    i <= 0xffff_ffff,
            ;
        }
        count = count + more;
        let sum: i64 = if t.right { current + steps } else { current - steps };
        current = if sum >= 0 {
            sum % 100
        } else {
            let r = (0 - sum) % 100;
            proof {
                assert(sum % 100 == if r == 0 { 0 } else { 100 - r }) by {
                    vstd::arithmetic::div_mod::lemma_fundamental_div_mod(0 - sum, 100);
                    vstd::arithmetic::div_mod::lemma_fundamental_div_mod_converse(
                        sum as int,
                        100,
                        if r == 0 { -((0 - sum) / 100) } else { -((0 - sum) / 100) - 1 },
                        if r == 0 { 0 } else { 100 - r },
                    );
                }
            }
            if r == 0 { 0 } else { 100 - r }
        };
        i += 1;
    }
    count
}

} // verus!
