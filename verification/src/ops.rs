//! The moves of a crane on a grid, and how a line of moves is dealt out to
//! the cranes for output.

use vstd::prelude::*;

verus! {

/// What a crane can do in one turn.
#[derive(Clone, Copy, Debug, PartialEq, Eq)]
pub enum Operation {
    Right,
    Down,
    Left,
    Up,
    Suspend,
    Lower,
    Stop,
    Explode,
}

/// Number of directions a crane can move in.
pub const DIR_NUM: usize = 4;

/// Number of operations that a search tries.
pub const OP_NUM: usize = 7;

/// Number of cranes that are in use.
pub const USING_CRANE: usize = 2;

/// Number of lines of output.
pub const LINES: usize = 5;

/// The number of an operation: its place in the list of variants.
pub open spec fn code_of(op: Operation) -> int {
    match op {
        Operation::Right => 0,
        Operation::Down => 1,
        Operation::Left => 2,
        Operation::Up => 3,
        Operation::Suspend => 4,
        Operation::Lower => 5,
        Operation::Stop => 6,
        Operation::Explode => 7,
    }
}

/// The number of `op`.
pub fn code(op: Operation) -> (r: usize)
    ensures
        r == code_of(op),
{
    match op {
        Operation::Right => 0,
        Operation::Down => 1,
        Operation::Left => 2,
        Operation::Up => 3,
        Operation::Suspend => 4,
        Operation::Lower => 5,
        Operation::Stop => 6,
        Operation::Explode => 7,
    }
}

/// The operation that undoes operation number `op`: the opposite
/// direction, lowering for suspending and the other way round, and
/// stopping for stopping.
pub open spec fn reverse_spec(op: int) -> Operation {
    if op == 0 {
        Operation::Left
    } else if op == 1 {
        Operation::Up
    } else if op == 2 {
        Operation::Right
    } else if op == 3 {
        Operation::Down
    } else if op == 4 {
        Operation::Lower
    } else if op == 5 {
        Operation::Suspend
    } else {
        Operation::Stop
    }
}

/// The operation that undoes operation number `op`.
pub fn reverse_op(op: usize) -> (r: Operation)
    requires
        op < OP_NUM,
    ensures
        r == reverse_spec(op as int),
{
    if op == 0 {
        Operation::Left
    } else if op == 1 {
        Operation::Up
    } else if op == 2 {
        Operation::Right
    } else if op == 3 {
        Operation::Down
    } else if op == 4 {
        Operation::Lower
    } else if op == 5 {
        Operation::Suspend
    } else {
        Operation::Stop
    }
}

/// Undoing the undoing of an operation is the operation itself.
pub proof fn reverse_twice(op: int)
    requires
        0 <= op < OP_NUM,
    ensures
        code_of(reverse_spec(code_of(reverse_spec(op)))) == op,
{
}

/// Whether `(x, y)` lies outside a field of `h` rows and `w` columns.
pub fn out_field(x: isize, y: isize, h: isize, w: isize) -> (r: bool)
    ensures
        r == !(0 <= x < h && 0 <= y < w),
{
    !(0 <= x && x < h && 0 <= y && y < w)
}

/// The line that action number `i` of `actions` goes to, and what the line
/// holds: the actions whose number leaves the same remainder when divided
/// by the number of cranes in use.
pub open spec fn line_of(actions: Seq<char>, k: int, upto: int) -> Seq<char>
    decreases upto,
{
    if upto <= 0 {
        Seq::empty()
    } else if (upto - 1) % (USING_CRANE as int) == k {
        line_of(actions, k, upto - 1).push(actions[upto - 1])
    } else {
        line_of(actions, k, upto - 1)
    }
}

/// Deals the actions out to the lines of output: action number `i` goes to
/// line `i` modulo the number of cranes in use; the other lines stay empty.
pub fn write_output(actions: &Vec<char>) -> (ans: Vec<Vec<char>>)
    ensures
        ans@.len() == LINES,
        forall|k: int|
            0 <= k < LINES ==> (#[trigger] ans@[k])@ == line_of(actions@, k, actions@.len() as int),
{
    let mut ans: Vec<Vec<char>> = Vec::new();
    let mut k: usize = 0;
    while k < LINES
        invariant
            k <= LINES,
            ans@.len() == k,
            forall|j: int| 0 <= j < k ==> (#[trigger] ans@[j])@ == line_of(actions@, j, 0),
        decreases LINES - k,
    {
        ans.push(Vec::new());
        k = k + 1;
    }
    let mut i: usize = 0;
    while i < actions.len()
        invariant
            i <= actions.len(),
            ans@.len() == LINES,
            forall|j: int| 0 <= j < LINES ==> (#[trigger] ans@[j])@ == line_of(actions@, j, i as int),
        decreases actions.len() - i,
    {
        let c = actions[i];
        ans[i % USING_CRANE].push(c);
        i = i + 1;
    }
    ans
}

} // verus!
