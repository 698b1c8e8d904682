use vstd::prelude::*;

verus! {

pub const UP: u16 = 0x0001;
pub const LEFT: u16 = 0x0002;
pub const RIGHT: u16 = 0x0004;
pub const DOWN: u16 = 0x0008;

pub const UP_LEFT: u16 = 0x0010;
pub const UP_RIGHT: u16 = 0x0020;
pub const DOWN_LEFT: u16 = 0x0040;
pub const DOWN_RIGHT: u16 = 0x0080;

pub const UP_DOWN: u16 = 0x0100;
pub const LEFT_RIGHT: u16 = 0x0200;
pub const UP_LEFT_RIGHT: u16 = 0x0400;
pub const UP_LEFT_DOWN: u16 = 0x0800;
pub const UP_RIGHT_DOWN: u16 = 0x1000;
pub const LEFT_RIGHT_DOWN: u16 = 0x2000;

pub const ALL_AT_ONCE: u16 = 0x4000;

pub const ANY_STRAIGHT: u16 = UP | LEFT | RIGHT | DOWN;
pub const ANY_DIAGONAL: u16 = UP_LEFT | UP_RIGHT | DOWN_LEFT | DOWN_RIGHT;

/// Cost of a move by a straight input, in halves of a step.
pub const STRAIGHT_COST: u64 = 2;
/// Cost of a move by a diagonal input: diagonals are risky to input in real time.
pub const DIAGONAL_COST: u64 = 11;
/// Cost of a move that needs several opposite inputs at once.
pub const OTHER_COST: u64 = 31;

/// The set of inputs that lead along one edge, one bit per input.
#[derive(Copy, Clone, Debug, PartialEq, Eq, Structural)]
pub struct Directions {
    pub bits: u16,
}

impl Directions {
    /// Whether one of the four straight inputs is among these.
    pub fn has_straight(&self) -> (r: bool)
        ensures
            r == (self.bits & ANY_STRAIGHT != 0),
    {
        self.bits & ANY_STRAIGHT != 0
    }

    /// Whether one of the four diagonal inputs is among these.
    pub fn has_diagonal(&self) -> (r: bool)
        ensures
            r == (self.bits & ANY_DIAGONAL != 0),
    {
        self.bits & ANY_DIAGONAL != 0
    }
}

/// The inputs of the `k`-th move from a panel, and the offset that it adds to the panel
/// index, given the panel's left, right, up and down offsets. Composed inputs add the offsets
/// of their parts.
pub open spec fn move_spec(k: int, l: int, r: int, u: int, d: int) -> (u16, int) {
    if k == 0 { (UP, u) }
    else if k == 1 { (LEFT, l) }
    else if k == 2 { (RIGHT, r) }
    else if k == 3 { (DOWN, d) }
    else if k == 4 { (UP_LEFT, u + l) }
    else if k == 5 { (UP_RIGHT, u + r) }
    else if k == 6 { (DOWN_LEFT, d + l) }
    else if k == 7 { (DOWN_RIGHT, d + r) }
    else if k == 8 { (UP_DOWN, u + d) }
    else if k == 9 { (LEFT_RIGHT, l + r) }
    else if k == 10 { (UP_LEFT_RIGHT, u + l + r) }
    else if k == 11 { (UP_LEFT_DOWN, u + l + d) }
    else if k == 12 { (UP_RIGHT_DOWN, u + r + d) }
    else if k == 13 { (LEFT_RIGHT_DOWN, l + r + d) }
    else { (ALL_AT_ONCE, u + l + r + d) }
}

/// The number of distinct moves from a panel.
pub const MOVE_COUNT: usize = 15;

/// The moves from `panel`, whose behaviour entry holds the offsets `l`, `r`, `u` and `d`: each
/// as the inputs taken and the panel reached.
pub fn move_targets(panel: i32, l: i8, r: i8, u: i8, d: i8) -> (moves: Vec<(Directions, i32)>)
    requires
        i32::MIN + 512 <= panel <= i32::MAX - 512,
    ensures
        moves@.len() == MOVE_COUNT,
        forall|k: int|
            0 <= k < MOVE_COUNT ==> (#[trigger] moves@[k]).0.bits == move_spec(k, l as int, r as int, u as int, d as int).0
                && moves@[k].1 == panel + move_spec(k, l as int, r as int, u as int, d as int).1,
{
    let (l, r, u, d) = (l as i32, r as i32, u as i32, d as i32);
    let mut moves: Vec<(Directions, i32)> = Vec::new();
    moves.push((Directions { bits: UP }, panel + u));
    moves.push((Directions { bits: LEFT }, panel + l));
    moves.push((Directions { bits: RIGHT }, panel + r));
    moves.push((Directions { bits: DOWN }, panel + d));
    moves.push((Directions { bits: UP_LEFT }, panel + u + l));
    moves.push((Directions { bits: UP_RIGHT }, panel + u + r));
    moves.push((Directions { bits: DOWN_LEFT }, panel + d + l));
    moves.push((Directions { bits: DOWN_RIGHT }, panel + d + r));
    moves.push((Directions { bits: UP_DOWN }, panel + u + d));
    moves.push((Directions { bits: LEFT_RIGHT }, panel + l + r));
    moves.push((Directions { bits: UP_LEFT_RIGHT }, panel + u + l + r));
    moves.push((Directions { bits: UP_LEFT_DOWN }, panel + u + l + d));
    moves.push((Directions { bits: UP_RIGHT_DOWN }, panel + u + r + d));
    moves.push((Directions { bits: LEFT_RIGHT_DOWN }, panel + l + r + d));
    moves.push((Directions { bits: ALL_AT_ONCE }, panel + u + l + r + d));
    moves
}

/// Panels that cannot be entered in real time.
pub open spec fn blocked_target(to: i32) -> bool {
    to == -896 || to == -945 || to == -979 || to == -1014 || to == -1018 || to == -1025
        || to == -1039 || to == -1064 || to == -1207 || to == -1313 || to == -1314 || to == -1317
        || to == -1347 || to == -1353 || to == -1373 || to == -1375 || to == -1381 || to == -1383
        || to == -1388 || to == -1397 || to == -1400 || to == -1409 || to == -1420 || to == -1424
        || to == -1664 || to == -1954 || to == -2205 || to == -2271 || to == -2275 || to == -2277
        || to == -2280 || to == -2282
}

/// The cost of an edge to `to` taken by the inputs `w`.
pub open spec fn move_cost(to: i32, w: Directions) -> u64 {
    if blocked_target(to) {
        crate::walk::INFINITE
    } else if w.bits & ANY_STRAIGHT != 0 {
        STRAIGHT_COST
    } else if w.bits & ANY_DIAGONAL != 0 {
        DIAGONAL_COST
    } else {
        OTHER_COST
    }
}

/// The cost of an edge to `to` taken by the inputs `w`: `INFINITE` into a blocked panel, else
/// by the cheapest kind of input among `w`.
pub fn edge_cost(to: i32, w: Directions) -> (r: u64)
    ensures
        r == move_cost(to, w),
{
    if to == -896 || to == -945 || to == -979 || to == -1014 || to == -1018 || to == -1025
        || to == -1039 || to == -1064 || to == -1207 || to == -1313 || to == -1314 || to == -1317
        || to == -1347 || to == -1353 || to == -1373 || to == -1375 || to == -1381 || to == -1383
        || to == -1388 || to == -1397 || to == -1400 || to == -1409 || to == -1420 || to == -1424
        || to == -1664 || to == -1954 || to == -2205 || to == -2271 || to == -2275 || to == -2277
        || to == -2280 || to == -2282 {
        return crate::walk::INFINITE;
    }
    if w.has_straight() {
        STRAIGHT_COST
    } else if w.has_diagonal() {
        DIAGONAL_COST
    } else {
        OTHER_COST
    }
}

} // verus!
