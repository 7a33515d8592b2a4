//! Grid coordinates and the four unit directions.

use vstd::prelude::*;
use vstd::string::StringExecFns;

verus! {

/// One of the four unit steps on the grid.
#[derive(PartialEq, Eq, Structural, Clone, Copy, Debug)]
pub enum Direction {
    Up,
    Down,
    Left,
    Right,
}

/// A cell coordinate. Positions are ordered row first, then column.
#[derive(PartialEq, Eq, Structural, PartialOrd, Ord, Clone, Copy, Hash, Debug)]
pub struct Position {
    pub row: isize,
    pub col: isize,
}

/// The character of a decimal digit.
pub open spec fn digit_char(digit: int) -> char {
    if digit == 0 {
        '0'
    } else if digit == 1 {
        '1'
    } else if digit == 2 {
        '2'
    } else if digit == 3 {
        '3'
    } else if digit == 4 {
        '4'
    } else if digit == 5 {
        '5'
    } else if digit == 6 {
        '6'
    } else if digit == 7 {
        '7'
    } else if digit == 8 {
        '8'
    } else {
        '9'
    }
}

/// The decimal digits of a natural number, without leading zeros.
pub open spec fn digits(number: nat) -> Seq<char>
    decreases number,
{
    if number < 10 {
        seq![digit_char(number as int)]
    } else {
        digits(number / 10).push(digit_char((number % 10) as int))
    }
}

/// The decimal text of an integer: a minus sign if it is negative, then the
/// digits of its absolute value.
pub open spec fn decimal_text(value: int) -> Seq<char> {
    if value < 0 {
        seq!['-'] + digits((-value) as nat)
    } else {
        digits(value as nat)
    }
}

/// `ToString::to_string` on an `isize`: the result is the integer's decimal
/// text, a minus sign for a negative number and then the digits.
#[verifier::external_body]
fn decimal_string(value: isize) -> (text: String)
    ensures
        text@ == decimal_text(value as int),
{
    value.to_string()
}

/// Row change of one step in `direction`.
pub open spec fn delta_row(direction: Direction) -> int {
    match direction {
        Direction::Up => -1,
        Direction::Down => 1,
        Direction::Left => 0,
        Direction::Right => 0,
    }
}

/// Column change of one step in `direction`.
pub open spec fn delta_col(direction: Direction) -> int {
    match direction {
        Direction::Up => 0,
        Direction::Down => 0,
        Direction::Left => -1,
        Direction::Right => 1,
    }
}

/// Absolute difference of two integers.
pub open spec fn gap(a: int, b: int) -> nat {
    if a >= b {
        (a - b) as nat
    } else {
        (b - a) as nat
    }
}

/// The unit delta of a direction, as a position.
pub fn direction_delta(direction: Direction) -> (delta: Position)
    ensures
        delta.row == delta_row(direction),
        delta.col == delta_col(direction),
{
    match direction {
        Direction::Up => Position::new(-1, 0),
        Direction::Down => Position::new(1, 0),
        Direction::Left => Position::new(0, -1),
        Direction::Right => Position::new(0, 1),
    }
}

/// The absolute difference of two machine integers.
fn abs_diff(a: isize, b: isize) -> (d: usize)
    ensures
        d == gap(a as int, b as int),
{
    if a >= b {
        let wide: i128 = a as i128 - b as i128;
        wide as usize
    } else {
        let wide: i128 = b as i128 - a as i128;
        wide as usize
    }
}

impl Position {
    /// Whether a step from `self` in any direction stays representable.
    pub open spec fn can_step(&self) -> bool {
        &&& isize::MIN < self.row < isize::MAX
        &&& isize::MIN < self.col < isize::MAX
    }

    /// The position one step away in `direction`.
    pub open spec fn spec_step(&self, direction: Direction) -> Position {
        Position {
            row: (self.row + delta_row(direction)) as isize,
            col: (self.col + delta_col(direction)) as isize,
        }
    }

    /// Row-major order: `self` comes no later than `other`.
    pub open spec fn spec_le(&self, other: Position) -> bool {
        self.row < other.row || (self.row == other.row && self.col <= other.col)
    }

    /// Whether the position lies in `[0, rows) x [0, cols)`.
    pub open spec fn spec_within(&self, rows: int, cols: int) -> bool {
        0 <= self.row < rows && 0 <= self.col < cols
    }

    /// The Manhattan distance between two positions.
    pub open spec fn spec_manhattan(&self, other: Position) -> nat {
        gap(self.row as int, other.row as int) + gap(self.col as int, other.col as int)
    }

    /// The direction of the unit step from `self` to `other`, if there is one.
    pub open spec fn spec_direction_to(&self, other: Position) -> Option<Direction> {
        if self.spec_step(Direction::Up) == other {
            Some(Direction::Up)
        } else if self.spec_step(Direction::Down) == other {
            Some(Direction::Down)
        } else if self.spec_step(Direction::Left) == other {
            Some(Direction::Left)
        } else if self.spec_step(Direction::Right) == other {
            Some(Direction::Right)
        } else {
            None
        }
    }

    /// The four neighbours in the order up, down, left, right.
    pub open spec fn spec_neighbours(&self) -> Seq<Position> {
        seq![
            self.spec_step(Direction::Up),
            self.spec_step(Direction::Down),
            self.spec_step(Direction::Left),
            self.spec_step(Direction::Right),
        ]
    }

    /// The position in the given row and column.
    pub fn new(row: isize, col: isize) -> (position: Position)
        ensures
            position.row == row,
            position.col == col,
    {
        Position { row, col }
    }

    /// The key under which a position is written out: row, underscore, column.
    pub fn to_key(&self) -> (key: String)
        ensures
            key@ == decimal_text(self.row as int) + seq!['_'] + decimal_text(self.col as int),
    {
        let mut key = decimal_string(self.row);
        let col = decimal_string(self.col);
        proof {
            reveal_strlit("_");
        }
        key.append("_");
        key.append(col.as_str());
        key
    }

    /// Whether the position lies in a grid of `rows` by `cols`.
    pub fn is_within_bounds(&self, rows: isize, cols: isize) -> (within: bool)
        ensures
            within == self.spec_within(rows as int, cols as int),
    {
        self.row >= 0 && self.row < rows && self.col >= 0 && self.col < cols
    }

    /// The position one step away in `direction`.
    pub fn step_in_direction(&self, direction: Direction) -> (next: Position)
        requires
            isize::MIN <= self.row + delta_row(direction) <= isize::MAX,
            isize::MIN <= self.col + delta_col(direction) <= isize::MAX,
        ensures
            next == self.spec_step(direction),
            next.row == self.row + delta_row(direction),
            next.col == self.col + delta_col(direction),
    {
        self.plus(direction_delta(direction))
    }

    /// The sum of two positions, coordinate by coordinate.
    pub fn plus(self, other: Position) -> (sum: Position)
        requires
            isize::MIN <= self.row + other.row <= isize::MAX,
            isize::MIN <= self.col + other.col <= isize::MAX,
        ensures
            sum.row == self.row + other.row,
            sum.col == self.col + other.col,
    {
        Position::new(self.row + other.row, self.col + other.col)
    }

    /// The position with both coordinates negated.
    pub fn negated(self) -> (negative: Position)
        requires
            self.row > isize::MIN,
            self.col > isize::MIN,
        ensures
            negative.row == -self.row,
            negative.col == -self.col,
    {
        Position::new(-self.row, -self.col)
    }

    /// The difference of two positions, coordinate by coordinate.
    pub fn minus(self, other: Position) -> (difference: Position)
        requires
            other.row > isize::MIN,
            other.col > isize::MIN,
            isize::MIN <= self.row - other.row <= isize::MAX,
            isize::MIN <= self.col - other.col <= isize::MAX,
        ensures
            difference.row == self.row - other.row,
            difference.col == self.col - other.col,
    {
        self.plus(other.negated())
    }

    /// The number of steps between the two positions along rows and columns.
    pub fn manhattan_distance(&self, position: Position) -> (distance: usize)
        requires
            self.spec_manhattan(position) <= usize::MAX,
        ensures
            distance == self.spec_manhattan(position),
    {
        abs_diff(self.row, position.row) + abs_diff(self.col, position.col)
    }

    /// The direction of the unit step that leads to `position`; none if it is
    /// not one step away.
    pub fn direction_to_position(&self, position: Position) -> (direction: Option<Direction>)
        requires
            self.can_step(),
        ensures
            direction == self.spec_direction_to(position),
    {
        if self.step_in_direction(Direction::Up) == position {
            Some(Direction::Up)
        } else if self.step_in_direction(Direction::Down) == position {
            Some(Direction::Down)
        } else if self.step_in_direction(Direction::Left) == position {
            Some(Direction::Left)
        } else if self.step_in_direction(Direction::Right) == position {
            Some(Direction::Right)
        } else {
            None
        }
    }

    /// The four positions one step away, in the order up, down, left, right.
    pub fn neighbours(&self) -> (around: Vec<Position>)
        requires
            self.can_step(),
        ensures
            around@ == self.spec_neighbours(),
    {
        let mut around: Vec<Position> = Vec::new();
        around.push(self.step_in_direction(Direction::Up));
        around.push(self.step_in_direction(Direction::Down));
        around.push(self.step_in_direction(Direction::Left));
        around.push(self.step_in_direction(Direction::Right));
        assert(around@ =~= self.spec_neighbours());
        around
    }

    /// Whether `self` comes no later than `other` in row-major order.
    pub fn precedes(&self, other: Position) -> (first: bool)
        ensures
            first == self.spec_le(other),
    {
        self.row < other.row || (self.row == other.row && self.col <= other.col)
    }
}

} // verus!
