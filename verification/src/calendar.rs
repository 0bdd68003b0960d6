//! The calendar layout: maps a month index and a day number to the two date
//! cells of the 7 by 7 board, and builds the wall list that shapes it (six
//! border cells plus the two date cells).

use vstd::prelude::*;

use crate::board::{wall_state, Board, State};
use crate::point::Point;

verus! {

/// The cell reserved for a month (0-based index): six months in each of the
/// first two rows.
pub open spec fn month_point(m: int) -> Point {
    if m < 6 {
        Point { x: 0, y: m as i32 }
    } else {
        Point { x: 1, y: (m - 6) as i32 }
    }
}

/// The cell reserved for a day (1 to 31): seven days in each row from row 2
/// down.
pub open spec fn day_point(d: int) -> Point {
    Point { x: ((d - 1) / 7 + 2) as i32, y: ((d - 1) % 7) as i32 }
}

/// What each cell of the fresh calendar board holds: a wall on the two date
/// cells and on the six cells outside the calendar layout, empty elsewhere.
pub open spec fn calendar_cell(m: int, d: int, x: int, y: int) -> State {
    if x == month_point(m).x && y == month_point(m).y {
        State::Wall('M')
    } else if x == day_point(d).x && y == day_point(d).y {
        State::Wall('D')
    } else if (x == 0 && y == 6) || (x == 1 && y == 6) || (x == 6 && 3 <= y <= 6) {
        State::Wall('#')
    } else {
        State::Empty
    }
}

/// The cell that marks the given month.
pub fn month_cell(month_index: usize) -> (p: Point)
    requires
        month_index < 12,
    ensures
        p == month_point(month_index as int),
{
    if month_index < 6 {
        Point { x: 0, y: month_index as i32 }
    } else {
        Point { x: 1, y: (month_index - 6) as i32 }
    }
}

/// The cell that marks the given day.
pub fn day_cell(day: u32) -> (p: Point)
    requires
        1 <= day <= 31,
    ensures
        p == day_point(day as int),
{
    Point { x: ((day - 1) / 7 + 2) as i32, y: ((day - 1) % 7) as i32 }
}

/// The wall list of the calendar board: six border cells labelled `#`, the
/// month cell labelled `M` and the day cell labelled `D`.
pub fn calendar_walls(month_index: usize, day: u32) -> (walls: Vec<(char, Point)>)
    requires
        month_index < 12,
        1 <= day <= 31,
    ensures
        walls@.len() == 8,
        forall|k: int| 0 <= k < walls@.len() ==> 0 <= (#[trigger] walls@[k]).1.x < 7 && 0
            <= walls@[k].1.y < 7,
        walls@[0] == ('#', Point { x: 0, y: 6 }),
        walls@[1] == ('#', Point { x: 1, y: 6 }),
        walls@[2] == ('#', Point { x: 6, y: 3 }),
        walls@[3] == ('#', Point { x: 6, y: 4 }),
        walls@[4] == ('#', Point { x: 6, y: 5 }),
        walls@[5] == ('#', Point { x: 6, y: 6 }),
        walls@[6] == ('M', month_point(month_index as int)),
        walls@[7] == ('D', day_point(day as int)),
{
    let mut walls: Vec<(char, Point)> = Vec::new();
    walls.push(('#', Point { x: 0, y: 6 }));
    walls.push(('#', Point { x: 1, y: 6 }));
    walls.push(('#', Point { x: 6, y: 3 }));
    walls.push(('#', Point { x: 6, y: 4 }));
    walls.push(('#', Point { x: 6, y: 5 }));
    walls.push(('#', Point { x: 6, y: 6 }));
    walls.push(('M', month_cell(month_index)));
    walls.push(('D', day_cell(day)));
    walls
}

/// A fresh calendar board for the given month and day: 7 by 7, the two date
/// cells and the six border cells walled, every other cell empty.
pub fn calendar_board(month_index: usize, day: u32) -> (b: Board)
    requires
        month_index < 12,
        1 <= day <= 31,
    ensures
        b.wf(),
        b.h() == 7,
        b.w() == 7,
        forall|x: int, y: int| b.in_bounds(x, y) ==> b.cell(x, y) == calendar_cell(
            month_index as int,
            day as int,
            x,
            y,
        ),
{
    let walls = calendar_walls(month_index, day);
    let b = Board::new_with_walls(7, 7, walls.as_slice());
    proof {
        let m = month_index as int;
        let d = day as int;
        assert forall|x: int, y: int| b.in_bounds(x, y) implies b.cell(x, y) == calendar_cell(
            m,
            d,
            x,
            y,
        ) by {
            reveal_with_fuel(wall_state, 10);
            assert(b.cell(x, y) == wall_state(walls@, x, y));
            assert(walls@.drop_last() =~= walls@.take(7));
            assert(walls@.take(7).drop_last() =~= walls@.take(6));
            assert(walls@.take(6).drop_last() =~= walls@.take(5));
            assert(walls@.take(5).drop_last() =~= walls@.take(4));
            assert(walls@.take(4).drop_last() =~= walls@.take(3));
            assert(walls@.take(3).drop_last() =~= walls@.take(2));
            assert(walls@.take(2).drop_last() =~= walls@.take(1));
            assert(walls@.take(1).drop_last() =~= walls@.take(0));
        }
    }
    b
}

} // verus!
