//! A guard who walks a room in straight lines and turns right at every
//! obstruction: where she walks before she leaves the room, and where one
//! more obstruction would make her walk in a circle.

use crate::tally::{
    ind, lemma_partial_le_total, lemma_sum_rows_eq, lemma_sum_rows_split, sum_row, sum_rows,
    without,
};
use crate::text::{lines, lines_of, texts};
use vstd::prelude::*;

verus! {

/// The four directions in which the guard can walk.
#[derive(PartialEq, Eq, Clone, Copy, Debug)]
pub enum Direction {
    Up,
    Right,
    Down,
    Left,
}

/// The directions in which the guard has walked onto a place.
#[derive(Clone, Copy, Debug)]
pub struct Seen {
    pub up: bool,
    pub right: bool,
    pub down: bool,
    pub left: bool,
}

/// A place of the room: free and never entered, obstructed, or entered in
/// the directions that it records.
#[derive(Clone, Copy, Debug)]
pub enum Space {
    Empty,
    Obstruction,
    Visited(Seen),
}

/// The guard: where she stands, as row and column, and which way she
/// faces.
#[derive(Clone, Copy, Debug)]
pub struct Guard {
    pub location: (usize, usize),
    pub direction: Direction,
}

/// How a step of the guard ended: on another place of the room, on a place
/// that she has entered in the same direction before, or outside the room.
#[derive(PartialEq, Eq, Clone, Copy, Debug)]
pub enum Status {
    Continue,
    Looped,
    Exited,
}

/// The room as rows of places.
pub open spec fn room(matrix: Seq<Vec<Space>>) -> Seq<Seq<Space>> {
    Seq::new(matrix.len(), |i: int| matrix[i]@)
}

/// The room has a place, and every row is as long as the first.
pub open spec fn wf(m: Seq<Seq<Space>>) -> bool {
    &&& m.len() > 0
    &&& m[0].len() > 0
    &&& forall|r: int| 0 <= r < m.len() ==> (#[trigger] m[r]).len() == m[0].len()
}

/// `p`, as (row, column), is a place of the room.
pub open spec fn in_room(m: Seq<Seq<Space>>, p: (int, int)) -> bool {
    0 <= p.0 < m.len() && 0 <= p.1 < m[0].len()
}

/// The place one step from `p` in direction `d`.
pub open spec fn ahead(p: (int, int), d: Direction) -> (int, int) {
    match d {
        Direction::Up => (p.0 - 1, p.1),
        Direction::Right => (p.0, p.1 + 1),
        Direction::Down => (p.0 + 1, p.1),
        Direction::Left => (p.0, p.1 - 1),
    }
}

/// The direction to the right of `d`.
pub open spec fn turn(d: Direction) -> Direction {
    match d {
        Direction::Up => Direction::Right,
        Direction::Right => Direction::Down,
        Direction::Down => Direction::Left,
        Direction::Left => Direction::Up,
    }
}

/// The place ahead of `p` in direction `d` is obstructed.
pub open spec fn blocked(m: Seq<Seq<Space>>, p: (int, int), d: Direction) -> bool {
    in_room(m, ahead(p, d)) && m[ahead(p, d).0][ahead(p, d).1] is Obstruction
}

/// The direction that the guard faces after turning right as long as the
/// place ahead is obstructed, at most `tries` times.
pub open spec fn facing(m: Seq<Seq<Space>>, p: (int, int), d: Direction, tries: nat) -> Direction
    decreases tries,
{
    if tries == 0 || !blocked(m, p, d) {
        d
    } else {
        facing(m, p, turn(d), (tries - 1) as nat)
    }
}

/// The guard at `p` facing `d` is not shut in: after at most three turns
/// the place ahead is not obstructed.
pub open spec fn free(m: Seq<Seq<Space>>, p: (int, int), d: Direction) -> bool {
    !blocked(m, p, facing(m, p, d, 3))
}

/// `s` records direction `d`.
pub open spec fn seen_in(s: Seen, d: Direction) -> bool {
    match d {
        Direction::Up => s.up,
        Direction::Right => s.right,
        Direction::Down => s.down,
        Direction::Left => s.left,
    }
}

/// `s` with direction `d` recorded too.
pub open spec fn marked(s: Seen, d: Direction) -> Seen {
    match d {
        Direction::Up => Seen { up: true, ..s },
        Direction::Right => Seen { right: true, ..s },
        Direction::Down => Seen { down: true, ..s },
        Direction::Left => Seen { left: true, ..s },
    }
}

/// No direction recorded.
pub open spec fn unseen() -> Seen {
    Seen { up: false, right: false, down: false, left: false }
}

/// The room `m` with the place `p` set to `space`.
pub open spec fn with_space(m: Seq<Seq<Space>>, p: (int, int), space: Space) -> Seq<Seq<Space>> {
    m.update(p.0, m[p.0].update(p.1, space))
}

/// One step of the guard who stands at `p` and faces `d`: she turns right
/// as long as the place ahead is obstructed and then walks one place. The
/// step gives how it ended, the room, where she stands and how she faces.
pub open spec fn step(m: Seq<Seq<Space>>, p: (int, int), d: Direction) -> (
    Status,
    Seq<Seq<Space>>,
    (int, int),
    Direction,
) {
    let to = facing(m, p, d, 3);
    let next = ahead(p, to);
    if !in_room(m, next) {
        (Status::Exited, m, p, to)
    } else {
        match m[next.0][next.1] {
            Space::Visited(seen) => if seen_in(seen, to) {
                (Status::Looped, m, next, to)
            } else {
                (Status::Continue, with_space(m, next, Space::Visited(marked(seen, to))), next, to)
            },
            _ => (
                Status::Continue,
                with_space(m, next, Space::Visited(marked(unseen(), to))),
                next,
                to,
            ),
        }
    }
}

/// In how many directions the guard has not yet walked onto a place.
pub open spec fn fresh(space: Space) -> nat {
    match space {
        Space::Visited(s) => ind(!s.up) + ind(!s.right) + ind(!s.down) + ind(!s.left),
        _ => 4,
    }
}

/// For each place, in how many directions the guard has not yet walked onto
/// it.
pub open spec fn fresh_weight(m: Seq<Seq<Space>>) -> spec_fn(int, int) -> nat {
    |r: int, c: int| fresh(m[r][c])
}

/// The ways of walking onto a place that the guard has not yet used.
pub open spec fn unused(m: Seq<Seq<Space>>) -> nat {
    sum_rows(fresh_weight(m), m[0].len() as int, m.len() as int)
}

/// A step that ends on another place uses up one way of walking onto a
/// place, and leaves the room in shape.
pub proof fn lemma_step_uses(m: Seq<Seq<Space>>, p: (int, int), d: Direction)
    requires
        wf(m),
        step(m, p, d).0 is Continue,
    ensures
        unused(step(m, p, d).1) < unused(m),
        wf(step(m, p, d).1),
        step(m, p, d).1.len() == m.len(),
        step(m, p, d).1[0].len() == m[0].len(),
        in_room(m, step(m, p, d).2),
        step(m, p, d).1[step(m, p, d).2.0][step(m, p, d).2.1] is Visited,
{
    let to = facing(m, p, d, 3);
    let next = ahead(p, to);
    let m2 = step(m, p, d).1;
    let f = fresh_weight(m);
    let f2 = fresh_weight(m2);
    let w = m[0].len() as int;
    let h = m.len() as int;
    assert(m2[0].len() == m[0].len()) by {
        if next.0 == 0 {
        }
    }
    assert forall|r: int| 0 <= r < m2.len() implies (#[trigger] m2[r]).len() == m2[0].len() by {
        assert(m[r].len() == m[0].len());
    }
    lemma_sum_rows_split(f, w, h, next);
    lemma_sum_rows_split(f2, w, h, next);
    assert forall|r: int, c: int| 0 <= r < h && 0 <= c < w implies #[trigger] without(f, next)(r, c)
        == without(f2, next)(r, c) by {
        if (r, c) != next {
            assert(m[r].len() == w);
            if r == next.0 {
                assert(m2[r][c] == m[r][c]);
            } else {
                assert(m2[r] == m[r]);
            }
        }
    }
    lemma_sum_rows_eq(without(f, next), without(f2, next), w, h);
}

/// The walk of the guard from `p` facing `d`, step after step until a step
/// ends outside the room or on a place entered in the same direction
/// before. It gives how the last step ended, the room, where the guard
/// stands and how she faces.
pub open spec fn patrol(m: Seq<Seq<Space>>, p: (int, int), d: Direction) -> (
    Status,
    Seq<Seq<Space>>,
    (int, int),
    Direction,
)
    decreases unused(m),
    when wf(m)
{
    let after = step(m, p, d);
    if after.0 is Continue {
        proof {
            lemma_step_uses(m, p, d);
        }
        patrol(after.1, after.2, after.3)
    } else {
        after
    }
}

/// The place where the guard stands is not obstructed.
pub open spec fn standing(m: Seq<Seq<Space>>, p: (int, int)) -> bool {
    in_room(m, p) && !(m[p.0][p.1] is Obstruction)
}

/// After a step onto another place the guard is not shut in: the place
/// that she left lies behind her.
pub proof fn lemma_step_free(m: Seq<Seq<Space>>, p: (int, int), d: Direction)
    requires
        wf(m),
        standing(m, p),
        step(m, p, d).0 is Continue,
    ensures
        standing(step(m, p, d).1, step(m, p, d).2),
        free(step(m, p, d).1, step(m, p, d).2, step(m, p, d).3),
{
    let to = facing(m, p, d, 3);
    let next = ahead(p, to);
    let m2 = step(m, p, d).1;
    lemma_step_uses(m, p, d);
    let back = turn(turn(to));
    assert(ahead(next, back) == p);
    assert(m[p.0].len() == m[0].len());
    assert(m2[p.0][p.1] == m[p.0][p.1]);
    assert(!blocked(m2, next, back));
    reveal_with_fuel(facing, 4);
}

impl Seen {
    /// Whether direction `d` is recorded.
    pub fn contains(&self, d: Direction) -> (b: bool)
        ensures
            b == seen_in(*self, d),
    {
        match d {
            Direction::Up => self.up,
            Direction::Right => self.right,
            Direction::Down => self.down,
            Direction::Left => self.left,
        }
    }

    /// Records direction `d`.
    pub fn insert(&mut self, d: Direction)
        ensures
            *final(self) == marked(*old(self), d),
    {
        match d {
            Direction::Up => self.up = true,
            Direction::Right => self.right = true,
            Direction::Down => self.down = true,
            Direction::Left => self.left = true,
        }
    }

    /// The record of the one direction `d`.
    pub fn from(d: Direction) -> (seen: Seen)
        ensures
            seen == marked(unseen(), d),
    {
        let mut seen = Seen { up: false, right: false, down: false, left: false };
        seen.insert(d);
        seen
    }
}

impl Guard {
    /// Where the guard stands.
    pub open spec fn place(self) -> (int, int) {
        (self.location.0 as int, self.location.1 as int)
    }

    /// Lets the guard take one step: she turns right as long as the place
    /// ahead is obstructed, then walks onto the place ahead, which records
    /// her direction, unless it lies outside the room or has recorded this
    /// direction before.
    pub fn action(&mut self, matrix: &mut Vec<Vec<Space>>) -> (status: Status)
        requires
            wf(room(old(matrix)@)),
            in_room(room(old(matrix)@), old(self).place()),
            free(room(old(matrix)@), old(self).place(), old(self).direction),
        ensures
            (status, room(final(matrix)@), final(self).place(), final(self).direction) == step(
                room(old(matrix)@),
                old(self).place(),
                old(self).direction,
            ),
    {
        let ghost m = room(matrix@);
        let ghost p = self.place();
        let ghost d = self.direction;
        let m_len = matrix.len();
        proof {
            assert(m[0] == matrix[0]@);
        }
        let m_wid = matrix[0].len();
        let mut turns: usize = 0;
        loop
            invariant
                matrix@ == old(matrix)@,
                p == old(self).place(),
                d == old(self).direction,
                m == room(matrix@),
                wf(m),
                m_len == m.len(),
                m_wid == m[0].len(),
                in_room(m, p),
                free(m, p, d),
                self.place() == p,
                turns <= 3,
                facing(m, p, d, 3) == facing(m, p, self.direction, (3 - turns) as nat),
            decreases 3 - turns,
        {
            let (mut next_y, mut next_x) = self.location;
            match self.direction {
                Direction::Up => {
                    if next_y == 0 {
                        return Status::Exited;
                    }
                    next_y -= 1
                },
                Direction::Right => {
                    if next_x >= m_wid - 1 {
                        return Status::Exited;
                    }
                    next_x += 1
                },
                Direction::Down => {
                    if next_y >= m_len - 1 {
                        return Status::Exited;
                    }
                    next_y += 1
                },
                Direction::Left => {
                    if next_x == 0 {
                        return Status::Exited;
                    }
                    next_x -= 1
                },
            }
            proof {
                assert(m[next_y as int] == matrix[next_y as int]@);
                assert(m[next_y as int].len() == m_wid);
                assert((next_y as int, next_x as int) == ahead(p, self.direction));
            }
            if let Space::Obstruction = matrix[next_y][next_x] {
                proof {
                    if turns == 3 {
                        assert(false);
                    }
                }
                match self.direction {
                    Direction::Up => self.direction = Direction::Right,
                    Direction::Right => self.direction = Direction::Down,
                    Direction::Down => self.direction = Direction::Left,
                    Direction::Left => self.direction = Direction::Up,
                }
                turns += 1;
            } else {
                self.location = (next_y, next_x);
                let ghost next = (next_y as int, next_x as int);
                if let Space::Visited(set) = matrix[next_y][next_x] {
                    if set.contains(self.direction) {
                        return Status::Looped;
                    }
                    let mut set = set;
                    set.insert(self.direction);
                    matrix[next_y][next_x] = Space::Visited(set);
                } else {
                    matrix[next_y][next_x] = Space::Visited(Seen::from(self.direction));
                };
                proof {
                    assert(room(matrix@) =~= step(m, p, d).1) by {
                        let m2 = step(m, p, d).1;
                        assert(room(matrix@).len() == m2.len());
                        assert forall|r: int| 0 <= r < m2.len() implies #[trigger] room(matrix@)[r]
                            =~= m2[r] by {
                            assert(m[r] == old(matrix)@[r]@);
                        }
                    }
                }
                return Status::Continue;
            }
        }
    }
}

/// The place that the character `c` of a map stands for: free, obstructed,
/// or the guard's, entered upwards.
pub open spec fn space_of(c: char) -> Space {
    if c == '#' {
        Space::Obstruction
    } else if c == '^' {
        Space::Visited(marked(unseen(), Direction::Up))
    } else {
        Space::Empty
    }
}

/// The room that the lines `ls` of a map draw.
pub open spec fn room_of(ls: Seq<Seq<char>>) -> Seq<Seq<Space>> {
    Seq::new(ls.len(), |r: int| Seq::new(ls[r].len(), |c: int| space_of(ls[r][c])))
}

/// Every character of the map is a dot, a hash or a caret.
pub open spec fn is_map(ls: Seq<Seq<char>>) -> bool {
    forall|r: int, c: int|
        0 <= r < ls.len() && 0 <= c < ls[r].len() ==> {
            let symbol = #[trigger] ls[r][c];
            symbol == '.' || symbol == '#' || symbol == '^'
        }
}

/// The first place of `row` from column `from` on that the guard has
/// entered, or -1.
pub open spec fn first_entered(row: Seq<Space>, from: int) -> int
    decreases row.len() - from,
{
    if from < 0 || from >= row.len() {
        -1
    } else if row[from] is Visited {
        from
    } else {
        first_entered(row, from + 1)
    }
}

/// The first place of the room, in reading order from row `from` on, that
/// the guard has entered; row 0, column 0 if there is none.
pub open spec fn start_from(m: Seq<Seq<Space>>, from: int) -> (int, int)
    decreases m.len() - from,
{
    if from < 0 || from >= m.len() {
        (0, 0)
    } else if first_entered(m[from], 0) >= 0 {
        (from, first_entered(m[from], 0))
    } else {
        start_from(m, from + 1)
    }
}

/// The room that `input` draws, one line for each row, and the guard,
/// facing up on the first place marked with a caret.
pub fn parse(input: &str) -> (parsed: (Vec<Vec<Space>>, Guard))
    requires
        is_map(lines(input@)),
    ensures
        room(parsed.0@) == room_of(lines(input@)),
        parsed.1.direction == Direction::Up,
        parsed.1.place() == start_from(room_of(lines(input@)), 0),
{
    let rows = lines_of(input);
    let ghost ls = lines(input@);
    proof {
        assert(texts(rows@).len() == rows.len());
        assert forall|r: int| 0 <= r < ls.len() implies (#[trigger] rows[r])@ == ls[r] by {
            assert(texts(rows@)[r] == rows[r]@);
        }
    }
    let mut matrix: Vec<Vec<Space>> = Vec::new();
    let mut y: usize = 0;
    while y < rows.len()
        invariant
            rows.len() == ls.len(),
            forall|r: int| 0 <= r < ls.len() ==> (#[trigger] rows[r])@ == ls[r],
            y <= rows.len(),
            matrix.len() == y,
            forall|r: int| 0 <= r < y ==> (#[trigger] matrix[r])@ == room_of(ls)[r],
        decreases rows.len() - y,
    {
        let line = &rows[y];
        let mut row: Vec<Space> = Vec::new();
        let mut x: usize = 0;
        while x < line.len()
            invariant
                y < ls.len(),
                line@ == ls[y as int],
                x <= line.len(),
                row.len() == x,
                forall|c: int| 0 <= c < x ==> #[trigger] row[c] == space_of(ls[y as int][c]),
            decreases line.len() - x,
        {
            let c = line[x];
            let space = if c == '#' {
                Space::Obstruction
            } else if c == '^' {
                Space::Visited(Seen::from(Direction::Up))
            } else {
                Space::Empty
            };
            row.push(space);
            x += 1;
        }
        proof {
            assert(row@ =~= room_of(ls)[y as int]);
        }
        matrix.push(row);
        y += 1;
    }
    proof {
        assert(room(matrix@) =~= room_of(ls));
    }
    let ghost m = room_of(ls);
    let mut guard = Guard { location: (0, 0), direction: Direction::Up };
    let mut found = false;
    let mut y: usize = 0;
    while !found && y < matrix.len()
        invariant
            m == room(matrix@),
            y <= matrix.len(),
            guard.direction == Direction::Up,
            !found ==> guard.location == (0usize, 0usize) && start_from(m, 0) == start_from(
                m,
                y as int,
            ),
            found ==> guard.place() == start_from(m, 0),
        decreases matrix.len() - y + (if found { 0int } else { 1int }),
    {
        let row = &matrix[y];
        proof {
            assert(m[y as int] == matrix[y as int]@);
        }
        let mut x: usize = 0;
        while !found && x < row.len()
            invariant
                m == room(matrix@),
                y < matrix.len(),
                row@ == m[y as int],
                x <= row.len(),
                guard.direction == Direction::Up,
                !found ==> guard.location == (0usize, 0usize) && start_from(m, 0) == start_from(
                    m,
                    y as int,
                ) && first_entered(row@, 0) == first_entered(row@, x as int),
                found ==> guard.place() == start_from(m, 0),
            decreases row.len() - x + (if found { 0int } else { 1int }),
        {
            if let Space::Visited(_) = row[x] {
                guard.location = (y, x);
                found = true;
            } else {
                x += 1;
            }
        }
        if !found {
            y += 1;
        }
    }
    (matrix, guard)
}

/// Lets the guard walk until a step ends outside the room or on a place
/// entered in the same direction before, and gives how that step ended.
pub fn walk(guard: &mut Guard, matrix: &mut Vec<Vec<Space>>) -> (status: Status)
    requires
        wf(room(old(matrix)@)),
        standing(room(old(matrix)@), old(guard).place()),
        free(room(old(matrix)@), old(guard).place(), old(guard).direction),
    ensures
        (status, room(final(matrix)@), final(guard).place(), final(guard).direction) == patrol(
            room(old(matrix)@),
            old(guard).place(),
            old(guard).direction,
        ),
        !(status is Continue),
        wf(room(final(matrix)@)),
        room(final(matrix)@).len() == room(old(matrix)@).len(),
        room(final(matrix)@)[0].len() == room(old(matrix)@)[0].len(),
{
    let ghost goal = patrol(room(matrix@), guard.place(), guard.direction);
    loop
        invariant
            wf(room(matrix@)),
            standing(room(matrix@), guard.place()),
            free(room(matrix@), guard.place(), guard.direction),
            goal == patrol(room(matrix@), guard.place(), guard.direction),
            goal == patrol(room(old(matrix)@), old(guard).place(), old(guard).direction),
            room(matrix@).len() == room(old(matrix)@).len(),
            room(matrix@)[0].len() == room(old(matrix)@)[0].len(),
        decreases unused(room(matrix@)),
    {
        let ghost m = room(matrix@);
        let ghost p = guard.place();
        let ghost d = guard.direction;
        let status = guard.action(matrix);
        match status {
            Status::Continue => {
                proof {
                    lemma_step_uses(m, p, d);
                    lemma_step_free(m, p, d);
                }
            },
            _ => {
                return status;
            },
        }
    }
}

/// 1 on the places that the guard has entered.
pub open spec fn entered_weight(m: Seq<Seq<Space>>) -> spec_fn(int, int) -> nat {
    |r: int, c: int| ind(m[r][c] is Visited)
}

/// The number of places that the guard has entered.
pub open spec fn entered(m: Seq<Seq<Space>>) -> nat {
    sum_rows(entered_weight(m), m[0].len() as int, m.len() as int)
}

/// The number of places that the guard has entered when she leaves the
/// room that `input` draws, or begins to walk in a circle.
pub fn part1(input: &str) -> (count: i32)
    requires
        is_map(lines(input@)),
        wf(room_of(lines(input@))),
        standing(room_of(lines(input@)), start_from(room_of(lines(input@)), 0)),
        free(room_of(lines(input@)), start_from(room_of(lines(input@)), 0), Direction::Up),
        entered(
            patrol(room_of(lines(input@)), start_from(room_of(lines(input@)), 0), Direction::Up).1,
        ) <= i32::MAX,
    ensures
        count == entered(
            patrol(room_of(lines(input@)), start_from(room_of(lines(input@)), 0), Direction::Up).1,
        ),
{
    let (mut matrix, mut guard) = parse(input);
    let _ = walk(&mut guard, &mut matrix);
    let ghost m = room(matrix@);
    let ghost f = entered_weight(m);
    let mut count: i32 = 0;
    let mut y: usize = 0;
    while y < matrix.len()
        invariant
            m == room(matrix@),
            wf(m),
            f == entered_weight(m),
            entered(m) <= i32::MAX,
            y <= matrix.len(),
            count == sum_rows(f, m[0].len() as int, y as int),
        decreases matrix.len() - y,
    {
        let row = &matrix[y];
        proof {
            assert(m[y as int] == matrix[y as int]@);
        }
        let mut x: usize = 0;
        while x < row.len()
            invariant
                m == room(matrix@),
                wf(m),
                f == entered_weight(m),
                entered(m) <= i32::MAX,
                y < matrix.len(),
                row@ == m[y as int],
                x <= row.len(),
                count == sum_rows(f, m[0].len() as int, y as int) + sum_row(f, y as int, x as int),
            decreases row.len() - x,
        {
            proof {
                lemma_partial_le_total(f, m[0].len() as int, m.len() as int, y as int, x + 1);
            }
            if let Space::Visited(_) = row[x] {
                count += 1;
            }
            x += 1;
        }
        y += 1;
    }
    count
}

/// A copy of the room with the place at row `y`, column `x` obstructed.
pub fn obstructed(matrix: &Vec<Vec<Space>>, y: usize, x: usize) -> (copy: Vec<Vec<Space>>)
    requires
        y < matrix.len(),
        x < matrix[y as int].len(),
    ensures
        room(copy@) == with_space(room(matrix@), (y as int, x as int), Space::Obstruction),
{
    let mut copy: Vec<Vec<Space>> = Vec::new();
    let mut r: usize = 0;
    while r < matrix.len()
        invariant
            y < matrix.len(),
            x < matrix[y as int].len(),
            r <= matrix.len(),
            copy.len() == r,
            forall|k: int|
                0 <= k < r ==> (#[trigger] copy[k])@ == (if k == y {
                    matrix[k]@.update(x as int, Space::Obstruction)
                } else {
                    matrix[k]@
                }),
        decreases matrix.len() - r,
    {
        let row = &matrix[r];
        let mut line: Vec<Space> = Vec::new();
        let mut c: usize = 0;
        while c < row.len()
            invariant
                c <= row.len(),
                line.len() == c,
                forall|k: int|
                    0 <= k < c ==> #[trigger] line[k] == (if r == y && k == x {
                        Space::Obstruction
                    } else {
                        row[k]
                    }),
            decreases row.len() - c,
        {
            if r == y && c == x {
                line.push(Space::Obstruction);
            } else {
                line.push(row[c]);
            }
            c += 1;
        }
        proof {
            if r == y {
                assert(line@ =~= matrix[r as int]@.update(x as int, Space::Obstruction));
            } else {
                assert(line@ =~= matrix[r as int]@);
            }
        }
        copy.push(line);
        r += 1;
    }
    proof {
        assert(room(copy@) =~= with_space(
            room(matrix@),
            (y as int, x as int),
            Space::Obstruction,
        ));
    }
    copy
}

/// An obstruction on the free place at row `r`, column `c` makes the guard
/// walk in a circle.
pub open spec fn traps(m: Seq<Seq<Space>>, start: (int, int), r: int, c: int) -> bool {
    m[r][c] is Empty && patrol(with_space(m, (r, c), Space::Obstruction), start, Direction::Up).0
        is Looped
}

/// 1 on the free places where an obstruction makes the guard walk in a
/// circle.
pub open spec fn trap_weight(m: Seq<Seq<Space>>, start: (int, int)) -> spec_fn(int, int) -> nat {
    |r: int, c: int| ind(traps(m, start, r, c))
}

/// With an obstruction on any free place, the guard still stands on an
/// unobstructed place and is not shut in.
pub open spec fn can_try(m: Seq<Seq<Space>>, start: (int, int)) -> bool {
    forall|r: int, c: int|
        0 <= r < m.len() && 0 <= c < m[0].len() && (#[trigger] m[r][c]) is Empty ==> standing(
            with_space(m, (r, c), Space::Obstruction),
            start,
        ) && free(with_space(m, (r, c), Space::Obstruction), start, Direction::Up)
}

/// The number of free places of the room that `input` draws where one
/// more obstruction makes the guard walk in a circle.
pub fn part2(input: &str) -> (num_loops: i32)
    requires
        is_map(lines(input@)),
        wf(room_of(lines(input@))),
        can_try(room_of(lines(input@)), start_from(room_of(lines(input@)), 0)),
        sum_rows(
            trap_weight(room_of(lines(input@)), start_from(room_of(lines(input@)), 0)),
            room_of(lines(input@))[0].len() as int,
            room_of(lines(input@)).len() as int,
        ) <= i32::MAX,
    ensures
        num_loops == sum_rows(
            trap_weight(room_of(lines(input@)), start_from(room_of(lines(input@)), 0)),
            room_of(lines(input@))[0].len() as int,
            room_of(lines(input@)).len() as int,
        ),
{
    let mut num_loops: i32 = 0;
    let (matrix, guard) = parse(input);
    let ghost m = room(matrix@);
    let ghost start = guard.place();
    let ghost f = trap_weight(m, start);
    let ghost w = m[0].len() as int;
    let ghost h = m.len() as int;
    let mut y: usize = 0;
    while y < matrix.len()
        invariant
            m == room(matrix@),
            wf(m),
            can_try(m, start),
            start == guard.place(),
            guard.direction == Direction::Up,
            f == trap_weight(m, start),
            w == m[0].len(),
            h == m.len(),
            sum_rows(f, w, h) <= i32::MAX,
            y <= matrix.len(),
            num_loops == sum_rows(f, w, y as int),
        decreases matrix.len() - y,
    {
        let row = &matrix[y];
        proof {
            assert(m[y as int] == matrix[y as int]@);
        }
        let mut x: usize = 0;
        while x < row.len()
            invariant
                m == room(matrix@),
                wf(m),
                can_try(m, start),
                start == guard.place(),
                guard.direction == Direction::Up,
                f == trap_weight(m, start),
                w == m[0].len(),
                h == m.len(),
                sum_rows(f, w, h) <= i32::MAX,
                y < matrix.len(),
                row@ == m[y as int],
                x <= row.len(),
                num_loops == sum_rows(f, w, y as int) + sum_row(f, y as int, x as int),
            decreases row.len() - x,
        {
            proof {
                lemma_partial_le_total(f, w, h, y as int, x + 1);
                assert(f(y as int, x as int) == ind(traps(m, start, y as int, x as int)));
            }
            if let Space::Empty = row[x] {
                let mut new_matrix = obstructed(&matrix, y, x);
                let mut new_guard = guard;
                proof {
                    let tried = with_space(m, (y as int, x as int), Space::Obstruction);
                    assert(m[y as int][x as int] is Empty);
                    assert(tried[0].len() == m[0].len());
                    assert forall|r: int| 0 <= r < tried.len() implies (#[trigger] tried[r]).len()
                        == tried[0].len() by {
                        assert(m[r].len() == m[0].len());
                    }
                }
                match walk(&mut new_guard, &mut new_matrix) {
                    Status::Looped => {
                        num_loops += 1;
                    },
                    _ => {},
                }
            }
            x += 1;
        }
        y += 1;
    }
    num_loops
}

} // verus!
