//! A word search: counting a word along the eight directions of a letter
//! grid, and counting crossed pairs of a word.

use crate::tally::{ind, lemma_partial_le_total, sum_row, sum_rows};
use crate::text::{byte_lines_of, byte_texts, utf8_lines};
use vstd::prelude::*;

verus! {

/// A grid of letters with its height and the width of its first row.
pub struct Matrix {
    pub data: Vec<Vec<u8>>,
    pub y_len: usize,
    pub x_len: usize,
}

/// The letters that a walk over `m` meets: from row `y`, column `x`, in
/// steps of (`dy`, `dx`), until it leaves the grid.
pub open spec fn ray(m: Seq<Seq<u8>>, y: int, x: int, dy: int, dx: int) -> Seq<u8>
    decreases room(m, y, x, dy, dx),
{
    if 0 <= y < m.len() && 0 <= x < m[y].len() && -1 <= dy <= 1 && -1 <= dx <= 1 && (dy != 0 || dx
        != 0) {
        seq![m[y][x]] + ray(m, y + dy, x + dx, dy, dx)
    } else {
        Seq::empty()
    }
}

/// How many more cells a walk can meet at most.
pub open spec fn room(m: Seq<Seq<u8>>, y: int, x: int, dy: int, dx: int) -> int {
    if !(0 <= y < m.len() && 0 <= x < m[y].len()) {
        0
    } else if dy > 0 {
        m.len() - y
    } else if dy < 0 {
        y + 1
    } else if dx > 0 {
        m[y].len() - x
    } else {
        x + 1
    }
}

/// A walk over a grid of letters, one letter at a time.
pub trait Walk {
    /// The walk may be asked for its next letter.
    spec fn ready(&self) -> bool;

    /// The letters that the walk has yet to give.
    spec fn letters(&self) -> Seq<u8>;

    /// The next letter of the walk, if it has not left the grid.
    fn next(&mut self) -> (item: Option<u8>)
        requires
            old(self).ready(),
        ensures
            final(self).ready(),
            match item {
                Some(letter) => old(self).letters().len() > 0 && letter == old(self).letters()[0]
                    && final(self).letters() == old(self).letters().drop_first(),
                None => old(self).letters().len() == 0 && final(self).letters().len() == 0,
            },
    ;
}

impl Matrix {
    /// The rows of the grid.
    pub open spec fn rows(&self) -> Seq<Seq<u8>> {
        Seq::new(self.data.len() as nat, |i: int| self.data[i]@)
    }

    /// The grid is rectangular and its recorded sizes are right.
    pub open spec fn wf(&self) -> bool {
        &&& self.y_len == self.data.len()
        &&& forall|r: int| 0 <= r < self.data.len() ==> (#[trigger] self.data[r]).len() == self.x_len
    }

    /// The grid of the rows `data`, of which there is at least one.
    pub fn new(data: Vec<Vec<u8>>) -> (matrix: Matrix)
        requires
            data.len() > 0,
        ensures
            matrix.data == data,
            matrix.y_len == data.len(),
            matrix.x_len == data[0].len(),
    {
        let y_len = data.len();
        let x_len = data[0].len();
        Matrix { data, y_len, x_len }
    }

    /// A walk to the right that starts at row `y`, column `x`.
    pub fn right_iter(&self, y: usize, x: usize) -> (walk: MatrixRight<'_>)
        ensures
            walk.data == self,
            walk.y == y,
            walk.x == x,
    {
        MatrixRight { data: self, y, x }
    }

    /// A walk to the left that starts at row `y`, column `x`.
    pub fn left_iter(&self, y: usize, x: usize) -> (walk: MatrixLeft<'_>)
        ensures
            walk.data == self,
            walk.y == y,
            walk.x == x,
            !walk.flag,
    {
        MatrixLeft { data: self, y, x, flag: false }
    }

    /// A walk upwards that starts at row `y`, column `x`.
    pub fn up_iter(&self, y: usize, x: usize) -> (walk: MatrixUp<'_>)
        ensures
            walk.data == self,
            walk.y == y,
            walk.x == x,
            !walk.flag,
    {
        MatrixUp { data: self, y, x, flag: false }
    }

    /// A walk downwards that starts at row `y`, column `x`.
    pub fn down_iter(&self, y: usize, x: usize) -> (walk: MatrixDown<'_>)
        ensures
            walk.data == self,
            walk.y == y,
            walk.x == x,
    {
        MatrixDown { data: self, y, x }
    }

    /// A walk up and to the right that starts at row `y`, column `x`.
    pub fn up_right_iter(&self, y: usize, x: usize) -> (walk: MatrixUpRight<'_>)
        ensures
            walk.data == self,
            walk.y == y,
            walk.x == x,
            !walk.flag,
    {
        MatrixUpRight { data: self, y, x, flag: false }
    }

    /// A walk up and to the left that starts at row `y`, column `x`.
    pub fn up_left_iter(&self, y: usize, x: usize) -> (walk: MatrixUpLeft<'_>)
        ensures
            walk.data == self,
            walk.y == y,
            walk.x == x,
            !walk.flag,
    {
        MatrixUpLeft { data: self, y, x, flag: false }
    }

    /// A walk down and to the right that starts at row `y`, column `x`.
    pub fn down_right_iter(&self, y: usize, x: usize) -> (walk: MatrixDownRight<'_>)
        ensures
            walk.data == self,
            walk.y == y,
            walk.x == x,
    {
        MatrixDownRight { data: self, y, x }
    }

    /// A walk down and to the left that starts at row `y`, column `x`.
    pub fn down_left_iter(&self, y: usize, x: usize) -> (walk: MatrixDownLeft<'_>)
        ensures
            walk.data == self,
            walk.y == y,
            walk.x == x,
            !walk.flag,
    {
        MatrixDownLeft { data: self, y, x, flag: false }
    }
}

/// A walk to the right over a grid.
pub struct MatrixRight<'a> {
    pub data: &'a Matrix,
    pub y: usize,
    pub x: usize,
}

impl<'a> MatrixRight<'a> {
    /// Where the walk stands; a coordinate of -1 is off the grid.
    pub open spec fn spot(&self) -> (int, int) {
        (self.y as int, self.x as int)
    }

    /// The walk has not left the grid.
    pub open spec fn is_safe(&self) -> bool {
        self.x < self.data.x_len
    }

    /// Whether the walk has not left the grid.
    pub fn safe(&self) -> (b: bool)
        ensures
            b == self.is_safe(),
    {
        self.x < self.data.x_len
    }

    /// The row and column where the walk stands, if it has not left the grid.
    pub fn get_state(&self) -> (state: Option<(usize, usize)>)
        ensures
            state == (if self.is_safe() {
                Some((self.y, self.x))
            } else {
                None
            }),
    {
        if self.safe() {
            Some((self.y, self.x))
        } else {
            None
        }
    }
}

impl<'a> Walk for MatrixRight<'a> {
    open spec fn ready(&self) -> bool {
        self.data.wf() && self.y < self.data.y_len
    }

    open spec fn letters(&self) -> Seq<u8> {
        ray(self.data.rows(), self.spot().0, self.spot().1, 0, 1)
    }

    fn next(&mut self) -> (item: Option<u8>)
        ensures
            final(self).data == old(self).data,
            final(self).y == old(self).y,
            final(self).x == (if old(self).x == usize::MAX {
                usize::MAX
            } else {
                (old(self).x + 1) as usize
            }),
    {
        let ghost m = self.data.rows();
        let ghost at = self.spot();
        proof {
            if self.is_safe() {
                assert(m[at.0] == self.data.data[at.0]@);
                assert(ray(m, at.0, at.1, 0, 1) == seq![m[at.0][at.1]] + ray(
                    m,
                    at.0 + 0,
                    at.1 + 1,
                    0,
                    1,
                ));
                assert((seq![m[at.0][at.1]] + ray(m, at.0 + 0, at.1 + 1, 0, 1)).drop_first()
                    =~= ray(m, at.0 + 0, at.1 + 1, 0, 1));
            }
        }
        let ret = if self.safe() {
            Some(self.data.data[self.y][self.x])
        } else {
            None
        };
        self.x = self.x.saturating_add(1);
        ret
    }
}

/// A walk to the left over a grid. `flag` is set once the walk has gone past row or column 0.
pub struct MatrixLeft<'a> {
    pub data: &'a Matrix,
    pub y: usize,
    pub x: usize,
    pub flag: bool,
}

impl<'a> MatrixLeft<'a> {
    /// Where the walk stands; a coordinate of -1 is off the grid.
    pub open spec fn spot(&self) -> (int, int) {
        (self.y as int, if self.flag { -1 } else { self.x as int })
    }

    /// The walk has not left the grid.
    pub open spec fn is_safe(&self) -> bool {
        !self.flag
    }

    /// Whether the walk has not left the grid.
    pub fn safe(&self) -> (b: bool)
        ensures
            b == self.is_safe(),
    {
        !self.flag
    }

    /// The row and column where the walk stands, if it has not left the grid.
    pub fn get_state(&self) -> (state: Option<(usize, usize)>)
        ensures
            state == (if self.is_safe() {
                Some((self.y, self.x))
            } else {
                None
            }),
    {
        if self.safe() {
            Some((self.y, self.x))
        } else {
            None
        }
    }
}

impl<'a> Walk for MatrixLeft<'a> {
    open spec fn ready(&self) -> bool {
        self.data.wf() && (self.flag || (self.y < self.data.y_len && self.x < self.data.x_len))
    }

    open spec fn letters(&self) -> Seq<u8> {
        ray(self.data.rows(), self.spot().0, self.spot().1, 0, -1)
    }

    fn next(&mut self) -> (item: Option<u8>)
        ensures
            final(self).data == old(self).data,
            final(self).y == old(self).y,
            old(self).x == 0 ==> final(self).flag && final(self).x == 0,
            old(self).x > 0 ==> final(self).flag == old(self).flag && final(self).x == old(self).x - 1,
    {
        let ghost m = self.data.rows();
        let ghost at = self.spot();
        proof {
            if self.is_safe() {
                assert(m[at.0] == self.data.data[at.0]@);
                assert(ray(m, at.0, at.1, 0, -1) == seq![m[at.0][at.1]] + ray(
                    m,
                    at.0 + 0,
                    at.1 + -1,
                    0,
                    -1,
                ));
                assert((seq![m[at.0][at.1]] + ray(m, at.0 + 0, at.1 + -1, 0, -1)).drop_first()
                    =~= ray(m, at.0 + 0, at.1 + -1, 0, -1));
            }
        }
        let ret = if self.safe() {
            Some(self.data.data[self.y][self.x])
        } else {
            None
        };
        if self.x == 0 {
            self.flag = true;
        } else {
            self.x -= 1;
        }
        ret
    }
}

/// A walk upwards over a grid. `flag` is set once the walk has gone past row or column 0.
pub struct MatrixUp<'a> {
    pub data: &'a Matrix,
    pub y: usize,
    pub x: usize,
    pub flag: bool,
}

impl<'a> MatrixUp<'a> {
    /// Where the walk stands; a coordinate of -1 is off the grid.
    pub open spec fn spot(&self) -> (int, int) {
        (if self.flag { -1 } else { self.y as int }, self.x as int)
    }

    /// The walk has not left the grid.
    pub open spec fn is_safe(&self) -> bool {
        !self.flag
    }

    /// Whether the walk has not left the grid.
    pub fn safe(&self) -> (b: bool)
        ensures
            b == self.is_safe(),
    {
        !self.flag
    }

    /// The row and column where the walk stands, if it has not left the grid.
    pub fn get_state(&self) -> (state: Option<(usize, usize)>)
        ensures
            state == (if self.is_safe() {
                Some((self.y, self.x))
            } else {
                None
            }),
    {
        if self.safe() {
            Some((self.y, self.x))
        } else {
            None
        }
    }
}

impl<'a> Walk for MatrixUp<'a> {
    open spec fn ready(&self) -> bool {
        self.data.wf() && (self.flag || (self.y < self.data.y_len && self.x < self.data.x_len))
    }

    open spec fn letters(&self) -> Seq<u8> {
        ray(self.data.rows(), self.spot().0, self.spot().1, -1, 0)
    }

    fn next(&mut self) -> (item: Option<u8>)
        ensures
            final(self).data == old(self).data,
            final(self).x == old(self).x,
            old(self).y == 0 ==> final(self).flag && final(self).y == 0,
            old(self).y > 0 ==> final(self).flag == old(self).flag && final(self).y == old(self).y - 1,
    {
        let ghost m = self.data.rows();
        let ghost at = self.spot();
        proof {
            if self.is_safe() {
                assert(m[at.0] == self.data.data[at.0]@);
                assert(ray(m, at.0, at.1, -1, 0) == seq![m[at.0][at.1]] + ray(
                    m,
                    at.0 + -1,
                    at.1 + 0,
                    -1,
                    0,
                ));
                assert((seq![m[at.0][at.1]] + ray(m, at.0 + -1, at.1 + 0, -1, 0)).drop_first()
                    =~= ray(m, at.0 + -1, at.1 + 0, -1, 0));
            }
        }
        let ret = if self.safe() {
            Some(self.data.data[self.y][self.x])
        } else {
            None
        };
        if self.y == 0 {
            self.flag = true;
        } else {
            self.y -= 1;
        }
        ret
    }
}

/// A walk downwards over a grid.
pub struct MatrixDown<'a> {
    pub data: &'a Matrix,
    pub y: usize,
    pub x: usize,
}

impl<'a> MatrixDown<'a> {
    /// Where the walk stands; a coordinate of -1 is off the grid.
    pub open spec fn spot(&self) -> (int, int) {
        (self.y as int, self.x as int)
    }

    /// The walk has not left the grid.
    pub open spec fn is_safe(&self) -> bool {
        self.y < self.data.y_len
    }

    /// Whether the walk has not left the grid.
    pub fn safe(&self) -> (b: bool)
        ensures
            b == self.is_safe(),
    {
        self.y < self.data.y_len
    }

    /// The row and column where the walk stands, if it has not left the grid.
    pub fn get_state(&self) -> (state: Option<(usize, usize)>)
        ensures
            state == (if self.is_safe() {
                Some((self.y, self.x))
            } else {
                None
            }),
    {
        if self.safe() {
            Some((self.y, self.x))
        } else {
            None
        }
    }
}

impl<'a> Walk for MatrixDown<'a> {
    open spec fn ready(&self) -> bool {
        self.data.wf() && self.x < self.data.x_len
    }

    open spec fn letters(&self) -> Seq<u8> {
        ray(self.data.rows(), self.spot().0, self.spot().1, 1, 0)
    }

    fn next(&mut self) -> (item: Option<u8>)
        ensures
            final(self).data == old(self).data,
            final(self).x == old(self).x,
            final(self).y == (if old(self).y == usize::MAX {
                usize::MAX
            } else {
                (old(self).y + 1) as usize
            }),
    {
        let ghost m = self.data.rows();
        let ghost at = self.spot();
        proof {
            if self.is_safe() {
                assert(m[at.0] == self.data.data[at.0]@);
                assert(ray(m, at.0, at.1, 1, 0) == seq![m[at.0][at.1]] + ray(
                    m,
                    at.0 + 1,
                    at.1 + 0,
                    1,
                    0,
                ));
                assert((seq![m[at.0][at.1]] + ray(m, at.0 + 1, at.1 + 0, 1, 0)).drop_first()
                    =~= ray(m, at.0 + 1, at.1 + 0, 1, 0));
            }
        }
        let ret = if self.safe() {
            Some(self.data.data[self.y][self.x])
        } else {
            None
        };
        self.y = self.y.saturating_add(1);
        ret
    }
}

/// A walk up and to the right over a grid. `flag` is set once the walk has gone past row or column 0.
pub struct MatrixUpRight<'a> {
    pub data: &'a Matrix,
    pub y: usize,
    pub x: usize,
    pub flag: bool,
}

impl<'a> MatrixUpRight<'a> {
    /// Where the walk stands; a coordinate of -1 is off the grid.
    pub open spec fn spot(&self) -> (int, int) {
        (if self.flag { -1 } else { self.y as int }, self.x as int)
    }

    /// The walk has not left the grid.
    pub open spec fn is_safe(&self) -> bool {
        !self.flag && self.x < self.data.x_len
    }

    /// Whether the walk has not left the grid.
    pub fn safe(&self) -> (b: bool)
        ensures
            b == self.is_safe(),
    {
        !self.flag && self.x < self.data.x_len
    }

    /// The row and column where the walk stands, if it has not left the grid.
    pub fn get_state(&self) -> (state: Option<(usize, usize)>)
        ensures
            state == (if self.is_safe() {
                Some((self.y, self.x))
            } else {
                None
            }),
    {
        if self.safe() {
            Some((self.y, self.x))
        } else {
            None
        }
    }
}

impl<'a> Walk for MatrixUpRight<'a> {
    open spec fn ready(&self) -> bool {
        self.data.wf() && (self.flag || self.y < self.data.y_len)
    }

    open spec fn letters(&self) -> Seq<u8> {
        ray(self.data.rows(), self.spot().0, self.spot().1, -1, 1)
    }

    fn next(&mut self) -> (item: Option<u8>)
        ensures
            final(self).data == old(self).data,
            old(self).y == 0 ==> final(self).flag && final(self).y == 0,
            old(self).y > 0 ==> final(self).flag == old(self).flag && final(self).y == old(self).y - 1,
            final(self).x == (if old(self).x == usize::MAX {
                usize::MAX
            } else {
                (old(self).x + 1) as usize
            }),
    {
        let ghost m = self.data.rows();
        let ghost at = self.spot();
        proof {
            if self.is_safe() {
                assert(m[at.0] == self.data.data[at.0]@);
                assert(ray(m, at.0, at.1, -1, 1) == seq![m[at.0][at.1]] + ray(
                    m,
                    at.0 + -1,
                    at.1 + 1,
                    -1,
                    1,
                ));
                assert((seq![m[at.0][at.1]] + ray(m, at.0 + -1, at.1 + 1, -1, 1)).drop_first()
                    =~= ray(m, at.0 + -1, at.1 + 1, -1, 1));
            }
        }
        let ret = if self.safe() {
            Some(self.data.data[self.y][self.x])
        } else {
            None
        };
        if self.y == 0 {
            self.flag = true;
        } else {
            self.y -= 1;
        }
        self.x = self.x.saturating_add(1);
        ret
    }
}

/// A walk up and to the left over a grid. `flag` is set once the walk has gone past row or column 0.
pub struct MatrixUpLeft<'a> {
    pub data: &'a Matrix,
    pub y: usize,
    pub x: usize,
    pub flag: bool,
}

impl<'a> MatrixUpLeft<'a> {
    /// Where the walk stands; a coordinate of -1 is off the grid.
    pub open spec fn spot(&self) -> (int, int) {
        if self.flag { (-1, -1) } else { (self.y as int, self.x as int) }
    }

    /// The walk has not left the grid.
    pub open spec fn is_safe(&self) -> bool {
        !self.flag
    }

    /// Whether the walk has not left the grid.
    pub fn safe(&self) -> (b: bool)
        ensures
            b == self.is_safe(),
    {
        !self.flag
    }

    /// The row and column where the walk stands, if it has not left the grid.
    pub fn get_state(&self) -> (state: Option<(usize, usize)>)
        ensures
            state == (if self.is_safe() {
                Some((self.y, self.x))
            } else {
                None
            }),
    {
        if self.safe() {
            Some((self.y, self.x))
        } else {
            None
        }
    }
}

impl<'a> Walk for MatrixUpLeft<'a> {
    open spec fn ready(&self) -> bool {
        self.data.wf() && (self.flag || (self.y < self.data.y_len && self.x < self.data.x_len))
    }

    open spec fn letters(&self) -> Seq<u8> {
        ray(self.data.rows(), self.spot().0, self.spot().1, -1, -1)
    }

    fn next(&mut self) -> (item: Option<u8>)
        ensures
            final(self).data == old(self).data,
            old(self).y == 0 || old(self).x == 0 ==> final(self).flag && final(self).y == old(self).y && final(self).x == old(self).x,
            old(self).y > 0 && old(self).x > 0 ==> final(self).flag == old(self).flag && final(self).y == old(self).y - 1 && final(self).x == old(self).x - 1,
    {
        let ghost m = self.data.rows();
        let ghost at = self.spot();
        proof {
            if self.is_safe() {
                assert(m[at.0] == self.data.data[at.0]@);
                assert(ray(m, at.0, at.1, -1, -1) == seq![m[at.0][at.1]] + ray(
                    m,
                    at.0 + -1,
                    at.1 + -1,
                    -1,
                    -1,
                ));
                assert((seq![m[at.0][at.1]] + ray(m, at.0 + -1, at.1 + -1, -1, -1)).drop_first()
                    =~= ray(m, at.0 + -1, at.1 + -1, -1, -1));
            }
        }
        let ret = if self.safe() {
            Some(self.data.data[self.y][self.x])
        } else {
            None
        };
        if self.y == 0 || self.x == 0 {
            self.flag = true;
        } else {
            self.y -= 1;
            self.x -= 1;
        }
        ret
    }
}

/// A walk down and to the right over a grid.
pub struct MatrixDownRight<'a> {
    pub data: &'a Matrix,
    pub y: usize,
    pub x: usize,
}

impl<'a> MatrixDownRight<'a> {
    /// Where the walk stands; a coordinate of -1 is off the grid.
    pub open spec fn spot(&self) -> (int, int) {
        (self.y as int, self.x as int)
    }

    /// The walk has not left the grid.
    pub open spec fn is_safe(&self) -> bool {
        self.y < self.data.y_len && self.x < self.data.x_len
    }

    /// Whether the walk has not left the grid.
    pub fn safe(&self) -> (b: bool)
        ensures
            b == self.is_safe(),
    {
        self.y < self.data.y_len && self.x < self.data.x_len
    }

    /// The row and column where the walk stands, if it has not left the grid.
    pub fn get_state(&self) -> (state: Option<(usize, usize)>)
        ensures
            state == (if self.is_safe() {
                Some((self.y, self.x))
            } else {
                None
            }),
    {
        if self.safe() {
            Some((self.y, self.x))
        } else {
            None
        }
    }
}

impl<'a> Walk for MatrixDownRight<'a> {
    open spec fn ready(&self) -> bool {
        self.data.wf()
    }

    open spec fn letters(&self) -> Seq<u8> {
        ray(self.data.rows(), self.spot().0, self.spot().1, 1, 1)
    }

    fn next(&mut self) -> (item: Option<u8>)
        ensures
            final(self).data == old(self).data,
            final(self).y == (if old(self).y == usize::MAX {
                usize::MAX
            } else {
                (old(self).y + 1) as usize
            }),
            final(self).x == (if old(self).x == usize::MAX {
                usize::MAX
            } else {
                (old(self).x + 1) as usize
            }),
    {
        let ghost m = self.data.rows();
        let ghost at = self.spot();
        proof {
            if self.is_safe() {
                assert(m[at.0] == self.data.data[at.0]@);
                assert(ray(m, at.0, at.1, 1, 1) == seq![m[at.0][at.1]] + ray(
                    m,
                    at.0 + 1,
                    at.1 + 1,
                    1,
                    1,
                ));
                assert((seq![m[at.0][at.1]] + ray(m, at.0 + 1, at.1 + 1, 1, 1)).drop_first()
                    =~= ray(m, at.0 + 1, at.1 + 1, 1, 1));
            }
        }
        let ret = if self.safe() {
            Some(self.data.data[self.y][self.x])
        } else {
            None
        };
        self.y = self.y.saturating_add(1);
        self.x = self.x.saturating_add(1);
        ret
    }
}

/// A walk down and to the left over a grid. `flag` is set once the walk has gone past row or column 0.
pub struct MatrixDownLeft<'a> {
    pub data: &'a Matrix,
    pub y: usize,
    pub x: usize,
    pub flag: bool,
}

impl<'a> MatrixDownLeft<'a> {
    /// Where the walk stands; a coordinate of -1 is off the grid.
    pub open spec fn spot(&self) -> (int, int) {
        (self.y as int, if self.flag { -1 } else { self.x as int })
    }

    /// The walk has not left the grid.
    pub open spec fn is_safe(&self) -> bool {
        !self.flag && self.y < self.data.y_len
    }

    /// Whether the walk has not left the grid.
    pub fn safe(&self) -> (b: bool)
        ensures
            b == self.is_safe(),
    {
        !self.flag && self.y < self.data.y_len
    }

    /// The row and column where the walk stands, if it has not left the grid.
    pub fn get_state(&self) -> (state: Option<(usize, usize)>)
        ensures
            state == (if self.is_safe() {
                Some((self.y, self.x))
            } else {
                None
            }),
    {
        if self.safe() {
            Some((self.y, self.x))
        } else {
            None
        }
    }
}

impl<'a> Walk for MatrixDownLeft<'a> {
    open spec fn ready(&self) -> bool {
        self.data.wf() && (self.flag || self.x < self.data.x_len)
    }

    open spec fn letters(&self) -> Seq<u8> {
        ray(self.data.rows(), self.spot().0, self.spot().1, 1, -1)
    }

    fn next(&mut self) -> (item: Option<u8>)
        ensures
            final(self).data == old(self).data,
            old(self).x == 0 ==> final(self).flag && final(self).x == 0,
            old(self).x > 0 ==> final(self).flag == old(self).flag && final(self).x == old(self).x - 1,
            final(self).y == (if old(self).y == usize::MAX {
                usize::MAX
            } else {
                (old(self).y + 1) as usize
            }),
    {
        let ghost m = self.data.rows();
        let ghost at = self.spot();
        proof {
            if self.is_safe() {
                assert(m[at.0] == self.data.data[at.0]@);
                assert(ray(m, at.0, at.1, 1, -1) == seq![m[at.0][at.1]] + ray(
                    m,
                    at.0 + 1,
                    at.1 + -1,
                    1,
                    -1,
                ));
                assert((seq![m[at.0][at.1]] + ray(m, at.0 + 1, at.1 + -1, 1, -1)).drop_first()
                    =~= ray(m, at.0 + 1, at.1 + -1, 1, -1));
            }
        }
        let ret = if self.safe() {
            Some(self.data.data[self.y][self.x])
        } else {
            None
        };
        if self.x == 0 {
            self.flag = true;
        } else {
            self.x -= 1;
        }
        self.y = self.y.saturating_add(1);
        ret
    }
}

/// Whether the walk `matrix` begins with the letters of `needle`.
pub fn search<W: Walk>(matrix: W, needle: &[u8]) -> (found: bool)
    requires
        matrix.ready(),
    ensures
        found == needle@.is_prefix_of(matrix.letters()),
{
    let ghost all = matrix.letters();
    let mut walk = matrix;
    let mut matches: usize = 0;
    proof {
        assert(all.skip(0) =~= all);
    }
    while matches < needle.len()
        invariant
            walk.ready(),
            all == matrix.letters(),
            matches <= needle.len(),
            matches <= all.len(),
            walk.letters() == all.skip(matches as int),
            all.take(matches as int) == needle@.take(matches as int),
        decreases needle.len() - matches,
    {
        match walk.next() {
            Some(hay) => {
                if hay == needle[matches] {
                    proof {
                        assert(all.skip(matches as int).drop_first() =~= all.skip(matches + 1));
                        assert(all.take(matches + 1) =~= all.take(matches as int).push(hay));
                        assert(needle@.take(matches + 1) =~= needle@.take(matches as int).push(
                            hay,
                        ));
                    }
                    matches += 1;
                } else {
                    proof {
                        assert(all.skip(matches as int)[0] == all[matches as int]);
                        if needle@.is_prefix_of(all) {
                            assert(all.subrange(0, needle@.len() as int)[matches as int]
                                == all[matches as int]);
                        }
                    }
                    return false;
                }
            },
            None => {
                proof {
                    assert(all.skip(matches as int).len() == all.len() - matches);
                }
                return false;
            },
        }
    }
    proof {
        assert(needle@.take(matches as int) =~= needle@);
        assert(all.take(matches as int) =~= all.subrange(0, needle@.len() as int));
    }
    true
}

/// The letter A.
pub const LETTER_A: u8 = 65;

/// The letter M.
pub const LETTER_M: u8 = 77;

/// The letter S.
pub const LETTER_S: u8 = 83;

/// The letter X.
pub const LETTER_X: u8 = 88;

/// The word XMAS.
pub open spec fn xmas() -> Seq<u8> {
    seq![LETTER_X, LETTER_M, LETTER_A, LETTER_S]
}

/// The word MAS.
pub open spec fn mas() -> Seq<u8> {
    seq![LETTER_M, LETTER_A, LETTER_S]
}

/// In how many of the eight directions `needle` can be read from row `y`,
/// column `x`.
pub open spec fn hits_at(m: Seq<Seq<u8>>, needle: Seq<u8>, y: int, x: int) -> nat {
    ind(needle.is_prefix_of(ray(m, y, x, 0, 1))) + ind(needle.is_prefix_of(ray(m, y, x, 0, -1)))
        + ind(needle.is_prefix_of(ray(m, y, x, -1, 0))) + ind(
        needle.is_prefix_of(ray(m, y, x, 1, 0)),
    ) + ind(needle.is_prefix_of(ray(m, y, x, -1, 1))) + ind(
        needle.is_prefix_of(ray(m, y, x, -1, -1)),
    ) + ind(needle.is_prefix_of(ray(m, y, x, 1, 1))) + ind(
        needle.is_prefix_of(ray(m, y, x, 1, -1)),
    )
}

/// For each cell, in how many directions XMAS can be read from it.
pub open spec fn xmas_weight(m: Seq<Seq<u8>>) -> spec_fn(int, int) -> nat {
    |r: int, c: int| hits_at(m, xmas(), r, c)
}

/// The letter at row `y`, column `x` is `letter`.
pub open spec fn holds(m: Seq<Seq<u8>>, y: int, x: int, letter: u8) -> bool {
    0 <= y < m.len() && 0 <= x < m[y].len() && m[y][x] == letter
}

/// An M and an S face each other across the cell at row `y`, column `x`,
/// the M in direction (`dy`, `dx`).
pub open spec fn flanked(m: Seq<Seq<u8>>, y: int, x: int, dy: int, dx: int) -> bool {
    holds(m, y + dy, x + dx, LETTER_M) && holds(m, y - dy, x - dx, LETTER_S)
}

/// The cell at row `y`, column `x` holds the A of two words MAS that cross
/// on its diagonals.
pub open spec fn cross_at(m: Seq<Seq<u8>>, y: int, x: int) -> bool {
    &&& holds(m, y, x, LETTER_A)
    &&& (flanked(m, y, x, -1, -1) || flanked(m, y, x, 1, 1))
    &&& (flanked(m, y, x, -1, 1) || flanked(m, y, x, 1, -1))
}

/// 1 on the cells where two words MAS cross.
pub open spec fn cross_weight(m: Seq<Seq<u8>>) -> spec_fn(int, int) -> nat {
    |r: int, c: int| ind(cross_at(m, r, c))
}

/// Every row of `m` is as long as the first.
pub open spec fn rectangular(m: Seq<Seq<u8>>) -> bool {
    forall|r: int| 0 <= r < m.len() ==> (#[trigger] m[r]).len() == m[0].len()
}

/// A walk that starts off the grid, or on a letter other than the first of
/// `needle`, does not begin with `needle`.
proof fn lemma_wrong_start(m: Seq<Seq<u8>>, needle: Seq<u8>, y: int, x: int, dy: int, dx: int)
    requires
        needle.len() > 0,
        !holds(m, y, x, needle[0]),
    ensures
        !needle.is_prefix_of(ray(m, y, x, dy, dx)),
{
    let r = ray(m, y, x, dy, dx);
    if needle.is_prefix_of(r) {
        assert(r.subrange(0, needle.len() as int)[0] == needle[0]);
    }
}

/// A walk begins with MAS exactly when its first three cells lie on the grid
/// and hold M, A and S.
proof fn lemma_mas_ray(m: Seq<Seq<u8>>, y: int, x: int, dy: int, dx: int)
    requires
        -1 <= dy <= 1,
        -1 <= dx <= 1,
        dy != 0 || dx != 0,
    ensures
        mas().is_prefix_of(ray(m, y, x, dy, dx)) <==> holds(m, y, x, 77) && holds(
            m,
            y + dy,
            x + dx,
            65,
        ) && holds(m, y + 2 * dy, x + 2 * dx, 83),
{
    reveal_with_fuel(ray, 4);
    let r = ray(m, y, x, dy, dx);
    let r1 = ray(m, y + dy, x + dx, dy, dx);
    let r2 = ray(m, y + 2 * dy, x + 2 * dx, dy, dx);
    let r3 = ray(m, y + 3 * dy, x + 3 * dx, dy, dx);
    assert(y + dy + dy == y + 2 * dy && x + dx + dx == x + 2 * dx);
    assert(y + 2 * dy + dy == y + 3 * dy && x + 2 * dx + dx == x + 3 * dx);
    if mas().is_prefix_of(r) {
        let p = r.subrange(0, 3);
        assert(p[0] == 77 && p[1] == 65 && p[2] == 83);
        assert(r.len() >= 3);
        assert(r == seq![m[y][x]] + r1);
        assert(r1.len() >= 2);
        assert(r1 == seq![m[y + dy][x + dx]] + r2);
        assert(r2.len() >= 1);
        assert(r2 == seq![m[y + 2 * dy][x + 2 * dx]] + r3);
        assert(r[0] == m[y][x]);
        assert(r[1] == r1[0]);
        assert(r[2] == r2[0]);
    }
    if holds(m, y, x, 77) && holds(m, y + dy, x + dx, 65) && holds(m, y + 2 * dy, x + 2 * dx, 83) {
        assert(r == seq![m[y][x]] + r1);
        assert(r1 == seq![m[y + dy][x + dx]] + r2);
        assert(r2 == seq![m[y + 2 * dy][x + 2 * dx]] + r3);
        assert(r.subrange(0, 3) =~= mas());
    }
}

/// In how many of the eight directions `needle` can be read from row `y`,
/// column `x` of `matrix`.
pub fn count_from(matrix: &Matrix, y: usize, x: usize, needle: &[u8]) -> (count: i32)
    requires
        matrix.wf(),
        y < matrix.y_len,
        x < matrix.x_len,
    ensures
        count == hits_at(matrix.rows(), needle@, y as int, x as int),
{
    let mut count: i32 = 0;
    if search(matrix.right_iter(y, x), needle) {
        count += 1;
    }
    if search(matrix.left_iter(y, x), needle) {
        count += 1;
    }
    if search(matrix.up_iter(y, x), needle) {
        count += 1;
    }
    if search(matrix.down_iter(y, x), needle) {
        count += 1;
    }
    if search(matrix.up_right_iter(y, x), needle) {
        count += 1;
    }
    if search(matrix.up_left_iter(y, x), needle) {
        count += 1;
    }
    if search(matrix.down_right_iter(y, x), needle) {
        count += 1;
    }
    if search(matrix.down_left_iter(y, x), needle) {
        count += 1;
    }
    count
}

/// Whether an M and an S face each other across row `y`, column `x` of
/// `matrix` on the diagonal from the top left to the bottom right.
pub fn back_slash(matrix: &Matrix, y: usize, x: usize, needle: &[u8]) -> (found: bool)
    requires
        matrix.wf(),
        y < matrix.y_len,
        x < matrix.x_len,
        needle@ == mas(),
        matrix.data[y as int][x as int] == LETTER_A,
    ensures
        found == (flanked(matrix.rows(), y as int, x as int, -1, -1) || flanked(
            matrix.rows(),
            y as int,
            x as int,
            1,
            1,
        )),
{
    let ghost m = matrix.rows();
    let ghost (r, c) = (y as int, x as int);
    proof {
        assert(m[r] == matrix.data[r]@);
        lemma_mas_ray(m, r - 1, c - 1, 1, 1);
        lemma_mas_ray(m, r + 1, c + 1, -1, -1);
    }
    let mut back_slash = false;
    let mut top_left = matrix.up_left_iter(y, x);
    let _ = top_left.next();
    if let Some((new_y, new_x)) = top_left.get_state() {
        if search(matrix.down_right_iter(new_y, new_x), needle) {
            back_slash = true;
        } else {
            let mut bottom_right = matrix.down_right_iter(y, x);
            let _ = bottom_right.next();
            if let Some((new_y, new_x)) = bottom_right.get_state() {
                if search(matrix.up_left_iter(new_y, new_x), needle) {
                    back_slash = true;
                }
            }
        }
    }
    back_slash
}

/// Whether an M and an S face each other across row `y`, column `x` of
/// `matrix` on the diagonal from the top right to the bottom left.
pub fn forward_slash(matrix: &Matrix, y: usize, x: usize, needle: &[u8]) -> (found: bool)
    requires
        matrix.wf(),
        y < matrix.y_len,
        x < matrix.x_len,
        needle@ == mas(),
        matrix.data[y as int][x as int] == LETTER_A,
    ensures
        found == (flanked(matrix.rows(), y as int, x as int, -1, 1) || flanked(
            matrix.rows(),
            y as int,
            x as int,
            1,
            -1,
        )),
{
    let ghost m = matrix.rows();
    let ghost (r, c) = (y as int, x as int);
    proof {
        assert(m[r] == matrix.data[r]@);
        lemma_mas_ray(m, r - 1, c + 1, 1, -1);
        lemma_mas_ray(m, r + 1, c - 1, -1, 1);
    }
    let mut forward_slash = false;
    let mut top_right = matrix.up_right_iter(y, x);
    let _ = top_right.next();
    if let Some((new_y, new_x)) = top_right.get_state() {
        if search(matrix.down_left_iter(new_y, new_x), needle) {
            forward_slash = true;
        } else {
            let mut bottom_left = matrix.down_left_iter(y, x);
            let _ = bottom_left.next();
            if let Some((new_y, new_x)) = bottom_left.get_state() {
                if search(matrix.up_right_iter(new_y, new_x), needle) {
                    forward_slash = true;
                }
            }
        }
    }
    forward_slash
}

/// How often the word XMAS can be read in the grid that `input` draws, one
/// line for each row, along rows, columns and diagonals, forwards and
/// backwards.
pub fn num_xmas(input: &str) -> (count: i32)
    requires
        utf8_lines(input@).len() > 0,
        rectangular(utf8_lines(input@)),
        sum_rows(
            xmas_weight(utf8_lines(input@)),
            utf8_lines(input@)[0].len() as int,
            utf8_lines(input@).len() as int,
        ) <= i32::MAX,
    ensures
        count == sum_rows(
            xmas_weight(utf8_lines(input@)),
            utf8_lines(input@)[0].len() as int,
            utf8_lines(input@).len() as int,
        ),
{
    let mut count: i32 = 0;
    let needle: Vec<u8> = vec![LETTER_X, LETTER_M, LETTER_A, LETTER_S];
    let data = byte_lines_of(input);
    let ghost m = utf8_lines(input@);
    proof {
        assert(byte_texts(data@).len() == data.len());
        assert forall|r: int| 0 <= r < m.len() implies (#[trigger] data[r])@ == m[r] by {
            assert(byte_texts(data@)[r] == data[r]@);
        }
        assert(needle@ =~= xmas());
    }
    let matrix = Matrix::new(data);
    let ghost f = xmas_weight(m);
    let ghost w = m[0].len() as int;
    let ghost h = m.len() as int;
    proof {
        assert(matrix.rows() =~= m);
        assert(matrix.wf());
    }
    let mut y: usize = 0;
    while y < matrix.y_len
        invariant
            matrix.wf(),
            matrix.rows() == m,
            needle@ == xmas(),
            f == xmas_weight(m),
            w == matrix.x_len,
            h == matrix.y_len,
            sum_rows(f, w, h) <= i32::MAX,
            y <= matrix.y_len,
            count == sum_rows(f, w, y as int),
        decreases matrix.y_len - y,
    {
        let mut x: usize = 0;
        while x < matrix.x_len
            invariant
                matrix.wf(),
                matrix.rows() == m,
                needle@ == xmas(),
                f == xmas_weight(m),
                w == matrix.x_len,
                h == matrix.y_len,
                sum_rows(f, w, h) <= i32::MAX,
                y < matrix.y_len,
                x <= matrix.x_len,
                count == sum_rows(f, w, y as int) + sum_row(f, y as int, x as int),
            decreases matrix.x_len - x,
        {
            let letter = matrix.data[y][x];
            proof {
                lemma_partial_le_total(f, w, h, y as int, x + 1);
                assert(f(y as int, x as int) == hits_at(m, xmas(), y as int, x as int));
                assert(m[y as int] == matrix.data[y as int]@);
            }
            if letter != needle[0] {
                proof {
                    let (r, c) = (y as int, x as int);
                    lemma_wrong_start(m, xmas(), r, c, 0, 1);
                    lemma_wrong_start(m, xmas(), r, c, 0, -1);
                    lemma_wrong_start(m, xmas(), r, c, -1, 0);
                    lemma_wrong_start(m, xmas(), r, c, 1, 0);
                    lemma_wrong_start(m, xmas(), r, c, -1, 1);
                    lemma_wrong_start(m, xmas(), r, c, -1, -1);
                    lemma_wrong_start(m, xmas(), r, c, 1, 1);
                    lemma_wrong_start(m, xmas(), r, c, 1, -1);
                }
            } else {
                count += count_from(&matrix, y, x, needle.as_slice());
            }
            x += 1;
        }
        y += 1;
    }
    count
}

/// How often two words MAS cross on the diagonals of one A in the grid that
/// `input` draws, each read forwards or backwards.
pub fn num_mas_cross(input: &str) -> (count: i32)
    requires
        utf8_lines(input@).len() > 0,
        rectangular(utf8_lines(input@)),
        sum_rows(
            cross_weight(utf8_lines(input@)),
            utf8_lines(input@)[0].len() as int,
            utf8_lines(input@).len() as int,
        ) <= i32::MAX,
    ensures
        count == sum_rows(
            cross_weight(utf8_lines(input@)),
            utf8_lines(input@)[0].len() as int,
            utf8_lines(input@).len() as int,
        ),
{
    let mut count: i32 = 0;
    let needle: Vec<u8> = vec![LETTER_M, LETTER_A, LETTER_S];
    let data = byte_lines_of(input);
    let ghost m = utf8_lines(input@);
    proof {
        assert(byte_texts(data@).len() == data.len());
        assert forall|r: int| 0 <= r < m.len() implies (#[trigger] data[r])@ == m[r] by {
            assert(byte_texts(data@)[r] == data[r]@);
        }
        assert(needle@ =~= mas());
    }
    let matrix = Matrix::new(data);
    let ghost f = cross_weight(m);
    let ghost w = m[0].len() as int;
    let ghost h = m.len() as int;
    proof {
        assert(matrix.rows() =~= m);
        assert(matrix.wf());
    }
    let mut y: usize = 0;
    while y < matrix.y_len
        invariant
            matrix.wf(),
            matrix.rows() == m,
            needle@ == mas(),
            f == cross_weight(m),
            w == matrix.x_len,
            h == matrix.y_len,
            sum_rows(f, w, h) <= i32::MAX,
            y <= matrix.y_len,
            count == sum_rows(f, w, y as int),
        decreases matrix.y_len - y,
    {
        let mut x: usize = 0;
        while x < matrix.x_len
            invariant
                matrix.wf(),
                matrix.rows() == m,
                needle@ == mas(),
                f == cross_weight(m),
                w == matrix.x_len,
                h == matrix.y_len,
                sum_rows(f, w, h) <= i32::MAX,
                y < matrix.y_len,
                x <= matrix.x_len,
                count == sum_rows(f, w, y as int) + sum_row(f, y as int, x as int),
            decreases matrix.x_len - x,
        {
            let letter = matrix.data[y][x];
            let ghost (r, c) = (y as int, x as int);
            proof {
                lemma_partial_le_total(f, w, h, r, c + 1);
                assert(f(r, c) == ind(cross_at(m, r, c)));
                assert(m[r] == matrix.data[r]@);
            }
            if letter == LETTER_A {
                if back_slash(&matrix, y, x, needle.as_slice()) {
                    if forward_slash(&matrix, y, x, needle.as_slice()) {
                        count += 1;
                    }
                }
            }
            x += 1;
        }
        y += 1;
    }
    count
}

} // verus!
