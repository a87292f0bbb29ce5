//! Guards that patrol a wrapping rectangle in straight lines, and the
//! safety factor of the rectangle: the product of the numbers of guards in
//! its four quadrants.

use crate::pattern::{capture_first, first_capture, group_views};
use crate::text::{chars_of, is_i32, lines, lines_of, numeral_value, read_i32, texts};
use vstd::prelude::*;

verus! {

/// A pair of coordinates, or of sizes, or of speeds.
#[derive(Debug, PartialEq, Eq)]
pub struct XY {
    pub x: i32,
    pub y: i32,
}

/// A guard: where it stands and how far it moves each second.
#[derive(Debug)]
pub struct Guard {
    pub position: XY,
    pub velocity: XY,
}

/// The four quadrants of the space: top left, top right, bottom left,
/// bottom right.
#[derive(Debug)]
pub enum Quadrant {
    TL,
    TR,
    BL,
    BR,
}

/// How many guards stand in each quadrant.
#[derive(Debug)]
pub struct QuadCount {
    pub tl: i32,
    pub tr: i32,
    pub bl: i32,
    pub br: i32,
}

impl QuadCount {
    /// No guard in any quadrant.
    pub fn new() -> (count: QuadCount)
        ensures
            count.tl == 0,
            count.tr == 0,
            count.bl == 0,
            count.br == 0,
    {
        QuadCount { tl: 0, tr: 0, bl: 0, br: 0 }
    }
}

/// Half of `n`, rounded towards 0.
pub open spec fn half(n: int) -> int {
    if n >= 0 {
        n / 2
    } else {
        -((-n) / 2)
    }
}

/// The quadrant of a space of the given size in which `position` lies. The
/// middle row and the middle column of a space of odd size belong to no
/// quadrant.
pub open spec fn quadrant_of(position: XY, size: XY) -> Option<Quadrant> {
    let half_x = half(size.x as int);
    let half_y = half(size.y as int);
    if position.x < half_x {
        if position.y < half_y {
            Some(Quadrant::TL)
        } else if position.y >= size.y - half_y {
            Some(Quadrant::BL)
        } else {
            None
        }
    } else if position.x >= size.x - half_x {
        if position.y < half_y {
            Some(Quadrant::TR)
        } else if position.y >= size.y - half_y {
            Some(Quadrant::BR)
        } else {
            None
        }
    } else {
        None
    }
}

/// The remainder of a negative number, from the remainder of its opposite.
pub proof fn lemma_wrap(a: int, b: int)
    requires
        b > 0,
        a < 0,
    ensures
        a % b == (if (-a) % b == 0 {
            0
        } else {
            b - (-a) % b
        }),
{
    let q = (-a) / b;
    let m = (-a) % b;
    vstd::arithmetic::div_mod::lemma_fundamental_div_mod(-a, b);
    if m == 0 {
        assert(a == b * (-q) + 0) by (nonlinear_arith)
            requires
                -a == b * q + m,
                m == 0,
        ;
        vstd::arithmetic::div_mod::lemma_fundamental_div_mod_converse(a, b, -q, 0);
    } else {
        assert(a == b * (-q - 1) + (b - m)) by (nonlinear_arith)
            requires
                -a == b * q + m,
        ;
        vstd::arithmetic::div_mod::lemma_fundamental_div_mod_converse(a, b, -q - 1, b - m);
    }
}

impl Guard {
    /// Moves the guard for `seconds` seconds, without regard for the edges of
    /// the space.
    pub fn patrol(&mut self, seconds: i32)
        requires
            i32::MIN <= old(self).position.x + old(self).velocity.x * seconds <= i32::MAX,
            i32::MIN <= old(self).position.y + old(self).velocity.y * seconds <= i32::MAX,
            i32::MIN <= old(self).velocity.x * seconds <= i32::MAX,
            i32::MIN <= old(self).velocity.y * seconds <= i32::MAX,
        ensures
            final(self).position.x == old(self).position.x + old(self).velocity.x * seconds,
            final(self).position.y == old(self).position.y + old(self).velocity.y * seconds,
            final(self).velocity == old(self).velocity,
    {
        self.position.x += self.velocity.x * seconds;
        self.position.y += self.velocity.y * seconds;
    }

    /// Brings a guard that has left the space back into it: the space wraps
    /// round at its edges.
    pub fn teleport(&mut self, space_size: &XY)
        requires
            space_size.x > 0,
            space_size.y > 0,
        ensures
            final(self).position.x == old(self).position.x as int % space_size.x as int,
            final(self).position.y == old(self).position.y as int % space_size.y as int,
            final(self).velocity == old(self).velocity,
    {
        proof {
            if self.position.x < 0 {
                lemma_wrap(self.position.x as int, space_size.x as int);
            }
            if self.position.y < 0 {
                lemma_wrap(self.position.y as int, space_size.y as int);
            }
        }
        let mut new_x = self.position.x % space_size.x;
        let mut new_y = self.position.y % space_size.y;
        if new_x < 0 {
            new_x += space_size.x;
        }
        if new_y < 0 {
            new_y += space_size.y;
        }
        self.position.x = new_x;
        self.position.y = new_y;
    }

    /// The quadrant in which the guard stands, if it stands in one.
    pub fn quad(&self, space_size: &XY) -> (quadrant: Option<Quadrant>)
        ensures
            quadrant == quadrant_of(self.position, *space_size),
    {
        let half_x = space_size.x / 2;
        let half_y = space_size.y / 2;
        if self.position.x < half_x {
            if self.position.y < half_y {
                Some(Quadrant::TL)
            } else if self.position.y >= space_size.y - half_y {
                Some(Quadrant::BL)
            } else {
                //middle
                None
            }
        } else if self.position.x >= space_size.x - half_x {
            if self.position.y < half_y {
                Some(Quadrant::TR)
            } else if self.position.y >= space_size.y - half_y {
                Some(Quadrant::BR)
            } else {
                //middle
                None
            }
        } else {
            //middle
            None
        }
    }

    /// The guard that `s` describes; see `read_guard`.
    pub fn try_from(s: &str) -> (guard: Result<Guard, ParseGuardError>)
        ensures
            guard == read_guard(first_capture(guard_pattern(), s@)),
    {
        Guard::from_chars(&chars_of(s))
    }

    /// The guard that the characters `s` describe; see `read_guard`.
    pub fn from_chars(s: &Vec<char>) -> (guard: Result<Guard, ParseGuardError>)
        ensures
            guard == read_guard(first_capture(guard_pattern(), s@)),
    {
        guard_from(capture_first("p=(\\d+),(\\d+) v=(-?\\d+),(-?\\d+)", s))
    }

    /// Where the guard stands after `seconds` seconds in a space of the given
    /// size that wraps round at its edges.
    pub open spec fn place_after(self, size: XY, seconds: int) -> XY {
        XY {
            x: ((self.position.x + self.velocity.x * seconds) % (size.x as int)) as i32,
            y: ((self.position.y + self.velocity.y * seconds) % (size.y as int)) as i32,
        }
    }

    /// The guard can walk for `seconds` seconds without leaving the range of
    /// its coordinates.
    pub open spec fn can_patrol(self, seconds: int) -> bool {
        &&& i32::MIN <= self.velocity.x * seconds <= i32::MAX
        &&& i32::MIN <= self.velocity.y * seconds <= i32::MAX
        &&& i32::MIN <= self.position.x + self.velocity.x * seconds <= i32::MAX
        &&& i32::MIN <= self.position.y + self.velocity.y * seconds <= i32::MAX
    }

    /// Whether the guard can walk for `seconds` seconds without leaving the
    /// range of its coordinates.
    pub fn fits_patrol(&self, seconds: i32) -> (b: bool)
        ensures
            b == self.can_patrol(seconds as int),
    {
        let low: i64 = -0x8000_0000;
        let high: i64 = 0x7fff_ffff;
        assert(-0x8000_0000 * 0x8000_0000 <= self.velocity.x * seconds <= 0x8000_0000 * 0x8000_0000)
            by (nonlinear_arith)
            requires
                -0x8000_0000 <= self.velocity.x <= 0x7fff_ffff,
                -0x8000_0000 <= seconds <= 0x7fff_ffff,
        ;
        assert(-0x8000_0000 * 0x8000_0000 <= self.velocity.y * seconds <= 0x8000_0000 * 0x8000_0000)
            by (nonlinear_arith)
            requires
                -0x8000_0000 <= self.velocity.y <= 0x7fff_ffff,
                -0x8000_0000 <= seconds <= 0x7fff_ffff,
        ;
        let dx: i64 = self.velocity.x as i64 * seconds as i64;
        let dy: i64 = self.velocity.y as i64 * seconds as i64;
        let x: i64 = self.position.x as i64 + dx;
        let y: i64 = self.position.y as i64 + dy;
        low <= dx && dx <= high && low <= dy && dy <= high && low <= x && x <= high && low <= y
            && y <= high
    }
}

/// Why a text describes no guard.
#[derive(Debug)]
pub enum ParseGuardError {
    /// The text holds no position and velocity in the form "p=1,2 v=3,-4".
    Unmatched,
    /// One of the four numbers does not fit in 32 bits.
    Number,
}

/// The form of a guard's description: "p=", two numbers with a comma between
/// them, " v=", and two numbers, each with a minus sign or without, again with
/// a comma between them.
pub open spec fn guard_pattern() -> Seq<char> {
    "p=(\\d+),(\\d+) v=(-?\\d+),(-?\\d+)"@
}

/// The guard that a search for `guard_pattern` has found: its groups 1 to 4
/// are the guard's position and velocity.
pub open spec fn read_guard(found: Option<Seq<Option<Seq<char>>>>) -> Result<Guard, ParseGuardError> {
    match found {
        None => Err(ParseGuardError::Unmatched),
        Some(groups) => if groups.len() != 5 || groups[1] is None || groups[2] is None
            || groups[3] is None || groups[4] is None {
            Err(ParseGuardError::Unmatched)
        } else if is_i32(groups[1]->0) && is_i32(groups[2]->0) && is_i32(groups[3]->0) && is_i32(
            groups[4]->0,
        ) {
            Ok(
                Guard {
                    position: XY {
                        x: numeral_value(groups[1]->0) as i32,
                        y: numeral_value(groups[2]->0) as i32,
                    },
                    velocity: XY {
                        x: numeral_value(groups[3]->0) as i32,
                        y: numeral_value(groups[4]->0) as i32,
                    },
                },
            )
        } else {
            Err(ParseGuardError::Number)
        },
    }
}

/// The guard that a search for `guard_pattern` has found.
pub fn guard_from(found: Option<Vec<Option<Vec<char>>>>) -> (guard: Result<Guard, ParseGuardError>)
    ensures
        guard == read_guard(
            match found {
                Some(groups) => Some(group_views(groups@)),
                None => None,
            },
        ),
{
    match found {
        None => Err(ParseGuardError::Unmatched),
        Some(groups) => {
            if groups.len() != 5 {
                return Err(ParseGuardError::Unmatched);
            }
            match (&groups[1], &groups[2], &groups[3], &groups[4]) {
                (Some(p_x), Some(p_y), Some(v_x), Some(v_y)) => {
                    match (read_i32(p_x), read_i32(p_y), read_i32(v_x), read_i32(v_y)) {
                        (Some(px), Some(py), Some(vx), Some(vy)) => Ok(
                            Guard { position: XY { x: px, y: py }, velocity: XY { x: vx, y: vy } },
                        ),
                        _ => Err(ParseGuardError::Number),
                    }
                },
                _ => Err(ParseGuardError::Unmatched),
            }
        },
    }
}

/// How many of `quads` are `q`.
pub open spec fn count_quadrant(quads: Seq<Quadrant>, q: Quadrant) -> nat
    decreases quads.len(),
{
    if quads.len() == 0 {
        0
    } else {
        count_quadrant(quads.drop_last(), q) + (if quads.last() == q {
            1nat
        } else {
            0nat
        })
    }
}

/// The product of the four counts is within reach of 32-bit arithmetic, and
/// so is each product on the way to it.
pub open spec fn score_fits(tl: int, tr: int, bl: int, br: int) -> bool {
    tl * tr <= i32::MAX && tl * tr * bl <= i32::MAX && tl * tr * bl * br <= i32::MAX
}

/// How many of `guards` stand in each quadrant.
pub fn tally_quadrants(guards: &Vec<Quadrant>) -> (count: QuadCount)
    requires
        guards.len() <= i32::MAX,
    ensures
        count.tl == count_quadrant(guards@, Quadrant::TL),
        count.tr == count_quadrant(guards@, Quadrant::TR),
        count.bl == count_quadrant(guards@, Quadrant::BL),
        count.br == count_quadrant(guards@, Quadrant::BR),
{
    let mut count = QuadCount::new();
    let mut i: usize = 0;
    assert(guards@.take(0) =~= Seq::<Quadrant>::empty());
    while i < guards.len()
        invariant
            guards.len() <= i32::MAX,
            i <= guards.len(),
            0 <= count.tl <= i,
            0 <= count.tr <= i,
            0 <= count.bl <= i,
            0 <= count.br <= i,
            count.tl == count_quadrant(guards@.take(i as int), Quadrant::TL),
            count.tr == count_quadrant(guards@.take(i as int), Quadrant::TR),
            count.bl == count_quadrant(guards@.take(i as int), Quadrant::BL),
            count.br == count_quadrant(guards@.take(i as int), Quadrant::BR),
        decreases guards.len() - i,
    {
        proof {
            assert(guards@.take(i + 1).drop_last() =~= guards@.take(i as int));
        }
        match guards[i] {
            Quadrant::TL => count.tl += 1,
            Quadrant::TR => count.tr += 1,
            Quadrant::BL => count.bl += 1,
            Quadrant::BR => count.br += 1,
        };
        i += 1;
    }
    assert(guards@.take(i as int) =~= guards@);
    count
}

/// The safety factor: the product of the numbers of guards in the four
/// quadrants.
pub fn quad_score(guards: Vec<Quadrant>) -> (score: i32)
    requires
        guards.len() <= i32::MAX,
        score_fits(
            count_quadrant(guards@, Quadrant::TL) as int,
            count_quadrant(guards@, Quadrant::TR) as int,
            count_quadrant(guards@, Quadrant::BL) as int,
            count_quadrant(guards@, Quadrant::BR) as int,
        ),
    ensures
        score == count_quadrant(guards@, Quadrant::TL) * count_quadrant(guards@, Quadrant::TR)
            * count_quadrant(guards@, Quadrant::BL) * count_quadrant(guards@, Quadrant::BR),
{
    let quad_count = tally_quadrants(&guards);
    assert(0 <= quad_count.tl * quad_count.tr) by (nonlinear_arith)
        requires
            0 <= quad_count.tl,
            0 <= quad_count.tr,
    ;
    assert(0 <= quad_count.tl * quad_count.tr * quad_count.bl) by (nonlinear_arith)
        requires
            0 <= quad_count.tl * quad_count.tr,
            0 <= quad_count.bl,
    ;
    assert(0 <= quad_count.tl * quad_count.tr * quad_count.bl * quad_count.br) by (nonlinear_arith)
        requires
            0 <= quad_count.tl * quad_count.tr * quad_count.bl,
            0 <= quad_count.br,
    ;
    quad_count.tl * quad_count.tr * quad_count.bl * quad_count.br
}

/// Whether the four counts can be multiplied in 32-bit arithmetic.
pub fn counts_fit(count: &QuadCount) -> (b: bool)
    requires
        0 <= count.tl,
        0 <= count.tr,
        0 <= count.bl,
        0 <= count.br,
    ensures
        b == score_fits(count.tl as int, count.tr as int, count.bl as int, count.br as int),
{
    let high: i128 = 0x7fff_ffff;
    assert(0 <= count.tl * count.tr <= 0x8000_0000 * 0x8000_0000) by (nonlinear_arith)
        requires
            0 <= count.tl <= 0x7fff_ffff,
            0 <= count.tr <= 0x7fff_ffff,
    ;
    let first: i128 = count.tl as i128 * count.tr as i128;
    if first > high {
        return false;
    }
    assert(0 <= first * count.bl <= 0x8000_0000 * 0x8000_0000) by (nonlinear_arith)
        requires
            0 <= first <= 0x7fff_ffff,
            0 <= count.bl <= 0x7fff_ffff,
    ;
    let second: i128 = first * count.bl as i128;
    if second > high {
        return false;
    }
    assert(0 <= second * count.br <= 0x8000_0000 * 0x8000_0000) by (nonlinear_arith)
        requires
            0 <= second <= 0x7fff_ffff,
            0 <= count.br <= 0x7fff_ffff,
    ;
    let third: i128 = second * count.br as i128;
    third <= high
}

/// The quadrants in which `guards` stand after `seconds` seconds, one for
/// each guard that stands in a quadrant then, in the order of the guards.
pub open spec fn quadrants_after(guards: Seq<Guard>, size: XY, seconds: int) -> Seq<Quadrant>
    decreases guards.len(),
{
    if guards.len() == 0 {
        Seq::empty()
    } else {
        let before = quadrants_after(guards.drop_last(), size, seconds);
        match quadrant_of(guards.last().place_after(size, seconds), size) {
            Some(q) => before.push(q),
            None => before,
        }
    }
}

/// The guards can all walk for `seconds` seconds, the space has a size, and
/// the safety factor is within reach of 32-bit arithmetic.
pub open spec fn can_score(guards: Seq<Guard>, size: XY, seconds: int) -> bool {
    let quads = quadrants_after(guards, size, seconds);
    &&& size.x > 0
    &&& size.y > 0
    &&& guards.len() <= i32::MAX
    &&& forall|i: int| 0 <= i < guards.len() ==> (#[trigger] guards[i]).can_patrol(seconds)
    &&& score_fits(
        count_quadrant(quads, Quadrant::TL) as int,
        count_quadrant(quads, Quadrant::TR) as int,
        count_quadrant(quads, Quadrant::BL) as int,
        count_quadrant(quads, Quadrant::BR) as int,
    )
}

/// The safety factor of `guards` after `seconds` seconds in a space of the
/// given size.
pub open spec fn score_after(guards: Seq<Guard>, size: XY, seconds: int) -> nat {
    let quads = quadrants_after(guards, size, seconds);
    count_quadrant(quads, Quadrant::TL) * count_quadrant(quads, Quadrant::TR) * count_quadrant(
        quads,
        Quadrant::BL,
    ) * count_quadrant(quads, Quadrant::BR)
}

/// There are no more quadrants than guards.
pub proof fn lemma_quadrants_len(guards: Seq<Guard>, size: XY, seconds: int)
    ensures
        quadrants_after(guards, size, seconds).len() <= guards.len(),
    decreases guards.len(),
{
    if guards.len() > 0 {
        lemma_quadrants_len(guards.drop_last(), size, seconds);
    }
}

/// Lets every guard walk for `seconds` seconds in a space of the given size
/// and gives the quadrants in which they then stand.
pub fn walk_all(guards: Vec<Guard>, space_size: &XY, seconds: i32) -> (quads: Vec<Quadrant>)
    requires
        space_size.x > 0,
        space_size.y > 0,
        forall|i: int| 0 <= i < guards.len() ==> (#[trigger] guards[i]).can_patrol(seconds as int),
    ensures
        quads@ == quadrants_after(guards@, *space_size, seconds as int),
{
    let mut guards = guards;
    let ghost start = guards@;
    let mut quads: Vec<Quadrant> = Vec::new();
    let mut i: usize = 0;
    assert(start.take(0) =~= Seq::<Guard>::empty());
    while i < guards.len()
        invariant
            space_size.x > 0,
            space_size.y > 0,
            guards.len() == start.len(),
            i <= guards.len(),
            forall|k: int| i <= k < guards.len() ==> #[trigger] guards[k] == start[k],
            forall|k: int| 0 <= k < start.len() ==> (#[trigger] start[k]).can_patrol(seconds as int),
            quads@ == quadrants_after(start.take(i as int), *space_size, seconds as int),
        decreases guards.len() - i,
    {
        proof {
            assert(start.take(i + 1).drop_last() =~= start.take(i as int));
            assert(start.take(i + 1).last() == start[i as int]);
            assert(start[i as int].can_patrol(seconds as int));
        }
        guards[i].patrol(seconds);
        guards[i].teleport(space_size);
        if let Some(quadrant) = guards[i].quad(space_size) {
            quads.push(quadrant);
        }
        i += 1;
    }
    assert(start.take(i as int) =~= start);
    quads
}

/// The safety factor of `guards` after `seconds` seconds in a space of the
/// given size.
pub fn safety_factor(guards: Vec<Guard>, space_size: &XY, seconds: i32) -> (score: i32)
    requires
        can_score(guards@, *space_size, seconds as int),
    ensures
        score == score_after(guards@, *space_size, seconds as int),
{
    proof {
        lemma_quadrants_len(guards@, *space_size, seconds as int);
    }
    let quads = walk_all(guards, space_size, seconds);
    quad_score(quads)
}

/// The safety factor of `guards` after `seconds` seconds in a space of the
/// given size, if 32-bit arithmetic can compute it.
pub fn safety_checked(guards: Vec<Guard>, space_size: &XY, seconds: i32) -> (score: Option<i32>)
    ensures
        score is Some <==> can_score(guards@, *space_size, seconds as int),
        score is Some ==> score->0 == score_after(guards@, *space_size, seconds as int),
{
    if space_size.x <= 0 || space_size.y <= 0 || guards.len() > 0x7fff_ffff {
        return None;
    }
    let mut i: usize = 0;
    while i < guards.len()
        invariant
            i <= guards.len(),
            forall|k: int| 0 <= k < i ==> (#[trigger] guards[k]).can_patrol(seconds as int),
        decreases guards.len() - i,
    {
        if !guards[i].fits_patrol(seconds) {
            return None;
        }
        i += 1;
    }
    proof {
        lemma_quadrants_len(guards@, *space_size, seconds as int);
    }
    let quads = walk_all(guards, space_size, seconds);
    let count = tally_quadrants(&quads);
    if counts_fit(&count) {
        Some(quad_score(quads))
    } else {
        None
    }
}

/// What the lines `ls` describe, each a guard or the reason why not.
pub open spec fn guards_in(ls: Seq<Seq<char>>) -> Seq<Result<Guard, ParseGuardError>> {
    Seq::new(ls.len(), |i: int| read_guard(first_capture(guard_pattern(), ls[i])))
}

/// The guards that the lines `ls` describe, where each describes one.
pub open spec fn guards_of(ls: Seq<Seq<char>>) -> Seq<Guard> {
    Seq::new(ls.len(), |i: int| guards_in(ls)[i]->Ok_0)
}

/// Every line of `ls` describes a guard.
pub open spec fn all_guards(ls: Seq<Seq<char>>) -> bool {
    forall|i: int| 0 <= i < ls.len() ==> #[trigger] guards_in(ls)[i] is Ok
}

/// The guards that the lines of `input` describe, if each describes one.
pub fn parse_guards(input: &str) -> (guards: Option<Vec<Guard>>)
    ensures
        guards is Some <==> all_guards(lines(input@)),
        guards is Some ==> guards->0@ == guards_of(lines(input@)),
{
    let rows = lines_of(input);
    let ghost ls = lines(input@);
    let mut guards: Vec<Guard> = Vec::new();
    let mut i: usize = 0;
    assert(texts(rows@).len() == rows.len());
    while i < rows.len()
        invariant
            ls == lines(input@),
            texts(rows@) == ls,
            i <= rows.len(),
            guards.len() == i,
            forall|k: int| 0 <= k < i ==> #[trigger] guards_in(ls)[k] == Ok::<Guard, ParseGuardError>(guards[k]),
        decreases rows.len() - i,
    {
        assert(texts(rows@).len() == rows.len());
        assert(texts(rows@)[i as int] == rows[i as int]@);
        match Guard::from_chars(&rows[i]) {
            Ok(guard) => guards.push(guard),
            Err(_) => {
                assert(!(guards_in(ls)[i as int] is Ok));
                return None;
            },
        }
        i += 1;
    }
    proof {
        assert(texts(rows@).len() == rows.len());
        assert(guards@ =~= guards_of(ls));
    }
    Some(guards)
}

/// The safety factor, after `seconds` seconds, of the guards that the lines
/// of `input` describe in a space `x_size` wide and `y_size` high.
pub fn part1(input: &str, x_size: i32, y_size: i32, seconds: i32) -> (score: i32)
    requires
        all_guards(lines(input@)),
        can_score(guards_of(lines(input@)), XY { x: x_size, y: y_size }, seconds as int),
    ensures
        score == score_after(guards_of(lines(input@)), XY { x: x_size, y: y_size }, seconds as int),
{
    let guards = parse_guards(input).unwrap();
    let space_size = XY { x: x_size, y: y_size };
    safety_factor(guards, &space_size, seconds)
}

/// As `part1`, for any input: `None` where a line describes no guard or
/// 32-bit arithmetic cannot compute the safety factor.
pub fn try_part1(input: &str, x_size: i32, y_size: i32, seconds: i32) -> (score: Option<i32>)
    ensures
        score is Some <==> all_guards(lines(input@)) && can_score(
            guards_of(lines(input@)),
            XY { x: x_size, y: y_size },
            seconds as int,
        ),
        score is Some ==> score->0 == score_after(
            guards_of(lines(input@)),
            XY { x: x_size, y: y_size },
            seconds as int,
        ),
{
    let space_size = XY { x: x_size, y: y_size };
    match parse_guards(input) {
        None => None,
        Some(guards) => match safety_checked(guards, &space_size, seconds) {
            None => None,
            Some(_) => Some(part1(input, x_size, y_size, seconds)),
        },
    }
}

/// Lets every guard walk for one second and brings those that have left
/// the space back into it.
pub fn tick(guards: &mut Vec<Guard>, space_size: &XY)
    requires
        space_size.x > 0,
        space_size.y > 0,
        forall|i: int| 0 <= i < old(guards).len() ==> (#[trigger] old(guards)[i]).can_patrol(1),
    ensures
        final(guards).len() == old(guards).len(),
        forall|i: int|
            0 <= i < old(guards).len() ==> (#[trigger] final(guards)[i]).position == old(guards)[i].place_after(*space_size, 1) && final(guards)[i].velocity == old(guards)[i].velocity,
{
    let ghost start = guards@;
    let mut i: usize = 0;
    while i < guards.len()
        invariant
            space_size.x > 0,
            space_size.y > 0,
            guards.len() == start.len(),
            i <= guards.len(),
            forall|k: int| i <= k < guards.len() ==> #[trigger] guards[k] == start[k],
            forall|k: int| 0 <= k < start.len() ==> (#[trigger] start[k]).can_patrol(1),
            forall|k: int|
                0 <= k < i ==> (#[trigger] guards[k]).position == start[k].place_after(
                    *space_size,
                    1,
                ) && guards[k].velocity == start[k].velocity,
        decreases guards.len() - i,
    {
        proof {
            assert(start[i as int].can_patrol(1));
        }
        guards[i].patrol(1);
        guards[i].teleport(space_size);
        i += 1;
    }
}

/// The quadrants in which `guards` stand, one for each guard that stands
/// in a quadrant, in the order of the guards.
pub open spec fn quadrants_of(guards: Seq<Guard>, size: XY) -> Seq<Quadrant>
    decreases guards.len(),
{
    if guards.len() == 0 {
        Seq::empty()
    } else {
        let before = quadrants_of(guards.drop_last(), size);
        match quadrant_of(guards.last().position, size) {
            Some(q) => before.push(q),
            None => before,
        }
    }
}

/// The quadrants in which `guards` stand.
pub fn quadrants(guards: &Vec<Guard>, space_size: &XY) -> (quads: Vec<Quadrant>)
    ensures
        quads@ == quadrants_of(guards@, *space_size),
        quads.len() <= guards.len(),
{
    let mut quads: Vec<Quadrant> = Vec::new();
    let mut i: usize = 0;
    assert(guards@.take(0) =~= Seq::<Guard>::empty());
    while i < guards.len()
        invariant
            i <= guards.len(),
            quads@ == quadrants_of(guards@.take(i as int), *space_size),
            quads.len() <= i,
        decreases guards.len() - i,
    {
        proof {
            assert(guards@.take(i + 1).drop_last() =~= guards@.take(i as int));
            assert(guards@.take(i + 1).last() == guards[i as int]);
        }
        if let Some(quadrant) = guards[i].quad(space_size) {
            quads.push(quadrant);
        }
        i += 1;
    }
    assert(guards@.take(i as int) =~= guards@);
    quads
}

/// How many of `guards` stand on column `x` of row `y`.
pub open spec fn standing_at(guards: Seq<Guard>, x: int, y: int) -> nat
    decreases guards.len(),
{
    if guards.len() == 0 {
        0
    } else {
        standing_at(guards.drop_last(), x, y) + (if guards.last().position.x == x
            && guards.last().position.y == y {
            1nat
        } else {
            0nat
        })
    }
}

/// There are no more guards on a place than guards.
pub proof fn lemma_standing_at(guards: Seq<Guard>, x: int, y: int)
    ensures
        standing_at(guards, x, y) <= guards.len(),
    decreases guards.len(),
{
    if guards.len() > 0 {
        lemma_standing_at(guards.drop_last(), x, y);
    }
}

/// Every guard stands inside the space.
pub open spec fn all_inside(guards: Seq<Guard>, size: XY) -> bool {
    forall|i: int|
        0 <= i < guards.len() ==> 0 <= (#[trigger] guards[i]).position.x < size.x && 0
            <= guards[i].position.y < size.y
}

/// For each place of the space, row by row, how many guards stand on it.
pub fn census(guards: &Vec<Guard>, space_size: &XY) -> (grid: Vec<Vec<i32>>)
    requires
        space_size.x >= 0,
        space_size.y >= 0,
        guards.len() <= i32::MAX,
        all_inside(guards@, *space_size),
    ensures
        grid.len() == space_size.y,
        forall|y: int| 0 <= y < space_size.y ==> (#[trigger] grid[y]).len() == space_size.x,
        forall|y: int, x: int|
            0 <= y < space_size.y && 0 <= x < space_size.x ==> (#[trigger] grid[y][x])
                == standing_at(guards@, x, y),
{
    let mut grid: Vec<Vec<i32>> = Vec::new();
    let mut y: i32 = 0;
    while y < space_size.y
        invariant
            0 <= y <= space_size.y,
            space_size.x >= 0,
            grid.len() == y,
            forall|r: int| 0 <= r < y ==> (#[trigger] grid[r]).len() == space_size.x,
            forall|r: int, c: int| 0 <= r < y && 0 <= c < space_size.x ==> (#[trigger] grid[r][c]) == 0,
        decreases space_size.y - y,
    {
        let mut row: Vec<i32> = Vec::new();
        let mut x: i32 = 0;
        while x < space_size.x
            invariant
                0 <= x <= space_size.x,
                row.len() == x,
                forall|c: int| 0 <= c < x ==> #[trigger] row[c] == 0,
            decreases space_size.x - x,
        {
            row.push(0);
            x += 1;
        }
        grid.push(row);
        y += 1;
    }
    let mut i: usize = 0;
    assert(guards@.take(0) =~= Seq::<Guard>::empty());
    while i < guards.len()
        invariant
            space_size.x >= 0,
            space_size.y >= 0,
            guards.len() <= i32::MAX,
            all_inside(guards@, *space_size),
            i <= guards.len(),
            grid.len() == space_size.y,
            forall|r: int| 0 <= r < space_size.y ==> (#[trigger] grid[r]).len() == space_size.x,
            forall|r: int, c: int|
                0 <= r < space_size.y && 0 <= c < space_size.x ==> (#[trigger] grid[r][c])
                    == standing_at(guards@.take(i as int), c, r),
        decreases guards.len() - i,
    {
        let guard = &guards[i];
        proof {
            assert(guards@.take(i + 1).drop_last() =~= guards@.take(i as int));
            assert(guards@.take(i + 1).last() == guards[i as int]);
            lemma_standing_at(guards@.take(i as int), guard.position.x as int, guard.position.y as int);
        }
        let row = guard.position.y as usize;
        let column = guard.position.x as usize;
        let count = grid[row][column];
        grid[row][column] = count + 1;
        i += 1;
    }
    assert(guards@.take(i as int) =~= guards@);
    grid
}

} // verus!
