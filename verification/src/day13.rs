//! Claw machines: reading what two buttons do and where the prize lies,
//! and adding up the tokens that the winnable prizes cost.

use crate::pattern::{capture_first, first_capture, group_views};
use crate::text::{is_usize, lines, lines_of, numeral_value, read_usize, texts};
use vstd::prelude::*;

verus! {

/// A claw machine: how far button A and button B move the claw, and where
/// the prize lies, each as (x, y).
#[derive(Clone, Copy, Debug, PartialEq, Eq)]
pub struct Game {
    pub a: (usize, usize),
    pub b: (usize, usize),
    pub prize: (usize, usize),
}

/// The form of each line of a machine: ": X", a sign, a number, ", Y", a
/// sign, and a number.
pub open spec fn pair_pattern() -> Seq<char> {
    ": X\\D(\\d+), Y\\D(\\d+)"@
}

/// The two numbers that a search for `pair_pattern` has found, if it has
/// found two that fit in machine words.
pub open spec fn read_pair(found: Option<Seq<Option<Seq<char>>>>) -> Option<(usize, usize)> {
    match found {
        None => None,
        Some(groups) => if groups.len() == 3 && groups[1] is Some && groups[2] is Some && is_usize(
            groups[1]->0,
        ) && is_usize(groups[2]->0) {
            Some((numeral_value(groups[1]->0) as usize, numeral_value(groups[2]->0) as usize))
        } else {
            None
        },
    }
}

/// The two numbers of the line `line`.
pub open spec fn pair_in(line: Seq<char>) -> Option<(usize, usize)> {
    read_pair(first_capture(pair_pattern(), line))
}

/// The two numbers that a search for `pair_pattern` has found.
pub fn pair_from(found: Option<Vec<Option<Vec<char>>>>) -> (pair: Option<(usize, usize)>)
    ensures
        pair == read_pair(
            match found {
                Some(groups) => Some(group_views(groups@)),
                None => None,
            },
        ),
{
    match found {
        None => None,
        Some(groups) => {
            if groups.len() != 3 {
                return None;
            }
            match (&groups[1], &groups[2]) {
                (Some(x), Some(y)) => match (read_usize(x), read_usize(y)) {
                    (Some(x), Some(y)) => Some((x, y)),
                    _ => None,
                },
                _ => None,
            }
        },
    }
}

/// The two numbers of the line `line`.
pub fn parse_pair(line: &Vec<char>) -> (pair: Option<(usize, usize)>)
    ensures
        pair == pair_in(line@),
{
    pair_from(capture_first(": X\\D(\\d+), Y\\D(\\d+)", line))
}

/// The machine that three lines describe: button A, button B, prize.
pub open spec fn game_in(a: Seq<char>, b: Seq<char>, prize: Seq<char>) -> Option<Game> {
    if pair_in(a) is Some && pair_in(b) is Some && pair_in(prize) is Some {
        Some(Game { a: pair_in(a)->0, b: pair_in(b)->0, prize: pair_in(prize)->0 })
    } else {
        None
    }
}

/// The machines that the lines from `from` on describe, if they describe
/// machines: each machine on three lines, any further lines up to the next
/// empty line being left unread, and an empty line between each two
/// machines.
pub open spec fn games_from(ls: Seq<Seq<char>>, from: int) -> Option<Seq<Game>>
    decreases ls.len() - from,
{
    if from < 0 || from + 3 > ls.len() {
        None
    } else {
        match game_in(ls[from], ls[from + 1], ls[from + 2]) {
            None => None,
            Some(game) => {
                let next = block_end(ls, from + 3);
                proof {
                    lemma_block_end(ls, from + 3);
                }
                if next >= ls.len() {
                    Some(seq![game])
                } else {
                    match games_from(ls, next + 1) {
                        None => None,
                        Some(rest) => Some(seq![game] + rest),
                    }
                }
            },
        }
    }
}

/// The place of the first empty line from `from` on, or the number of
/// lines if none is empty.
pub open spec fn block_end(ls: Seq<Seq<char>>, from: int) -> int
    decreases ls.len() - from,
{
    if from < 0 || from >= ls.len() {
        ls.len() as int
    } else if ls[from].len() == 0 {
        from
    } else {
        block_end(ls, from + 1)
    }
}

/// `block_end` lies at or after `from`.
pub proof fn lemma_block_end(ls: Seq<Seq<char>>, from: int)
    requires
        0 <= from <= ls.len(),
    ensures
        from <= block_end(ls, from) <= ls.len(),
    decreases ls.len() - from,
{
    if from < ls.len() && ls[from].len() != 0 {
        lemma_block_end(ls, from + 1);
    }
}

/// The machines that `input` describes, if it describes machines.
pub fn parse_games(input: &str) -> (games: Option<Vec<Game>>)
    ensures
        match games {
            Some(games) => games_from(lines(input@), 0) == Some(games@),
            None => games_from(lines(input@), 0) is None,
        },
{
    let rows = lines_of(input);
    let ghost ls = lines(input@);
    proof {
        assert(texts(rows@).len() == rows.len());
        assert forall|r: int| 0 <= r < ls.len() implies (#[trigger] rows[r])@ == ls[r] by {
            assert(texts(rows@)[r] == rows[r]@);
        }
    }
    let mut games: Vec<Game> = Vec::new();
    let mut at: usize = 0;
    loop
        invariant
            ls == lines(input@),
            rows.len() == ls.len(),
            forall|r: int| 0 <= r < ls.len() ==> (#[trigger] rows[r])@ == ls[r],
            at <= rows.len(),
            match games_from(ls, at as int) {
                Some(rest) => games_from(ls, 0) == Some(games@ + rest),
                None => games_from(ls, 0) is None,
            },
        decreases rows.len() - at,
    {
        if rows.len() - at < 3 {
            return None;
        }
        let game = match (parse_pair(&rows[at]), parse_pair(&rows[at + 1]), parse_pair(&rows[at + 2])) {
            (Some(a), Some(b), Some(prize)) => Game { a, b, prize },
            _ => {
                return None;
            },
        };
        let mut next = at + 3;
        while next < rows.len() && rows[next].len() > 0
            invariant
                rows.len() == ls.len(),
                forall|r: int| 0 <= r < ls.len() ==> (#[trigger] rows[r])@ == ls[r],
                at + 3 <= next <= rows.len(),
                block_end(ls, at + 3) == block_end(ls, next as int),
            decreases rows.len() - next,
        {
            next += 1;
        }
        let ghost before = games@;
        games.push(game);
        if next >= rows.len() {
            proof {
                assert(before + seq![game] =~= games@);
            }
            return Some(games);
        }
        proof {
            match games_from(ls, next + 1) {
                Some(rest) => {
                    assert(before + (seq![game] + rest) =~= games@ + rest);
                },
                None => {},
            }
        }
        at = next + 1;
    }
}

impl Game {
    /// The machine with its prize further out by `offset` in both
    /// directions.
    pub fn far(self, offset: usize) -> (game: Game)
        requires
            self.prize.0 + offset <= usize::MAX,
            self.prize.1 + offset <= usize::MAX,
        ensures
            game.a == self.a,
            game.b == self.b,
            game.prize.0 == self.prize.0 + offset,
            game.prize.1 == self.prize.1 + offset,
    {
        let mut g = self;
        g.prize.0 += offset;
        g.prize.1 += offset;
        g
    }
}

/// The costs of the prizes that can be won, added up.
pub open spec fn cost_of(results: Seq<Option<usize>>) -> nat
    decreases results.len(),
{
    if results.len() == 0 {
        0
    } else {
        cost_of(results.drop_last()) + match results.last() {
            Some(tokens) => tokens as nat,
            None => 0,
        }
    }
}

/// The cost of a part of the machines is no more than that of all.
proof fn lemma_cost_prefix(results: Seq<Option<usize>>, n: int)
    requires
        0 <= n <= results.len(),
    ensures
        cost_of(results.take(n)) <= cost_of(results),
    decreases results.len() - n,
{
    if n < results.len() {
        lemma_cost_prefix(results, n + 1);
        assert(results.take(n + 1).drop_last() =~= results.take(n));
    } else {
        assert(results.take(n) =~= results);
    }
}

/// The tokens that the prizes cost, added up over the machines whose
/// prize can be won; `results` holds for each machine what its prize costs,
/// if it can be won.
pub fn sum_tokens(results: &Vec<Option<usize>>) -> (total: usize)
    requires
        cost_of(results@) <= usize::MAX,
    ensures
        total == cost_of(results@),
{
    let mut total: usize = 0;
    let mut i: usize = 0;
    assert(results@.take(0) =~= Seq::<Option<usize>>::empty());
    while i < results.len()
        invariant
            cost_of(results@) <= usize::MAX,
            i <= results.len(),
            total == cost_of(results@.take(i as int)),
        decreases results.len() - i,
    {
        proof {
            lemma_cost_prefix(results@, i + 1);
            assert(results@.take(i + 1).drop_last() =~= results@.take(i as int));
        }
        if let Some(tokens) = results[i] {
            total += tokens;
        }
        i += 1;
    }
    assert(results@.take(i as int) =~= results@);
    total
}

} // verus!
